use base64::Engine;
use sendmail_sec::config::{InboundAuthConfig, ListenConfig};
use sendmail_sec::listener::{
    decode_auth_plain, multiline_reply, open_connection, parse_path_argument,
    reply, split_command, strip_prefix_ignore_ascii_case, trim_crlf, trim_crlf_bytes, AuthPlainError,
    ConnectionStart, DeliveryOutcome, PathError, Phase, SessionAction, SessionError, SmtpSession,
};
use sendmail_sec::net::{default_allowed_networks, IpAddress, SocketAddress};

fn listen_config(limit: usize) -> ListenConfig {
    ListenConfig {
        bind: SocketAddress { ip: IpAddress::V4(0), port: 2525 },
        banner: "mx.test".to_string(),
        auth: InboundAuthConfig { username: "relay".to_string(), password: "secret".to_string() },
        allowed_networks: default_allowed_networks(),
        message_size_limit_bytes: limit,
    }
}

fn plain(user: &str, pass: &str) -> String {
    let mut data = vec![0u8];
    data.extend_from_slice(user.as_bytes());
    data.push(0);
    data.extend_from_slice(pass.as_bytes());
    base64::engine::general_purpose::STANDARD.encode(data)
}

fn reply_of(action: SessionAction) -> Vec<u8> {
    match action {
        SessionAction::Reply(b) => b,
        other => panic!("expected a reply, got {:?}", other),
    }
}

fn line(session: &mut SmtpSession, text: &str) -> Vec<u8> {
    reply_of(session.on_line(format!("{text}\r\n").as_bytes()))
}

fn authenticated_session() -> SmtpSession {
    let mut s = SmtpSession::new(&listen_config(1000));
    line(&mut s, "EHLO client");
    let r = line(&mut s, &format!("AUTH PLAIN {}", plain("relay", "secret")));
    assert_eq!(r, b"235 authentication successful\r\n");
    s
}

#[test]
fn parses_auth_plain_payload() {
    let payload: String = base64::engine::general_purpose::STANDARD.encode(b"\0relay\0secret");
    let (username, password) = decode_auth_plain(&payload).unwrap();
    assert_eq!(username, "relay");
    assert_eq!(password, "secret");
}

#[test]
fn parses_smtp_path() {
    let sender: String = parse_path_argument("FROM:<sender@example.com> SIZE=42", "FROM:").unwrap();
    assert_eq!(sender, "sender@example.com");
}

#[test]
fn auth_plain_errors_are_reported() {
    assert_eq!(decode_auth_plain("%%%").unwrap_err(), AuthPlainError::InvalidBase64);
    let one_field = base64::engine::general_purpose::STANDARD.encode(b"relay");
    assert_eq!(decode_auth_plain(&one_field).unwrap_err(), AuthPlainError::Malformed);
    let bad_user = base64::engine::general_purpose::STANDARD.encode(b"\0\xff\0secret");
    assert_eq!(decode_auth_plain(&bad_user).unwrap_err(), AuthPlainError::UsernameNotUtf8);
    let bad_pass = base64::engine::general_purpose::STANDARD.encode(b"\0relay\0\xfe");
    assert_eq!(decode_auth_plain(&bad_pass).unwrap_err(), AuthPlainError::PasswordNotUtf8);
    assert_eq!(AuthPlainError::Malformed.message(), "AUTH PLAIN payload is malformed");
}

#[test]
fn auth_plain_ignores_fields_after_password() {
    let payload = base64::engine::general_purpose::STANDARD.encode(b"admin\0relay\0secret\0extra");
    assert_eq!(decode_auth_plain(&payload).unwrap(), ("relay".to_string(), "secret".to_string()));
}

#[test]
fn path_arguments() {
    assert_eq!(parse_path_argument("  from: bob@example.org SIZE=1", "FROM:").unwrap(), "bob@example.org");
    assert_eq!(parse_path_argument("TO:< carol@example.org >", "TO:").unwrap(), "carol@example.org");
    assert_eq!(parse_path_argument("TO:<carol@example.org>", "FROM:").unwrap_err(), PathError::MissingKeyword);
    assert_eq!(parse_path_argument("FROM:<broken", "FROM:").unwrap_err(), PathError::UnterminatedPath);
    assert_eq!(parse_path_argument("FROM:", "FROM:").unwrap(), "");
    assert_eq!(parse_path_argument("FROMé:<a@b>", "FROM:").unwrap_err(), PathError::MissingKeyword);
    assert_eq!(strip_prefix_ignore_ascii_case("ABCD\u{e9}", "FROM:"), None);
    assert_eq!(strip_prefix_ignore_ascii_case("FROM\u{e9}", "FROM:"), None);
    assert_eq!(strip_prefix_ignore_ascii_case("from:<x>", "FROM:"), Some("<x>".to_string()));
    assert_eq!(strip_prefix_ignore_ascii_case("to:<x>", "FROM:"), None);
}

#[test]
fn command_lines_are_split() {
    assert_eq!(split_command("mail FROM:<a@b>  "), ("MAIL".to_string(), "FROM:<a@b>".to_string()));
    assert_eq!(split_command("noop"), ("NOOP".to_string(), String::new()));
    assert_eq!(trim_crlf(b"EHLO x\r\n\r"), "EHLO x");
    assert_eq!(trim_crlf_bytes(b"abc\n"), b"abc".to_vec());
}

#[test]
fn replies_are_formatted() {
    assert_eq!(reply(250, "ok"), b"250 ok\r\n".to_vec());
    assert_eq!(reply(334, ""), b"334 \r\n".to_vec());
    let lines = vec![b"mx".to_vec(), b"AUTH PLAIN".to_vec(), b"SIZE 10".to_vec()];
    assert_eq!(multiline_reply(250, &lines), b"250-mx\r\n250-AUTH PLAIN\r\n250 SIZE 10\r\n".to_vec());
}

#[test]
fn full_session_delivers_message() {
    let config = listen_config(1000);
    let mut s = SmtpSession::new(&config);
    assert_eq!(s.greeting(), b"220 mx.test ESMTP ready\r\n".to_vec());
    assert_eq!(
        line(&mut s, "EHLO client"),
        b"250-mx.test\r\n250-AUTH PLAIN\r\n250-8BITMIME\r\n250 SIZE 1000\r\n".to_vec()
    );
    assert_eq!(line(&mut s, &format!("AUTH PLAIN {}", plain("relay", "secret"))), b"235 authentication successful\r\n");
    assert_eq!(line(&mut s, "MAIL FROM:<sender@example.com>"), b"250 sender ok\r\n");
    assert_eq!(line(&mut s, "RCPT TO:<a@example.com>"), b"250 recipient ok\r\n");
    assert_eq!(line(&mut s, "RCPT TO:<b@example.com>"), b"250 recipient ok\r\n");
    assert_eq!(line(&mut s, "DATA"), b"354 end data with <CRLF>.<CRLF>\r\n");
    assert!(matches!(s.on_line(b"Subject: hi\r\n"), SessionAction::Continue));
    assert!(matches!(s.on_line(b"\r\n"), SessionAction::Continue));
    assert!(matches!(s.on_line(b"..dot\r\n"), SessionAction::Continue));
    match s.on_line(b".\r\n") {
        SessionAction::Deliver(envelope, data) => {
            assert_eq!(envelope.mail_from, "sender@example.com");
            assert_eq!(envelope.rcpt_to, vec!["a@example.com".to_string(), "b@example.com".to_string()]);
            assert_eq!(data, b"Subject: hi\r\n\r\n.dot\r\n".to_vec());
        },
        other => panic!("expected delivery, got {:?}", other),
    }
    assert_eq!(s.phase, Phase::Command);
    assert_eq!(s.delivery_finished(DeliveryOutcome::Relayed), b"250 message relayed\r\n".to_vec());
    assert!(s.state.mail_from.is_none());
    assert!(s.state.rcpt_to.is_empty());
    assert!(s.state.authenticated);
    match s.on_line(b"QUIT\r\n") {
        SessionAction::ReplyAndClose(b) => assert_eq!(b, b"221 bye\r\n".to_vec()),
        other => panic!("expected close, got {:?}", other),
    }
}

#[test]
fn delivery_failures_are_reported() {
    let mut s = authenticated_session();
    assert_eq!(s.delivery_finished(DeliveryOutcome::RelayFailed), b"554 failed to relay message\r\n".to_vec());
    assert_eq!(
        s.delivery_finished(DeliveryOutcome::EncryptionFailed),
        b"554 failed to encrypt message\r\n".to_vec()
    );
}

#[test]
fn commands_out_of_order_are_refused() {
    let mut s = SmtpSession::new(&listen_config(1000));
    assert_eq!(line(&mut s, "MAIL FROM:<a@b>"), b"503 send EHLO/HELO first\r\n");
    assert_eq!(line(&mut s, "AUTH PLAIN"), b"503 send EHLO/HELO first\r\n");
    assert_eq!(line(&mut s, "HELO client"), b"250 mx.test\r\n");
    assert_eq!(line(&mut s, "MAIL FROM:<a@b>"), b"530 authentication required\r\n");
    assert_eq!(line(&mut s, "RCPT TO:<a@b>"), b"503 need MAIL before RCPT\r\n");
    assert_eq!(line(&mut s, "DATA"), b"503 need MAIL and RCPT before DATA\r\n");
    assert_eq!(line(&mut s, "VRFY x"), b"502 command not implemented\r\n");
    assert_eq!(line(&mut s, "NOOP"), b"250 ok\r\n");
    assert_eq!(line(&mut s, "RSET"), b"250 state reset\r\n");
    assert!(matches!(s.on_line(b"\r\n"), SessionAction::Continue));
    assert!(!s.state.authenticated);
}

#[test]
fn authentication_checks_credentials() {
    let mut s = SmtpSession::new(&listen_config(1000));
    line(&mut s, "EHLO client");
    assert_eq!(line(&mut s, "AUTH"), b"501 missing AUTH mechanism\r\n");
    assert_eq!(line(&mut s, "AUTH LOGIN"), b"504 only AUTH PLAIN is supported\r\n");
    assert_eq!(line(&mut s, &format!("AUTH plain {}", plain("relay", "wrong"))), b"535 authentication failed\r\n");
    assert_eq!(line(&mut s, "AUTH PLAIN !!!"), b"501 invalid base64 payload for AUTH PLAIN\r\n");
    assert!(!s.state.authenticated);
    assert_eq!(line(&mut s, "AUTH PLAIN"), b"334 \r\n");
    assert_eq!(s.phase, Phase::AuthResponse);
    assert_eq!(line(&mut s, &plain("relay", "secret")), b"235 authentication successful\r\n");
    assert_eq!(s.phase, Phase::Command);
    assert!(s.state.authenticated);
    assert_eq!(line(&mut s, "AUTH PLAIN"), b"503 already authenticated\r\n");
}

#[test]
fn malformed_paths_get_501() {
    let mut s = authenticated_session();
    assert_eq!(line(&mut s, "MAIL <a@b>"), b"501 expected FROM:\r\n");
    assert_eq!(line(&mut s, "MAIL FROM:<a@b"), b"501 unterminated address path\r\n");
    assert_eq!(line(&mut s, "MAIL FROM:<a@b>"), b"250 sender ok\r\n");
    assert_eq!(line(&mut s, "RCPT <c@d>"), b"501 expected TO:\r\n");
    assert_eq!(line(&mut s, "MAIL FROM\u{e9}:<a@b>"), b"501 expected FROM:\r\n");
    assert_eq!(line(&mut s, "RCPT TO\u{e9}<a@b>"), b"501 expected TO:\r\n");
}

#[test]
fn ehlo_resets_transaction() {
    let mut s = authenticated_session();
    line(&mut s, "MAIL FROM:<a@b>");
    line(&mut s, "RCPT TO:<c@d>");
    line(&mut s, "EHLO again");
    assert!(s.state.mail_from.is_none());
    assert!(s.state.rcpt_to.is_empty());
    assert!(s.state.authenticated);
}

#[test]
fn null_sender_is_accepted() {
    let mut s = authenticated_session();
    assert_eq!(line(&mut s, "MAIL FROM:<>"), b"250 sender ok\r\n");
    assert_eq!(s.state.mail_from, Some(String::new()));
}

#[test]
fn long_lines_abort_session() {
    let mut s = SmtpSession::new(&listen_config(1000));
    assert_eq!(s.max_line_len(), 4096);
    let long = vec![b'a'; 4097];
    assert!(matches!(s.on_line(&long), SessionAction::Abort(SessionError::LineTooLong)));
    let ok = vec![b'a'; 4096];
    assert!(matches!(s.on_line(&ok), SessionAction::Reply(_)));
}

#[test]
fn oversized_message_aborts() {
    let mut s = SmtpSession::new(&listen_config(10));
    line(&mut s, "EHLO client");
    line(&mut s, &format!("AUTH PLAIN {}", plain("relay", "secret")));
    line(&mut s, "MAIL FROM:<a@b>");
    line(&mut s, "RCPT TO:<c@d>");
    line(&mut s, "DATA");
    assert_eq!(s.max_line_len(), 15);
    assert!(matches!(s.on_line(b"12345678\r\n"), SessionAction::Continue));
    assert!(matches!(s.on_line(b"x\r\n"), SessionAction::Abort(SessionError::MessageTooLarge)));
}

#[test]
fn eof_in_data_is_an_error() {
    let mut s = authenticated_session();
    assert!(matches!(s.on_eof(), SessionAction::Close));
    line(&mut s, "MAIL FROM:<a@b>");
    line(&mut s, "RCPT TO:<c@d>");
    line(&mut s, "DATA");
    assert!(matches!(s.on_eof(), SessionAction::Abort(SessionError::ClosedDuringData)));
}

#[test]
fn access_is_limited_to_allowed_networks() {
    let config = listen_config(1000);
    match open_connection(&config, &IpAddress::V4(0x0808_0808)) {
        ConnectionStart::Refused(b) => assert_eq!(b, b"554 access denied\r\n".to_vec()),
        ConnectionStart::Accepted(..) => panic!("8.8.8.8 must be refused"),
    }
    match open_connection(&config, &IpAddress::V4(0x7f00_0001)) {
        ConnectionStart::Accepted(s, g) => {
            assert_eq!(g, b"220 mx.test ESMTP ready\r\n".to_vec());
            assert!(!s.state.helo);
        },
        ConnectionStart::Refused(_) => panic!("127.0.0.1 must be accepted"),
    }
    assert!(matches!(open_connection(&config, &IpAddress::V6(1)), ConnectionStart::Accepted(..)));
}

#[test]
fn relayed_data_reads_back_in_data_phase() {
    let data = b".leading\nmiddle\r\n.\r\nlast";
    let mut transfer = sendmail_sec::message::dot_stuff(data);
    transfer.extend_from_slice(b".\r\n");
    let mut s = authenticated_session();
    line(&mut s, "MAIL FROM:<a@b>");
    line(&mut s, "RCPT TO:<c@d>");
    line(&mut s, "DATA");
    let mut delivered = None;
    for l in transfer.split_inclusive(|b| *b == b'\n') {
        match s.on_line(l) {
            SessionAction::Continue => {},
            SessionAction::Deliver(_, d) => delivered = Some(d),
            other => panic!("unexpected {:?}", other),
        }
    }
    assert_eq!(delivered.unwrap(), b".leading\r\nmiddle\r\n.\r\nlast\r\n".to_vec());
}
