use base64::Engine;
use sendmail_sec::config::{RemoteAuthConfig, RemoteSmtpConfig, RemoteTlsMode};
use sendmail_sec::listener::decode_auth_plain;
use sendmail_sec::message::{Envelope, RelayMessage};
use sendmail_sec::remote_smtp::{
    auth_payload, response_line, AuthKind, ReadProgress, RelayAction,
    RelayError, RelaySession, RelayStage, ResponseError, ResponseReader, ServerCapabilities,
    SmtpResponse,
};

fn config(mode: RemoteTlsMode, auth: RemoteAuthConfig) -> RemoteSmtpConfig {
    RemoteSmtpConfig {
        host: "smtp.example.net".to_string(),
        port: 587,
        tls_mode: mode,
        hello_name: "relay.local".to_string(),
        auth,
        connect_timeout_secs: 15,
        command_timeout_secs: 30,
    }
}

fn plain_auth() -> RemoteAuthConfig {
    RemoteAuthConfig::Plain { username: "user".to_string(), password: "pass".to_string() }
}

fn message(rcpts: &[&str]) -> RelayMessage {
    RelayMessage {
        envelope: Envelope {
            mail_from: "sender@example.com".to_string(),
            rcpt_to: rcpts.iter().map(|r| r.to_string()).collect(),
        },
        data: b"Subject: x\r\n\r\n.hidden\r\n".to_vec(),
    }
}

fn resp(code: u16, lines: &[&str]) -> SmtpResponse {
    SmtpResponse { code, lines: lines.iter().map(|l| l.to_string()).collect() }
}

fn sent(a: RelayAction) -> Vec<u8> {
    match a {
        RelayAction::Send(b) => b,
        other => panic!("expected a command, got {:?}", other),
    }
}

fn read_all(lines: &[&[u8]]) -> ReadProgress {
    let mut reader = ResponseReader::new();
    let mut last = ReadProgress::More;
    for l in lines {
        last = reader.feed(l);
    }
    last
}

#[test]
fn reads_single_and_multiline_replies() {
    match read_all(&[b"250 ok\r\n"]) {
        ReadProgress::Complete(r) => {
            assert_eq!(r.code, 250);
            assert_eq!(r.lines, vec!["ok".to_string()]);
        },
        other => panic!("{:?}", other),
    }
    let mut reader = ResponseReader::new();
    assert!(matches!(reader.feed(b"250-mx.example  \r\n"), ReadProgress::More));
    assert!(matches!(reader.feed(b"250-AUTH PLAIN\r\n"), ReadProgress::More));
    match reader.feed(b"250 SIZE 10\n") {
        ReadProgress::Complete(r) => {
            assert_eq!(r.code, 250);
            assert_eq!(r.lines, vec!["mx.example", "AUTH PLAIN", "SIZE 10"]);
            assert_eq!(r.summary(), "mx.example | AUTH PLAIN | SIZE 10");
        },
        other => panic!("{:?}", other),
    }
    match read_all(&[b"354\r\n"]) {
        ReadProgress::Complete(r) => {
            assert_eq!(r.code, 354);
            assert_eq!(r.lines, vec![String::new()]);
        },
        other => panic!("{:?}", other),
    }
    match read_all(&[b"+50 odd\r\n"]) {
        ReadProgress::Complete(r) => assert_eq!(r.code, 50),
        other => panic!("{:?}", other),
    }
}

#[test]
fn reply_errors() {
    assert!(matches!(read_all(&[b"25\r\n"]), ReadProgress::Failed(ResponseError::Short)));
    match read_all(&[b"abc def\r\n"]) {
        ReadProgress::Failed(ResponseError::InvalidCode(l)) => assert_eq!(l, "abc def"),
        other => panic!("{:?}", other),
    }
    assert!(matches!(read_all(&[b"-12 x\r\n"]), ReadProgress::Failed(ResponseError::InvalidCode(_))));
    assert!(matches!(read_all(&[b"250-a\r\n", b"251 b\r\n"]), ReadProgress::Failed(ResponseError::MixedCodes)));
    assert!(matches!(read_all(&[b"250x\r\n"]), ReadProgress::Failed(ResponseError::MalformedSeparator)));
}

#[test]
fn reply_lines_are_decoded_leniently() {
    assert_eq!(response_line(b"250 ok\r\n\r\n"), "250 ok");
    assert_eq!(response_line(b"250 \xff\r\n"), "250 \u{fffd}");
}

#[test]
fn capabilities_from_ehlo() {
    let r = resp(250, &["mx.example", "auth plain login", "STARTTLS", "AUTH=xoauth2 ", "SIZE 100"]);
    let caps = ServerCapabilities::from_ehlo(&r);
    assert!(caps.starttls);
    assert!(caps.advertises("PLAIN"));
    assert!(caps.advertises("LOGIN"));
    assert!(caps.advertises("XOAUTH2"));
    assert!(!caps.advertises("plain"));
    assert!(caps.require_mechanism(AuthKind::Plain).is_ok());
    assert!(matches!(
        caps.require_mechanism(AuthKind::OauthBearer),
        Err(RelayError::MechanismNotAdvertised(AuthKind::OauthBearer))
    ));
    let none = ServerCapabilities::from_ehlo(&resp(250, &["mx", "STARTTLSX"]));
    assert!(!none.starttls);
    assert!(none.auth_mechanisms.is_empty());
}

#[test]
fn auth_payloads() {
    let c = config(RemoteTlsMode::Starttls, plain_auth());
    assert_eq!(auth_payload(&c), b"\0user\0pass".to_vec());
    let c = config(
        RemoteTlsMode::Starttls,
        RemoteAuthConfig::Oauthbearer {
            username: "u@example.net".to_string(),
            access_token: "tok".to_string(),
            authzid: None,
        },
    );
    assert_eq!(
        auth_payload(&c),
        b"n,a=u@example.net,\x01host=smtp.example.net\x01port=587\x01auth=Bearer tok\x01\x01".to_vec()
    );
    let c = config(
        RemoteTlsMode::Starttls,
        RemoteAuthConfig::Oauthbearer {
            username: "u".to_string(),
            access_token: "t".to_string(),
            authzid: Some("z".to_string()),
        },
    );
    assert!(auth_payload(&c).starts_with(b"n,a=z,\x01"));
    let c = config(
        RemoteTlsMode::Starttls,
        RemoteAuthConfig::Xoauth2 { username: "u".to_string(), access_token: "t".to_string() },
    );
    assert_eq!(auth_payload(&c), b"user=u\x01auth=Bearer t\x01\x01".to_vec());
}

#[test]
fn starttls_relay_runs_the_whole_transaction() {
    let c = config(RemoteTlsMode::Starttls, plain_auth());
    let (mut s, a) = RelaySession::start(&c, message(&["a@example.org", "b@example.org"]));
    assert!(matches!(a, RelayAction::Read));
    assert_eq!(sent(s.on_response(&resp(220, &["hi"]))), b"EHLO relay.local\r\n".to_vec());
    assert_eq!(sent(s.on_response(&resp(250, &["mx", "STARTTLS"]))), b"STARTTLS\r\n".to_vec());
    assert!(!s.tls);
    assert!(matches!(s.on_response(&resp(220, &["go"])), RelayAction::Handshake));
    assert_eq!(s.stage, RelayStage::Upgrade);
    assert_eq!(sent(s.on_tls_ready()), b"EHLO relay.local\r\n".to_vec());
    assert!(s.tls);
    assert_eq!(sent(s.on_response(&resp(250, &["mx", "AUTH PLAIN"]))), b"AUTH PLAIN\r\n".to_vec());
    let payload = sent(s.on_response(&resp(334, &[""])));
    let expected = base64::engine::general_purpose::STANDARD.encode(b"\0user\0pass");
    assert_eq!(payload, format!("{expected}\r\n").into_bytes());
    let text = String::from_utf8(payload[..payload.len() - 2].to_vec()).unwrap();
    assert_eq!(decode_auth_plain(&text).unwrap(), ("user".to_string(), "pass".to_string()));
    assert_eq!(sent(s.on_response(&resp(235, &["ok"]))), b"MAIL FROM:<sender@example.com>\r\n".to_vec());
    assert_eq!(sent(s.on_response(&resp(250, &["ok"]))), b"RCPT TO:<a@example.org>\r\n".to_vec());
    assert_eq!(sent(s.on_response(&resp(251, &["forward"]))), b"RCPT TO:<b@example.org>\r\n".to_vec());
    assert_eq!(sent(s.on_response(&resp(250, &["ok"]))), b"DATA\r\n".to_vec());
    assert_eq!(
        sent(s.on_response(&resp(354, &["go"]))),
        b"Subject: x\r\n\r\n..hidden\r\n.\r\n".to_vec()
    );
    match s.on_response(&resp(250, &["queued"])) {
        RelayAction::SendThenFinish(b, r) => {
            assert_eq!(b, b"QUIT\r\n".to_vec());
            assert!(r.is_ok());
        },
        other => panic!("{:?}", other),
    }
    assert_eq!(s.stage, RelayStage::Done);
}

#[test]
fn smtps_relay_handshakes_first() {
    let c = config(RemoteTlsMode::Wrapper, plain_auth());
    let (mut s, a) = RelaySession::start(&c, message(&[]));
    assert!(matches!(a, RelayAction::Handshake));
    assert!(matches!(s.on_tls_ready(), RelayAction::Read));
    assert_eq!(sent(s.on_response(&resp(220, &["hi"]))), b"EHLO relay.local\r\n".to_vec());
    assert_eq!(sent(s.on_response(&resp(250, &["mx", "AUTH LOGIN PLAIN"]))), b"AUTH PLAIN\r\n".to_vec());
    sent(s.on_response(&resp(334, &[""])));
    sent(s.on_response(&resp(235, &["ok"])));
    assert_eq!(sent(s.on_response(&resp(250, &["ok"]))), b"DATA\r\n".to_vec());
}

#[test]
fn null_sender_is_sent_as_empty_path() {
    let c = config(RemoteTlsMode::Wrapper, plain_auth());
    let mut m = message(&["a@b"]);
    m.envelope.mail_from = String::new();
    let (mut s, _) = RelaySession::start(&c, m);
    s.on_tls_ready();
    s.on_response(&resp(220, &["hi"]));
    s.on_response(&resp(250, &["AUTH PLAIN"]));
    s.on_response(&resp(334, &[""]));
    assert_eq!(sent(s.on_response(&resp(235, &["ok"]))), b"MAIL FROM:<>\r\n".to_vec());
}

#[test]
fn refusals_end_the_relay() {
    let c = config(RemoteTlsMode::Starttls, plain_auth());
    let (mut s, _) = RelaySession::start(&c, message(&["a@b"]));
    match s.on_response(&resp(554, &["go away", "now"])) {
        RelayAction::Finish(Err(RelayError::Rejected { stage, code, summary })) => {
            assert_eq!(stage, RelayStage::Greeting);
            assert_eq!(code, 554);
            assert_eq!(summary, "go away | now");
        },
        other => panic!("{:?}", other),
    }
    assert_eq!(s.stage, RelayStage::Done);

    let (mut s, _) = RelaySession::start(&c, message(&["a@b"]));
    s.on_response(&resp(220, &["hi"]));
    assert!(matches!(
        s.on_response(&resp(250, &["mx", "AUTH PLAIN"])),
        RelayAction::Finish(Err(RelayError::StartTlsNotAdvertised))
    ));

    let (mut s, _) = RelaySession::start(&c, message(&["a@b"]));
    s.on_response(&resp(220, &["hi"]));
    s.on_response(&resp(250, &["STARTTLS"]));
    assert!(matches!(
        s.on_response(&resp(454, &["no tls"])),
        RelayAction::Finish(Err(RelayError::Rejected { stage: RelayStage::StartTls, code: 454, .. }))
    ));
}

#[test]
fn missing_mechanism_and_rejected_recipient() {
    let c = config(RemoteTlsMode::Wrapper, plain_auth());
    let (mut s, _) = RelaySession::start(&c, message(&["a@b", "c@d"]));
    s.on_tls_ready();
    s.on_response(&resp(220, &["hi"]));
    assert!(matches!(
        s.on_response(&resp(250, &["AUTH LOGIN"])),
        RelayAction::Finish(Err(RelayError::MechanismNotAdvertised(AuthKind::Plain)))
    ));

    let (mut s, _) = RelaySession::start(&c, message(&["a@b", "c@d"]));
    s.on_tls_ready();
    s.on_response(&resp(220, &["hi"]));
    s.on_response(&resp(250, &["AUTH PLAIN"]));
    s.on_response(&resp(334, &[""]));
    assert!(matches!(
        s.on_response(&resp(535, &["bad"])),
        RelayAction::Finish(Err(RelayError::Rejected { stage: RelayStage::AuthPayload, code: 535, .. }))
    ));

    let (mut s, _) = RelaySession::start(&c, message(&["a@b", "c@d"]));
    s.on_tls_ready();
    s.on_response(&resp(220, &["hi"]));
    s.on_response(&resp(250, &["AUTH PLAIN"]));
    s.on_response(&resp(334, &[""]));
    s.on_response(&resp(235, &["ok"]));
    s.on_response(&resp(250, &["ok"]));
    assert!(matches!(
        s.on_response(&resp(550, &["unknown user"])),
        RelayAction::Finish(Err(RelayError::Rejected { stage: RelayStage::Rcpt(0), code: 550, .. }))
    ));
}

#[test]
fn oauth_failures_send_the_courtesy_line() {
    let c = config(
        RemoteTlsMode::Wrapper,
        RemoteAuthConfig::Oauthbearer { username: "u".to_string(), access_token: "t".to_string(), authzid: None },
    );
    let (mut s, _) = RelaySession::start(&c, message(&["a@b"]));
    s.on_tls_ready();
    s.on_response(&resp(220, &["hi"]));
    assert_eq!(sent(s.on_response(&resp(250, &["AUTH OAUTHBEARER"]))), b"AUTH OAUTHBEARER\r\n".to_vec());
    s.on_response(&resp(334, &[""]));
    match s.on_response(&resp(334, &["eyJzdGF0dXMiOiI0MDEifQ=="])) {
        RelayAction::SendThenFinish(b, Err(RelayError::AuthFailed { kind, summary })) => {
            assert_eq!(b, b"AQ==\r\n".to_vec());
            assert_eq!(kind, AuthKind::OauthBearer);
            assert_eq!(summary, "eyJzdGF0dXMiOiI0MDEifQ==");
        },
        other => panic!("{:?}", other),
    }

    let c = config(
        RemoteTlsMode::Wrapper,
        RemoteAuthConfig::Xoauth2 { username: "u".to_string(), access_token: "t".to_string() },
    );
    let (mut s, _) = RelaySession::start(&c, message(&["a@b"]));
    s.on_tls_ready();
    s.on_response(&resp(220, &["hi"]));
    s.on_response(&resp(250, &["AUTH XOAUTH2"]));
    s.on_response(&resp(334, &[""]));
    match s.on_response(&resp(334, &["e30="])) {
        RelayAction::SendThenFinish(b, Err(RelayError::AuthFailed { kind, .. })) => {
            assert_eq!(b, b"\r\n".to_vec());
            assert_eq!(kind, AuthKind::Xoauth2);
        },
        other => panic!("{:?}", other),
    }

    let (mut s, _) = RelaySession::start(&c, message(&["a@b"]));
    s.on_tls_ready();
    s.on_response(&resp(220, &["hi"]));
    s.on_response(&resp(250, &["AUTH XOAUTH2"]));
    s.on_response(&resp(334, &[""]));
    assert!(matches!(
        s.on_response(&resp(535, &["no"])),
        RelayAction::Finish(Err(RelayError::AuthFailed { kind: AuthKind::Xoauth2, .. }))
    ));
}

#[test]
fn data_transfer_failure_is_reported() {
    let c = config(RemoteTlsMode::Wrapper, plain_auth());
    let (mut s, _) = RelaySession::start(&c, message(&["a@b"]));
    s.on_tls_ready();
    s.on_response(&resp(220, &["hi"]));
    s.on_response(&resp(250, &["AUTH PLAIN"]));
    s.on_response(&resp(334, &[""]));
    s.on_response(&resp(235, &["ok"]));
    s.on_response(&resp(250, &["ok"]));
    s.on_response(&resp(250, &["ok"]));
    assert!(matches!(
        s.on_response(&resp(451, &["later"])),
        RelayAction::Finish(Err(RelayError::Rejected { stage: RelayStage::Data, code: 451, .. }))
    ));
}

#[test]
fn reply_code_cut_inside_a_character_is_invalid() {
    let mut reader = ResponseReader::new();
    match reader.feed("22\u{e9} ok\r\n".as_bytes()) {
        ReadProgress::Failed(ResponseError::InvalidCode(l)) => assert_eq!(l, "22\u{e9} ok"),
        other => panic!("{:?}", other),
    }
    assert!(matches!(reader.feed(b"220-first\r\n"), ReadProgress::More));
    match reader.feed(b"220 second\r\n") {
        ReadProgress::Complete(r) => assert_eq!(r.lines, vec!["first", "second"]),
        other => panic!("{:?}", other),
    }
}
