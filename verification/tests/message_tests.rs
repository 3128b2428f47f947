use sendmail_sec::config::EncryptionMode;
use sendmail_sec::message::{
    add_addresses, build_encrypted_message, build_encrypted_message_with_boundary,
    collect_encryption_recipients, dot_stuff, extract_recipients_from_headers, is_content_header,
    is_outer_header, new_boundary, normalize_crlf, normalize_email, plaintext_for_encryption,
    push_unique, split_header_blocks, split_message, Envelope, MessageError,
};

#[test]
fn extracts_header_recipients() {
    let raw = b"From: sender@example.com\r\nTo: Alice <alice@example.com>\r\nCc: team@example.com\r\n\r\nhello\r\n";
    let recipients = extract_recipients_from_headers(raw).unwrap();
    assert_eq!(recipients, vec!["alice@example.com", "team@example.com"]);
}

#[test]
fn builds_pgp_mime_body_from_content_headers_only() {
    let raw = b"From: sender@example.com\r\nSubject: hi\r\nMIME-Version: 1.0\r\nContent-Type: text/plain; charset=utf-8\r\n\r\nhello\r\n";
    let inner = plaintext_for_encryption(raw, EncryptionMode::PgpMimeBody).unwrap();
    assert_eq!(
        String::from_utf8(inner).unwrap(),
        "MIME-Version: 1.0\r\nContent-Type: text/plain; charset=utf-8\r\n\r\nhello\r\n"
    );
}

#[test]
fn dot_stuffs_lines_starting_with_period() {
    let stuffed = dot_stuff(b".hello\r\nworld\r\n");
    assert_eq!(stuffed, b"..hello\r\nworld\r\n");
}

#[test]
fn normalizes_every_line_ending() {
    let once = normalize_crlf(b"a\rb\nc\r\nd\r");
    assert_eq!(once, b"a\r\nb\r\nc\r\nd\r\n".to_vec());
    assert_eq!(normalize_crlf(&once), once);
    assert_eq!(normalize_crlf(b""), Vec::<u8>::new());
}

#[test]
fn dot_stuffing_ends_with_crlf() {
    assert_eq!(dot_stuff(b"abc"), b"abc\r\n".to_vec());
    assert_eq!(dot_stuff(b"."), b"..\r\n".to_vec());
    assert_eq!(dot_stuff(b"a\n.\n"), b"a\r\n..\r\n".to_vec());
    assert_eq!(dot_stuff(b"a.b\r\n"), b"a.b\r\n".to_vec());
    assert_eq!(dot_stuff(b""), b"\r\n".to_vec());
}

#[test]
fn splits_headers_from_body() {
    let (h, b) = split_message(b"A: 1\r\nB: 2\r\n\r\nbody\r\n\r\nmore");
    assert_eq!(h, b"A: 1\r\nB: 2".to_vec());
    assert_eq!(b, b"body\r\n\r\nmore".to_vec());
    let (h, b) = split_message(b"A: 1\r\n");
    assert_eq!(h, b"A: 1\r\n".to_vec());
    assert!(b.is_empty());
}

#[test]
fn header_blocks_keep_folded_lines() {
    let blocks = split_header_blocks(b"Subject: a\r\n b\r\nX-Y: z").unwrap();
    assert_eq!(blocks.len(), 2);
    assert_eq!(blocks[0].name_lower, b"subject".to_vec());
    assert_eq!(blocks[0].raw, b"Subject: a\r\n b\r\n".to_vec());
    assert_eq!(blocks[1].name_lower, b"x-y".to_vec());
    assert_eq!(blocks[1].raw, b"X-Y: z\r\n".to_vec());
}

#[test]
fn header_block_errors() {
    assert_eq!(split_header_blocks(b" folded\r\n").unwrap_err(), MessageError::FoldedHeaderWithoutHeader);
    assert_eq!(split_header_blocks(b"no colon\r\n").unwrap_err(), MessageError::HeaderWithoutColon);
    assert_eq!(
        plaintext_for_encryption(b"bad header\r\n\r\nbody", EncryptionMode::PgpMimeBody).unwrap_err(),
        MessageError::HeaderWithoutColon
    );
}

#[test]
fn header_classes() {
    assert!(is_content_header(b"mime-version"));
    assert!(is_content_header(b"content-transfer-encoding"));
    assert!(!is_content_header(b"subject"));
    assert!(is_outer_header(b"subject"));
    assert!(is_outer_header(b"resent-cc"));
    assert!(!is_outer_header(b"content-type"));
    assert!(!is_outer_header(b"x-mailer"));
}

#[test]
fn full_message_mode_encrypts_everything() {
    let out = plaintext_for_encryption(b"Subject: x\nhello", EncryptionMode::FullMessage).unwrap();
    assert_eq!(out, b"Subject: x\r\nhello".to_vec());
}

#[test]
fn body_without_content_headers_is_kept_alone() {
    let out = plaintext_for_encryption(b"Subject: x\r\n\r\nhello\r\n", EncryptionMode::PgpMimeBody).unwrap();
    assert_eq!(out, b"hello\r\n".to_vec());
}

#[test]
fn encrypted_message_layout() {
    let raw = b"From: a@example.com\r\nSubject: hi\r\nContent-Type: text/plain\r\nX-Mailer: t\r\n\r\nsecret body\r\n";
    let out = build_encrypted_message_with_boundary(raw, b"ARMOR\nLINES", "B").unwrap();
    let expected = "From: a@example.com\r\nSubject: hi\r\n\
MIME-Version: 1.0\r\n\
Content-Type: multipart/encrypted; protocol=\"application/pgp-encrypted\"; boundary=\"B\"\r\n\
\r\n\
--B\r\n\
Content-Type: application/pgp-encrypted\r\n\
Content-Description: PGP/MIME version identification\r\n\
\r\n\
Version: 1\r\n\
\r\n\
--B\r\n\
Content-Type: application/octet-stream; name=\"encrypted.asc\"\r\n\
Content-Description: OpenPGP encrypted message\r\n\
Content-Disposition: inline; filename=\"encrypted.asc\"\r\n\
Content-Transfer-Encoding: 7bit\r\n\
\r\n\
ARMOR\r\nLINES\r\n\
\r\n\
--B--\r\n";
    assert_eq!(String::from_utf8(out).unwrap(), expected);
}

#[test]
fn random_boundaries_are_fresh_uuids() {
    let a = new_boundary();
    let b = new_boundary();
    assert_ne!(a, b);
    assert!(a.starts_with("sendmail-sec-"));
    let token = &a["sendmail-sec-".len()..];
    assert_eq!(token.len(), 32);
    assert!(token.chars().all(|c| c.is_ascii_digit() || ('a'..='f').contains(&c)));
    let out = build_encrypted_message(b"Subject: s\r\n\r\nbody", b"CT\r\n").unwrap();
    let text = String::from_utf8(out).unwrap();
    assert!(text.starts_with("Subject: s\r\nMIME-Version: 1.0\r\n"));
    assert!(text.contains("boundary=\"sendmail-sec-"));
    assert!(text.ends_with("--\r\n"));
}

#[test]
fn normalizes_addresses() {
    assert_eq!(normalize_email("  <Alice@Example.COM> "), "alice@example.com");
    assert_eq!(normalize_email("<<bob@x>>"), "bob@x");
}

#[test]
fn push_unique_skips_empty_and_repeated() {
    let mut v = vec!["a".to_string()];
    push_unique(&mut v, "a".to_string());
    push_unique(&mut v, String::new());
    push_unique(&mut v, "b".to_string());
    assert_eq!(v, vec!["a".to_string(), "b".to_string()]);
    add_addresses(&mut v, &vec!["<B>".to_string(), "C".to_string()]);
    assert_eq!(v, vec!["a".to_string(), "b".to_string(), "c".to_string()]);
}

#[test]
fn encryption_recipients_combine_headers_and_envelope() {
    let raw = b"To: Alice <Alice@example.com>, bob@example.com\r\nBcc: carol@example.com\r\n\r\nhi";
    let envelope = Envelope {
        mail_from: "s@example.com".to_string(),
        rcpt_to: vec!["BOB@example.com".to_string(), "dave@example.com".to_string()],
    };
    let r = collect_encryption_recipients(raw, &envelope).unwrap();
    assert_eq!(
        r,
        vec!["alice@example.com", "bob@example.com", "carol@example.com", "dave@example.com"]
    );
}

#[test]
fn no_recipients_is_an_error() {
    let envelope = Envelope { mail_from: String::new(), rcpt_to: vec![] };
    assert_eq!(
        collect_encryption_recipients(b"Subject: x\r\n\r\nhi", &envelope).unwrap_err(),
        MessageError::NoRecipients
    );
}

#[test]
fn envelope_copies_are_equal() {
    let e = Envelope { mail_from: "a".to_string(), rcpt_to: vec!["b".to_string()] };
    let d = e.duplicate();
    assert_eq!(d.mail_from, "a");
    assert_eq!(d.rcpt_to, vec!["b".to_string()]);
}

#[test]
fn malformed_recipient_header_is_an_error() {
    assert_eq!(
        extract_recipients_from_headers(b"To: \"Alice <alice@example.com>\r\n\r\nhi").unwrap_err(),
        MessageError::RecipientHeader
    );
    assert_eq!(
        extract_recipients_from_headers(b"Cc: team: a@example.com\r\n\r\nhi").unwrap_err(),
        MessageError::RecipientHeader
    );
    assert_eq!(
        extract_recipients_from_headers(b"Subject: x\r\nBCC: b@example.com\r\n\r\n").unwrap(),
        vec!["b@example.com".to_string()]
    );
}

#[test]
fn normalize_email_ignores_ascii_case() {
    let pairs = [(" <Alice@Example.COM> ", " <aLICE@example.com> "), ("BOB@X>>", "bob@x>>"), ("Ünï@X", "Ünï@x")];
    for (a, b) in pairs {
        assert!(a.eq_ignore_ascii_case(b));
        let n = normalize_email(a);
        assert_eq!(n, normalize_email(b));
        assert!(!n.chars().any(|c| c.is_ascii_uppercase()));
        assert!(!n.ends_with('>'));
    }
}
