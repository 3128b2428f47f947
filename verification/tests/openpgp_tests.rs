use sendmail_sec::config::{EncryptionMode, OpenPgpConfig};
use sendmail_sec::message::Envelope;
use sendmail_sec::openpgp::{
    begin_lookup, cache_success, cert_matches_email, cert_userids, certs_from_body, decide_status,
    deduplicate_certs, duplicate_certs, encode_zbase32, encrypt_for_recipients, encrypt_to_armored_message,
    filter_certs_for_email, finish_encryption, keys_openpgp_org_url, normalize_lookup_email,
    parse_certs, prepare_encryption, select_certs, select_transport_keys, split_email, wkd_urls, zbase32_sha1,
    EncryptStage, FetchOutcome, KeyCache, KeyCert, KeyError, KeyIndex, LookupStart, LookupStep,
    StatusDecision,
};
use sequoia_openpgp::cert::CertBuilder;
use sequoia_openpgp::policy::StandardPolicy;
use sequoia_openpgp::serialize::stream::Recipient;
use sequoia_openpgp::serialize::SerializeInto;

fn cert_bytes(uids: &[&str]) -> Vec<u8> {
    let (cert, _) = CertBuilder::general_purpose(uids.iter().copied()).generate().unwrap();
    cert.to_vec().unwrap()
}

fn transport_keys<'a>(c: &'a KeyCert, policy: &'a StandardPolicy<'static>) -> Vec<Recipient<'a>> {
    c.cert().keys().with_policy(policy, None).supported().alive().revoked(false)
        .for_transport_encryption().map(Recipient::from).collect()
}

fn key_certs(uids: &[&str]) -> Vec<KeyCert> {
    parse_certs(&cert_bytes(uids)).unwrap()
}

fn pgp_config(wkd: bool, keyserver: bool) -> OpenPgpConfig {
    OpenPgpConfig {
        local_key_files: vec![],
        local_key_directories: vec![],
        enable_wkd: wkd,
        enable_keys_openpgp_org: keyserver,
        key_cache_ttl_secs: 3600,
        http_timeout_secs: 10,
        encryption_mode: EncryptionMode::PgpMimeBody,
    }
}

#[test]
fn zbase32_hash_matches_known_value_shape() {
    let hash = zbase32_sha1("alice");
    assert_eq!(hash.len(), 32);
    assert!(hash.chars().all(|c| "ybndrfg8ejkmcpqxot1uwisza345h769".contains(c)));
}

#[test]
fn normalizes_lookup_email() {
    let email = normalize_lookup_email("Alice@Example.COM").unwrap();
    assert_eq!(email, "alice@example.com");
}

#[test]
fn zbase32_known_values() {
    assert_eq!(encode_zbase32(&[]), "");
    assert_eq!(encode_zbase32(&[0]), "yy");
    assert_eq!(encode_zbase32(&[0xff]), "9h");
    assert_eq!(encode_zbase32(&[0xf0, 0xbf, 0xc7]), "6n9hq");
    assert_eq!(zbase32_sha1("joe.doe"), "iy9q119eutrkn8s1mk4r39qejnbu3n5q");
}

#[test]
fn lookup_addresses() {
    assert_eq!(normalize_lookup_email("  <Bob@Example.ORG> ").unwrap(), "bob@example.org");
    match normalize_lookup_email(" nobody ") {
        Err(KeyError::InvalidEmail(e)) => assert_eq!(e, "nobody"),
        other => panic!("{:?}", other),
    }
    assert_eq!(split_email("a@b@c").unwrap(), ("a@b".to_string(), "c".to_string()));
    assert!(matches!(split_email("@example.org"), Err(KeyError::InvalidEmail(_))));
    assert!(matches!(split_email("local@"), Err(KeyError::InvalidEmail(_))));
    assert!(matches!(split_email("plain"), Err(KeyError::InvalidEmail(_))));
}

#[test]
fn key_lookup_urls() {
    let (advanced, direct) = wkd_urls("joe.doe@example.org").unwrap();
    assert_eq!(
        advanced,
        "https://openpgpkey.example.org/.well-known/openpgpkey/example.org/hu/iy9q119eutrkn8s1mk4r39qejnbu3n5q?l=joe.doe"
    );
    assert_eq!(
        direct,
        "https://example.org/.well-known/openpgpkey/hu/iy9q119eutrkn8s1mk4r39qejnbu3n5q?l=joe.doe"
    );
    assert_eq!(
        keys_openpgp_org_url("alice+tag@example.com"),
        "https://keys.openpgp.org/vks/v1/by-email/alice%2Btag%40example.com"
    );
    assert_eq!(keys_openpgp_org_url("a b~c"), "https://keys.openpgp.org/vks/v1/by-email/a%20b~c");
}

#[test]
fn http_statuses() {
    assert!(matches!(decide_status(200, "u"), StatusDecision::ReadBody));
    for s in [404u16, 204, 410] {
        assert!(matches!(decide_status(s, "u"), StatusDecision::Outcome(FetchOutcome::Missing)));
    }
    match decide_status(500, "https://k") {
        StatusDecision::Outcome(FetchOutcome::Error(KeyError::HttpStatus(500, u))) => assert_eq!(u, "https://k"),
        other => panic!("{:?}", other),
    }
}

#[test]
fn invalid_key_data_is_rejected() {
    assert!(parse_certs(b"not a key").is_none());
    match certs_from_body(b"not a key", "https://k", "a@b") {
        FetchOutcome::Error(KeyError::InvalidCertificates(u)) => assert_eq!(u, "https://k"),
        other => panic!("{:?}", other),
    }
}

#[test]
fn certificates_are_read_and_selected() {
    let certs = key_certs(&["Alice <Alice@Example.com>", "alias@example.com"]);
    assert_eq!(certs.len(), 1);
    assert_eq!(cert_userids(&certs[0]), vec!["alice@example.com".to_string(), "alias@example.com".to_string()]);
    assert_eq!(certs[0].fingerprint().clone(), certs[0].cert().fingerprint().to_string());
    assert!(cert_matches_email(&certs[0], "alias@example.com"));
    assert!(!cert_matches_email(&certs[0], "bob@example.com"));
    let kept = filter_certs_for_email(duplicate_certs(&certs), "alice@example.com");
    assert_eq!(kept.len(), 1);
    assert!(filter_certs_for_email(duplicate_certs(&certs), "bob@example.com").is_empty());
    match select_certs(duplicate_certs(&certs), "https://k", "bob@example.com") {
        FetchOutcome::Error(KeyError::NoMatchingCertificate(u, r)) => {
            assert_eq!(u, "https://k");
            assert_eq!(r, "bob@example.com");
        },
        other => panic!("{:?}", other),
    }
    let bytes = cert_bytes(&["carol@example.com"]);
    match certs_from_body(&bytes, "https://k", "carol@example.com") {
        FetchOutcome::Certs(cs) => assert_eq!(cs.len(), 1),
        other => panic!("{:?}", other),
    }
}

#[test]
fn duplicate_certificates_are_dropped() {
    let bytes = cert_bytes(&["dave@example.com"]);
    let mut all = parse_certs(&bytes).unwrap();
    all.extend(parse_certs(&bytes).unwrap());
    all.extend(key_certs(&["erin@example.com"]));
    assert_eq!(all.len(), 3);
    let unique = deduplicate_certs(all);
    assert_eq!(unique.len(), 2);
    assert_ne!(unique[0].fingerprint(), unique[1].fingerprint());
    let again = deduplicate_certs(duplicate_certs(&unique));
    assert_eq!(again.len(), 2);
}

#[test]
fn local_index_finds_certificates_by_address() {
    let mut certs = key_certs(&["frank@example.com", "shared@example.com"]);
    certs.extend(key_certs(&["grace@example.com", "shared@example.com"]));
    let index = KeyIndex::build(certs);
    assert_eq!(index.get("frank@example.com").unwrap().len(), 1);
    assert_eq!(index.get("shared@example.com").unwrap().len(), 2);
    assert!(index.get("nobody@example.com").is_none());
}

#[test]
fn cache_serves_until_expiry() {
    let mut cache = KeyCache::new();
    assert!(cache.lookup("heidi@example.com", 0).is_none());
    cache.store("heidi@example.com", key_certs(&["heidi@example.com"]), 100, 50);
    assert_eq!(cache.lookup("heidi@example.com", 149).unwrap().len(), 1);
    assert!(cache.lookup("heidi@example.com", 150).is_none());
    assert!(cache.lookup("ivan@example.com", 120).is_none());
    cache.store("heidi@example.com", vec![], 200, 10);
    assert_eq!(cache.lookup("heidi@example.com", 205).unwrap().len(), 0);
}

#[test]
fn lookup_order_cache_then_index_then_remote() {
    let config = pgp_config(true, true);
    let mut cache = KeyCache::new();
    let index = KeyIndex::build(key_certs(&["judy@example.com"]));
    match begin_lookup("nobody", &cache, &index, &config, 0) {
        LookupStart::Failed(KeyError::InvalidEmail(e)) => assert_eq!(e, "nobody"),
        other => panic!("{:?}", other),
    }
    match begin_lookup("<Judy@Example.com>", &cache, &index, &config, 0) {
        LookupStart::Local(email, certs) => {
            assert_eq!(email, "judy@example.com");
            assert_eq!(certs.len(), 1);
        },
        other => panic!("{:?}", other),
    }
    cache.store("kim@example.com", key_certs(&["kim@example.com"]), 0, 100);
    assert!(matches!(begin_lookup("kim@example.com", &cache, &index, &config, 10), LookupStart::Cached(_)));
    match begin_lookup("joe.doe@example.org", &cache, &index, &config, 10) {
        LookupStart::Remote(mut lookup, LookupStep::Fetch(url)) => {
            assert!(url.starts_with("https://openpgpkey.example.org/"));
            assert!(lookup.skips_errors());
            match lookup.on_outcome(FetchOutcome::Missing) {
                LookupStep::Fetch(u) => assert!(u.starts_with("https://example.org/")),
                other => panic!("{:?}", other),
            }
            match lookup.on_outcome(FetchOutcome::Error(KeyError::Transport("timeout".to_string()))) {
                LookupStep::Fetch(u) => assert!(u.starts_with("https://keys.openpgp.org/")),
                other => panic!("{:?}", other),
            }
            assert!(!lookup.skips_errors());
            match lookup.on_outcome(FetchOutcome::Missing) {
                LookupStep::Failed(KeyError::NoKeyFound(e)) => assert_eq!(e, "joe.doe@example.org"),
                other => panic!("{:?}", other),
            }
        },
        other => panic!("{:?}", other),
    }
}

#[test]
fn keyserver_errors_end_the_lookup() {
    let config = pgp_config(false, true);
    let cache = KeyCache::new();
    let index = KeyIndex::build(vec![]);
    match begin_lookup("leo@example.com", &cache, &index, &config, 0) {
        LookupStart::Remote(mut lookup, LookupStep::Fetch(url)) => {
            assert_eq!(url, "https://keys.openpgp.org/vks/v1/by-email/leo%40example.com");
            match lookup.on_outcome(FetchOutcome::Error(KeyError::HttpStatus(500, url))) {
                LookupStep::Failed(KeyError::HttpStatus(500, _)) => {},
                other => panic!("{:?}", other),
            }
        },
        other => panic!("{:?}", other),
    }
    let none = pgp_config(false, false);
    assert!(matches!(
        begin_lookup("leo@example.com", &cache, &index, &none, 0),
        LookupStart::Remote(_, LookupStep::Failed(KeyError::NoKeyFound(_)))
    ));
    match begin_lookup("mia@example.com", &cache, &index, &config, 0) {
        LookupStart::Remote(mut lookup, _) => {
            let certs = key_certs(&["mia@example.com"]);
            assert!(matches!(lookup.on_outcome(FetchOutcome::Certs(certs)), LookupStep::Found(_)));
        },
        other => panic!("{:?}", other),
    }
}

#[test]
fn encrypts_for_transport_keys() {
    let certs = key_certs(&["nina@example.com"]);
    let armored = encrypt_to_armored_message(b"hello", &certs).unwrap();
    let text = String::from_utf8(armored).unwrap();
    assert!(text.starts_with("-----BEGIN PGP MESSAGE-----\n"));
    assert!(text.ends_with("-----END PGP MESSAGE-----\n"));
    let (signing_only, _) = CertBuilder::new().add_userid("oscar@example.com").generate().unwrap();
    let no_key = parse_certs(&signing_only.to_vec().unwrap()).unwrap();
    let fingerprint = no_key[0].fingerprint().clone();
    match encrypt_to_armored_message(b"hello", &no_key) {
        Err(KeyError::NoTransportKey(f)) => assert_eq!(f, fingerprint),
        other => panic!("{:?}", other),
    }
    assert!(matches!(
        encrypt_to_armored_message(b"hello", &vec![]),
        Err(KeyError::Encryption(EncryptStage::Encryptor))
    ));
}

#[test]
fn encrypts_a_message_for_its_recipients() {
    let raw = b"From: s@example.com\r\nTo: pat@example.com\r\nSubject: hi\r\nContent-Type: text/plain\r\n\r\nsecret\r\n";
    let envelope = Envelope { mail_from: "s@example.com".to_string(), rcpt_to: vec!["pat@example.com".to_string()] };
    let (recipients, plaintext) = prepare_encryption(raw, &envelope, EncryptionMode::PgpMimeBody).unwrap();
    assert_eq!(recipients, vec!["pat@example.com".to_string()]);
    assert_eq!(plaintext, b"Content-Type: text/plain\r\n\r\nsecret\r\n".to_vec());
    assert!(matches!(
        finish_encryption(raw, &envelope, &plaintext, vec![]),
        Err(KeyError::NoCertificates)
    ));
    let bytes = cert_bytes(&["pat@example.com"]);
    let mut certs = parse_certs(&bytes).unwrap();
    certs.extend(parse_certs(&bytes).unwrap());
    let relay = finish_encryption(raw, &envelope, &plaintext, certs).unwrap();
    assert_eq!(relay.envelope.mail_from, "s@example.com");
    assert_eq!(relay.envelope.rcpt_to, vec!["pat@example.com".to_string()]);
    let text = String::from_utf8(relay.data).unwrap();
    assert!(text.starts_with("From: s@example.com\r\nTo: pat@example.com\r\nSubject: hi\r\nMIME-Version: 1.0\r\n"));
    assert!(text.contains("-----BEGIN PGP MESSAGE-----"));
    assert!(!text.contains("secret\r\n"));
    let empty = Envelope { mail_from: String::new(), rcpt_to: vec![] };
    assert!(matches!(
        prepare_encryption(b"Subject: x\r\n\r\nhi", &empty, EncryptionMode::FullMessage),
        Err(KeyError::Message(_))
    ));
}

#[test]
fn certificates_are_read_in_order() {
    let mut bytes = cert_bytes(&["first@example.com"]);
    bytes.extend(cert_bytes(&["second@example.com"]));
    let certs = parse_certs(&bytes).unwrap();
    assert_eq!(certs.len(), 2);
    assert_eq!(certs[0].emails().clone(), vec!["first@example.com".to_string()]);
    assert_eq!(certs[1].emails().clone(), vec!["second@example.com".to_string()]);
}

#[test]
fn successful_lookups_are_cached_for_the_ttl() {
    let mut cache = KeyCache::new();
    let certs = key_certs(&["judy@example.com"]);
    cache_success(&mut cache, "judy@example.com", &certs, 1_000, 2);
    assert_eq!(cache.lookup("judy@example.com", 2_999).unwrap().len(), 1);
    assert!(cache.lookup("judy@example.com", 3_000).is_none());
}

#[test]
fn transport_keys_are_selected_per_certificate() {
    let (signing_only, _) = CertBuilder::new().add_userid("oscar@example.com").generate().unwrap();
    let mut bytes = cert_bytes(&["kate@example.com"]);
    bytes.extend(signing_only.to_vec().unwrap());
    bytes.extend(cert_bytes(&["liam@example.com"]));
    let certs = parse_certs(&bytes).unwrap();
    let policy = StandardPolicy::new();
    let selected: Vec<Vec<Recipient>> = certs.iter().map(|c| transport_keys(c, &policy)).collect();
    assert_eq!(selected[1].len(), 0);
    match select_transport_keys(&certs, selected) {
        Err(KeyError::NoTransportKey(f)) => assert_eq!(&f, certs[1].fingerprint()),
        other => panic!("{:?}", other.map(|v| v.len())),
    }
    let good = vec![duplicate_certs(&certs).remove(0), duplicate_certs(&certs).remove(2)];
    let selected: Vec<Vec<Recipient>> = good.iter().map(|c| transport_keys(c, &policy)).collect();
    let total: usize = selected.iter().map(|v| v.len()).sum();
    assert!(total >= 2);
    assert_eq!(select_transport_keys(&good, selected).map(|v| v.len()).ok(), Some(total));
}

#[test]
fn zbase32_concatenates_on_whole_groups() {
    let alphabet = "ybndrfg8ejkmcpqxot1uwisza345h769";
    let a = [0x12u8, 0x34, 0x56, 0x78, 0x9a];
    let b = [0xffu8, 0x00, 0x7f];
    let mut ab = a.to_vec();
    ab.extend_from_slice(&b);
    assert_eq!(encode_zbase32(&ab), format!("{}{}", encode_zbase32(&a), encode_zbase32(&b)));
    for n in 0..12usize {
        let bytes: Vec<u8> = (0..n).map(|i| (i * 37 + 11) as u8).collect();
        let encoded = encode_zbase32(&bytes);
        assert_eq!(encoded.chars().count(), (8 * n + 4) / 5);
        assert!(encoded.chars().all(|c| alphabet.contains(c)));
    }
}

#[test]
fn encrypts_for_the_certificates_of_every_recipient() {
    let raw = b"From: s@example.com\r\nTo: a@example.com, b@example.com\r\n\r\nbody\r\n";
    let envelope = Envelope {
        mail_from: "s@example.com".to_string(),
        rcpt_to: vec!["a@example.com".to_string(), "b@example.com".to_string()],
    };
    let found = vec![key_certs(&["a@example.com"]), key_certs(&["b@example.com"])];
    let relay = encrypt_for_recipients(raw, &envelope, EncryptionMode::FullMessage, found).unwrap();
    assert_eq!(relay.envelope.rcpt_to, envelope.rcpt_to);
    assert!(String::from_utf8(relay.data).unwrap().contains("-----BEGIN PGP MESSAGE-----"));
    assert!(matches!(
        encrypt_for_recipients(raw, &envelope, EncryptionMode::FullMessage, vec![vec![], vec![]]),
        Err(KeyError::NoCertificates)
    ));
}
