use sendmail_sec::tls::extra_root_certificates;

fn pem(body: &str) -> Vec<u8> {
    format!("-----BEGIN CERTIFICATE-----\n{body}\n-----END CERTIFICATE-----\n").into_bytes()
}

#[test]
fn extra_roots_are_read_file_by_file() {
    let mut first = pem("AQID");
    first.extend(pem("BAU="));
    let files = vec![first, Vec::new(), pem("Bgc=")];
    assert_eq!(
        extra_root_certificates(&files),
        Ok(vec![vec![1u8, 2, 3], vec![4u8, 5], vec![6u8, 7]])
    );
}

#[test]
fn first_unparsable_file_is_reported() {
    let files = vec![pem("AQID"), pem("!!!!"), pem("also bad")];
    assert_eq!(extra_root_certificates(&files), Err(1));
    assert_eq!(extra_root_certificates(&Vec::new()), Ok(Vec::new()));
}
