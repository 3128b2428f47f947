//! OpenPGP key lookup and encryption: lookup addresses, WKD and keyserver URLs, the
//! certificates found for a recipient, the key cache and index, and the encryption of a
//! message for its recipients.
use sequoia_openpgp::armor::Kind;
use sequoia_openpgp::parse::Parse;
use sequoia_openpgp::serialize::stream::{Armorer, Encryptor, LiteralWriter, Message, Recipient};
use std::io::Write;
use vstd::prelude::*;
use vstd::utf8::encode_utf8;

use crate::config::{EncryptionMode, OpenPgpConfig};
use crate::message::{
    build_encrypted_message, collect_encryption_recipients, encrypted_message_spec, normalized_email,
    encryption_recipients_spec, header_blocks_spec, is_simple_uuid, normalize_crlf_spec,
    plaintext_for_encryption, plaintext_spec, split_message_spec, Envelope, MessageError,
    RelayMessage,
};

use crate::text::{
    append_chars, clone_strings, lower_chars, str_chars, str_is, string_from_chars, to_lower_chars,
    trim, trim_chars, trim_matches, trim_matches_chars,
};

verus! {

/// Why a key could not be found or a message could not be encrypted.
#[derive(Debug)]
pub enum KeyError {
    /// Not an address with a local part and a domain; holds the address.
    InvalidEmail(String),
    /// No key source knows the recipient; holds the recipient.
    NoKeyFound(String),
    /// None of the recipients has a certificate.
    NoCertificates,
    /// A certificate without a usable encryption key; holds its fingerprint.
    NoTransportKey(String),
    /// The OpenPGP stream could not be set up or written.
    Encryption(EncryptStage),
    /// A key server answered with an unexpected HTTP status; holds the status and the URL.
    HttpStatus(u16, String),
    /// The certificates served at the URL could not be parsed.
    InvalidCertificates(String),
    /// Certificates were served at the URL, but none names the recipient.
    NoMatchingCertificate(String, String),
    /// The request itself failed; holds the reason.
    Transport(String),
    /// The message could not be taken apart.
    Message(crate::message::MessageError),
}

/// The step of building the encrypted stream that failed.
#[derive(Debug, Clone, Copy, PartialEq, Eq, Structural)]
pub enum EncryptStage {
    Armor,
    Encryptor,
    LiteralWriter,
    Write,
    Finalize,
}

/// Index of the last `c` in `s`.
pub open spec fn last_index_of(s: Seq<char>, c: char) -> Option<int>
    decreases s.len(),
{
    if s.len() == 0 {
        None
    } else if s.last() == c {
        Some(s.len() - 1)
    } else {
        last_index_of(s.drop_last(), c)
    }
}

/// The local part and the domain of an address, split at its last '@'; neither may be
/// empty.
pub open spec fn split_email_spec(email: Seq<char>) -> Option<(Seq<char>, Seq<char>)> {
    match last_index_of(email, '@') {
        None => None,
        Some(k) => if k == 0 || k == email.len() - 1 {
            None
        } else {
            Some((email.take(k), email.skip(k + 1)))
        },
    }
}

proof fn lemma_last_index_bounds(s: Seq<char>, c: char)
    ensures
        last_index_of(s, c) matches Some(k) ==> 0 <= k < s.len() && s[k] == c,
        forall|j: int|
            #![trigger s[j]]
            (match last_index_of(s, c) {
                Some(k) => k < j,
                None => 0 <= j,
            }) && j < s.len() ==> s[j] != c,
    decreases s.len(),
{
    if s.len() > 0 && s.last() != c {
        lemma_last_index_bounds(s.drop_last(), c);
        assert forall|j: int|
            #![trigger s[j]]
            (match last_index_of(s, c) {
                Some(k) => k < j,
                None => 0 <= j,
            }) && j < s.len() implies s[j] != c by {
            if j < s.len() - 1 {
                assert(s.drop_last()[j] == s[j]);
            }
        }
    }
}

/// Splits an address into local part and domain at its last '@'.
pub fn split_email(email: &str) -> (r: Result<(String, String), KeyError>)
    ensures
        match split_email_spec(email@) {
            Some((l, d)) => r matches Ok(p) && p.0@ == l && p.1@ == d,
            None => r matches Err(KeyError::InvalidEmail(e)) && e@ == email@,
        },
{
    let v = str_chars(email);
    let mut k = v.len();
    proof {
        lemma_last_index_bounds(v@, '@');
    }
    assert(v@.take(k as int) =~= v@);
    while k > 0 && v[k - 1] != '@'
        invariant
            k <= v@.len(),
            last_index_of(v@, '@') == last_index_of(v@.take(k as int), '@'),
        decreases k,
    {
        assert(v@.take(k as int).drop_last() =~= v@.take(k - 1));
        k = k - 1;
    }
    if k == 0 {
        assert(v@.take(0) =~= Seq::<char>::empty());
        return Err(KeyError::InvalidEmail(string_from_chars(&v)));
    }
    let at = k - 1;
    assert(v@.take(k as int).last() == '@');
    if at == 0 || at == v.len() - 1 {
        return Err(KeyError::InvalidEmail(string_from_chars(&v)));
    }
    let local = crate::text::copy_range(&v, 0, at);
    let domain = crate::text::copy_range(&v, at + 1, v.len());
    assert(local@ =~= v@.take(at as int));
    assert(domain@ =~= v@.skip(at + 1));
    Ok((string_from_chars(&local), string_from_chars(&domain)))
}

/// The address as keys are looked up: trimmed, without enclosing '<' and '>', local part
/// and domain in ASCII lower case.
pub open spec fn lookup_email_spec(email: Seq<char>) -> Option<Seq<char>> {
    match split_email_spec(lookup_trimmed(email)) {
        None => None,
        Some((l, d)) => Some(lower_chars(l) + seq!['@'] + lower_chars(d)),
    }
}

/// The address with white space and enclosing angle brackets removed.
pub open spec fn lookup_trimmed(email: Seq<char>) -> Seq<char> {
    trim_matches(trim_matches(trim(email), '<'), '>')
}

/// A lookup address is refused exactly when the trimmed address has no '@', or nothing
/// before or after its last '@'; an accepted one is the address as `normalize_email` gives it.
pub proof fn law_lookup_email_is_normalized(email: Seq<char>)
    ensures
        lookup_email_spec(email) is None <==> match last_index_of(lookup_trimmed(email), '@') {
            None => true,
            Some(k) => k == 0 || k == lookup_trimmed(email).len() - 1,
        },
        lookup_email_spec(email) matches Some(n) ==> n == normalized_email(email),
{
    let t = lookup_trimmed(email);
    lemma_last_index_bounds(t, '@');
    if let Some(k) = last_index_of(t, '@') {
        if k != 0 && k != t.len() - 1 {
            let l = t.take(k);
            let d = t.skip(k + 1);
            assert(t =~= l + seq!['@'] + d);
            assert(lower_chars(l + seq!['@'] + d) =~= lower_chars(l) + seq!['@'] + lower_chars(d));
        }
    }
}

/// Normalizes an address for key lookup.
pub fn normalize_lookup_email(email: &str) -> (r: Result<String, KeyError>)
    ensures
        match lookup_email_spec(email@) {
            Some(n) => r matches Ok(s) && s@ == n,
            None => r matches Err(KeyError::InvalidEmail(e)) && e@ == lookup_trimmed(email@),
        },
{
    let v = str_chars(email);
    let t = trim_chars(&v);
    let a = trim_matches_chars(&t, '<');
    let b = trim_matches_chars(&a, '>');
    let trimmed = string_from_chars(&b);
    let (local, domain) = split_email(trimmed.as_str())?;
    let lv = str_chars(local.as_str());
    let dv = str_chars(domain.as_str());
    let mut out = to_lower_chars(&lv);
    out.push('@');
    let ld = to_lower_chars(&dv);
    let ghost before = out@;
    let mut i: usize = 0;
    while i < ld.len()
        invariant
            i <= ld@.len(),
            out@ == before + ld@.take(i as int),
        decreases ld@.len() - i,
    {
        out.push(ld[i]);
        i = i + 1;
        assert(out@ =~= before + ld@.take(i as int));
    }
    assert(ld@.take(i as int) =~= ld@);
    Ok(string_from_chars(&out))
}

/// The z-base-32 alphabet (RFC 6189).
pub open spec fn zbase32_alphabet() -> Seq<char> {
    "ybndrfg8ejkmcpqxot1uwisza345h769"@
}

/// Bit `k` of the bytes, most significant bit of each byte first; zero past the end.
pub open spec fn bit_at(b: Seq<u8>, k: int) -> u8 {
    if 0 <= k < 8 * b.len() {
        (b[k / 8] >> ((7 - k % 8) as u8)) & 1
    } else {
        0
    }
}

/// The value of the five bits from bit `5 * g` on.
pub open spec fn zbase32_group(b: Seq<u8>, g: int) -> int {
    16 * bit_at(b, 5 * g) + 8 * bit_at(b, 5 * g + 1) + 4 * bit_at(b, 5 * g + 2) + 2 * bit_at(
        b,
        5 * g + 3,
    ) + bit_at(b, 5 * g + 4)
}

/// Number of z-base-32 characters for `n` bytes: one per five bits, the last one padded.
pub open spec fn zbase32_len(n: nat) -> nat {
    (8 * n + 4) / 5
}

/// The z-base-32 encoding of the bytes: each group of five bits (the last one padded with
/// zero bits) becomes one character of the alphabet.
pub open spec fn zbase32_spec(b: Seq<u8>) -> Seq<char> {
    Seq::new(zbase32_len(b.len()), |g: int| zbase32_alphabet()[zbase32_group(b, g)])
}

proof fn lemma_bit_concat_left(a: Seq<u8>, b: Seq<u8>, k: int)
    requires
        0 <= k < 8 * a.len(),
    ensures
        bit_at(a + b, k) == bit_at(a, k),
{
    assert(k / 8 < a.len()) by (nonlinear_arith)
        requires
            0 <= k < 8 * a.len(),
    ;
    assert((a + b)[k / 8] == a[k / 8]);
}

proof fn lemma_bit_concat_right(a: Seq<u8>, b: Seq<u8>, k: int)
    requires
        0 <= k,
    ensures
        bit_at(a + b, 8 * a.len() + k) == bit_at(b, k),
{
    let n = a.len() as int;
    assert((8 * n + k) / 8 == n + k / 8 && (8 * n + k) % 8 == k % 8) by (nonlinear_arith)
        requires
            0 <= k,
            0 <= n,
    ;
    if k < 8 * b.len() {
        assert(k / 8 < b.len()) by (nonlinear_arith)
            requires
                0 <= k < 8 * b.len(),
        ;
        assert((a + b)[n + k / 8] == b[k / 8]);
    }
}

proof fn lemma_bit_at_le_one(b: Seq<u8>, k: int)
    ensures
        bit_at(b, k) <= 1,
{
    if 0 <= k < 8 * b.len() {
        let x = b[k / 8];
        let sh = (7 - k % 8) as u8;
        assert((x >> sh) & 1 <= 1) by (bit_vector);
    }
}

/// The z-base-32 encoding has one character per five bits (the last padded), each from the
/// alphabet; and for a first part whose length is a multiple of five bytes (a whole number
/// of characters), encoding the concatenation concatenates the encodings.
pub proof fn law_zbase32_concat(a: Seq<u8>, b: Seq<u8>)
    ensures
        zbase32_spec(a).len() == (8 * a.len() + 4) / 5,
        forall|i: int|
            0 <= i < zbase32_spec(a).len() ==> zbase32_alphabet().contains(
                #[trigger] zbase32_spec(a)[i],
            ),
        a.len() % 5 == 0 ==> zbase32_spec(a + b) == zbase32_spec(a) + zbase32_spec(b),
{
    assert(zbase32_alphabet().len() == 32) by {
        reveal_strlit("ybndrfg8ejkmcpqxot1uwisza345h769");
    }
    assert forall|i: int| 0 <= i < zbase32_spec(a).len() implies zbase32_alphabet().contains(
        #[trigger] zbase32_spec(a)[i],
    ) by {
        lemma_bit_at_le_one(a, 5 * i);
        lemma_bit_at_le_one(a, 5 * i + 1);
        lemma_bit_at_le_one(a, 5 * i + 2);
        lemma_bit_at_le_one(a, 5 * i + 3);
        lemma_bit_at_le_one(a, 5 * i + 4);
        let v = zbase32_group(a, i);
        assert(0 <= v < 32);
        assert(zbase32_alphabet()[v] == zbase32_spec(a)[i]);
    }
    if a.len() % 5 == 0 {
        let m = a.len() / 5;
        let la = zbase32_len(a.len());
        let lb = zbase32_len(b.len());
        assert(la == 8 * m && zbase32_len((a + b).len()) == 8 * m + lb && 8 * a.len() == 40 * m)
            by (nonlinear_arith)
            requires
                a.len() == 5 * m,
                m >= 0,
                la == (8 * a.len() + 4) / 5,
                lb == (8 * b.len() + 4) / 5,
                zbase32_len((a + b).len()) == (8 * (a.len() + b.len()) + 4) / 5,
        ;
        assert forall|g: int| 0 <= g < la implies zbase32_group(a + b, g) == zbase32_group(a, g) by {
            lemma_bit_concat_left(a, b, 5 * g);
            lemma_bit_concat_left(a, b, 5 * g + 1);
            lemma_bit_concat_left(a, b, 5 * g + 2);
            lemma_bit_concat_left(a, b, 5 * g + 3);
            lemma_bit_concat_left(a, b, 5 * g + 4);
        }
        assert forall|h: int| 0 <= h < lb implies zbase32_group(a + b, la + h) == zbase32_group(
            b,
            h,
        ) by {
            assert(5 * (la + h) == 8 * a.len() + 5 * h);
            lemma_bit_concat_right(a, b, 5 * h);
            lemma_bit_concat_right(a, b, 5 * h + 1);
            lemma_bit_concat_right(a, b, 5 * h + 2);
            lemma_bit_concat_right(a, b, 5 * h + 3);
            lemma_bit_concat_right(a, b, 5 * h + 4);
        }
        assert(zbase32_spec(a + b) =~= zbase32_spec(a) + zbase32_spec(b));
    }
}

fn bit_of(b: &[u8], k: u128) -> (r: u8)
    ensures
        r == bit_at(b@, k as int),
        r <= 1,
{
    if k < (b.len() as u128) * 8 {
        let byte = b[(k / 8) as usize];
        let shift = (7 - k % 8) as u8;
        let r = (byte >> shift) & 1;
        assert(r <= 1) by (bit_vector)
            requires
                r == (byte >> shift) & 1,
        ;
        r
    } else {
        0
    }
}

/// Encodes bytes in z-base-32.
pub fn encode_zbase32(bytes: &[u8]) -> (r: String)
    ensures
        r@ == zbase32_spec(bytes@),
{
    let alphabet = str_chars("ybndrfg8ejkmcpqxot1uwisza345h769");
    proof {
        reveal_strlit("ybndrfg8ejkmcpqxot1uwisza345h769");
    }
    assert(alphabet@.len() == 32);
    let n: usize = bytes.len();
    let groups: u128 = ((n as u128) * 8 + 4) / 5;
    assert(groups <= (n as u128) * 8 + 4) by (nonlinear_arith)
        requires
            groups == ((n as u128) * 8 + 4) / 5,
    ;
    let mut out: Vec<char> = Vec::new();
    let mut g: u128 = 0;
    while g < groups
        invariant
            groups == zbase32_len(bytes@.len()),
            n == bytes@.len(),
            groups <= (n as u128) * 8 + 4,
            g <= groups,
            alphabet@ == zbase32_alphabet(),
            alphabet@.len() == 32,
            out@.len() == g,
            forall|j: int| 0 <= j < g ==> out@[j] == zbase32_alphabet()[zbase32_group(bytes@, j)],
        decreases groups - g,
    {
        let base = g * 5;
        let value = 16 * bit_of(bytes, base) + 8 * bit_of(bytes, base + 1) + 4 * bit_of(
            bytes,
            base + 2,
        ) + 2 * bit_of(bytes, base + 3) + bit_of(bytes, base + 4);
        out.push(alphabet[value as usize]);
        g = g + 1;
    }
    let r = string_from_chars(&out);
    assert(r@ =~= zbase32_spec(bytes@));
    r
}

/// What the SHA-1 digest of `data` is (the `sha1` crate's `Sha1::digest`).
pub uninterp spec fn sha1_digest_of(data: Seq<u8>) -> Seq<u8>;

/// Calls `Sha1::digest` of the `sha1` crate. Claims that the digest is a function of the
/// data (named `sha1_digest_of`) and, as SHA-1's output size is, 20 bytes long.
#[verifier::external_body]
fn sha1_digest(data: &[u8]) -> (r: Vec<u8>)
    ensures
        r@ == sha1_digest_of(data@),
        r@.len() == 20,
{
    <sha1::Sha1 as sha1::Digest>::digest(data).to_vec()
}

/// The WKD hash of a local part: z-base-32 of its SHA-1 digest.
pub open spec fn wkd_hash(local: Seq<char>) -> Seq<char> {
    zbase32_spec(sha1_digest_of(encode_utf8(local)))
}

/// The WKD hash of `value` (always 32 characters).
pub fn zbase32_sha1(value: &str) -> (r: String)
    ensures
        r@ == wkd_hash(value@),
        r@.len() == 32,
{
    let mut data: Vec<u8> = Vec::new();
    crate::text::push_str(&mut data, value);
    let digest = sha1_digest(&data);
    encode_zbase32(&digest)
}

/// The bytes that `urlencoding` leaves as they are: ASCII letters, digits, '-', '.', '_'
/// and '~'.
pub open spec fn url_unreserved(b: u8) -> bool {
    (48 <= b <= 57) || (65 <= b <= 90) || (97 <= b <= 122) || b == 45 || b == 46 || b == 95
        || b == 126
}

/// An upper-case hexadecimal digit.
pub open spec fn hex_digit(d: u8) -> char {
    if d < 10 {
        (48 + d) as char
    } else {
        (55 + d) as char
    }
}

/// `urlencoding::encode`: each unreserved byte as itself, every other byte as '%' and two
/// upper-case hexadecimal digits.
pub open spec fn percent_encoded(bytes: Seq<u8>) -> Seq<char>
    decreases bytes.len(),
{
    if bytes.len() == 0 {
        Seq::empty()
    } else {
        let b = bytes[0];
        (if url_unreserved(b) {
            seq![b as char]
        } else {
            seq!['%', hex_digit(b / 16), hex_digit(b % 16)]
        }) + percent_encoded(bytes.drop_first())
    }
}

/// Calls `urlencoding::encode`, which percent-encodes the UTF-8 bytes of `s` as
/// `percent_encoded` states (the crate's `encode_into`).
#[verifier::external_body]
fn url_encode(s: &str) -> (r: String)
    ensures
        r@ == percent_encoded(encode_utf8(s@)),
{
    urlencoding::encode(s).into_owned()
}

/// The WKD URL of the direct method.
pub open spec fn wkd_direct_url(local: Seq<char>, domain: Seq<char>) -> Seq<char> {
    "https://"@ + domain + "/.well-known/openpgpkey/hu/"@ + wkd_hash(local) + "?l="@
        + percent_encoded(encode_utf8(local))
}

/// The WKD URL of the advanced method.
pub open spec fn wkd_advanced_url(local: Seq<char>, domain: Seq<char>) -> Seq<char> {
    "https://openpgpkey."@ + domain + "/.well-known/openpgpkey/"@ + domain + "/hu/"@ + wkd_hash(
        local,
    ) + "?l="@ + percent_encoded(encode_utf8(local))
}

/// The keys.openpgp.org URL that looks a certificate up by address.
pub open spec fn keyserver_url(email: Seq<char>) -> Seq<char> {
    "https://keys.openpgp.org/vks/v1/by-email/"@ + percent_encoded(encode_utf8(email))
}

/// The two WKD URLs of an address, advanced method first.
pub fn wkd_urls(recipient: &str) -> (r: Result<(String, String), KeyError>)
    ensures
        match split_email_spec(recipient@) {
            Some((l, d)) => r matches Ok(u) && u.0@ == wkd_advanced_url(l, d) && u.1@
                == wkd_direct_url(l, d),
            None => r matches Err(KeyError::InvalidEmail(e)) && e@ == recipient@,
        },
{
    let (local, domain) = split_email(recipient)?;
    let hash = zbase32_sha1(local.as_str());
    let encoded = url_encode(local.as_str());
    let mut direct: Vec<char> = Vec::new();
    append_chars(&mut direct, "https://");
    append_chars(&mut direct, domain.as_str());
    append_chars(&mut direct, "/.well-known/openpgpkey/hu/");
    append_chars(&mut direct, hash.as_str());
    append_chars(&mut direct, "?l=");
    append_chars(&mut direct, encoded.as_str());
    let mut advanced: Vec<char> = Vec::new();
    append_chars(&mut advanced, "https://openpgpkey.");
    append_chars(&mut advanced, domain.as_str());
    append_chars(&mut advanced, "/.well-known/openpgpkey/");
    append_chars(&mut advanced, domain.as_str());
    append_chars(&mut advanced, "/hu/");
    append_chars(&mut advanced, hash.as_str());
    append_chars(&mut advanced, "?l=");
    append_chars(&mut advanced, encoded.as_str());
    Ok((string_from_chars(&advanced), string_from_chars(&direct)))
}

/// The keys.openpgp.org URL for an address.
pub fn keys_openpgp_org_url(recipient: &str) -> (r: String)
    ensures
        r@ == keyserver_url(recipient@),
{
    let encoded = url_encode(recipient);
    let mut url: Vec<char> = Vec::new();
    append_chars(&mut url, "https://keys.openpgp.org/vks/v1/by-email/");
    append_chars(&mut url, encoded.as_str());
    string_from_chars(&url)
}


#[verifier::external_type_specification]
#[verifier::external_body]
pub struct ExCert(sequoia_openpgp::Cert);

#[verifier::external_type_specification]
#[verifier::external_body]
pub struct ExStandardPolicy<'a>(sequoia_openpgp::policy::StandardPolicy<'a>);

#[verifier::external_type_specification]
#[verifier::external_body]
pub struct ExRecipient<'a>(Recipient<'a>);

/// The certificates that sequoia's `CertParser` reads from the bytes, in order, or `None`
/// when the bytes hold anything that is not a valid certificate.
pub uninterp spec fn certs_in(data: Seq<u8>) -> Option<Seq<sequoia_openpgp::Cert>>;

/// The text that `Display` writes for a certificate's fingerprint.
pub uninterp spec fn fingerprint_text(cert: sequoia_openpgp::Cert) -> Seq<char>;

/// For each user ID of the certificate, in order, the address that
/// `UserID::email_normalized` finds in it, if it finds one.
pub uninterp spec fn user_id_addresses(cert: sequoia_openpgp::Cert) -> Seq<Option<Seq<char>>>;

/// Calls `PacketParser::from_bytes` and collects the certificates that `CertParser` reads
/// from it; `None` when either fails. The result is named `certs_in`: parsing depends on
/// the bytes alone.
#[verifier::external_body]
fn parse_cert_list(data: &[u8]) -> (r: Option<Vec<sequoia_openpgp::Cert>>)
    ensures
        match r {
            Some(v) => certs_in(data@) == Some(v@),
            None => certs_in(data@) is None,
        },
{
    let parser = sequoia_openpgp::parse::PacketParser::from_bytes(data).ok()?;
    sequoia_openpgp::cert::CertParser::from(parser).collect::<sequoia_openpgp::Result<Vec<_>>>().ok()
}

/// Calls `Cert::fingerprint` and formats it with `Display`; the text is named
/// `fingerprint_text`.
#[verifier::external_body]
fn cert_fingerprint(cert: &sequoia_openpgp::Cert) -> (r: String)
    ensures
        r@ == fingerprint_text(*cert),
{
    cert.fingerprint().to_string()
}

/// Calls `Cert::userids` and, for each user ID, `UserID::email_normalized`, with `None`
/// where it fails or finds no address; the list is named `user_id_addresses`.
#[verifier::external_body]
fn cert_user_emails(cert: &sequoia_openpgp::Cert) -> (r: Vec<Option<String>>)
    ensures
        option_views(r@) == user_id_addresses(*cert),
{
    cert.userids().map(|u| u.userid().email_normalized().ok().flatten()).collect()
}

/// Calls `Cert::clone`, which `Cert` derives: the copy equals the certificate it was made
/// from.
#[verifier::external_body]
fn clone_cert(cert: &sequoia_openpgp::Cert) -> (r: sequoia_openpgp::Cert)
    ensures
        r == *cert,
{
    cert.clone()
}

/// Calls `StandardPolicy::new`.
#[verifier::external_body]
fn standard_policy() -> (r: sequoia_openpgp::policy::StandardPolicy<'static>) {
    sequoia_openpgp::policy::StandardPolicy::new()
}

/// The key ID of the recipient's key handle (`Recipient::key_handle`, turned into a
/// `KeyID`), as bytes; `None` when the recipient has no handle.
pub uninterp spec fn recipient_key_id(recipient: Recipient<'_>) -> Option<Seq<u8>>;

/// The key IDs (`Key::keyid`, as bytes) of all the keys of the certificate (`Cert::keys`),
/// in order.
pub uninterp spec fn cert_key_ids(cert: sequoia_openpgp::Cert) -> Seq<Seq<u8>>;

/// The recipient stands for one of the certificate's keys.
pub open spec fn key_of_cert(recipient: Recipient<'_>, cert: sequoia_openpgp::Cert) -> bool {
    recipient_key_id(recipient) matches Some(id) && cert_key_ids(cert).contains(id)
}

/// Calls `Cert::keys` with the policy at the current time, keeping the supported, live,
/// unrevoked keys for transport encryption, each as a `Recipient` (`Recipient::from`, whose
/// handle is the key's fingerprint or key ID). Which keys qualify depends on the clock and is
/// not stated; each of them is a key of the certificate.
#[verifier::external_body]
fn transport_recipients<'a>(
    cert: &'a sequoia_openpgp::Cert,
    policy: &'a sequoia_openpgp::policy::StandardPolicy<'static>,
) -> (r: Vec<Recipient<'a>>)
    ensures
        forall|k: int|
            0 <= k < r@.len() ==> (recipient_key_id(#[trigger] r@[k]) matches Some(id)
                && cert_key_ids(*cert).contains(id)),
{
    cert.keys().with_policy(policy, None).supported().alive().revoked(false)
        .for_transport_encryption().map(Recipient::from)
        .collect()
}

/// The bytes of an ASCII text.
pub open spec fn ascii_bytes(s: Seq<char>) -> Seq<u8> {
    s.map_values(|c: char| c as u8)
}

/// Whether the bytes are an ASCII-armored OpenPGP message: they begin with the armor's
/// BEGIN line and end with its END line.
pub open spec fn is_armored_message(b: Seq<u8>) -> bool {
    let begin = ascii_bytes("-----BEGIN PGP MESSAGE-----\n"@);
    let end = ascii_bytes("-----END PGP MESSAGE-----\n"@);
    &&& begin.len() + end.len() <= b.len()
    &&& b.take(begin.len() as int) == begin
    &&& b.skip(b.len() - end.len()) == end
}

/// The literal data that decrypting the OpenPGP message with the secret key behind the
/// recipient's public key yields, or `None` when that key cannot decrypt it.
pub uninterp spec fn decryption_with(message: Seq<u8>, recipient: Recipient<'_>) -> Option<Seq<u8>>;

/// Writes `plaintext` as a literal data packet through an `Encryptor` for the recipients
/// inside an ASCII-armored `Message` (sequoia's streaming serializer), returning the armored
/// text or the step that failed. With no recipient, `Encryptor::build` refuses (the armor
/// writer before it only fills a buffer); what is written otherwise begins with the armor's
/// BEGIN line and, once finalized, ends with its END line, and each recipient's key decrypts
/// it to the plaintext (a session key encrypted to every recipient protects one literal data
/// packet). The ciphertext itself uses a random session key and is not stated, nor when the
/// other steps fail.
#[verifier::external_body]
fn encrypt_armored(
    plaintext: &[u8],
    recipients: Vec<Recipient<'_>>,
) -> (r: Result<Vec<u8>, EncryptStage>)
    ensures
        recipients@.len() == 0 ==> r matches Err(EncryptStage::Encryptor),
        r matches Ok(out) ==> is_armored_message(out@) && forall|k: int|
            0 <= k < recipients@.len() ==> decryption_with(out@, #[trigger] recipients@[k])
                == Some(plaintext@),
{
    let mut output = Vec::new();
    let message = Armorer::new(Message::new(&mut output)).kind(Kind::Message).build().map_err(
        |_| EncryptStage::Armor,
    )?;
    let message = Encryptor::for_recipients(message, recipients).build().map_err(
        |_| EncryptStage::Encryptor,
    )?;
    let mut writer = LiteralWriter::new(message).build().map_err(|_| EncryptStage::LiteralWriter)?;
    writer.write_all(plaintext).map_err(|_| EncryptStage::Write)?;
    writer.finalize().map_err(|_| EncryptStage::Finalize)?;
    Ok(output)
}

/// A certificate with what the key logic reads of it: its fingerprint and the normalized
/// addresses of its user IDs.
#[derive(Debug)]
pub struct KeyCert {
    cert: sequoia_openpgp::Cert,
    fingerprint: String,
    emails: Vec<String>,
}

pub ghost struct KeyCertView {
    pub cert: sequoia_openpgp::Cert,
    pub fingerprint: Seq<char>,
    pub emails: Seq<Seq<char>>,
}

impl View for KeyCert {
    type V = KeyCertView;

    closed spec fn view(&self) -> KeyCertView {
        KeyCertView {
            cert: self.cert,
            fingerprint: self.fingerprint@,
            emails: self.emails.deep_view(),
        }
    }
}

/// The values present in the list, in order.
pub open spec fn present(v: Seq<Option<Seq<char>>>) -> Seq<Seq<char>>
    decreases v.len(),
{
    if v.len() == 0 {
        Seq::empty()
    } else {
        match v.last() {
            Some(s) => present(v.drop_last()).push(s),
            None => present(v.drop_last()),
        }
    }
}

pub open spec fn option_views(v: Seq<Option<String>>) -> Seq<Option<Seq<char>>> {
    v.map_values(|o: Option<String>| match o {
        Some(s) => Some(s@),
        None => None,
    })
}

fn present_strings(v: Vec<Option<String>>) -> (r: Vec<String>)
    ensures
        r.deep_view() == present(option_views(v@)),
{
    let ghost all = option_views(v@);
    let mut out: Vec<String> = Vec::new();
    let mut rest = v;
    let ghost mut taken: int = 0;
    assert(all.take(0) =~= Seq::<Option<Seq<char>>>::empty());
    assert(option_views(rest@) =~= all.skip(0));
    while rest.len() > 0
        invariant
            0 <= taken <= all.len(),
            option_views(rest@) == all.skip(taken),
            out.deep_view() == present(all.take(taken)),
        decreases rest@.len(),
    {
        assert(taken < all.len()) by {
            assert(option_views(rest@).len() == rest@.len());
        }
        let ghost rest_before = rest@;
        let item = rest.remove(0);
        assert(all.take(taken + 1).drop_last() =~= all.take(taken));
        assert(all[taken] == option_views(rest@.insert(0, item))[0]) by {
            assert(all.skip(taken)[0] == all[taken]);
        }
        let ghost before = out.deep_view();
        match item {
            Some(s) => {
                out.push(s);
                assert(out.deep_view() =~= before.push(s@));
            },
            None => {},
        }
        proof {
            assert(rest@ =~= rest_before.subrange(1, rest_before.len() as int));
            assert(option_views(rest_before).len() == rest_before.len());
            taken = taken + 1;
            assert forall|j: int| 0 <= j < rest@.len() implies #[trigger] option_views(rest@)[j]
                == all.skip(taken)[j] by {
                assert(rest@[j] == rest_before[j + 1]);
                assert(option_views(rest_before)[j + 1] == all.skip(taken - 1)[j + 1]);
                assert(all.skip(taken - 1)[j + 1] == all.skip(taken)[j]);
            }
            assert(option_views(rest@) =~= all.skip(taken));
        }
    }
    assert(all.take(taken) =~= all);
    out
}

/// What the library reads of a certificate: the certificate, its fingerprint's text, and the
/// addresses of its user IDs.
pub open spec fn key_cert_view(cert: sequoia_openpgp::Cert) -> KeyCertView {
    KeyCertView {
        cert,
        fingerprint: fingerprint_text(cert),
        emails: present(user_id_addresses(cert)),
    }
}

impl KeyCert {
    /// Reads the fingerprint and the user IDs' addresses of a certificate, as sequoia reports
    /// them (the addresses those that `UserID::email_normalized` finds, in user ID order).
    pub fn from_cert(cert: sequoia_openpgp::Cert) -> (r: KeyCert)
        ensures
            r@ == key_cert_view(cert),
    {
        let fingerprint = cert_fingerprint(&cert);
        let emails = present_strings(cert_user_emails(&cert));
        KeyCert { cert, fingerprint, emails }
    }

    /// The certificate.
    pub fn cert(&self) -> (r: &sequoia_openpgp::Cert)
        ensures
            *r == self@.cert,
    {
        &self.cert
    }

    /// The fingerprint's text.
    pub fn fingerprint(&self) -> (r: &String)
        ensures
            r@ == self@.fingerprint,
    {
        &self.fingerprint
    }

    /// The normalized addresses of the user IDs.
    pub fn emails(&self) -> (r: &Vec<String>)
        ensures
            r.deep_view() == self@.emails,
    {
        &self.emails
    }

    /// A copy of the certificate and what was read of it.
    pub fn duplicate(&self) -> (r: KeyCert)
        ensures
            r@ == self@,
    {
        KeyCert {
            cert: clone_cert(&self.cert),
            fingerprint: self.fingerprint.clone(),
            emails: clone_strings(&self.emails),
        }
    }
}

pub open spec fn cert_views(v: Seq<KeyCert>) -> Seq<KeyCertView> {
    v.map_values(|c: KeyCert| c@)
}

/// Whether the certificate names the address.
pub open spec fn names_email(c: KeyCertView, email: Seq<char>) -> bool {
    c.emails.contains(email)
}

/// The certificates that name the address, in order.
pub open spec fn matching_spec(cs: Seq<KeyCertView>, email: Seq<char>) -> Seq<KeyCertView>
    decreases cs.len(),
{
    if cs.len() == 0 {
        Seq::empty()
    } else if names_email(cs.last(), email) {
        matching_spec(cs.drop_last(), email).push(cs.last())
    } else {
        matching_spec(cs.drop_last(), email)
    }
}

pub open spec fn fingerprints(cs: Seq<KeyCertView>) -> Seq<Seq<char>> {
    cs.map_values(|c: KeyCertView| c.fingerprint)
}

/// The certificates without repeated fingerprints: the first of each is kept.
pub open spec fn dedup_spec(cs: Seq<KeyCertView>) -> Seq<KeyCertView>
    decreases cs.len(),
{
    if cs.len() == 0 {
        Seq::empty()
    } else {
        let d = dedup_spec(cs.drop_last());
        if fingerprints(d).contains(cs.last().fingerprint) {
            d
        } else {
            d.push(cs.last())
        }
    }
}

proof fn lemma_views_after_remove(
    before: Seq<KeyCert>,
    after: Seq<KeyCert>,
    all: Seq<KeyCertView>,
    taken: int,
)
    requires
        after == before.subrange(1, before.len() as int),
        cert_views(before) == all.skip(taken),
        0 <= taken < all.len(),
    ensures
        cert_views(after) == all.skip(taken + 1),
{
    assert(cert_views(before).len() == before.len());
    assert forall|j: int| 0 <= j < after.len() implies #[trigger] cert_views(after)[j] == all.skip(
        taken + 1,
    )[j] by {
        assert(after[j] == before[j + 1]);
        assert(cert_views(before)[j + 1] == all.skip(taken)[j + 1]);
        assert(all.skip(taken)[j + 1] == all.skip(taken + 1)[j]);
    }
    assert(cert_views(after) =~= all.skip(taken + 1));
}

/// Whether the certificate names the address.
pub fn cert_matches_email(cert: &KeyCert, recipient: &str) -> (r: bool)
    ensures
        r == names_email(cert@, recipient@),
{
    let ghost es = cert.emails.deep_view();
    let mut i: usize = 0;
    while i < cert.emails.len()
        invariant
            i <= cert.emails@.len(),
            es == cert.emails.deep_view(),
            forall|j: int| 0 <= j < i ==> es[j] != recipient@,
        decreases cert.emails@.len() - i,
    {
        if str_is(cert.emails[i].as_str(), recipient) {
            assert(es[i as int] == recipient@);
            return true;
        }
        i = i + 1;
    }
    false
}

/// The user IDs' normalized addresses of a certificate.
pub fn cert_userids(cert: &KeyCert) -> (r: Vec<String>)
    ensures
        r.deep_view() == cert@.emails,
{
    clone_strings(&cert.emails)
}

/// Keeps the certificates that name the recipient.
pub fn filter_certs_for_email(certs: Vec<KeyCert>, recipient: &str) -> (r: Vec<KeyCert>)
    ensures
        cert_views(r@) == matching_spec(cert_views(certs@), recipient@),
{
    let ghost all = cert_views(certs@);
    let mut out: Vec<KeyCert> = Vec::new();
    let mut rest = certs;
    let ghost mut taken: int = 0;
    assert(all.take(0) =~= Seq::<KeyCertView>::empty());
    assert(cert_views(rest@) =~= all.skip(0));
    assert(cert_views(out@) =~= Seq::<KeyCertView>::empty());
    while rest.len() > 0
        invariant
            0 <= taken <= all.len(),
            cert_views(rest@) == all.skip(taken),
            cert_views(out@) == matching_spec(all.take(taken), recipient@),
        decreases rest@.len(),
    {
        assert(taken < all.len()) by {
            assert(cert_views(rest@).len() == rest@.len());
        }
        let ghost rest_before = rest@;
        let c = rest.remove(0);
        assert(rest_before[0] == c);
        assert(all.skip(taken)[0] == all[taken]);
        assert(all.take(taken + 1).drop_last() =~= all.take(taken));
        assert(all.take(taken + 1).last() == all[taken]);
        let ghost before = out@;
        if cert_matches_email(&c, recipient) {
            out.push(c);
            assert(cert_views(out@) =~= cert_views(before).push(all[taken]));
        }
        proof {
            assert(rest@ =~= rest_before.subrange(1, rest_before.len() as int));
            lemma_views_after_remove(rest_before, rest@, all, taken);
            taken = taken + 1;
        }
    }
    assert(all.take(taken) =~= all);
    out
}

fn contains_string(v: &Vec<String>, s: &str) -> (r: bool)
    ensures
        r == v.deep_view().contains(s@),
{
    let ghost d = v.deep_view();
    let mut i: usize = 0;
    while i < v.len()
        invariant
            i <= v@.len(),
            d == v.deep_view(),
            forall|j: int| 0 <= j < i ==> d[j] != s@,
        decreases v@.len() - i,
    {
        if str_is(v[i].as_str(), s) {
            assert(d[i as int] == s@);
            return true;
        }
        i = i + 1;
    }
    false
}

/// Drops every certificate whose fingerprint came before.
pub fn deduplicate_certs(certs: Vec<KeyCert>) -> (r: Vec<KeyCert>)
    ensures
        cert_views(r@) == dedup_spec(cert_views(certs@)),
{
    let ghost all = cert_views(certs@);
    let mut seen: Vec<String> = Vec::new();
    let mut out: Vec<KeyCert> = Vec::new();
    let mut rest = certs;
    let ghost mut taken: int = 0;
    assert(all.take(0) =~= Seq::<KeyCertView>::empty());
    assert(cert_views(rest@) =~= all.skip(0));
    assert(cert_views(out@) =~= Seq::<KeyCertView>::empty());
    assert(seen.deep_view() =~= fingerprints(cert_views(out@)));
    while rest.len() > 0
        invariant
            0 <= taken <= all.len(),
            cert_views(rest@) == all.skip(taken),
            cert_views(out@) == dedup_spec(all.take(taken)),
            seen.deep_view() == fingerprints(cert_views(out@)),
        decreases rest@.len(),
    {
        assert(taken < all.len()) by {
            assert(cert_views(rest@).len() == rest@.len());
        }
        let ghost rest_before = rest@;
        let c = rest.remove(0);
        assert(rest_before[0] == c);
        assert(all.skip(taken)[0] == all[taken]);
        assert(all.take(taken + 1).drop_last() =~= all.take(taken));
        assert(all.take(taken + 1).last() == all[taken]);
        let ghost before = out@;
        if !contains_string(&seen, c.fingerprint.as_str()) {
            let ghost seen_before = seen.deep_view();
            seen.push(c.fingerprint.clone());
            out.push(c);
            assert(cert_views(out@) =~= cert_views(before).push(all[taken]));
            assert(seen.deep_view() =~= seen_before.push(all[taken].fingerprint));
            assert(seen.deep_view() =~= fingerprints(cert_views(out@)));
        }
        proof {
            assert(rest@ =~= rest_before.subrange(1, rest_before.len() as int));
            lemma_views_after_remove(rest_before, rest@, all, taken);
            taken = taken + 1;
        }
    }
    assert(all.take(taken) =~= all);
    out
}


/// No two certificates share a fingerprint.
pub open spec fn distinct_fingerprints(cs: Seq<KeyCertView>) -> bool {
    forall|i: int, j: int|
        0 <= i < j < cs.len() ==> #[trigger] cs[i].fingerprint != #[trigger] cs[j].fingerprint
}

proof fn lemma_fingerprints_push(cs: Seq<KeyCertView>, c: KeyCertView)
    ensures
        fingerprints(cs.push(c)) == fingerprints(cs).push(c.fingerprint),
        fingerprints(cs).len() == cs.len(),
{
    assert(fingerprints(cs.push(c)) =~= fingerprints(cs).push(c.fingerprint));
}

/// After deduplication no two certificates share a fingerprint, every fingerprint of the
/// input is still there, and every certificate comes from the input.
pub proof fn law_dedup_certs(cs: Seq<KeyCertView>)
    ensures
        distinct_fingerprints(dedup_spec(cs)),
        fingerprints(dedup_spec(cs)).to_set() == fingerprints(cs).to_set(),
        forall|k: int| 0 <= k < dedup_spec(cs).len() ==> cs.contains(#[trigger] dedup_spec(cs)[k]),
    decreases cs.len(),
{
    if cs.len() == 0 {
        assert(fingerprints(dedup_spec(cs)) =~= fingerprints(cs));
    } else {
        let p = cs.drop_last();
        let x = cs.last();
        law_dedup_certs(p);
        let d = dedup_spec(p);
        lemma_fingerprints_push(p, x);
        assert(cs =~= p.push(x));
        crate::text::lemma_push_to_set(fingerprints(p), x.fingerprint);
        if fingerprints(d).contains(x.fingerprint) {
            assert(fingerprints(d).to_set().contains(x.fingerprint));
            assert(fingerprints(cs).to_set() =~= fingerprints(d).to_set());
            assert forall|k: int| 0 <= k < d.len() implies cs.contains(#[trigger] d[k]) by {
                let i = choose|i: int| 0 <= i < p.len() && p[i] == d[k];
                assert(cs[i] == p[i]);
            }
        } else {
            lemma_fingerprints_push(d, x);
            crate::text::lemma_push_to_set(fingerprints(d), x.fingerprint);
            let e = d.push(x);
            assert forall|i: int, j: int| 0 <= i < j < e.len() implies #[trigger] e[i].fingerprint
                != #[trigger] e[j].fingerprint by {
                if j == d.len() {
                    assert(fingerprints(d)[i] == d[i].fingerprint);
                } else {
                    assert(e[i] == d[i] && e[j] == d[j]);
                }
            }
            assert forall|k: int| 0 <= k < e.len() implies cs.contains(#[trigger] e[k]) by {
                if k == d.len() {
                    assert(cs[cs.len() - 1] == x);
                } else {
                    assert(e[k] == d[k]);
                    let i = choose|i: int| 0 <= i < p.len() && p[i] == d[k];
                    assert(cs[i] == p[i]);
                }
            }
        }
    }
}

proof fn lemma_dedup_of_distinct(cs: Seq<KeyCertView>)
    requires
        distinct_fingerprints(cs),
    ensures
        dedup_spec(cs) == cs,
    decreases cs.len(),
{
    if cs.len() > 0 {
        let p = cs.drop_last();
        let x = cs.last();
        assert forall|i: int, j: int| 0 <= i < j < p.len() implies #[trigger] p[i].fingerprint
            != #[trigger] p[j].fingerprint by {
            assert(p[i] == cs[i] && p[j] == cs[j]);
        }
        lemma_dedup_of_distinct(p);
        if fingerprints(p).contains(x.fingerprint) {
            let i = choose|i: int| 0 <= i < fingerprints(p).len() && fingerprints(p)[i] == x.fingerprint;
            assert(cs[i].fingerprint == cs[cs.len() - 1].fingerprint);
        }
        assert(cs =~= p.push(x));
    }
}

/// Deduplicating twice gives what deduplicating once gives.
pub proof fn law_dedup_idempotent(cs: Seq<KeyCertView>)
    ensures
        dedup_spec(dedup_spec(cs)) == dedup_spec(cs),
{
    law_dedup_certs(cs);
    lemma_dedup_of_distinct(dedup_spec(cs));
}


/// A copy of each certificate.
pub fn duplicate_certs(certs: &Vec<KeyCert>) -> (r: Vec<KeyCert>)
    ensures
        cert_views(r@) == cert_views(certs@),
{
    let mut out: Vec<KeyCert> = Vec::new();
    let mut i: usize = 0;
    while i < certs.len()
        invariant
            i <= certs@.len(),
            cert_views(out@) == cert_views(certs@).take(i as int),
        decreases certs@.len() - i,
    {
        let ghost before = out@;
        out.push(certs[i].duplicate());
        assert(cert_views(out@) =~= cert_views(before).push(certs@[i as int]@));
        i = i + 1;
        assert(cert_views(out@) =~= cert_views(certs@).take(i as int));
    }
    assert(cert_views(certs@).take(i as int) =~= cert_views(certs@));
    out
}

/// What the index yields for an address: the certificates that name it, without repeated
/// fingerprints; nothing when none does.
pub open spec fn index_lookup_spec(certs: Seq<KeyCertView>, email: Seq<char>) -> Option<
    Seq<KeyCertView>,
> {
    if matching_spec(certs, email).len() == 0 {
        None
    } else {
        Some(dedup_spec(matching_spec(certs, email)))
    }
}

proof fn lemma_matching_nonempty(cs: Seq<KeyCertView>, email: Seq<char>)
    ensures
        matching_spec(cs, email).len() > 0 <==> exists|j: int|
            0 <= j < cs.len() && names_email(#[trigger] cs[j], email),
    decreases cs.len(),
{
    if cs.len() > 0 {
        let p = cs.drop_last();
        lemma_matching_nonempty(p, email);
        if exists|j: int| 0 <= j < p.len() && names_email(#[trigger] p[j], email) {
            let j = choose|j: int| 0 <= j < p.len() && names_email(#[trigger] p[j], email);
            assert(cs[j] == p[j]);
        }
        if exists|j: int| 0 <= j < cs.len() && names_email(#[trigger] cs[j], email) {
            let j = choose|j: int| 0 <= j < cs.len() && names_email(#[trigger] cs[j], email);
            if j < cs.len() - 1 {
                assert(p[j] == cs[j]);
            }
        }
    }
}

/// The entry with the key, when there is one.
pub open spec fn entry_for<T>(entries: Seq<(Seq<char>, T)>, key: Seq<char>) -> Option<T> {
    if exists|k: int| 0 <= k < entries.len() && (#[trigger] entries[k]).0 == key {
        Some(entries[choose|k: int| 0 <= k < entries.len() && (#[trigger] entries[k]).0 == key].1)
    } else {
        None
    }
}

pub open spec fn distinct_keys<T>(entries: Seq<(Seq<char>, T)>) -> bool {
    forall|i: int, j: int|
        0 <= i < j < entries.len() ==> (#[trigger] entries[i]).0 != (#[trigger] entries[j]).0
}

proof fn lemma_entry_for_index<T>(entries: Seq<(Seq<char>, T)>, k: int)
    requires
        distinct_keys(entries),
        0 <= k < entries.len(),
    ensures
        entry_for(entries, entries[k].0) == Some(entries[k].1),
{
    let key = entries[k].0;
    assert(0 <= k < entries.len() && entries[k].0 == key);
    let c = choose|c: int| 0 <= c < entries.len() && (#[trigger] entries[c]).0 == key;
    if c < k {
        assert(entries[c].0 != entries[k].0);
    } else if k < c {
        assert(entries[k].0 != entries[c].0);
    }
}

/// One address of the index and its certificates.
#[derive(Debug)]
pub struct IndexEntry {
    email: String,
    certs: Vec<KeyCert>,
}

/// The local key index: for each address that a certificate names, the certificates that
/// name it.
#[derive(Debug)]
pub struct KeyIndex {
    entries: Vec<IndexEntry>,
}

pub closed spec fn index_entry_views(es: Seq<IndexEntry>) -> Seq<(Seq<char>, Seq<KeyCertView>)> {
    es.map_values(|e: IndexEntry| (e.email@, cert_views(e.certs@)))
}

impl KeyIndex {
    pub closed spec fn entries_view(self) -> Seq<(Seq<char>, Seq<KeyCertView>)> {
        index_entry_views(self.entries@)
    }

    #[verifier::type_invariant]
    closed spec fn distinct(self) -> bool {
        distinct_keys(self.entries_view())
    }

    /// The certificates that the index holds for an address.
    pub open spec fn lookup_spec(self, email: Seq<char>) -> Option<Seq<KeyCertView>> {
        entry_for(self.entries_view(), email)
    }

    fn has_entry(entries: &Vec<IndexEntry>, email: &str) -> (r: bool)
        ensures
            r == exists|k: int|
                0 <= k < entries@.len() && (#[trigger] index_entry_views(entries@)[k]).0 == email@,
    {
        let ghost ev = index_entry_views(entries@);
        let mut i: usize = 0;
        while i < entries.len()
            invariant
                i <= entries@.len(),
                ev == index_entry_views(entries@),
                forall|k: int| 0 <= k < i ==> (#[trigger] ev[k]).0 != email@,
            decreases entries@.len() - i,
        {
            if str_is(entries[i].email.as_str(), email) {
                assert(ev[i as int].0 == email@);
                return true;
            }
            i = i + 1;
        }
        false
    }

    /// Indexes the certificates under every address they name.
    pub fn build(certs: Vec<KeyCert>) -> (r: KeyIndex)
        ensures
            forall|email: Seq<char>| #[trigger]
                r.lookup_spec(email) == index_lookup_spec(cert_views(certs@), email),
    {
        let ghost all = cert_views(certs@);
        let mut entries: Vec<IndexEntry> = Vec::new();
        let mut i: usize = 0;
        while i < certs.len()
            invariant
                i <= certs@.len(),
                all == cert_views(certs@),
                distinct_keys(index_entry_views(entries@)),
                forall|k: int|
                    0 <= k < entries@.len() ==> (#[trigger] index_entry_views(entries@)[k]).1
                        == dedup_spec(matching_spec(all, index_entry_views(entries@)[k].0))
                        && matching_spec(all, index_entry_views(entries@)[k].0).len() > 0,
                forall|j: int, e: Seq<char>|
                    0 <= j < i && #[trigger] names_email(all[j], e) ==> exists|k: int|
                        0 <= k < entries@.len() && (#[trigger] index_entry_views(entries@)[k]).0
                            == e,
            decreases certs@.len() - i,
        {
            let mut m: usize = 0;
            while m < certs[i].emails.len()
                invariant
                    i < certs@.len(),
                    m <= certs@[i as int].emails@.len(),
                    all == cert_views(certs@),
                    distinct_keys(index_entry_views(entries@)),
                    forall|k: int|
                        0 <= k < entries@.len() ==> (#[trigger] index_entry_views(entries@)[k]).1
                            == dedup_spec(matching_spec(all, index_entry_views(entries@)[k].0))
                            && matching_spec(all, index_entry_views(entries@)[k].0).len() > 0,
                    forall|j: int, e: Seq<char>|
                        0 <= j < i && #[trigger] names_email(all[j], e) ==> exists|k: int|
                            0 <= k < entries@.len() && (#[trigger] index_entry_views(
                                entries@,
                            )[k]).0 == e,
                    forall|n: int|
                        0 <= n < m ==> exists|k: int|
                            0 <= k < entries@.len() && (#[trigger] index_entry_views(
                                entries@,
                            )[k]).0 == #[trigger] all[i as int].emails[n],
                decreases certs@[i as int].emails@.len() - m,
            {
                let email = certs[i].emails[m].as_str();
                assert(email@ == all[i as int].emails[m as int]);
                let ghost before = index_entry_views(entries@);
                if !Self::has_entry(&entries, email) {
                    let copies = duplicate_certs(&certs);
                    let matching = filter_certs_for_email(copies, email);
                    let bucket = deduplicate_certs(matching);
                    proof {
                        lemma_matching_nonempty(all, email@);
                        assert(names_email(all[i as int], email@)) by {
                            assert(all[i as int].emails[m as int] == email@);
                        }
                    }
                    entries.push(IndexEntry { email: email.to_string(), certs: bucket });
                    let ghost after = index_entry_views(entries@);
                    assert(after =~= before.push((email@, dedup_spec(matching_spec(all, email@)))));
                    assert forall|a: int, b: int| 0 <= a < b < after.len() implies (
                    #[trigger] after[a]).0 != (#[trigger] after[b]).0 by {
                        if b == before.len() {
                            assert(after[a] == before[a]);
                        } else {
                            assert(after[a] == before[a] && after[b] == before[b]);
                        }
                    }
                    assert forall|k: int| 0 <= k < after.len() implies (#[trigger] after[k]).1
                        == dedup_spec(matching_spec(all, after[k].0)) && matching_spec(
                        all,
                        after[k].0,
                    ).len() > 0 by {
                        if k < before.len() {
                            assert(after[k] == before[k]);
                        }
                    }
                    assert forall|j: int, e: Seq<char>|
                        0 <= j < i && #[trigger] names_email(all[j], e) implies exists|k: int|
                        0 <= k < after.len() && (#[trigger] after[k]).0 == e by {
                        let k = choose|k: int| 0 <= k < before.len() && (#[trigger] before[k]).0 == e;
                        assert(after[k] == before[k]);
                    }
                    assert forall|n: int| 0 <= n <= m implies exists|k: int|
                        0 <= k < after.len() && (#[trigger] after[k]).0
                            == #[trigger] all[i as int].emails[n] by {
                        if n == m {
                            assert(after[before.len() as int].0 == email@);
                        } else {
                            let k = choose|k: int|
                                0 <= k < before.len() && (#[trigger] before[k]).0
                                    == all[i as int].emails[n];
                            assert(after[k] == before[k]);
                        }
                    }
                }
                m = m + 1;
            }
            proof {
                assert forall|j: int, e: Seq<char>|
                    0 <= j < i + 1 && #[trigger] names_email(all[j], e) implies exists|k: int|
                    0 <= k < entries@.len() && (#[trigger] index_entry_views(entries@)[k]).0
                        == e by {
                    if j == i {
                        let n = choose|n: int|
                            0 <= n < all[j].emails.len() && all[j].emails[n] == e;
                        assert(all[i as int].emails[n] == e);
                    }
                }
            }
            i = i + 1;
        }
        let r = KeyIndex { entries };
        assert forall|email: Seq<char>| #[trigger]
            r.lookup_spec(email) == index_lookup_spec(all, email) by {
            let ev = index_entry_views(r.entries@);
            lemma_matching_nonempty(all, email);
            if exists|k: int| 0 <= k < ev.len() && (#[trigger] ev[k]).0 == email {
                let k = choose|k: int| 0 <= k < ev.len() && (#[trigger] ev[k]).0 == email;
                lemma_entry_for_index(ev, k);
            } else if matching_spec(all, email).len() > 0 {
                let j = choose|j: int| 0 <= j < all.len() && names_email(#[trigger] all[j], email);
                assert(names_email(all[j], email));
            }
        }
        r
    }

    /// The certificates for an address (copies), if any certificate names it.
    pub fn get(&self, email: &str) -> (r: Option<Vec<KeyCert>>)
        ensures
            match self.lookup_spec(email@) {
                None => r is None,
                Some(cs) => r matches Some(v) && cert_views(v@) == cs,
            },
    {
        proof {
            use_type_invariant(self);
        }
        let ghost ev = index_entry_views(self.entries@);
        let mut i: usize = 0;
        while i < self.entries.len()
            invariant
                i <= self.entries@.len(),
                ev == index_entry_views(self.entries@),
                ev == self.entries_view(),
                distinct_keys(ev),
                forall|k: int| 0 <= k < i ==> (#[trigger] ev[k]).0 != email@,
            decreases self.entries@.len() - i,
        {
            if str_is(self.entries[i].email.as_str(), email) {
                proof {
                    assert(ev[i as int].0 == email@);
                    lemma_entry_for_index(ev, i as int);
                }
                return Some(duplicate_certs(&self.entries[i].certs));
            }
            i = i + 1;
        }
        None
    }
}


/// One cached lookup: the address, when it expires, and the certificates found.
#[derive(Debug)]
pub struct CacheEntry {
    email: String,
    expires_at: u64,
    certs: Vec<KeyCert>,
}

/// Certificates found for addresses, each until it expires. Times are counted by the
/// caller's monotonic clock.
#[derive(Debug)]
pub struct KeyCache {
    entries: Vec<CacheEntry>,
}

pub type CacheView = Seq<(Seq<char>, (u64, Seq<KeyCertView>))>;

pub closed spec fn cache_entry_views(es: Seq<CacheEntry>) -> CacheView {
    es.map_values(|e: CacheEntry| (e.email@, (e.expires_at, cert_views(e.certs@))))
}

impl View for KeyCache {
    type V = CacheView;

    closed spec fn view(&self) -> CacheView {
        cache_entry_views(self.entries@)
    }
}

/// What a lookup at time `now` finds: the stored certificates while they have not
/// expired.
pub open spec fn cache_hit(stored: Option<(u64, Seq<KeyCertView>)>, now: u64) -> Option<
    Seq<KeyCertView>,
> {
    match stored {
        Some((expires_at, cs)) => if expires_at > now {
            Some(cs)
        } else {
            None
        },
        None => None,
    }
}

/// The cache after storing `cs` for `email` until `expires_at`: an entry for the address is
/// replaced, or one is added.
pub open spec fn cache_store_spec(
    v: CacheView,
    email: Seq<char>,
    expires_at: u64,
    cs: Seq<KeyCertView>,
) -> CacheView {
    if exists|k: int| 0 <= k < v.len() && (#[trigger] v[k]).0 == email {
        v.update(
            choose|k: int| 0 <= k < v.len() && (#[trigger] v[k]).0 == email,
            (email, (expires_at, cs)),
        )
    } else {
        v.push((email, (expires_at, cs)))
    }
}

/// A lookup finds what was last stored for the address until it expires, and storing for
/// one address leaves every other address as it was.
pub proof fn law_cache_read_after_write(
    v: CacheView,
    email: Seq<char>,
    expires_at: u64,
    cs: Seq<KeyCertView>,
    other: Seq<char>,
    now: u64,
)
    requires
        distinct_keys(v),
    ensures
        distinct_keys(cache_store_spec(v, email, expires_at, cs)),
        cache_hit(entry_for(cache_store_spec(v, email, expires_at, cs), email), now) == (if now
            < expires_at {
            Some(cs)
        } else {
            None
        }),
        other != email ==> entry_for(cache_store_spec(v, email, expires_at, cs), other)
            == entry_for(v, other),
{
    let w = cache_store_spec(v, email, expires_at, cs);
    if exists|k: int| 0 <= k < v.len() && (#[trigger] v[k]).0 == email {
        let k = choose|k: int| 0 <= k < v.len() && (#[trigger] v[k]).0 == email;
        assert forall|a: int, b: int| 0 <= a < b < w.len() implies (#[trigger] w[a]).0 != (
        #[trigger] w[b]).0 by {
            if a != k && b != k {
                assert(w[a] == v[a] && w[b] == v[b]);
            } else if a == k {
                assert(w[b] == v[b]);
                assert(v[a].0 != v[b].0);
            } else {
                assert(w[a] == v[a]);
                assert(v[a].0 != v[b].0);
            }
        }
        lemma_entry_for_index(w, k);
        if other != email {
            if exists|j: int| 0 <= j < v.len() && (#[trigger] v[j]).0 == other {
                let j = choose|j: int| 0 <= j < v.len() && (#[trigger] v[j]).0 == other;
                assert(w[j] == v[j]);
                lemma_entry_for_index(w, j);
                lemma_entry_for_index(v, j);
            } else {
                assert forall|j: int| 0 <= j < w.len() implies (#[trigger] w[j]).0 != other by {
                    if j != k {
                        assert(w[j] == v[j]);
                    }
                }
            }
        }
    } else {
        assert forall|a: int, b: int| 0 <= a < b < w.len() implies (#[trigger] w[a]).0 != (
        #[trigger] w[b]).0 by {
            if b == v.len() {
                assert(w[a] == v[a]);
            } else {
                assert(w[a] == v[a] && w[b] == v[b]);
            }
        }
        lemma_entry_for_index(w, v.len() as int);
        if other != email {
            if exists|j: int| 0 <= j < v.len() && (#[trigger] v[j]).0 == other {
                let j = choose|j: int| 0 <= j < v.len() && (#[trigger] v[j]).0 == other;
                assert(w[j] == v[j]);
                lemma_entry_for_index(w, j);
                lemma_entry_for_index(v, j);
            } else {
                assert forall|j: int| 0 <= j < w.len() implies (#[trigger] w[j]).0 != other by {
                    if j < v.len() {
                        assert(w[j] == v[j]);
                    }
                }
            }
        }
    }
}

impl KeyCache {
    #[verifier::type_invariant]
    closed spec fn distinct(self) -> bool {
        distinct_keys(cache_entry_views(self.entries@))
    }

    /// An empty cache.
    pub fn new() -> (r: KeyCache)
        ensures
            r@ == Seq::<(Seq<char>, (u64, Seq<KeyCertView>))>::empty(),
    {
        let r = KeyCache { entries: Vec::new() };
        assert(cache_entry_views(r.entries@) =~= Seq::<(Seq<char>, (u64, Seq<KeyCertView>))>::empty());
        r
    }

    fn position(&self, email: &str) -> (r: Option<usize>)
        ensures
            match r {
                Some(k) => k < self@.len() && self@[k as int].0 == email@,
                None => forall|k: int| 0 <= k < self@.len() ==> (#[trigger] self@[k]).0 != email@,
            },
    {
        let ghost ev = cache_entry_views(self.entries@);
        assert(ev == self@);
        let mut i: usize = 0;
        while i < self.entries.len()
            invariant
                i <= self.entries@.len(),
                ev == cache_entry_views(self.entries@),
                forall|k: int| 0 <= k < i ==> (#[trigger] ev[k]).0 != email@,
            decreases self.entries@.len() - i,
        {
            if str_is(self.entries[i].email.as_str(), email) {
                assert(ev[i as int].0 == email@);
                return Some(i);
            }
            i = i + 1;
        }
        None
    }

    /// The certificates cached for the address, if they have not expired at `now`.
    pub fn lookup(&self, email: &str, now: u64) -> (r: Option<Vec<KeyCert>>)
        ensures
            match cache_hit(entry_for(self@, email@), now) {
                None => r is None,
                Some(cs) => r matches Some(v) && cert_views(v@) == cs,
            },
    {
        proof {
            use_type_invariant(self);
        }
        match self.position(email) {
            None => None,
            Some(k) => {
                proof {
                    lemma_entry_for_index(self@, k as int);
                }
                let entry = &self.entries[k];
                if entry.expires_at > now {
                    Some(duplicate_certs(&entry.certs))
                } else {
                    None
                }
            },
        }
    }

    /// Caches the certificates for the address until `now + ttl`.
    pub fn store(&mut self, email: &str, certs: Vec<KeyCert>, now: u64, ttl: u64)
        requires
            now + ttl <= u64::MAX,
        ensures
            final(self)@ == cache_store_spec(
                old(self)@,
                email@,
                (now + ttl) as u64,
                cert_views(certs@),
            ),
    {
        proof {
            use_type_invariant(&*self);
        }
        let expires_at = now + ttl;
        let ghost old_view = self@;
        let entry = CacheEntry { email: email.to_string(), expires_at, certs };
        let ghost item = (email@, (expires_at, cert_views(entry.certs@)));
        match self.position(email) {
            Some(k) => {
                proof {
                    let c = choose|c: int| 0 <= c < old_view.len() && (#[trigger] old_view[c]).0
                        == email@;
                    if c != k as int {
                        assert(old_view[c].0 == old_view[k as int].0);
                    }
                    law_cache_read_after_write(old_view, email@, expires_at, cert_views(entry.certs@), email@, now);
                }
                let mut entries: Vec<CacheEntry> = Vec::new();
                std::mem::swap(&mut entries, &mut self.entries);
                entries.set(k, entry);
                assert(cache_entry_views(entries@) =~= old_view.update(k as int, item));
                self.entries = entries;
            },
            None => {
                proof {
                    law_cache_read_after_write(old_view, email@, expires_at, cert_views(entry.certs@), email@, now);
                }
                let mut entries: Vec<CacheEntry> = Vec::new();
                std::mem::swap(&mut entries, &mut self.entries);
                entries.push(entry);
                assert(cache_entry_views(entries@) =~= old_view.push(item));
                self.entries = entries;
            },
        }
    }
}


/// Caches the certificates that a lookup found for the normalized address: at `now_ms`
/// (milliseconds), they expire `ttl_secs` seconds later.
pub fn cache_success(cache: &mut KeyCache, email: &str, certs: &Vec<KeyCert>, now_ms: u64, ttl_secs: u64)
    requires
        now_ms + ttl_secs * 1000 <= u64::MAX,
    ensures
        final(cache)@ == cache_store_spec(
            old(cache)@,
            email@,
            (now_ms + ttl_secs * 1000) as u64,
            cert_views(certs@),
        ),
{
    let ttl_ms = ttl_secs * 1000;
    cache.store(email, duplicate_certs(certs), now_ms, ttl_ms);
}

/// Reads the certificates in `data` (binary or ASCII-armored); `None` when it holds
/// anything that is not a valid certificate.
pub fn parse_certs(data: &[u8]) -> (r: Option<Vec<KeyCert>>)
    ensures
        match certs_in(data@) {
            None => r is None,
            Some(cs) => r matches Some(v) && cert_views(v@) == cs.map_values(
                |c: sequoia_openpgp::Cert| key_cert_view(c),
            ),
        },
{
    let mut rest = match parse_cert_list(data) {
        Some(c) => c,
        None => {
            return None;
        },
    };
    let ghost cs = rest@;
    let ghost want = cs.map_values(|c: sequoia_openpgp::Cert| key_cert_view(c));
    let mut out: Vec<KeyCert> = Vec::new();
    while rest.len() > 0
        invariant
            out@.len() + rest@.len() == cs.len(),
            rest@ == cs.skip(out@.len() as int),
            cert_views(out@) == want.take(out@.len() as int),
            want == cs.map_values(|c: sequoia_openpgp::Cert| key_cert_view(c)),
        decreases rest@.len(),
    {
        let ghost n = out@.len() as int;
        let ghost before = rest@;
        let cert = rest.remove(0);
        assert(cert == cs[n]) by {
            assert(before[0] == cs.skip(n)[0]);
        }
        let kc = KeyCert::from_cert(cert);
        out.push(kc);
        assert(cert_views(out@) =~= want.take(n + 1));
        assert(rest@ =~= cs.skip(n + 1));
    }
    assert(want.take(cs.len() as int) =~= want);
    Some(out)
}

/// The mathematical value of a key error.
pub ghost enum KeyErrorView {
    InvalidEmail(Seq<char>),
    NoKeyFound(Seq<char>),
    NoCertificates,
    NoTransportKey(Seq<char>),
    Encryption(EncryptStage),
    HttpStatus(u16, Seq<char>),
    InvalidCertificates(Seq<char>),
    NoMatchingCertificate(Seq<char>, Seq<char>),
    Transport(Seq<char>),
    Message(MessageError),
}

impl View for KeyError {
    type V = KeyErrorView;

    open spec fn view(&self) -> KeyErrorView {
        match self {
            KeyError::InvalidEmail(e) => KeyErrorView::InvalidEmail(e@),
            KeyError::NoKeyFound(e) => KeyErrorView::NoKeyFound(e@),
            KeyError::NoCertificates => KeyErrorView::NoCertificates,
            KeyError::NoTransportKey(f) => KeyErrorView::NoTransportKey(f@),
            KeyError::Encryption(s) => KeyErrorView::Encryption(*s),
            KeyError::HttpStatus(c, u) => KeyErrorView::HttpStatus(*c, u@),
            KeyError::InvalidCertificates(u) => KeyErrorView::InvalidCertificates(u@),
            KeyError::NoMatchingCertificate(u, r) => KeyErrorView::NoMatchingCertificate(u@, r@),
            KeyError::Transport(t) => KeyErrorView::Transport(t@),
            KeyError::Message(m) => KeyErrorView::Message(*m),
        }
    }
}

/// What fetching from one key source gave.
#[derive(Debug)]
pub enum FetchOutcome {
    /// Certificates that name the recipient.
    Certs(Vec<KeyCert>),
    /// The source has no key for the recipient.
    Missing,
    /// The source failed.
    Error(KeyError),
}

pub ghost enum FetchOutcomeView {
    Certs(Seq<KeyCertView>),
    Missing,
    Error(KeyErrorView),
}

impl View for FetchOutcome {
    type V = FetchOutcomeView;

    open spec fn view(&self) -> FetchOutcomeView {
        match self {
            FetchOutcome::Certs(c) => FetchOutcomeView::Certs(cert_views(c@)),
            FetchOutcome::Missing => FetchOutcomeView::Missing,
            FetchOutcome::Error(e) => FetchOutcomeView::Error(e@),
        }
    }
}

/// The certificates served at `url` that name the recipient; an error when none does.
pub open spec fn select_spec(parsed: Seq<KeyCertView>, url: Seq<char>, recipient: Seq<char>) -> FetchOutcomeView {
    if matching_spec(parsed, recipient).len() == 0 {
        FetchOutcomeView::Error(KeyErrorView::NoMatchingCertificate(url, recipient))
    } else {
        FetchOutcomeView::Certs(matching_spec(parsed, recipient))
    }
}

/// Keeps the served certificates that name the recipient.
pub fn select_certs(parsed: Vec<KeyCert>, url: &str, recipient: &str) -> (r: FetchOutcome)
    ensures
        r@ == select_spec(cert_views(parsed@), url@, recipient@),
{
    let certs = filter_certs_for_email(parsed, recipient);
    if certs.len() == 0 {
        assert(cert_views(certs@).len() == 0);
        FetchOutcome::Error(KeyError::NoMatchingCertificate(url.to_string(), recipient.to_string()))
    } else {
        FetchOutcome::Certs(certs)
    }
}

proof fn lemma_matching_names(cs: Seq<KeyCertView>, email: Seq<char>)
    ensures
        forall|k: int|
            0 <= k < matching_spec(cs, email).len() ==> names_email(
                #[trigger] matching_spec(cs, email)[k],
                email,
            ),
    decreases cs.len(),
{
    if cs.len() > 0 {
        let m = matching_spec(cs.drop_last(), email);
        lemma_matching_names(cs.drop_last(), email);
        if names_email(cs.last(), email) {
            assert forall|k: int| 0 <= k < m.push(cs.last()).len() implies names_email(
                #[trigger] m.push(cs.last())[k],
                email,
            ) by {
                if k < m.len() {
                    assert(m.push(cs.last())[k] == m[k]);
                }
            }
        }
    }
}

/// The outcome of a successful (200) response with this body: the certificates in it that
/// name the recipient, or why there are none.
pub fn certs_from_body(body: &[u8], url: &str, recipient: &str) -> (r: FetchOutcome)
    ensures
        r@ == match certs_in(body@) {
            None => FetchOutcomeView::Error(KeyErrorView::InvalidCertificates(url@)),
            Some(cs) => select_spec(
                cs.map_values(|c: sequoia_openpgp::Cert| key_cert_view(c)),
                url@,
                recipient@,
            ),
        },
        match r@ {
            FetchOutcomeView::Certs(cs) => cs.len() > 0 && forall|k: int|
                0 <= k < cs.len() ==> names_email(#[trigger] cs[k], recipient@),
            FetchOutcomeView::Missing => false,
            FetchOutcomeView::Error(e) => e == KeyErrorView::InvalidCertificates(url@) || e
                == KeyErrorView::NoMatchingCertificate(url@, recipient@),
        },
{
    match parse_certs(body) {
        None => FetchOutcome::Error(KeyError::InvalidCertificates(url.to_string())),
        Some(parsed) => {
            proof {
                lemma_matching_names(cert_views(parsed@), recipient@);
            }
            select_certs(parsed, url, recipient)
        },
    }
}

/// What the HTTP status of a key request means.
#[derive(Debug)]
pub enum StatusDecision {
    /// 200: read the body and pass it to `certs_from_body`.
    ReadBody,
    /// Any other status decides the outcome.
    Outcome(FetchOutcome),
}

/// 200 asks for the body; 404, 204 and 410 mean no key; any other status is an error.
pub fn decide_status(status: u16, url: &str) -> (r: StatusDecision)
    ensures
        status == 200 <==> r is ReadBody,
        (status == 404 || status == 204 || status == 410) <==> (r matches StatusDecision::Outcome(
            o,
        ) && o@ == FetchOutcomeView::Missing),
        (status != 200 && status != 404 && status != 204 && status != 410) ==> (
        r matches StatusDecision::Outcome(o) && o@ == FetchOutcomeView::Error(
            KeyErrorView::HttpStatus(status, url@),
        )),
{
    if status == 200 {
        StatusDecision::ReadBody
    } else if status == 404 || status == 204 || status == 410 {
        StatusDecision::Outcome(FetchOutcome::Missing)
    } else {
        StatusDecision::Outcome(FetchOutcome::Error(KeyError::HttpStatus(status, url.to_string())))
    }
}

/// One place to fetch keys from: its URL, and whether its errors are logged and skipped
/// (WKD) or end the lookup (keys.openpgp.org).
#[derive(Debug)]
pub struct KeySource {
    pub url: String,
    pub skip_errors: bool,
}

/// The key sources for a normalized address that the configuration enables, in order:
/// WKD advanced, WKD direct, keys.openpgp.org.
pub open spec fn sources_spec(email: Seq<char>, wkd: bool, keyserver: bool) -> Option<
    Seq<(Seq<char>, bool)>,
> {
    let keys = if keyserver {
        seq![(keyserver_url(email), false)]
    } else {
        Seq::empty()
    };
    if wkd {
        match split_email_spec(email) {
            None => None,
            Some((l, d)) => Some(
                seq![(wkd_advanced_url(l, d), true), (wkd_direct_url(l, d), true)] + keys,
            ),
        }
    } else {
        Some(keys)
    }
}

/// What a lookup step asks for next.
#[derive(Debug)]
pub enum LookupStep {
    /// GET the URL and report what came back with `on_outcome`.
    Fetch(String),
    /// The certificates for the recipient: cache them (`cache_success`) and use them.
    Found(Vec<KeyCert>),
    /// The lookup failed.
    Failed(KeyError),
}

pub ghost enum LookupStepView {
    Fetch(Seq<char>),
    Found(Seq<KeyCertView>),
    Failed(KeyErrorView),
}

impl View for LookupStep {
    type V = LookupStepView;

    open spec fn view(&self) -> LookupStepView {
        match self {
            LookupStep::Fetch(u) => LookupStepView::Fetch(u@),
            LookupStep::Found(c) => LookupStepView::Found(cert_views(c@)),
            LookupStep::Failed(e) => LookupStepView::Failed(e@),
        }
    }
}

/// The lookup of one recipient at the enabled remote key sources.
#[derive(Debug)]
pub struct RemoteLookup {
    email: String,
    sources: Vec<KeySource>,
    current: usize,
}

pub ghost struct RemoteLookupView {
    pub email: Seq<char>,
    pub sources: Seq<(Seq<char>, bool)>,
    pub current: int,
}

pub closed spec fn source_views(s: Seq<KeySource>) -> Seq<(Seq<char>, bool)> {
    s.map_values(|k: KeySource| (k.url@, k.skip_errors))
}

impl View for RemoteLookup {
    type V = RemoteLookupView;

    closed spec fn view(&self) -> RemoteLookupView {
        RemoteLookupView {
            email: self.email@,
            sources: source_views(self.sources@),
            current: self.current as int,
        }
    }
}

/// Fetch from source `j`, or fail with "no key found" when there is none left.
pub open spec fn advance_spec(v: RemoteLookupView, j: int) -> (RemoteLookupView, LookupStepView) {
    if 0 <= j < v.sources.len() {
        (RemoteLookupView { current: j, ..v }, LookupStepView::Fetch(v.sources[j].0))
    } else {
        (RemoteLookupView { current: j, ..v }, LookupStepView::Failed(KeyErrorView::NoKeyFound(v.email)))
    }
}

/// The lookup's response to what the current source gave.
pub open spec fn outcome_spec(v: RemoteLookupView, o: FetchOutcomeView) -> (
    RemoteLookupView,
    LookupStepView,
) {
    match o {
        FetchOutcomeView::Certs(cs) => (v, LookupStepView::Found(cs)),
        FetchOutcomeView::Missing => advance_spec(v, v.current + 1),
        FetchOutcomeView::Error(e) => if v.sources[v.current].1 {
            advance_spec(v, v.current + 1)
        } else {
            (v, LookupStepView::Failed(e))
        },
    }
}

impl RemoteLookup {
    /// Plans the remote lookup of a normalized address, with its first step.
    pub fn new(email: &str, config: &OpenPgpConfig) -> (r: Result<(RemoteLookup, LookupStep), KeyError>)
        ensures
            match sources_spec(email@, config.enable_wkd, config.enable_keys_openpgp_org) {
                None => r matches Err(e) && e@ == KeyErrorView::InvalidEmail(email@),
                Some(srcs) => r matches Ok((l, step)) && (l@, step@) == advance_spec(
                    RemoteLookupView { email: email@, sources: srcs, current: 0 },
                    0,
                ),
            },
    {
        let mut sources: Vec<KeySource> = Vec::new();
        if config.enable_wkd {
            let (advanced, direct) = wkd_urls(email)?;
            sources.push(KeySource { url: advanced, skip_errors: true });
            sources.push(KeySource { url: direct, skip_errors: true });
        }
        if config.enable_keys_openpgp_org {
            sources.push(KeySource { url: keys_openpgp_org_url(email), skip_errors: false });
        }
        proof {
            let srcs = sources_spec(email@, config.enable_wkd, config.enable_keys_openpgp_org)->Some_0;
            assert(source_views(sources@) =~= srcs);
        }
        let lookup = RemoteLookup { email: email.to_string(), sources, current: 0 };
        let step = lookup.step_at(0);
        Ok((lookup, step))
    }

    fn step_at(&self, j: usize) -> (r: LookupStep)
        ensures
            r@ == advance_spec(self@, j as int).1,
    {
        if j < self.sources.len() {
            LookupStep::Fetch(self.sources[j].url.clone())
        } else {
            LookupStep::Failed(KeyError::NoKeyFound(self.email.clone()))
        }
    }

    /// The address being looked up.
    pub fn email(&self) -> (r: &String)
        ensures
            r@ == self@.email,
    {
        &self.email
    }

    /// Whether a source is being fetched (the last step asked for a fetch).
    pub fn fetch_pending(&self) -> (r: bool)
        ensures
            r == (0 <= self@.current < self@.sources.len()),
    {
        assert(source_views(self.sources@).len() == self.sources@.len());
        self.current < self.sources.len()
    }

    /// Whether errors of the current source are logged and skipped.
    pub fn skips_errors(&self) -> (r: bool)
        requires
            0 <= self@.current < self@.sources.len(),
        ensures
            r == self@.sources[self@.current].1,
    {
        self.sources[self.current].skip_errors
    }

    /// Goes on after the current source was fetched.
    pub fn on_outcome(&mut self, outcome: FetchOutcome) -> (r: LookupStep)
        requires
            0 <= old(self)@.current < old(self)@.sources.len(),
        ensures
            (final(self)@, r@) == outcome_spec(old(self)@, outcome@),
    {
        assert(source_views(self.sources@).len() == self.sources@.len());
        let count: usize = self.sources.len();
        assert(self.current < count);
        match outcome {
            FetchOutcome::Certs(cs) => LookupStep::Found(cs),
            FetchOutcome::Missing => {
                self.current = self.current + 1;
                self.step_at(self.current)
            },
            FetchOutcome::Error(e) => {
                if self.sources[self.current].skip_errors {
                    self.current = self.current + 1;
                    self.step_at(self.current)
                } else {
                    LookupStep::Failed(e)
                }
            },
        }
    }
}

/// How the lookup of a recipient starts.
#[derive(Debug)]
pub enum LookupStart {
    /// Unexpired certificates from the cache.
    Cached(Vec<KeyCert>),
    /// Certificates from the local index for the normalized address: cache them
    /// (`cache_success`) and use them.
    Local(String, Vec<KeyCert>),
    /// Neither has them: run the remote lookup from its first step.
    Remote(RemoteLookup, LookupStep),
    /// The lookup cannot start.
    Failed(KeyError),
}

/// Normalizes the recipient, then tries the cache at `now`, then the local index, then the
/// remote sources.
pub fn begin_lookup(
    recipient: &str,
    cache: &KeyCache,
    index: &KeyIndex,
    config: &OpenPgpConfig,
    now: u64,
) -> (r: LookupStart)
    ensures
        match lookup_email_spec(recipient@) {
            None => r matches LookupStart::Failed(e) && e@ == KeyErrorView::InvalidEmail(
                lookup_trimmed(recipient@),
            ),
            Some(email) => match cache_hit(entry_for(cache@, email), now) {
                Some(cs) => r matches LookupStart::Cached(v) && cert_views(v@) == cs,
                None => match index.lookup_spec(email) {
                    Some(cs) => r matches LookupStart::Local(e, v) && e@ == email && cert_views(
                        v@,
                    ) == cs,
                    None => match sources_spec(
                        email,
                        config.enable_wkd,
                        config.enable_keys_openpgp_org,
                    ) {
                        None => r matches LookupStart::Failed(e) && e@ == KeyErrorView::InvalidEmail(
                            email,
                        ),
                        Some(srcs) => r matches LookupStart::Remote(l, step) && (l@, step@)
                            == advance_spec(
                            RemoteLookupView { email, sources: srcs, current: 0 },
                            0,
                        ),
                    },
                },
            },
        },
{
    let email = match normalize_lookup_email(recipient) {
        Ok(e) => e,
        Err(e) => {
            return LookupStart::Failed(e);
        },
    };
    if let Some(certs) = cache.lookup(email.as_str(), now) {
        return LookupStart::Cached(certs);
    }
    if let Some(certs) = index.get(email.as_str()) {
        return LookupStart::Local(email, certs);
    }
    match RemoteLookup::new(email.as_str(), config) {
        Ok((lookup, step)) => LookupStart::Remote(lookup, step),
        Err(e) => LookupStart::Failed(e),
    }
}

/// The keys selected for each certificate, as sequences.
pub open spec fn selected_views<'a>(selected: Seq<Vec<Recipient<'a>>>) -> Seq<Seq<Recipient<'a>>> {
    selected.map_values(|v: Vec<Recipient<'a>>| v@)
}

/// The certificate at `i` is the first one with no selected key.
pub open spec fn first_without_keys<A>(selected: Seq<Seq<A>>, i: int) -> bool {
    &&& 0 <= i < selected.len()
    &&& selected[i].len() == 0
    &&& forall|j: int| 0 <= j < i ==> (#[trigger] selected[j]).len() > 0
}

/// Decides between the keys selected for each certificate (`selected[i]` for `certs[i]`):
/// the first certificate without any key is a `NoTransportKey` error with its fingerprint;
/// otherwise all the keys, certificate by certificate, in order.
pub fn select_transport_keys<'a>(certs: &Vec<KeyCert>, selected: Vec<Vec<Recipient<'a>>>) -> (r:
    Result<Vec<Recipient<'a>>, KeyError>)
    requires
        selected@.len() == certs@.len(),
    ensures
        match r {
            Ok(keys) => (forall|i: int|
                0 <= i < selected@.len() ==> (#[trigger] selected@[i])@.len() > 0) && keys@
                == selected_views(selected@).flatten(),
            Err(KeyError::NoTransportKey(f)) => exists|i: int|
                first_without_keys(selected_views(selected@), i) && f@ == (
                #[trigger] certs@[i])@.fingerprint,
            Err(_) => false,
        },
{
    let ghost sel = selected@;
    let ghost all = selected_views(sel);
    let total = certs.len();
    let mut rest = selected;
    let mut keys: Vec<Recipient<'a>> = Vec::new();
    let mut i: usize = 0;
    while rest.len() > 0
        invariant
            i + rest@.len() == all.len(),
            all.len() == certs@.len(),
            total == certs@.len(),
            all == selected_views(sel),
            sel == selected@,
            selected_views(rest@) == all.skip(i as int),
            keys@ == all.take(i as int).flatten(),
            forall|j: int| 0 <= j < i ==> (#[trigger] all[j]).len() > 0,
        decreases rest@.len(),
    {
        let ghost before = rest@;
        let mut found = rest.remove(0);
        assert(found@ == all[i as int]) by {
            assert(selected_views(before)[0] == all.skip(i as int)[0]);
        }
        if found.len() == 0 {
            let fingerprint = certs[i].fingerprint.clone();
            assert(first_without_keys(all, i as int));
            assert(certs@[i as int]@.fingerprint == fingerprint@);
            assert(first_without_keys(selected_views(sel), i as int) && fingerprint@
                == certs@[i as int]@.fingerprint);
            return Err(KeyError::NoTransportKey(fingerprint));
        }
        let ghost acc = keys@;
        keys.append(&mut found);
        proof {
            assert(all.take(i + 1) =~= all.take(i as int) + seq![all[i as int]]);
            vstd::seq_lib::lemma_flatten_concat(all.take(i as int), seq![all[i as int]]);
            assert(seq![all[i as int]].flatten() =~= all[i as int]) by {
                reveal_with_fuel(Seq::flatten, 2);
            }
            assert(selected_views(rest@) =~= all.skip(i + 1)) by {
                assert forall|j: int| 0 <= j < rest@.len() implies #[trigger] selected_views(
                    rest@,
                )[j] == all.skip(i + 1)[j] by {
                    assert(rest@[j] == before[j + 1]);
                    assert(selected_views(before)[j + 1] == all.skip(i as int)[j + 1]);
                }
            }
        }
        i = i + 1;
    }
    assert(all.take(i as int) =~= all);
    proof {
        assert forall|j: int| 0 <= j < sel.len() implies (#[trigger] sel[j])@.len() > 0 by {
            assert(all[j] == sel[j]@);
        }
    }
    Ok(keys)
}

/// Some key of the certificate decrypts the message to the plaintext.
pub open spec fn decryptable_for(
    message: Seq<u8>,
    plaintext: Seq<u8>,
    cert: sequoia_openpgp::Cert,
) -> bool {
    exists|k: Recipient| key_of_cert(k, cert) && (#[trigger] decryption_with(message, k)) == Some(
        plaintext,
    )
}

proof fn lemma_flatten_member<A>(ss: Seq<Seq<A>>, i: int, j: int)
    requires
        0 <= i < ss.len(),
        0 <= j < ss[i].len(),
    ensures
        ss.flatten().contains(ss[i][j]),
    decreases i,
{
    if i == 0 {
        assert(ss.flatten() == ss.first() + ss.drop_first().flatten());
        assert(ss.flatten()[j] == ss[0][j]);
    } else {
        lemma_flatten_member(ss.drop_first(), i - 1, j);
        let rest = ss.drop_first().flatten();
        let k = choose|k: int| 0 <= k < rest.len() && rest[k] == ss[i][j];
        assert(ss.flatten() == ss.first() + rest);
        assert(ss.flatten()[ss.first().len() + k] == ss[i][j]);
    }
}

/// Encrypts the plaintext for every transport encryption key of the certificates, as an
/// ASCII-armored OpenPGP message; a certificate without such a key is an error, and so is an
/// empty list (the encryptor has no recipient). Which keys qualify depends on the clock;
/// `select_transport_keys` decides between the keys selected for each certificate, and every
/// certificate has a key that decrypts the result.
pub fn encrypt_to_armored_message(plaintext: &[u8], certs: &Vec<KeyCert>) -> (r: Result<
    Vec<u8>,
    KeyError,
>)
    ensures
        match r {
            Ok(armored) => is_armored_message(armored@) && forall|i: int|
                0 <= i < certs@.len() ==> decryptable_for(
                    armored@,
                    plaintext@,
                    (#[trigger] certs@[i])@.cert,
                ),
            Err(KeyError::NoTransportKey(f)) => exists|i: int|
                0 <= i < certs@.len() && (#[trigger] certs@[i])@.fingerprint == f@,
            Err(KeyError::Encryption(_)) => true,
            Err(_) => false,
        },
        certs@.len() == 0 ==> r matches Err(KeyError::Encryption(EncryptStage::Encryptor)),
{
    let policy = standard_policy();
    let mut selected: Vec<Vec<Recipient>> = Vec::new();
    let mut i: usize = 0;
    while i < certs.len()
        invariant
            i <= certs@.len(),
            selected@.len() == i,
            forall|c: int, k: int|
                0 <= c < i && 0 <= k < selected@[c]@.len() ==> key_of_cert(
                    #[trigger] selected@[c]@[k],
                    certs@[c]@.cert,
                ),
        decreases certs@.len() - i,
    {
        let found = transport_recipients(&certs[i].cert, &policy);
        assert(certs[i as int].cert == certs@[i as int]@.cert);
        let ghost before = selected@;
        selected.push(found);
        assert(forall|c: int| 0 <= c < i ==> selected@[c] == before[c]);
        i = i + 1;
    }
    let ghost chosen = selected_views(selected@);
    let recipients = match select_transport_keys(certs, selected) {
        Ok(keys) => keys,
        Err(e) => {
            return Err(e);
        },
    };
    proof {
        if certs@.len() == 0 {
            assert(chosen =~= Seq::<Seq<Recipient>>::empty());
            assert(recipients@.len() == 0);
        }
    }
    match encrypt_armored(plaintext, recipients) {
        Ok(armored) => {
            assert forall|i: int| 0 <= i < certs@.len() implies decryptable_for(
                armored@,
                plaintext@,
                (#[trigger] certs@[i])@.cert,
            ) by {
                assert(chosen[i] == selected@[i]@);
                assert(chosen[i].len() > 0);
                lemma_flatten_member(chosen, i, 0);
                let k = choose|k: int| 0 <= k < recipients@.len() && recipients@[k] == chosen[i][0];
                assert(decryption_with(armored@, recipients@[k]) == Some(plaintext@));
                assert(key_of_cert(selected@[i]@[0], certs@[i]@.cert));
            }
            Ok(armored)
        },
        Err(stage) => Err(KeyError::Encryption(stage)),
    }
}

/// The addresses to encrypt for and the plaintext to encrypt, as the message and the
/// configured mode give them.
pub fn prepare_encryption(raw_message: &[u8], envelope: &Envelope, mode: EncryptionMode) -> (r: Result<
    (Vec<String>, Vec<u8>),
    KeyError,
>)
    ensures
        match encryption_recipients_spec(raw_message@, envelope.rcpt_to.deep_view()) {
            Err(e) => r matches Err(KeyError::Message(e2)) && e2 == e,
            Ok(rs) => match plaintext_spec(raw_message@, mode) {
                Err(e) => r matches Err(KeyError::Message(e2)) && e2 == e,
                Ok(p) => r matches Ok((v, t)) && v.deep_view() == rs && t@ == p,
            },
        },
{
    let recipients = match collect_encryption_recipients(raw_message, envelope) {
        Ok(r) => r,
        Err(e) => {
            return Err(KeyError::Message(e));
        },
    };
    let plaintext = match plaintext_for_encryption(raw_message, mode) {
        Ok(p) => p,
        Err(e) => {
            return Err(KeyError::Message(e));
        },
    };
    Ok((recipients, plaintext))
}

proof fn lemma_dedup_empty(cs: Seq<KeyCertView>)
    ensures
        dedup_spec(cs).len() == 0 <==> cs.len() == 0,
    decreases cs.len(),
{
    if cs.len() > 0 {
        lemma_dedup_empty(cs.drop_last());
        let d = dedup_spec(cs.drop_last());
        if fingerprints(d).contains(cs.last().fingerprint) {
            assert(d.len() > 0);
        }
    }
}

/// Encrypts the plaintext for the recipients' certificates (each fingerprint once) and
/// wraps the ciphertext in a PGP/MIME message for the envelope.
pub fn finish_encryption(
    raw_message: &[u8],
    envelope: &Envelope,
    plaintext: &[u8],
    certs: Vec<KeyCert>,
) -> (r: Result<RelayMessage, KeyError>)
    ensures
        certs@.len() == 0 ==> (r matches Err(e) && e@ == KeyErrorView::NoCertificates),
        r matches Ok(m) ==> m.envelope.mail_from@ == envelope.mail_from@
            && m.envelope.rcpt_to.deep_view() == envelope.rcpt_to.deep_view() && exists|
            armored: Seq<u8>,
            t: Seq<char>,
        |
            is_simple_uuid(t) && encrypted_message_spec(raw_message@, armored, "sendmail-sec-"@ + t)
                == Ok::<Seq<u8>, MessageError>(m.data@) && is_armored_message(armored) && (forall|
                i: int,
            |
                0 <= i < dedup_spec(cert_views(certs@)).len() ==> decryptable_for(
                    armored,
                    plaintext@,
                    (#[trigger] dedup_spec(cert_views(certs@))[i]).cert,
                )),
        r matches Err(KeyError::Message(e)) ==> header_blocks_spec(
            split_message_spec(normalize_crlf_spec(raw_message@)).0,
        ) == Err::<Seq<(Seq<u8>, Seq<u8>)>, MessageError>(e),
        r matches Err(KeyError::NoTransportKey(f)) ==> exists|i: int|
            0 <= i < certs@.len() && (#[trigger] certs@[i])@.fingerprint == f@,
{
    let ghost input = certs@;
    let unique = deduplicate_certs(certs);
    proof {
        lemma_dedup_empty(cert_views(input));
        law_dedup_certs(cert_views(input));
    }
    if unique.len() == 0 {
        return Err(KeyError::NoCertificates);
    }
    proof {
        assert forall|i: int| 0 <= i < unique@.len() implies exists|j: int|
            0 <= j < input.len() && (#[trigger] input[j])@.fingerprint == (
            #[trigger] unique@[i])@.fingerprint by {
            assert(cert_views(unique@)[i] == unique@[i]@);
            assert(cert_views(input).contains(cert_views(unique@)[i]));
            let j = choose|j: int|
                0 <= j < cert_views(input).len() && cert_views(input)[j] == cert_views(unique@)[i];
            assert(input[j]@ == cert_views(input)[j]);
        }
    }
    let armored = match encrypt_to_armored_message(plaintext, &unique) {
        Ok(a) => a,
        Err(e) => {
            return Err(e);
        },
    };
    let data = match build_encrypted_message(raw_message, &armored) {
        Ok(d) => d,
        Err(e) => {
            return Err(KeyError::Message(e));
        },
    };
    Ok(RelayMessage { envelope: envelope.duplicate(), data })
}

/// The certificates found for each recipient, as views.
pub open spec fn found_views(found: Seq<Vec<KeyCert>>) -> Seq<Seq<KeyCertView>> {
    found.map_values(|v: Vec<KeyCert>| cert_views(v@))
}

/// The lists of certificates one after the other.
fn concat_found(found: Vec<Vec<KeyCert>>) -> (r: Vec<KeyCert>)
    ensures
        cert_views(r@) == found_views(found@).flatten(),
{
    let ghost fv = found_views(found@);
    let mut rest = found;
    let mut all: Vec<KeyCert> = Vec::new();
    let ghost mut i: int = 0;
    assert(fv.take(0) =~= Seq::<Seq<KeyCertView>>::empty());
    assert(cert_views(all@) =~= Seq::<KeyCertView>::empty());
    assert(found_views(rest@) =~= fv.skip(0));
    while rest.len() > 0
        invariant
            0 <= i <= fv.len(),
            found_views(rest@) == fv.skip(i),
            cert_views(all@) == fv.take(i).flatten(),
        decreases rest@.len(),
    {
        let ghost before = rest@;
        let mut group = rest.remove(0);
        proof {
            assert(found_views(before).len() == before.len());
            assert(cert_views(group@) == fv[i]) by {
                assert(found_views(before)[0] == fv.skip(i)[0]);
            }
        }
        let ghost acc = cert_views(all@);
        all.append(&mut group);
        proof {
            assert(cert_views(all@) =~= acc + fv[i]);
            assert(fv.take(i + 1) =~= fv.take(i) + seq![fv[i]]);
            vstd::seq_lib::lemma_flatten_concat(fv.take(i), seq![fv[i]]);
            assert(seq![fv[i]].flatten() =~= fv[i]) by {
                reveal_with_fuel(Seq::flatten, 2);
            }
            assert(found_views(rest@) =~= fv.skip(i + 1)) by {
                assert forall|j: int| 0 <= j < rest@.len() implies #[trigger] found_views(
                    rest@,
                )[j] == fv.skip(i + 1)[j] by {
                    assert(rest@[j] == before[j + 1]);
                    assert(found_views(before)[j + 1] == fv.skip(i)[j + 1]);
                }
            }
            i = i + 1;
        }
    }
    proof {
        assert(fv.skip(i).len() == 0);
        assert(fv.take(i) =~= fv);
    }
    all
}

/// Encrypts the message, in the configured mode, for the certificates found for its
/// recipients (one list per recipient): the plaintext of the mode, encrypted so that every
/// certificate found (each fingerprint once) can decrypt it, in a PGP/MIME message for the
/// envelope.
#[verifier::rlimit(40)]
pub fn encrypt_for_recipients(
    raw_message: &[u8],
    envelope: &Envelope,
    mode: EncryptionMode,
    found: Vec<Vec<KeyCert>>,
) -> (r: Result<RelayMessage, KeyError>)
    ensures
        match plaintext_spec(raw_message@, mode) {
            Err(e) => r matches Err(KeyError::Message(e2)) && e2 == e,
            Ok(p) => {
                let certs = found_views(found@).flatten();
                &&& certs.len() == 0 ==> (r matches Err(e) && e@ == KeyErrorView::NoCertificates)
                &&& r matches Ok(m) ==> m.envelope.mail_from@ == envelope.mail_from@
                    && m.envelope.rcpt_to.deep_view() == envelope.rcpt_to.deep_view() && exists|
                    armored: Seq<u8>,
                    t: Seq<char>,
                |
                    is_simple_uuid(t) && encrypted_message_spec(
                        raw_message@,
                        armored,
                        "sendmail-sec-"@ + t,
                    ) == Ok::<Seq<u8>, MessageError>(m.data@) && is_armored_message(armored)
                        && (forall|i: int|
                        0 <= i < dedup_spec(certs).len() ==> decryptable_for(
                            armored,
                            p,
                            (#[trigger] dedup_spec(certs)[i]).cert,
                        ))
                &&& r matches Err(KeyError::NoTransportKey(f)) ==> exists|i: int|
                    0 <= i < certs.len() && (#[trigger] certs[i]).fingerprint == f@
            },
        },
{
    let plaintext = match plaintext_for_encryption(raw_message, mode) {
        Ok(p) => p,
        Err(e) => {
            return Err(KeyError::Message(e));
        },
    };
    let ghost certs = found_views(found@).flatten();
    let all = concat_found(found);
    assert(cert_views(all@) == certs);
    let r = finish_encryption(raw_message, envelope, &plaintext, all);
    proof {
        if certs.len() == 0 {
            assert(all@.len() == 0);
        }
        if let Err(KeyError::NoTransportKey(f)) = &r {
            let k = choose|k: int| 0 <= k < all@.len() && (#[trigger] all@[k])@.fingerprint == f@;
            assert(certs[k] == all@[k]@);
        }
    }
    r
}

} // verus!
