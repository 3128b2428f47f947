//! The extra root certificates of outbound TLS: the DER certificates in the configured PEM
//! files.
use vstd::prelude::*;

verus! {

/// The DER bodies of the CERTIFICATE sections that `rustls_pemfile::certs` reads from the
/// PEM text, in order, or `None` when a section is malformed.
pub uninterp spec fn pem_certificates_of(pem: Seq<u8>) -> Option<Seq<Seq<u8>>>;

/// Calls `rustls_pemfile::certs` on the bytes and collects the DER bytes of each certificate;
/// `None` when it reports an error. The result is named `pem_certificates_of`: parsing
/// depends on the bytes alone.
#[verifier::external_body]
fn pem_certificates(pem: &[u8]) -> (r: Option<Vec<Vec<u8>>>)
    ensures
        match pem_certificates_of(pem@) {
            None => r is None,
            Some(cs) => r matches Some(v) && v.deep_view() == cs,
        },
{
    let mut reader = pem;
    rustls_pemfile::certs(&mut reader).map(|c| c.ok().map(|d| d.as_ref().to_vec())).collect()
}

/// The certificates of the PEM files, file by file, or the index of the first file that
/// does not parse.
pub open spec fn extra_roots_spec(files: Seq<Seq<u8>>) -> Result<Seq<Seq<u8>>, int>
    decreases files.len(),
{
    if files.len() == 0 {
        Ok(Seq::empty())
    } else {
        match extra_roots_spec(files.drop_last()) {
            Err(i) => Err(i),
            Ok(acc) => match pem_certificates_of(files.last()) {
                None => Err(files.len() - 1),
                Some(cs) => Ok(acc + cs),
            },
        }
    }
}

/// A file that does not parse ends the reading, whatever follows it.
proof fn lemma_extra_roots_error_stays(files: Seq<Seq<u8>>, k: int, i: int)
    requires
        0 <= k <= files.len(),
        extra_roots_spec(files.take(k)) == Err::<Seq<Seq<u8>>, int>(i),
    ensures
        extra_roots_spec(files) == Err::<Seq<Seq<u8>>, int>(i),
    decreases files.len() - k,
{
    if k < files.len() {
        assert(files.take(k + 1).drop_last() =~= files.take(k));
        lemma_extra_roots_error_stays(files, k + 1, i);
    } else {
        assert(files.take(k) =~= files);
    }
}

/// The DER certificates in the contents of the configured extra root certificate files, in
/// file order; `Err` with the index of the first file whose PEM text does not parse.
pub fn extra_root_certificates(files: &Vec<Vec<u8>>) -> (r: Result<Vec<Vec<u8>>, usize>)
    ensures
        match extra_roots_spec(files.deep_view()) {
            Ok(cs) => r matches Ok(v) && v.deep_view() == cs,
            Err(i) => r matches Err(j) && j == i,
        },
{
    let ghost all = files.deep_view();
    let mut out: Vec<Vec<u8>> = Vec::new();
    let mut i: usize = 0;
    assert(all.take(0) =~= Seq::<Seq<u8>>::empty());
    assert(out.deep_view() =~= Seq::<Seq<u8>>::empty());
    while i < files.len()
        invariant
            i <= files@.len(),
            all == files.deep_view(),
            extra_roots_spec(all.take(i as int)) == Ok::<Seq<Seq<u8>>, int>(out.deep_view()),
        decreases files@.len() - i,
    {
        assert(all.take(i + 1).drop_last() =~= all.take(i as int));
        assert(all.take(i + 1).last() == files[i as int]@);
        match pem_certificates(files[i].as_slice()) {
            None => {
                proof {
                    lemma_extra_roots_error_stays(all, i + 1, i as int);
                }
                return Err(i);
            },
            Some(mut certs) => {
                let ghost before = out.deep_view();
                out.append(&mut certs);
                assert(out.deep_view() =~= before + pem_certificates_of(files[i as int]@)->0);
            },
        }
        i = i + 1;
    }
    assert(all.take(i as int) =~= all);
    Ok(out)
}

} // verus!
