//! Mail message handling: line-ending normalisation, SMTP dot-stuffing, header blocks,
//! the plaintext that gets encrypted, the PGP/MIME envelope around the ciphertext, and the
//! recipients that the message is encrypted for.
use vstd::prelude::*;
use vstd::utf8::encode_utf8;

use crate::config::EncryptionMode;
use crate::text::{
    chars_eq_ignore_case, copy_range, eq_ignore_case_chars, lower_bytes, lower_chars, push_str,
    starts_with_bytes, str_bytes, str_chars, string_from_chars, to_lower_bytes, to_lower_chars,
    trim, trim_chars, trim_matches, trim_matches_chars, CR, LF,
};
use crate::text::{
    lemma_lower_char_classes, lemma_lower_trim_end, lemma_lower_trim_matches,
    lemma_lower_trim_start, lemma_trim_matches_end_last, trim_matches_start, trim_start,
};

verus! {

pub const DOT: u8 = 46;

pub const SP: u8 = 32;

pub const TAB: u8 = 9;

pub const COLON: u8 = 58;

/// The sender and recipients given with MAIL FROM and RCPT TO.
#[derive(Debug)]
pub struct Envelope {
    pub mail_from: String,
    pub rcpt_to: Vec<String>,
}

impl Envelope {
    /// A copy of the envelope.
    pub fn duplicate(&self) -> (r: Envelope)
        ensures
            r.mail_from@ == self.mail_from@,
            r.rcpt_to.deep_view() == self.rcpt_to.deep_view(),
    {
        let mut rcpt_to: Vec<String> = Vec::new();
        let mut i: usize = 0;
        while i < self.rcpt_to.len()
            invariant
                i <= self.rcpt_to@.len(),
                rcpt_to.deep_view() == self.rcpt_to.deep_view().take(i as int),
            decreases self.rcpt_to@.len() - i,
        {
            let ghost before = rcpt_to.deep_view();
            let item = self.rcpt_to[i].clone();
            rcpt_to.push(item);
            assert(rcpt_to.deep_view() =~= before.push(item@));
            i = i + 1;
            assert(rcpt_to.deep_view() =~= self.rcpt_to.deep_view().take(i as int));
        }
        assert(self.rcpt_to.deep_view().take(i as int) =~= self.rcpt_to.deep_view());
        Envelope { mail_from: self.mail_from.clone(), rcpt_to }
    }
}

/// An envelope and the (encrypted) message data to relay with it.
#[derive(Debug)]
pub struct RelayMessage {
    pub envelope: Envelope,
    pub data: Vec<u8>,
}

/// Why a message could not be taken apart.
#[derive(Debug, PartialEq, Eq, Structural)]
pub enum MessageError {
    /// The message headers could not be parsed.
    HeaderParse,
    /// A To, Cc or Bcc header does not hold a valid address list.
    RecipientHeader,
    /// Neither the headers nor the envelope name a recipient.
    NoRecipients,
    /// A folded header line comes before any header.
    FoldedHeaderWithoutHeader,
    /// A header line has no ':'.
    HeaderWithoutColon,
}

pub open spec fn crlf() -> Seq<u8> {
    seq![CR, LF]
}

/// `data` with every bare CR and bare LF turned into CRLF.
pub open spec fn normalize_crlf_spec(d: Seq<u8>) -> Seq<u8>
    decreases d.len(),
{
    if d.len() == 0 {
        Seq::empty()
    } else if d[0] == CR {
        if d.len() >= 2 && d[1] == LF {
            crlf() + normalize_crlf_spec(d.skip(2))
        } else {
            crlf() + normalize_crlf_spec(d.skip(1))
        }
    } else if d[0] == LF {
        crlf() + normalize_crlf_spec(d.skip(1))
    } else {
        seq![d[0]] + normalize_crlf_spec(d.skip(1))
    }
}

/// Every CR is followed by LF and every LF follows a CR.
pub open spec fn is_crlf_normalized(s: Seq<u8>) -> bool {
    forall|i: int|
        0 <= i < s.len() ==> (#[trigger] s[i] == CR ==> i + 1 < s.len() && s[i + 1] == LF) && (
        s[i] == LF ==> i > 0 && s[i - 1] == CR)
}

/// Rewrites every line ending (CR, LF or CRLF) as CRLF.
pub fn normalize_crlf(data: &[u8]) -> (r: Vec<u8>)
    ensures
        r@ == normalize_crlf_spec(data@),
{
    let mut out: Vec<u8> = Vec::new();
    let mut i: usize = 0;
    let n = data.len();
    assert(data@.skip(0) =~= data@);
    while i < n
        invariant
            n == data@.len(),
            i <= n,
            normalize_crlf_spec(data@) == out@ + normalize_crlf_spec(data@.skip(i as int)),
        decreases n - i,
    {
        let ghost rest = data@.skip(i as int);
        let b = data[i];
        assert(rest[0] == b);
        if b == CR {
            out.push(CR);
            out.push(LF);
            if i + 1 < n && data[i + 1] == LF {
                assert(rest[1] == LF);
                assert(rest.skip(2) =~= data@.skip(i + 2));
                i = i + 2;
            } else {
                assert(rest.skip(1) =~= data@.skip(i + 1));
                i = i + 1;
            }
        } else if b == LF {
            out.push(CR);
            out.push(LF);
            assert(rest.skip(1) =~= data@.skip(i + 1));
            i = i + 1;
        } else {
            out.push(b);
            assert(rest.skip(1) =~= data@.skip(i + 1));
            i = i + 1;
        }
    }
    assert(data@.skip(n as int) =~= Seq::<u8>::empty());
    assert(out@ + Seq::<u8>::empty() =~= out@);
    out
}

/// Line-start dots doubled: `at_start` says whether `s` begins a line.
pub open spec fn stuff_lines(s: Seq<u8>, at_start: bool) -> Seq<u8>
    decreases s.len(),
{
    if s.len() == 0 {
        Seq::empty()
    } else {
        let head = if at_start && s[0] == DOT {
            seq![DOT, DOT]
        } else {
            seq![s[0]]
        };
        head + stuff_lines(s.drop_first(), s[0] == LF)
    }
}

pub open spec fn ends_with_crlf(s: Seq<u8>) -> bool {
    s.len() >= 2 && s[s.len() - 2] == CR && s[s.len() - 1] == LF
}

/// The data as sent after DATA: normalised line endings, every line that starts with '.'
/// gets a second '.', and the data ends with CRLF.
pub open spec fn dot_stuff_spec(d: Seq<u8>) -> Seq<u8> {
    let body = stuff_lines(normalize_crlf_spec(d), true);
    if ends_with_crlf(body) {
        body
    } else {
        body + crlf()
    }
}

/// Prepares message data for the SMTP DATA phase (RFC 5321 section 4.5.2).
pub fn dot_stuff(data: &[u8]) -> (r: Vec<u8>)
    ensures
        r@ == dot_stuff_spec(data@),
{
    let normalized = normalize_crlf(data);
    let mut out: Vec<u8> = Vec::new();
    let mut i: usize = 0;
    let mut at_start = true;
    let n = normalized.len();
    assert(normalized@.skip(0) =~= normalized@);
    while i < n
        invariant
            n == normalized@.len(),
            i <= n,
            stuff_lines(normalized@, true) == out@ + stuff_lines(
                normalized@.skip(i as int),
                at_start,
            ),
        decreases n - i,
    {
        let ghost rest = normalized@.skip(i as int);
        let b = normalized[i];
        assert(rest[0] == b);
        assert(rest.drop_first() =~= normalized@.skip(i + 1));
        if at_start && b == DOT {
            out.push(DOT);
        }
        out.push(b);
        at_start = b == LF;
        i = i + 1;
        assert(stuff_lines(normalized@, true) =~= out@ + stuff_lines(
            normalized@.skip(i as int),
            at_start,
        ));
    }
    assert(normalized@.skip(n as int) =~= Seq::<u8>::empty());
    assert(out@ + Seq::<u8>::empty() =~= out@);
    let len = out.len();
    if !(len >= 2 && out[len - 2] == CR && out[len - 1] == LF) {
        out.push(CR);
        out.push(LF);
        assert(out@ =~= stuff_lines(normalized@, true) + crlf());
    }
    out
}

/// Position of the first CRLFCRLF at or after `i`.
pub open spec fn find_blank_from(s: Seq<u8>, i: int) -> Option<int>
    decreases s.len() - i,
{
    if i < 0 || i + 4 > s.len() {
        None
    } else if s[i] == CR && s[i + 1] == LF && s[i + 2] == CR && s[i + 3] == LF {
        Some(i)
    } else {
        find_blank_from(s, i + 1)
    }
}

/// The header section and the body of a message whose line endings are CRLF.
pub open spec fn split_message_spec(s: Seq<u8>) -> (Seq<u8>, Seq<u8>) {
    match find_blank_from(s, 0) {
        Some(p) => (s.take(p), s.skip(p + 4)),
        None => (s, Seq::empty()),
    }
}

/// Splits a message at its first empty line into header section and body.
pub fn split_message(raw: &[u8]) -> (r: (Vec<u8>, Vec<u8>))
    ensures
        r.0@ == split_message_spec(raw@).0,
        r.1@ == split_message_spec(raw@).1,
{
    let n = raw.len();
    let mut i: usize = 0;
    while n >= 4 && i <= n - 4
        invariant
            n == raw@.len(),
            find_blank_from(raw@, 0) == find_blank_from(raw@, i as int),
        decreases n - i,
    {
        if raw[i] == CR && raw[i + 1] == LF && raw[i + 2] == CR && raw[i + 3] == LF {
            let head = copy_range(raw, 0, i);
            let body = copy_range(raw, i + 4, n);
            assert(head@ =~= raw@.take(i as int));
            assert(body@ =~= raw@.skip(i + 4));
            return (head, body);
        }
        i = i + 1;
    }
    let all = copy_range(raw, 0, n);
    assert(all@ =~= raw@);
    (all, Vec::new())
}

/// Lines that end in LF (the last one may lack it), as `split_inclusive` yields them.
pub open spec fn lines_from(s: Seq<u8>, cur: Seq<u8>) -> Seq<Seq<u8>>
    decreases s.len(),
{
    if s.len() == 0 {
        if cur.len() == 0 {
            Seq::empty()
        } else {
            seq![cur]
        }
    } else if s[0] == LF {
        seq![cur.push(LF)] + lines_from(s.drop_first(), Seq::empty())
    } else {
        lines_from(s.drop_first(), cur.push(s[0]))
    }
}

pub open spec fn split_lines(s: Seq<u8>) -> Seq<Seq<u8>> {
    lines_from(s, Seq::empty())
}

/// Splits `s` after every LF.
pub fn split_lines_inclusive(s: &[u8]) -> (r: Vec<Vec<u8>>)
    ensures
        r.deep_view() == split_lines(s@),
{
    let mut lines: Vec<Vec<u8>> = Vec::new();
    let mut cur: Vec<u8> = Vec::new();
    let n = s.len();
    let mut i: usize = 0;
    assert(s@.skip(0) =~= s@);
    while i < n
        invariant
            n == s@.len(),
            i <= n,
            split_lines(s@) == lines.deep_view() + lines_from(s@.skip(i as int), cur@),
        decreases n - i,
    {
        let ghost rest = s@.skip(i as int);
        let b = s[i];
        assert(rest[0] == b);
        assert(rest.drop_first() =~= s@.skip(i + 1));
        cur.push(b);
        if b == LF {
            let line = cur;
            let ghost before = lines.deep_view();
            assert(line.deep_view() =~= line@);
            lines.push(line);
            cur = Vec::new();
            assert(lines.deep_view() =~= before.push(line@));
        }
        i = i + 1;
        assert(split_lines(s@) =~= lines.deep_view() + lines_from(s@.skip(i as int), cur@));
    }
    if cur.len() > 0 {
        let line = cur;
        let ghost before = lines.deep_view();
        assert(line.deep_view() =~= line@);
        lines.push(line);
        assert(lines.deep_view() =~= before.push(line@));
    }
    assert(split_lines(s@) =~= lines.deep_view());
    lines
}

/// Index of the first `b` in `s`.
pub open spec fn find_byte_from(s: Seq<u8>, b: u8, i: int) -> Option<int>
    decreases s.len() - i,
{
    if i < 0 || i >= s.len() {
        None
    } else if s[i] == b {
        Some(i)
    } else {
        find_byte_from(s, b, i + 1)
    }
}

pub open spec fn find_byte(s: Seq<u8>, b: u8) -> Option<int> {
    find_byte_from(s, b, 0)
}

/// Finds the first `b` in `s`.
pub fn position_of(s: &[u8], b: u8) -> (r: Option<usize>)
    ensures
        r matches Some(k) ==> find_byte(s@, b) == Some(k as int) && k < s@.len() && s@[k as int]
            == b,
        r is None ==> find_byte(s@, b) is None,
{
    let mut i: usize = 0;
    while i < s.len()
        invariant
            i <= s@.len(),
            find_byte(s@, b) == find_byte_from(s@, b, i as int),
        decreases s@.len() - i,
    {
        if s[i] == b {
            return Some(i);
        }
        i = i + 1;
    }
    None
}

/// A header field with its folded continuation lines: the lower-cased name and the raw
/// bytes, which always end with CRLF.
#[derive(Debug)]
pub struct HeaderBlock {
    pub name_lower: Vec<u8>,
    pub raw: Vec<u8>,
}

/// The block built from a header's raw lines: the name is what precedes the first ':'.
pub open spec fn build_block_spec(raw: Seq<u8>) -> Result<(Seq<u8>, Seq<u8>), MessageError> {
    match find_byte(raw, COLON) {
        None => Err(MessageError::HeaderWithoutColon),
        Some(k) => Ok(
            (
                lower_bytes(raw.take(k)),
                if ends_with_crlf(raw) {
                    raw
                } else {
                    raw + crlf()
                },
            ),
        ),
    }
}

pub open spec fn is_continuation(l: Seq<u8>) -> bool {
    l.len() > 0 && (l[0] == SP || l[0] == TAB)
}

/// Header blocks of the given lines, where `cur` holds the lines of the open block.
pub open spec fn blocks_from(lines: Seq<Seq<u8>>, cur: Seq<u8>) -> Result<
    Seq<(Seq<u8>, Seq<u8>)>,
    MessageError,
>
    decreases lines.len(),
{
    if lines.len() == 0 {
        if cur.len() == 0 {
            Ok(Seq::empty())
        } else {
            match build_block_spec(cur) {
                Ok(b) => Ok(seq![b]),
                Err(e) => Err(e),
            }
        }
    } else if is_continuation(lines[0]) {
        if cur.len() == 0 {
            Err(MessageError::FoldedHeaderWithoutHeader)
        } else {
            blocks_from(lines.drop_first(), cur + lines[0])
        }
    } else if cur.len() == 0 {
        blocks_from(lines.drop_first(), lines[0])
    } else {
        match build_block_spec(cur) {
            Err(e) => Err(e),
            Ok(b) => match blocks_from(lines.drop_first(), lines[0]) {
                Err(e) => Err(e),
                Ok(rest) => Ok(seq![b] + rest),
            },
        }
    }
}

/// The header blocks of a header section.
pub open spec fn header_blocks_spec(headers: Seq<u8>) -> Result<
    Seq<(Seq<u8>, Seq<u8>)>,
    MessageError,
> {
    blocks_from(split_lines(headers), Seq::empty())
}

pub open spec fn block_views(blocks: Seq<HeaderBlock>) -> Seq<(Seq<u8>, Seq<u8>)> {
    blocks.map_values(|b: HeaderBlock| (b.name_lower@, b.raw@))
}

pub open spec fn prepend_blocks(
    acc: Seq<(Seq<u8>, Seq<u8>)>,
    r: Result<Seq<(Seq<u8>, Seq<u8>)>, MessageError>,
) -> Result<Seq<(Seq<u8>, Seq<u8>)>, MessageError> {
    match r {
        Ok(rest) => Ok(acc + rest),
        Err(e) => Err(e),
    }
}

/// Builds one header block from its raw lines.
pub fn build_header_block(raw: &[u8]) -> (r: Result<HeaderBlock, MessageError>)
    ensures
        match build_block_spec(raw@) {
            Ok(v) => r matches Ok(b) && b.name_lower@ == v.0 && b.raw@ == v.1,
            Err(e) => r == Err::<HeaderBlock, MessageError>(e),
        },
{
    match position_of(raw, COLON) {
        None => Err(MessageError::HeaderWithoutColon),
        Some(k) => {
            let name = copy_range(raw, 0, k);
            let name_lower = to_lower_bytes(&name);
            assert(name@ =~= raw@.take(k as int));
            let mut block = copy_range(raw, 0, raw.len());
            assert(block@ =~= raw@);
            let len = block.len();
            if !(len >= 2 && block[len - 2] == CR && block[len - 1] == LF) {
                block.push(CR);
                block.push(LF);
                assert(block@ =~= raw@ + crlf());
            }
            Ok(HeaderBlock { name_lower, raw: block })
        },
    }
}

/// Splits a header section into header blocks, joining folded lines with their header.
pub fn split_header_blocks(headers: &[u8]) -> (r: Result<Vec<HeaderBlock>, MessageError>)
    ensures
        match header_blocks_spec(headers@) {
            Ok(v) => r matches Ok(bs) && block_views(bs@) == v,
            Err(e) => r matches Err(e2) && e2 == e,
        },
{
    let lines = split_lines_inclusive(headers);
    let ghost ls = lines.deep_view();
    let mut blocks: Vec<HeaderBlock> = Vec::new();
    let mut current: Vec<u8> = Vec::new();
    let mut i: usize = 0;
    assert(ls.skip(0) =~= ls);
    assert(block_views(blocks@) =~= Seq::empty());
    while i < lines.len()
        invariant
            ls == lines.deep_view(),
            ls == split_lines(headers@),
            i <= lines@.len(),
            header_blocks_spec(headers@) == prepend_blocks(
                block_views(blocks@),
                blocks_from(ls.skip(i as int), current@),
            ),
        decreases lines@.len() - i,
    {
        let line = &lines[i];
        let ghost rest = ls.skip(i as int);
        let ghost cur0 = current@;
        let ghost acc0 = block_views(blocks@);
        assert(rest[0] == line@);
        assert(rest.drop_first() =~= ls.skip(i + 1));
        assert(rest.len() > 0);
        let cont = line.len() > 0 && (line[0] == SP || line[0] == TAB);
        assert(cont == is_continuation(rest[0]));
        if cont {
            if current.len() == 0 {
                assert(blocks_from(rest, cur0) == Err::<Seq<(Seq<u8>, Seq<u8>)>, MessageError>(
                    MessageError::FoldedHeaderWithoutHeader,
                ));
                return Err(MessageError::FoldedHeaderWithoutHeader);
            }
            current.extend_from_slice(line);
            assert(current@ =~= cur0 + line@);
            assert(blocks_from(rest, cur0) == blocks_from(ls.skip(i + 1), current@));
        } else {
            if current.len() > 0 {
                match build_header_block(&current) {
                    Ok(b) => {
                        let ghost before = blocks@;
                        blocks.push(b);
                        assert(block_views(blocks@) =~= block_views(before).push(
                            (b.name_lower@, b.raw@),
                        ));
                        assert(build_block_spec(cur0) == Ok::<(Seq<u8>, Seq<u8>), MessageError>(
                            (b.name_lower@, b.raw@),
                        ));
                        let ghost tail = blocks_from(ls.skip(i + 1), line@);
                        assert(blocks_from(rest, cur0) == match tail {
                            Err(e) => Err(e),
                            Ok(r) => Ok(seq![(b.name_lower@, b.raw@)] + r),
                        });
                        assert(prepend_blocks(acc0, blocks_from(rest, cur0)) =~= prepend_blocks(
                            block_views(blocks@),
                            tail,
                        )) by {
                            match tail {
                                Ok(r) => {
                                    assert(acc0 + (seq![(b.name_lower@, b.raw@)] + r) =~= acc0.push(
                                        (b.name_lower@, b.raw@),
                                    ) + r);
                                },
                                Err(e) => {},
                            }
                        }
                    },
                    Err(e) => {
                        assert(blocks_from(rest, cur0) == Err::<Seq<(Seq<u8>, Seq<u8>)>, MessageError>(e));
                        return Err(e);
                    },
                }
            } else {
                assert(blocks_from(rest, cur0) == blocks_from(ls.skip(i + 1), line@));
            }
            current = copy_range(line, 0, line.len());
            assert(current@ =~= line@);
        }
        i = i + 1;
    }
    assert(ls.skip(i as int) =~= Seq::<Seq<u8>>::empty());
    let ghost acc0 = block_views(blocks@);
    let ghost cur0 = current@;
    if current.len() > 0 {
        match build_header_block(&current) {
            Ok(b) => {
                let ghost before = blocks@;
                blocks.push(b);
                assert(block_views(blocks@) =~= block_views(before).push((b.name_lower@, b.raw@)));
                assert(blocks_from(Seq::<Seq<u8>>::empty(), cur0) == Ok::<
                    Seq<(Seq<u8>, Seq<u8>)>,
                    MessageError,
                >(seq![(b.name_lower@, b.raw@)]));
                assert(acc0 + seq![(b.name_lower@, b.raw@)] =~= block_views(blocks@));
            },
            Err(e) => {
                return Err(e);
            },
        }
    } else {
        assert(acc0 + Seq::empty() =~= acc0);
    }
    Ok(blocks)
}

/// Headers that describe the MIME content: MIME-Version and every Content-* header.
pub open spec fn is_content_header_spec(name_lower: Seq<u8>) -> bool {
    ||| name_lower == encode_utf8("mime-version"@)
    ||| (name_lower.len() >= encode_utf8("content-"@).len() && name_lower.take(
        encode_utf8("content-"@).len() as int,
    ) == encode_utf8("content-"@))
}

/// Whether a lower-cased header name names a content header.
pub fn is_content_header(name_lower: &[u8]) -> (r: bool)
    ensures
        r == is_content_header_spec(name_lower@),
{
    let mime = str_bytes("mime-version");
    let content = str_bytes("content-");
    let eq_mime = name_lower.len() == mime.len() && starts_with_bytes(name_lower, &mime);
    proof {
        if name_lower@.len() == mime@.len() {
            assert(name_lower@.take(mime@.len() as int) =~= name_lower@);
        }
    }
    eq_mime || starts_with_bytes(name_lower, &content)
}

/// Raw bytes of the blocks that `keep` selects, in order, and whether any was selected.
pub open spec fn concat_selected(
    blocks: Seq<(Seq<u8>, Seq<u8>)>,
    keep: spec_fn(Seq<u8>) -> bool,
) -> Seq<u8>
    decreases blocks.len(),
{
    if blocks.len() == 0 {
        Seq::empty()
    } else {
        (if keep(blocks[0].0) {
            blocks[0].1
        } else {
            Seq::empty()
        }) + concat_selected(blocks.drop_first(), keep)
    }
}

pub open spec fn any_selected(
    blocks: Seq<(Seq<u8>, Seq<u8>)>,
    keep: spec_fn(Seq<u8>) -> bool,
) -> bool {
    exists|i: int| 0 <= i < blocks.len() && keep(#[trigger] blocks[i].0)
}

pub open spec fn content_keep() -> spec_fn(Seq<u8>) -> bool {
    |n: Seq<u8>| is_content_header_spec(n)
}

/// The data that gets encrypted: the whole normalised message, or only its content headers
/// and body (PGP/MIME body mode).
pub open spec fn plaintext_spec(raw: Seq<u8>, mode: EncryptionMode) -> Result<
    Seq<u8>,
    MessageError,
> {
    let normalized = normalize_crlf_spec(raw);
    match mode {
        EncryptionMode::FullMessage => Ok(normalized),
        EncryptionMode::PgpMimeBody => {
            let (headers, body) = split_message_spec(normalized);
            match header_blocks_spec(headers) {
                Err(e) => Err(e),
                Ok(blocks) => {
                    let inner = concat_selected(blocks, content_keep());
                    Ok(
                        if any_selected(blocks, content_keep()) {
                            inner + crlf() + body
                        } else {
                            inner + body
                        },
                    )
                },
            }
        },
    }
}

/// The headers that go inside the encrypted part are MIME-Version and every header whose
/// name (in lower case) begins with "content-".
pub proof fn law_content_header_names(n: Seq<u8>)
    ensures
        is_content_header_spec(n) <==> (n == encode_utf8("mime-version"@) || (n.len() >= 8
            && n.take(8) == encode_utf8("content-"@))),
{
    assert(encode_utf8("content-"@).len() == 8) by {
        reveal_strlit("content-");
        assert("content-"@ =~= seq!['c', 'o', 'n', 't', 'e', 'n', 't', '-']);
        assert(vstd::utf8::is_ascii_chars("content-"@));
        vstd::utf8::is_ascii_chars_encode_utf8("content-"@);
    }
}

/// In PGP/MIME body mode every content header of the submitted message (MIME-Version and
/// each Content-* header) appears, exactly as it was written, in the plaintext to encrypt.
pub proof fn law_plaintext_keeps_content_headers(raw: Seq<u8>, i: int)
    requires
        header_blocks_spec(split_message_spec(normalize_crlf_spec(raw)).0) matches Ok(blocks) && 0
            <= i < blocks.len() && is_content_header_spec(blocks[i].0),
    ensures
        plaintext_spec(raw, EncryptionMode::PgpMimeBody) matches Ok(p) && exists|off: int|
            0 <= off && off + header_blocks_spec(split_message_spec(normalize_crlf_spec(raw)).0)->Ok_0[i].1.len()
                <= p.len() && #[trigger] p.subrange(
                off,
                off + header_blocks_spec(
                    split_message_spec(normalize_crlf_spec(raw)).0,
                )->Ok_0[i].1.len(),
            ) == header_blocks_spec(split_message_spec(normalize_crlf_spec(raw)).0)->Ok_0[i].1,
{
    let (headers, body) = split_message_spec(normalize_crlf_spec(raw));
    let blocks = header_blocks_spec(headers)->Ok_0;
    let sel = concat_selected(blocks, content_keep());
    lemma_selected_block_kept(blocks, content_keep(), i);
    let len = blocks[i].1.len() as int;
    let off = choose|off: int|
        0 <= off && off + len <= sel.len() && #[trigger] sel.subrange(off, off + len)
            == blocks[i].1;
    assert(any_selected(blocks, content_keep()));
    let p = plaintext_spec(raw, EncryptionMode::PgpMimeBody)->Ok_0;
    assert(p == sel + crlf() + body);
    assert(p.subrange(off, off + len) =~= sel.subrange(off, off + len));
}

proof fn lemma_concat_selected_push(
    blocks: Seq<(Seq<u8>, Seq<u8>)>,
    keep: spec_fn(Seq<u8>) -> bool,
    i: int,
)
    requires
        0 <= i < blocks.len(),
    ensures
        concat_selected(blocks.take(i + 1), keep) == concat_selected(blocks.take(i), keep) + (
        if keep(blocks[i].0) {
            blocks[i].1
        } else {
            Seq::empty()
        }),
    decreases i,
{
    let t1 = blocks.take(i + 1);
    let t0 = blocks.take(i);
    if i == 0 {
        assert(t1.len() == 1);
        assert(t1[0] == blocks[0]);
        assert(t1.drop_first() =~= Seq::<(Seq<u8>, Seq<u8>)>::empty());
        assert(t0 =~= Seq::<(Seq<u8>, Seq<u8>)>::empty());
        assert(concat_selected(t1.drop_first(), keep) == Seq::<u8>::empty());
        assert(concat_selected(t0, keep) == Seq::<u8>::empty());
        assert(concat_selected(t1, keep) =~= (if keep(blocks[0].0) {
            blocks[0].1
        } else {
            Seq::empty()
        }) + Seq::empty());
    } else {
        let d = blocks.drop_first();
        lemma_concat_selected_push(d, keep, i - 1);
        assert(t1.drop_first() =~= d.take(i));
        assert(t0.drop_first() =~= d.take(i - 1));
        assert(t0[0] == blocks[0]);
        assert(t1[0] == blocks[0]);
        let h = if keep(blocks[0].0) {
            blocks[0].1
        } else {
            Seq::empty()
        };
        let tail = if keep(blocks[i].0) {
            blocks[i].1
        } else {
            Seq::empty()
        };
        assert(d[i - 1] == blocks[i]);
        assert(concat_selected(t1, keep) == h + concat_selected(d.take(i), keep));
        assert(concat_selected(t0, keep) == h + concat_selected(d.take(i - 1), keep));
        assert(h + (concat_selected(d.take(i - 1), keep) + tail) =~= (h + concat_selected(
            d.take(i - 1),
            keep,
        )) + tail);
    }
}

/// Concatenates the raw bytes of the blocks that pass `select`.
fn concat_blocks(blocks: &Vec<HeaderBlock>, content: bool) -> (r: (Vec<u8>, bool))
    ensures
        content ==> r.0@ == concat_selected(block_views(blocks@), content_keep()),
        content ==> r.1 == any_selected(block_views(blocks@), content_keep()),
        !content ==> r.0@ == concat_selected(block_views(blocks@), outer_keep()),
{
    let ghost bv = block_views(blocks@);
    let ghost keep = if content {
        content_keep()
    } else {
        outer_keep()
    };
    let mut out: Vec<u8> = Vec::new();
    let mut any = false;
    let mut i: usize = 0;
    while i < blocks.len()
        invariant
            bv == block_views(blocks@),
            keep == (if content {
                content_keep()
            } else {
                outer_keep()
            }),
            i <= blocks@.len(),
            out@ == concat_selected(bv.take(i as int), keep),
            any == (exists|j: int| 0 <= j < i && keep(#[trigger] bv[j].0)),
        decreases blocks@.len() - i,
    {
        let b = &blocks[i];
        assert(bv[i as int] == (b.name_lower@, b.raw@));
        let sel = if content {
            is_content_header(&b.name_lower)
        } else {
            is_outer_header(&b.name_lower)
        };
        proof {
            lemma_concat_selected_push(bv, keep, i as int);
        }
        if sel {
            out.extend_from_slice(&b.raw);
            any = true;
        } else {
            assert(out@ + Seq::empty() =~= out@);
        }
        i = i + 1;
    }
    assert(bv.take(i as int) =~= bv);
    (out, any)
}

/// The data to encrypt for the given mode.
pub fn plaintext_for_encryption(raw_message: &[u8], mode: EncryptionMode) -> (r: Result<
    Vec<u8>,
    MessageError,
>)
    ensures
        match plaintext_spec(raw_message@, mode) {
            Ok(v) => r matches Ok(p) && p@ == v,
            Err(e) => r matches Err(e2) && e2 == e,
        },
{
    let normalized = normalize_crlf(raw_message);
    match mode {
        EncryptionMode::FullMessage => Ok(normalized),
        EncryptionMode::PgpMimeBody => {
            let (headers, body) = split_message(&normalized);
            let header_blocks = split_header_blocks(&headers)?;
            let (mut inner, has_content_headers) = concat_blocks(&header_blocks, true);
            if has_content_headers {
                inner.push(CR);
                inner.push(LF);
            }
            inner.extend_from_slice(&body);
            Ok(inner)
        },
    }
}

/// Headers that stay readable on the outside of the encrypted message.
pub open spec fn is_outer_header_spec(name_lower: Seq<u8>) -> bool {
    ||| name_lower == encode_utf8("date"@)
    ||| name_lower == encode_utf8("from"@)
    ||| name_lower == encode_utf8("to"@)
    ||| name_lower == encode_utf8("cc"@)
    ||| name_lower == encode_utf8("subject"@)
    ||| name_lower == encode_utf8("reply-to"@)
    ||| name_lower == encode_utf8("sender"@)
    ||| name_lower == encode_utf8("message-id"@)
    ||| name_lower == encode_utf8("in-reply-to"@)
    ||| name_lower == encode_utf8("references"@)
    ||| name_lower == encode_utf8("resent-date"@)
    ||| name_lower == encode_utf8("resent-from"@)
    ||| name_lower == encode_utf8("resent-to"@)
    ||| name_lower == encode_utf8("resent-cc"@)
}

pub open spec fn outer_keep() -> spec_fn(Seq<u8>) -> bool {
    |n: Seq<u8>| is_outer_header_spec(n)
}

fn name_is(name: &[u8], s: &str) -> (r: bool)
    ensures
        r == (name@ == encode_utf8(s@)),
{
    let b = str_bytes(s);
    let r = name.len() == b.len() && starts_with_bytes(name, &b);
    proof {
        if name@.len() == b@.len() {
            assert(name@.take(b@.len() as int) =~= name@);
        }
    }
    r
}

/// Whether a lower-cased header name is kept on the outer message.
pub fn is_outer_header(name_lower: &[u8]) -> (r: bool)
    ensures
        r == is_outer_header_spec(name_lower@),
{
    name_is(name_lower, "date") || name_is(name_lower, "from") || name_is(name_lower, "to")
        || name_is(name_lower, "cc") || name_is(name_lower, "subject") || name_is(
        name_lower,
        "reply-to",
    ) || name_is(name_lower, "sender") || name_is(name_lower, "message-id") || name_is(
        name_lower,
        "in-reply-to",
    ) || name_is(name_lower, "references") || name_is(name_lower, "resent-date") || name_is(
        name_lower,
        "resent-from",
    ) || name_is(name_lower, "resent-to") || name_is(name_lower, "resent-cc")
}

pub open spec fn lit(s: &str) -> Seq<u8> {
    encode_utf8(s@)
}

/// The outer MIME headers of a PGP/MIME message with the given boundary.
pub open spec fn multipart_header(b: Seq<u8>) -> Seq<u8> {
    lit("MIME-Version: 1.0\r\n") + lit(
        "Content-Type: multipart/encrypted; protocol=\"application/pgp-encrypted\"; boundary=\"",
    ) + b + lit("\"\r\n") + lit("\r\n")
}

/// The PGP/MIME version identification part.
pub open spec fn version_part(b: Seq<u8>) -> Seq<u8> {
    lit("--") + b + lit("\r\n") + lit("Content-Type: application/pgp-encrypted\r\n") + lit(
        "Content-Description: PGP/MIME version identification\r\n",
    ) + lit("\r\n") + lit("Version: 1\r\n") + lit("\r\n")
}

/// The headers of the part that carries the ciphertext.
pub open spec fn data_part_header(b: Seq<u8>) -> Seq<u8> {
    lit("--") + b + lit("\r\n") + lit(
        "Content-Type: application/octet-stream; name=\"encrypted.asc\"\r\n",
    ) + lit("Content-Description: OpenPGP encrypted message\r\n") + lit(
        "Content-Disposition: inline; filename=\"encrypted.asc\"\r\n",
    ) + lit("Content-Transfer-Encoding: 7bit\r\n") + lit("\r\n")
}

/// The closing delimiter of the multipart message.
pub open spec fn closing(b: Seq<u8>) -> Seq<u8> {
    lit("\r\n") + lit("--") + b + lit("--\r\n")
}

/// The ciphertext with CRLF line endings, ending with CRLF.
pub open spec fn ciphertext_lines(armored: Seq<u8>) -> Seq<u8> {
    let ct = normalize_crlf_spec(armored);
    if ends_with_crlf(ct) {
        ct
    } else {
        ct + crlf()
    }
}

/// The PGP/MIME message (RFC 3156) around an armored ciphertext: the outer headers of the
/// submitted message, the multipart/encrypted header with `boundary`, the version part and the
/// ciphertext part.
pub open spec fn encrypted_message_spec(
    raw: Seq<u8>,
    armored: Seq<u8>,
    boundary: Seq<char>,
) -> Result<Seq<u8>, MessageError> {
    let normalized = normalize_crlf_spec(raw);
    let (headers, body) = split_message_spec(normalized);
    match header_blocks_spec(headers) {
        Err(e) => Err(e),
        Ok(blocks) => {
            let b = encode_utf8(boundary);
            Ok(
                concat_selected(blocks, outer_keep()) + multipart_header(b) + version_part(b)
                    + data_part_header(b) + ciphertext_lines(armored) + closing(b),
            )
        },
    }
}

/// A selected block's raw text appears, whole, in what the selection concatenates.
proof fn lemma_selected_block_kept(
    blocks: Seq<(Seq<u8>, Seq<u8>)>,
    keep: spec_fn(Seq<u8>) -> bool,
    i: int,
)
    requires
        0 <= i < blocks.len(),
        keep(blocks[i].0),
    ensures
        exists|off: int|
            0 <= off && off + blocks[i].1.len() <= concat_selected(blocks, keep).len()
                && #[trigger] concat_selected(blocks, keep).subrange(off, off + blocks[i].1.len())
                == blocks[i].1,
    decreases i,
{
    let c = concat_selected(blocks, keep);
    let head = if keep(blocks[0].0) {
        blocks[0].1
    } else {
        Seq::empty()
    };
    let rest = concat_selected(blocks.drop_first(), keep);
    assert(c == head + rest);
    let len = blocks[i].1.len() as int;
    if i == 0 {
        assert(c.subrange(0, len) =~= blocks[0].1);
        assert(0 + len <= concat_selected(blocks, keep).len() && concat_selected(blocks, keep).subrange(
            0,
            0 + len,
        ) == blocks[i].1);
    } else {
        lemma_selected_block_kept(blocks.drop_first(), keep, i - 1);
        assert(blocks.drop_first()[i - 1] == blocks[i]);
        let off = choose|off: int|
            0 <= off && off + len <= rest.len() && #[trigger] rest.subrange(off, off + len)
                == blocks[i].1;
        let o = head.len() + off;
        assert(c.subrange(o, o + len) =~= rest.subrange(off, off + len));
        assert(0 <= o && o + len <= concat_selected(blocks, keep).len() && concat_selected(
            blocks,
            keep,
        ).subrange(o, o + len) == blocks[i].1);
    }
}

/// The headers kept on the outside of the encrypted message are exactly those named (in
/// lower case) Date, From, To, Cc, Subject, Reply-To, Sender, Message-ID, In-Reply-To,
/// References, Resent-Date, Resent-From, Resent-To and Resent-Cc.
pub proof fn law_outer_header_names(n: Seq<u8>)
    ensures
        is_outer_header_spec(n) <==> {
            ||| n == encode_utf8("date"@)
            ||| n == encode_utf8("from"@)
            ||| n == encode_utf8("to"@)
            ||| n == encode_utf8("cc"@)
            ||| n == encode_utf8("subject"@)
            ||| n == encode_utf8("reply-to"@)
            ||| n == encode_utf8("sender"@)
            ||| n == encode_utf8("message-id"@)
            ||| n == encode_utf8("in-reply-to"@)
            ||| n == encode_utf8("references"@)
            ||| n == encode_utf8("resent-date"@)
            ||| n == encode_utf8("resent-from"@)
            ||| n == encode_utf8("resent-to"@)
            ||| n == encode_utf8("resent-cc"@)
        },
{
}

/// Every header of the submitted message whose name is kept outside (such as Cc) appears,
/// exactly as it was written, in the PGP/MIME message built around the ciphertext.
pub proof fn law_encrypted_message_keeps_outer_headers(
    raw: Seq<u8>,
    armored: Seq<u8>,
    boundary: Seq<char>,
    i: int,
)
    requires
        header_blocks_spec(split_message_spec(normalize_crlf_spec(raw)).0) matches Ok(blocks) && 0
            <= i < blocks.len() && is_outer_header_spec(blocks[i].0),
    ensures
        encrypted_message_spec(raw, armored, boundary) matches Ok(out) && exists|off: int|
            0 <= off && off + header_blocks_spec(split_message_spec(normalize_crlf_spec(raw)).0)->Ok_0[i].1.len()
                <= out.len() && #[trigger] out.subrange(
                off,
                off + header_blocks_spec(
                    split_message_spec(normalize_crlf_spec(raw)).0,
                )->Ok_0[i].1.len(),
            ) == header_blocks_spec(split_message_spec(normalize_crlf_spec(raw)).0)->Ok_0[i].1,
{
    let blocks = header_blocks_spec(split_message_spec(normalize_crlf_spec(raw)).0)->Ok_0;
    let sel = concat_selected(blocks, outer_keep());
    lemma_selected_block_kept(blocks, outer_keep(), i);
    let len = blocks[i].1.len() as int;
    let off = choose|off: int|
        0 <= off && off + len <= sel.len() && #[trigger] sel.subrange(off, off + len)
            == blocks[i].1;
    let out = encrypted_message_spec(raw, armored, boundary)->Ok_0;
    let b = encode_utf8(boundary);
    let tail = multipart_header(b) + version_part(b) + data_part_header(b) + ciphertext_lines(
        armored,
    ) + closing(b);
    assert(out == sel + tail);
    assert(out.subrange(off, off + len) =~= sel.subrange(off, off + len));
}

fn push_multipart_header(out: &mut Vec<u8>, boundary: &str)
    ensures
        final(out)@ == old(out)@ + multipart_header(encode_utf8(boundary@)),
{
    push_str(out, "MIME-Version: 1.0\r\n");
    push_str(
        out,
        "Content-Type: multipart/encrypted; protocol=\"application/pgp-encrypted\"; boundary=\"",
    );
    push_str(out, boundary);
    push_str(out, "\"\r\n");
    push_str(out, "\r\n");
    assert(final(out)@ =~= old(out)@ + multipart_header(encode_utf8(boundary@)));
}

fn push_version_part(out: &mut Vec<u8>, boundary: &str)
    ensures
        final(out)@ == old(out)@ + version_part(encode_utf8(boundary@)),
{
    push_str(out, "--");
    push_str(out, boundary);
    push_str(out, "\r\n");
    push_str(out, "Content-Type: application/pgp-encrypted\r\n");
    push_str(out, "Content-Description: PGP/MIME version identification\r\n");
    push_str(out, "\r\n");
    push_str(out, "Version: 1\r\n");
    push_str(out, "\r\n");
    assert(final(out)@ =~= old(out)@ + version_part(encode_utf8(boundary@)));
}

fn push_data_part_header(out: &mut Vec<u8>, boundary: &str)
    ensures
        final(out)@ == old(out)@ + data_part_header(encode_utf8(boundary@)),
{
    push_str(out, "--");
    push_str(out, boundary);
    push_str(out, "\r\n");
    push_str(out, "Content-Type: application/octet-stream; name=\"encrypted.asc\"\r\n");
    push_str(out, "Content-Description: OpenPGP encrypted message\r\n");
    push_str(out, "Content-Disposition: inline; filename=\"encrypted.asc\"\r\n");
    push_str(out, "Content-Transfer-Encoding: 7bit\r\n");
    push_str(out, "\r\n");
    assert(final(out)@ =~= old(out)@ + data_part_header(encode_utf8(boundary@)));
}

fn push_closing(out: &mut Vec<u8>, boundary: &str)
    ensures
        final(out)@ == old(out)@ + closing(encode_utf8(boundary@)),
{
    push_str(out, "\r\n");
    push_str(out, "--");
    push_str(out, boundary);
    push_str(out, "--\r\n");
    assert(final(out)@ =~= old(out)@ + closing(encode_utf8(boundary@)));
}

/// Wraps an armored ciphertext in a PGP/MIME message that keeps the outer headers of
/// `raw_message`, with the given MIME boundary.
pub fn build_encrypted_message_with_boundary(
    raw_message: &[u8],
    armored_ciphertext: &[u8],
    boundary: &str,
) -> (r: Result<Vec<u8>, MessageError>)
    ensures
        match encrypted_message_spec(raw_message@, armored_ciphertext@, boundary@) {
            Ok(v) => r matches Ok(m) && m@ == v,
            Err(e) => r matches Err(e2) && e2 == e,
        },
{
    let normalized = normalize_crlf(raw_message);
    let (headers, _) = split_message(&normalized);
    let header_blocks = split_header_blocks(&headers)?;
    let (mut output, _) = concat_blocks(&header_blocks, false);
    let ghost outer = output@;
    push_multipart_header(&mut output, boundary);
    let armored = normalize_crlf(armored_ciphertext);
    push_version_part(&mut output, boundary);
    push_data_part_header(&mut output, boundary);
    let ghost before_ct = output@;
    output.extend_from_slice(&armored);
    let alen = armored.len();
    let ends = alen >= 2 && armored[alen - 2] == CR && armored[alen - 1] == LF;
    if !ends {
        output.push(CR);
        output.push(LF);
    }
    assert(output@ =~= before_ct + ciphertext_lines(armored_ciphertext@));
    push_closing(&mut output, boundary);
    Ok(output)
}

/// Lower-case hexadecimal digit.
pub open spec fn is_lower_hex(c: char) -> bool {
    ('0' <= c <= '9') || ('a' <= c <= 'f')
}

/// The 32 lower-case hexadecimal digits of a UUID in its simple format.
pub open spec fn is_simple_uuid(t: Seq<char>) -> bool {
    t.len() == 32 && forall|i: int| 0 <= i < t.len() ==> is_lower_hex(#[trigger] t[i])
}

/// Calls `uuid::Uuid::new_v4` and formats it with `simple()`: a fresh random UUID, which
/// the crate documents as 32 lower-case hexadecimal digits. Which UUID comes out is not
/// stated: it is random.
#[verifier::external_body]
fn random_uuid_simple() -> (s: String)
    ensures
        is_simple_uuid(s@),
{
    uuid::Uuid::new_v4().simple().to_string()
}

/// A fresh MIME boundary: "sendmail-sec-" followed by a random UUID.
pub fn new_boundary() -> (b: String)
    ensures
        exists|t: Seq<char>| is_simple_uuid(t) && b@ == "sendmail-sec-"@ + t,
{
    let prefix = str_chars("sendmail-sec-");
    let token = random_uuid_simple();
    let t = str_chars(token.as_str());
    let mut all = prefix;
    let mut i: usize = 0;
    let ghost p = all@;
    while i < t.len()
        invariant
            i <= t@.len(),
            all@ == p + t@.take(i as int),
        decreases t@.len() - i,
    {
        all.push(t[i]);
        i = i + 1;
        assert(all@ =~= p + t@.take(i as int));
    }
    assert(t@.take(i as int) =~= t@);
    let b = string_from_chars(&all);
    assert(is_simple_uuid(t@));
    b
}

/// Wraps an armored ciphertext in a PGP/MIME message with a fresh random boundary.
pub fn build_encrypted_message(raw_message: &[u8], armored_ciphertext: &[u8]) -> (r: Result<
    Vec<u8>,
    MessageError,
>)
    ensures
        r matches Ok(m) ==> exists|t: Seq<char>|
            is_simple_uuid(t) && encrypted_message_spec(
                raw_message@,
                armored_ciphertext@,
                "sendmail-sec-"@ + t,
            ) == Ok::<Seq<u8>, MessageError>(m@),
        r matches Err(e) ==> header_blocks_spec(
            split_message_spec(normalize_crlf_spec(raw_message@)).0,
        ) == Err::<Seq<(Seq<u8>, Seq<u8>)>, MessageError>(e),
        r is Ok <==> header_blocks_spec(split_message_spec(normalize_crlf_spec(raw_message@)).0) is Ok,
{
    let boundary = new_boundary();
    build_encrypted_message_with_boundary(raw_message, armored_ciphertext, boundary.as_str())
}

/// An address as it is compared and looked up: trimmed, without enclosing angle brackets,
/// ASCII lower-case.
pub open spec fn normalized_email(v: Seq<char>) -> Seq<char> {
    lower_chars(trim_matches(trim_matches(trim(v), '<'), '>'))
}

/// Normalises an email address for comparison and key lookup.
pub fn normalize_email(value: &str) -> (r: String)
    ensures
        r@ == normalized_email(value@),
{
    let v = str_chars(value);
    let t = trim_chars(&v);
    let a = trim_matches_chars(&t, '<');
    let b = trim_matches_chars(&a, '>');
    let l = to_lower_chars(&b);
    string_from_chars(&l)
}

/// Addresses equal up to ASCII case normalize alike, and a normalized address has no ASCII
/// upper-case letter and does not end with '>'.
pub proof fn law_normalize_email_ignores_case(a: Seq<char>, b: Seq<char>)
    requires
        eq_ignore_case_chars(a, b),
    ensures
        normalized_email(a) == normalized_email(b),
        forall|i: int|
            0 <= i < normalized_email(a).len() ==> !('A' <= #[trigger] normalized_email(a)[i]
                <= 'Z'),
        normalized_email(a).len() > 0 ==> normalized_email(a).last() != '>',
{
    assert forall|s: Seq<char>| #[trigger] normalized_email(s) == trim_matches(
        trim_matches(trim(lower_chars(s)), '<'),
        '>',
    ) by {
        lemma_lower_trim_start(s);
        lemma_lower_trim_end(trim_start(s));
        lemma_lower_trim_matches(trim(s), '<');
        lemma_lower_trim_matches(trim_matches(trim(s), '<'), '>');
    }
    assert(normalized_email(a) == normalized_email(b));
    let t = trim_matches(trim_matches(trim(a), '<'), '>');
    assert forall|i: int| 0 <= i < normalized_email(a).len() implies !('A' <= #[trigger] normalized_email(a)[i]
        <= 'Z') by {
        lemma_lower_char_classes(t[i], ' ');
    }
    lemma_trim_matches_end_last(trim_matches_start(trim_matches(trim(a), '<'), '>'), '>');
    if t.len() > 0 {
        lemma_lower_char_classes(t.last(), '>');
    }
}

/// Appends `v` unless it is empty or already present.
pub open spec fn push_unique_spec(vs: Seq<Seq<char>>, v: Seq<char>) -> Seq<Seq<char>> {
    if v.len() == 0 || vs.contains(v) {
        vs
    } else {
        vs.push(v)
    }
}

/// Appends `value` to `values` unless it is empty or already present.
pub fn push_unique(values: &mut Vec<String>, value: String)
    ensures
        final(values).deep_view() == push_unique_spec(old(values).deep_view(), value@),
{
    if value.as_str().is_empty() {
        return;
    }
    let mut i: usize = 0;
    while i < values.len()
        invariant
            i <= values@.len(),
            forall|j: int| 0 <= j < i ==> values.deep_view()[j] != value@,
        decreases values@.len() - i,
    {
        if values[i] == value {
            assert(values.deep_view()[i as int] == value@);
            return;
        }
        i = i + 1;
    }
    let ghost before = values.deep_view();
    assert(!before.contains(value@));
    values.push(value);
    assert(values.deep_view() =~= before.push(value@));
}

/// Adds every address, normalised, unless empty or already present.
pub open spec fn add_all(acc: Seq<Seq<char>>, addrs: Seq<Seq<char>>) -> Seq<Seq<char>>
    decreases addrs.len(),
{
    if addrs.len() == 0 {
        acc
    } else {
        add_all(push_unique_spec(acc, normalized_email(addrs[0])), addrs.drop_first())
    }
}

/// Adds the addresses of every group in order.
pub open spec fn add_groups(acc: Seq<Seq<char>>, groups: Seq<Seq<Seq<char>>>) -> Seq<Seq<char>>
    decreases groups.len(),
{
    if groups.len() == 0 {
        acc
    } else {
        add_groups(add_all(acc, groups[0]), groups.drop_first())
    }
}

proof fn lemma_add_all_step(acc: Seq<Seq<char>>, addrs: Seq<Seq<char>>, i: int)
    requires
        0 <= i < addrs.len(),
    ensures
        add_all(acc, addrs.take(i + 1)) == push_unique_spec(
            add_all(acc, addrs.take(i)),
            normalized_email(addrs[i]),
        ),
    decreases i,
{
    let t1 = addrs.take(i + 1);
    let t0 = addrs.take(i);
    assert(t1[0] == addrs[0]);
    if i == 0 {
        assert(t1.drop_first() =~= Seq::<Seq<char>>::empty());
        assert(t0 =~= Seq::<Seq<char>>::empty());
        assert(add_all(push_unique_spec(acc, normalized_email(addrs[0])), Seq::<Seq<char>>::empty())
            == push_unique_spec(acc, normalized_email(addrs[0])));
        assert(add_all(acc, Seq::<Seq<char>>::empty()) == acc);
    } else {
        let a2 = addrs.drop_first();
        let acc2 = push_unique_spec(acc, normalized_email(addrs[0]));
        lemma_add_all_step(acc2, a2, i - 1);
        assert(t1.drop_first() =~= a2.take(i));
        assert(t0.drop_first() =~= a2.take(i - 1));
        assert(t0[0] == addrs[0]);
        assert(a2[i - 1] == addrs[i]);
        assert(add_all(acc, t1) == add_all(acc2, a2.take(i)));
        assert(add_all(acc, t0) == add_all(acc2, a2.take(i - 1)));
    }
}

/// Adds every address of `addrs` to `values`, normalised.
pub fn add_addresses(values: &mut Vec<String>, addrs: &Vec<String>)
    ensures
        final(values).deep_view() == add_all(old(values).deep_view(), addrs.deep_view()),
{
    let ghost start = values.deep_view();
    let ghost ad = addrs.deep_view();
    let mut i: usize = 0;
    while i < addrs.len()
        invariant
            i <= addrs@.len(),
            ad == addrs.deep_view(),
            values.deep_view() == add_all(start, ad.take(i as int)),
        decreases addrs@.len() - i,
    {
        let n = normalize_email(addrs[i].as_str());
        proof {
            lemma_add_all_step(start, ad, i as int);
        }
        push_unique(values, n);
        i = i + 1;
    }
    assert(ad.take(i as int) =~= ad);
}

proof fn lemma_add_groups_step(acc: Seq<Seq<char>>, groups: Seq<Seq<Seq<char>>>, i: int)
    requires
        0 <= i < groups.len(),
    ensures
        add_groups(acc, groups.take(i + 1)) == add_all(add_groups(acc, groups.take(i)), groups[i]),
    decreases i,
{
    let t1 = groups.take(i + 1);
    let t0 = groups.take(i);
    assert(t1[0] == groups[0]);
    if i == 0 {
        assert(t1.drop_first() =~= Seq::<Seq<Seq<char>>>::empty());
        assert(t0 =~= Seq::<Seq<Seq<char>>>::empty());
        assert(add_groups(add_all(acc, groups[0]), Seq::<Seq<Seq<char>>>::empty()) == add_all(
            acc,
            groups[0],
        ));
        assert(add_groups(acc, Seq::<Seq<Seq<char>>>::empty()) == acc);
    } else {
        let g2 = groups.drop_first();
        let acc2 = add_all(acc, groups[0]);
        lemma_add_groups_step(acc2, g2, i - 1);
        assert(t1.drop_first() =~= g2.take(i));
        assert(t0.drop_first() =~= g2.take(i - 1));
        assert(t0[0] == groups[0]);
        assert(g2[i - 1] == groups[i]);
        assert(add_groups(acc, t1) == add_groups(acc2, g2.take(i)));
        assert(add_groups(acc, t0) == add_groups(acc2, g2.take(i - 1)));
    }
}

#[verifier::external_type_specification]
#[verifier::external_body]
pub struct ExMailHeader<'a>(mailparse::MailHeader<'a>);

/// One parsed header field: the header, its name and its raw value bytes.
pub struct MailHeaderRecord<'a> {
    header: mailparse::MailHeader<'a>,
    key: String,
    value_raw: Vec<u8>,
}

impl<'a> MailHeaderRecord<'a> {
    pub closed spec fn key_view(&self) -> Seq<char> {
        self.key@
    }

    pub closed spec fn value_view(&self) -> Seq<u8> {
        self.value_raw@
    }

    /// The header's name.
    pub fn key(&self) -> (r: &String)
        ensures
            r@ == self.key_view(),
    {
        &self.key
    }
}

pub open spec fn record_views(hs: Seq<MailHeaderRecord>) -> Seq<(Seq<char>, Seq<u8>)> {
    hs.map_values(|h: MailHeaderRecord| (h.key_view(), h.value_view()))
}

/// What `mailparse::parse_headers` yields for `data`: each header's name and raw value, or
/// `None` where it fails.
pub uninterp spec fn mail_header_fields(data: Seq<u8>) -> Option<Seq<(Seq<char>, Seq<u8>)>>;

/// What `mailparse::addrparse_header` yields for a header with this raw value: the address
/// lists, one per entry (a single address, or the members of a group), or `None` where it
/// fails.
pub uninterp spec fn header_address_groups(value: Seq<u8>) -> Option<Seq<Seq<Seq<char>>>>;

/// Calls `mailparse::parse_headers`. Claims that success and the headers' names and raw
/// values are a function of the data alone (named `mail_header_fields`); how headers are
/// delimited is not stated.
#[verifier::external_body]
fn parse_mail_headers<'a>(data: &'a [u8]) -> (r: Option<Vec<MailHeaderRecord<'a>>>)
    ensures
        r is Some <==> mail_header_fields(data@) is Some,
        r matches Some(hs) ==> record_views(hs@) == mail_header_fields(data@)->Some_0,
{
    let (headers, _) = mailparse::parse_headers(data).ok()?;
    Some(
        headers.into_iter().map(
            |h| MailHeaderRecord { key: h.get_key(), value_raw: h.get_value_raw().to_vec(), header: h },
        ).collect(),
    )
}

/// Calls `mailparse::addrparse_header`, which reads only the header's value. Claims that
/// the result is a function of the raw value bytes (named `header_address_groups`); a
/// single address becomes a list of one, a group the list of its members' addresses.
/// The address grammar itself is not stated.
#[verifier::external_body]
fn header_addresses(h: &MailHeaderRecord) -> (r: Option<Vec<Vec<String>>>)
    ensures
        r is Some <==> header_address_groups(h.value_view()) is Some,
        r matches Some(g) ==> g.deep_view() == header_address_groups(h.value_view())->Some_0,
{
    let list = mailparse::addrparse_header(&h.header).ok()?;
    Some(
        list.iter().map(
            |a| match a {
                mailparse::MailAddr::Single(single) => vec![single.addr.clone()],
                mailparse::MailAddr::Group(group) => group.addrs.iter().map(
                    |single| single.addr.clone(),
                ).collect(),
            },
        ).collect(),
    )
}

/// To, Cc and Bcc, in any ASCII case.
pub open spec fn is_recipient_key(key: Seq<char>) -> bool {
    ||| eq_ignore_case_chars(key, "to"@)
    ||| eq_ignore_case_chars(key, "cc"@)
    ||| eq_ignore_case_chars(key, "bcc"@)
}

/// Recipients collected from the To, Cc and Bcc fields, after `acc`.
pub open spec fn recipients_from_fields(
    fields: Seq<(Seq<char>, Seq<u8>)>,
    acc: Seq<Seq<char>>,
) -> Option<Seq<Seq<char>>>
    decreases fields.len(),
{
    if fields.len() == 0 {
        Some(acc)
    } else if !is_recipient_key(fields[0].0) {
        recipients_from_fields(fields.drop_first(), acc)
    } else {
        match header_address_groups(fields[0].1) {
            None => None,
            Some(groups) => recipients_from_fields(fields.drop_first(), add_groups(acc, groups)),
        }
    }
}

/// The distinct, normalised addresses of the To, Cc and Bcc headers, in order.
pub open spec fn header_recipients_spec(raw: Seq<u8>) -> Result<Seq<Seq<char>>, MessageError> {
    match mail_header_fields(normalize_crlf_spec(raw)) {
        None => Err(MessageError::HeaderParse),
        Some(fields) => match recipients_from_fields(fields, Seq::empty()) {
            None => Err(MessageError::RecipientHeader),
            Some(r) => Ok(r),
        },
    }
}

fn is_recipient_header(key: &String) -> (r: bool)
    ensures
        r == is_recipient_key(key@),
{
    let k = str_chars(key.as_str());
    let to = str_chars("to");
    let cc = str_chars("cc");
    let bcc = str_chars("bcc");
    chars_eq_ignore_case(&k, &to) || chars_eq_ignore_case(&k, &cc) || chars_eq_ignore_case(
        &k,
        &bcc,
    )
}

/// Collects the recipient addresses named in the To, Cc and Bcc headers.
pub fn extract_recipients_from_headers(raw_message: &[u8]) -> (r: Result<
    Vec<String>,
    MessageError,
>)
    ensures
        match header_recipients_spec(raw_message@) {
            Ok(v) => r matches Ok(rs) && rs.deep_view() == v,
            Err(e) => r matches Err(e2) && e2 == e,
        },
{
    let normalized = normalize_crlf(raw_message);
    let headers = match parse_mail_headers(&normalized) {
        Some(h) => h,
        None => {
            return Err(MessageError::HeaderParse);
        },
    };
    let ghost fields = mail_header_fields(normalized@)->Some_0;
    let mut recipients: Vec<String> = Vec::new();
    let mut i: usize = 0;
    assert(fields.skip(0) =~= fields);
    assert(recipients.deep_view() =~= Seq::<Seq<char>>::empty());
    while i < headers.len()
        invariant
            i <= headers@.len(),
            fields == record_views(headers@),
            mail_header_fields(normalize_crlf_spec(raw_message@)) == Some(fields),
            recipients_from_fields(fields, Seq::empty()) == recipients_from_fields(
                fields.skip(i as int),
                recipients.deep_view(),
            ),
        decreases headers@.len() - i,
    {
        let ghost rest = fields.skip(i as int);
        assert(rest[0] == (headers@[i as int].key_view(), headers@[i as int].value_view()));
        assert(rest.drop_first() =~= fields.skip(i + 1));
        let header = &headers[i];
        if is_recipient_header(header.key()) {
            let groups = match header_addresses(header) {
                Some(g) => g,
                None => {
                    assert(is_recipient_key(rest[0].0));
                    assert(header_address_groups(rest[0].1) is None);
                    assert(recipients_from_fields(rest, recipients.deep_view()) is None);
                    return Err(MessageError::RecipientHeader);
                },
            };
            let ghost start = recipients.deep_view();
            let ghost gd = groups.deep_view();
            let mut j: usize = 0;
            while j < groups.len()
                invariant
                    j <= groups@.len(),
                    gd == groups.deep_view(),
                    recipients.deep_view() == add_groups(start, gd.take(j as int)),
                decreases groups@.len() - j,
            {
                proof {
                    lemma_add_groups_step(start, gd, j as int);
                }
                assert(groups@[j as int].deep_view() == gd[j as int]);
                add_addresses(&mut recipients, &groups[j]);
                j = j + 1;
            }
            assert(gd.take(j as int) =~= gd);
        }
        i = i + 1;
    }
    Ok(recipients)
}

/// The addresses the message is encrypted for: header recipients, then envelope
/// recipients, normalised and without repetition.
pub open spec fn encryption_recipients_spec(raw: Seq<u8>, rcpt_to: Seq<Seq<char>>) -> Result<
    Seq<Seq<char>>,
    MessageError,
> {
    match header_recipients_spec(raw) {
        Err(e) => Err(e),
        Ok(h) => {
            let all = add_all(h, rcpt_to);
            if all.len() == 0 {
                Err(MessageError::NoRecipients)
            } else {
                Ok(all)
            }
        },
    }
}

/// Collects every address the message must be encrypted for.
pub fn collect_encryption_recipients(raw_message: &[u8], envelope: &Envelope) -> (r: Result<
    Vec<String>,
    MessageError,
>)
    ensures
        match encryption_recipients_spec(raw_message@, envelope.rcpt_to.deep_view()) {
            Ok(v) => r matches Ok(rs) && rs.deep_view() == v,
            Err(e) => r matches Err(e2) && e2 == e,
        },
{
    let mut recipients = extract_recipients_from_headers(raw_message)?;
    add_addresses(&mut recipients, &envelope.rcpt_to);
    if recipients.len() == 0 {
        return Err(MessageError::NoRecipients);
    }
    Ok(recipients)
}


/// Normalised data has every CR followed by LF and every LF preceded by CR.
pub proof fn law_normalize_crlf_normalizes(d: Seq<u8>)
    ensures
        is_crlf_normalized(normalize_crlf_spec(d)),
    decreases d.len(),
{
    if d.len() > 0 {
        let (head, tail) = if d[0] == CR {
            if d.len() >= 2 && d[1] == LF {
                (crlf(), d.skip(2))
            } else {
                (crlf(), d.skip(1))
            }
        } else if d[0] == LF {
            (crlf(), d.skip(1))
        } else {
            (seq![d[0]], d.skip(1))
        };
        law_normalize_crlf_normalizes(tail);
        let t = normalize_crlf_spec(tail);
        let n = normalize_crlf_spec(d);
        assert(n == head + t);
        lemma_normalized_starts_clean(tail);
        assert forall|i: int| 0 <= i < n.len() implies (#[trigger] n[i] == CR ==> i + 1 < n.len()
            && n[i + 1] == LF) && (n[i] == LF ==> i > 0 && n[i - 1] == CR) by {
            if i >= head.len() {
                assert(n[i] == t[i - head.len()]);
                if i + 1 < n.len() {
                    assert(n[i + 1] == t[i + 1 - head.len()]);
                }
                if i - 1 >= head.len() {
                    assert(n[i - 1] == t[i - 1 - head.len()]);
                }
            }
        }
    }
}

/// Normalised data does not start with LF.
proof fn lemma_normalized_starts_clean(d: Seq<u8>)
    ensures
        normalize_crlf_spec(d).len() > 0 ==> normalize_crlf_spec(d)[0] != LF,
{
}

/// Data whose line endings are all CRLF is left as it is.
pub proof fn law_normalize_crlf_keeps_normalized(s: Seq<u8>)
    requires
        is_crlf_normalized(s),
    ensures
        normalize_crlf_spec(s) == s,
    decreases s.len(),
{
    if s.len() > 0 {
        if s[0] == CR {
            assert(s[1] == LF);
            let t = s.skip(2);
            assert forall|i: int| 0 <= i < t.len() implies (#[trigger] t[i] == CR ==> i + 1 < t.len()
                && t[i + 1] == LF) && (t[i] == LF ==> i > 0 && t[i - 1] == CR) by {
                assert(t[i] == s[i + 2]);
                if i + 1 < t.len() {
                    assert(t[i + 1] == s[i + 3]);
                }
                if i > 0 {
                    assert(t[i - 1] == s[i + 1]);
                }
                if i == 0 && t[i] == LF {
                    assert(s[1] == LF && s[2] == LF);
                }
            }
            law_normalize_crlf_keeps_normalized(t);
            assert(s =~= crlf() + t);
        } else {
            assert(s[0] != LF);
            let t = s.skip(1);
            assert forall|i: int| 0 <= i < t.len() implies (#[trigger] t[i] == CR ==> i + 1 < t.len()
                && t[i + 1] == LF) && (t[i] == LF ==> i > 0 && t[i - 1] == CR) by {
                assert(t[i] == s[i + 1]);
                if i + 1 < t.len() {
                    assert(t[i + 1] == s[i + 2]);
                }
                if i > 0 {
                    assert(t[i - 1] == s[i]);
                }
                if i == 0 && t[i] == LF {
                    assert(s[1] == LF);
                }
            }
            law_normalize_crlf_keeps_normalized(t);
            assert(s =~= seq![s[0]] + t);
        }
    }
}

/// Normalising twice gives what normalising once gives.
pub proof fn law_normalize_crlf_idempotent(d: Seq<u8>)
    ensures
        normalize_crlf_spec(normalize_crlf_spec(d)) == normalize_crlf_spec(d),
{
    law_normalize_crlf_normalizes(d);
    law_normalize_crlf_keeps_normalized(normalize_crlf_spec(d));
}

/// Every '.' at the start of a line of `s` (the first line starts at `at_start`) is
/// followed by a second '.'.
pub open spec fn dots_doubled(s: Seq<u8>, at_start: bool) -> bool {
    forall|i: int|
        0 <= i < s.len() && (if i == 0 {
            at_start
        } else {
            s[i - 1] == LF
        }) && #[trigger] s[i] == DOT ==> i + 1 < s.len() && s[i + 1] == DOT
}

proof fn lemma_stuff_lines_transparent(s: Seq<u8>, at_start: bool)
    ensures
        dots_doubled(stuff_lines(s, at_start), at_start),
    decreases s.len(),
{
    if s.len() > 0 {
        let head = if at_start && s[0] == DOT {
            seq![DOT, DOT]
        } else {
            seq![s[0]]
        };
        let tail_start = s[0] == LF;
        let rest = stuff_lines(s.drop_first(), tail_start);
        lemma_stuff_lines_transparent(s.drop_first(), tail_start);
        let out = stuff_lines(s, at_start);
        assert(out == head + rest);
        assert forall|i: int|
            0 <= i < out.len() && (if i == 0 {
                at_start
            } else {
                out[i - 1] == LF
            }) && #[trigger] out[i] == DOT implies i + 1 < out.len() && out[i + 1] == DOT by {
            if i >= head.len() {
                let j = i - head.len();
                assert(out[i] == rest[j]);
                if j > 0 {
                    assert(out[i - 1] == rest[j - 1]);
                } else {
                    assert(out[i - 1] == head[head.len() - 1]);
                }
                assert(rest[j] == DOT);
                assert(j + 1 < rest.len() && rest[j + 1] == DOT);
                assert(out[i + 1] == rest[j + 1]);
            }
        }
    }
}

/// Dot-stuffing makes the data safe to send: every line that starts with '.' has a second
/// '.', so no line of the data reads as the lone '.' that ends DATA, and the data ends with
/// CRLF.
#[verifier::rlimit(40)]
pub proof fn law_dot_stuff_transparent(d: Seq<u8>)
    ensures
        ends_with_crlf(dot_stuff_spec(d)),
        dots_doubled(dot_stuff_spec(d), true),
{
    let n = normalize_crlf_spec(d);
    let body = stuff_lines(n, true);
    lemma_stuff_lines_transparent(n, true);
    let out = dot_stuff_spec(d);
    if ends_with_crlf(body) {
        assert(out == body);
    } else {
        let tail = crlf();
        assert(out == body + tail);
        assert forall|i: int|
            0 <= i < out.len() && (if i == 0 {
                true
            } else {
                out[i - 1] == LF
            }) && #[trigger] out[i] == DOT implies i + 1 < out.len() && out[i + 1] == DOT by {
            if i < body.len() {
                assert(out[i] == body[i]);
                if i > 0 {
                    assert(out[i - 1] == body[i - 1]);
                }
                assert(body[i] == DOT);
                assert(i + 1 < body.len() && body[i + 1] == DOT);
                assert(body[i + 1] == out[i + 1]);
            } else {
                assert(out[i] == tail[i - body.len()]);
            }
        }
    }
}

/// No address twice, and none empty.
pub open spec fn unique_nonempty(vs: Seq<Seq<char>>) -> bool {
    &&& forall|i: int, j: int| 0 <= i < j < vs.len() ==> #[trigger] vs[i] != #[trigger] vs[j]
    &&& forall|i: int| 0 <= i < vs.len() ==> (#[trigger] vs[i]).len() > 0
}

proof fn lemma_push_unique(vs: Seq<Seq<char>>, v: Seq<char>)
    requires
        unique_nonempty(vs),
    ensures
        unique_nonempty(push_unique_spec(vs, v)),
        v.len() > 0 ==> push_unique_spec(vs, v).contains(v),
        forall|x: Seq<char>| vs.contains(x) ==> #[trigger] push_unique_spec(vs, v).contains(x),
{
    let r = push_unique_spec(vs, v);
    if !(v.len() == 0 || vs.contains(v)) {
        assert(r[vs.len() as int] == v);
        assert forall|x: Seq<char>| vs.contains(x) implies #[trigger] r.contains(x) by {
            let k = choose|k: int| 0 <= k < vs.len() && vs[k] == x;
            assert(r[k] == x);
        }
        assert forall|i: int, j: int| 0 <= i < j < r.len() implies #[trigger] r[i] != #[trigger] r[j] by {
            if j == vs.len() {
                assert(r[i] == vs[i]);
            } else {
                assert(r[i] == vs[i] && r[j] == vs[j]);
            }
        }
    }
}

proof fn lemma_add_all(acc: Seq<Seq<char>>, addrs: Seq<Seq<char>>)
    requires
        unique_nonempty(acc),
    ensures
        unique_nonempty(add_all(acc, addrs)),
        forall|x: Seq<char>| acc.contains(x) ==> #[trigger] add_all(acc, addrs).contains(x),
        forall|k: int|
            0 <= k < addrs.len() && normalized_email(#[trigger] addrs[k]).len() > 0 ==> add_all(
                acc,
                addrs,
            ).contains(normalized_email(addrs[k])),
    decreases addrs.len(),
{
    if addrs.len() > 0 {
        let next = push_unique_spec(acc, normalized_email(addrs[0]));
        lemma_push_unique(acc, normalized_email(addrs[0]));
        lemma_add_all(next, addrs.drop_first());
        assert forall|k: int|
            0 <= k < addrs.len() && normalized_email(#[trigger] addrs[k]).len() > 0 implies add_all(
            acc,
            addrs,
        ).contains(normalized_email(addrs[k])) by {
            if k > 0 {
                assert(addrs.drop_first()[k - 1] == addrs[k]);
            }
        }
    }
}

proof fn lemma_add_groups(acc: Seq<Seq<char>>, groups: Seq<Seq<Seq<char>>>)
    requires
        unique_nonempty(acc),
    ensures
        unique_nonempty(add_groups(acc, groups)),
    decreases groups.len(),
{
    if groups.len() > 0 {
        lemma_add_all(acc, groups[0]);
        lemma_add_groups(add_all(acc, groups[0]), groups.drop_first());
    }
}

proof fn lemma_recipients_from_fields(fields: Seq<(Seq<char>, Seq<u8>)>, acc: Seq<Seq<char>>)
    requires
        unique_nonempty(acc),
    ensures
        recipients_from_fields(fields, acc) matches Some(r) ==> unique_nonempty(r),
    decreases fields.len(),
{
    if fields.len() > 0 {
        if !is_recipient_key(fields[0].0) {
            lemma_recipients_from_fields(fields.drop_first(), acc);
        } else if let Some(groups) = header_address_groups(fields[0].1) {
            lemma_add_groups(acc, groups);
            lemma_recipients_from_fields(fields.drop_first(), add_groups(acc, groups));
        }
    }
}

/// The addresses a message is encrypted for are distinct and non-empty, and include every
/// envelope recipient (normalised) and every header recipient.
pub proof fn law_encryption_recipients(raw: Seq<u8>, rcpt_to: Seq<Seq<char>>)
    ensures
        encryption_recipients_spec(raw, rcpt_to) matches Ok(v) ==> unique_nonempty(v)
            && v.len() > 0 && (forall|k: int|
            0 <= k < rcpt_to.len() && normalized_email(#[trigger] rcpt_to[k]).len() > 0
                ==> v.contains(normalized_email(rcpt_to[k]))) && (header_recipients_spec(raw) matches Ok(
            h,
        ) && forall|x: Seq<char>| h.contains(x) ==> #[trigger] v.contains(x)),
{
    if let Ok(h) = header_recipients_spec(raw) {
        if let Some(fields) = mail_header_fields(normalize_crlf_spec(raw)) {
            lemma_recipients_from_fields(fields, Seq::empty());
        }
        lemma_add_all(h, rcpt_to);
    }
}

} // verus!
