//! Character, byte and string helpers shared by the protocol and message code.
use vstd::prelude::*;
use vstd::utf8::encode_scalar;
use vstd::utf8::decode_utf8;
use vstd::utf8::encode_utf8;
use vstd::utf8::valid_utf8;

verus! {

pub const CR: u8 = 13;

pub const LF: u8 = 10;

/// The Unicode `White_Space` property, which `char::is_whitespace` tests.
pub open spec fn is_white_space(c: char) -> bool {
    let u = c as u32;
    ||| 0x09 <= u <= 0x0d
    ||| u == 0x20
    ||| u == 0x85
    ||| u == 0xa0
    ||| u == 0x1680
    ||| 0x2000 <= u <= 0x200a
    ||| u == 0x2028
    ||| u == 0x2029
    ||| u == 0x202f
    ||| u == 0x205f
    ||| u == 0x3000
}

/// Whether `c` has the Unicode `White_Space` property.
pub fn is_whitespace(c: char) -> (r: bool)
    ensures
        r == is_white_space(c),
{
    let u = c as u32;
    (0x09 <= u && u <= 0x0d) || u == 0x20 || u == 0x85 || u == 0xa0 || u == 0x1680 || (0x2000 <= u
        && u <= 0x200a) || u == 0x2028 || u == 0x2029 || u == 0x202f || u == 0x205f || u == 0x3000
}

/// ASCII upper-casing of one character; other characters are unchanged.
pub open spec fn upper_char(c: char) -> char {
    if 'a' <= c <= 'z' {
        (((c as u32) - 32) as u8) as char
    } else {
        c
    }
}

/// ASCII lower-casing of one character; other characters are unchanged.
pub open spec fn lower_char(c: char) -> char {
    if 'A' <= c <= 'Z' {
        (((c as u32) + 32) as u8) as char
    } else {
        c
    }
}

/// ASCII lower-casing of one byte; other bytes are unchanged.
pub open spec fn lower_byte(b: u8) -> u8 {
    if 65 <= b <= 90 {
        (b + 32) as u8
    } else {
        b
    }
}

pub open spec fn upper_chars(s: Seq<char>) -> Seq<char> {
    s.map_values(|c: char| upper_char(c))
}

pub open spec fn lower_chars(s: Seq<char>) -> Seq<char> {
    s.map_values(|c: char| lower_char(c))
}

pub open spec fn lower_bytes(s: Seq<u8>) -> Seq<u8> {
    s.map_values(|b: u8| lower_byte(b))
}

/// Two byte strings are equal up to ASCII case.
pub open spec fn eq_ignore_case_bytes(a: Seq<u8>, b: Seq<u8>) -> bool {
    lower_bytes(a) == lower_bytes(b)
}

/// Two character strings are equal up to ASCII case.
pub open spec fn eq_ignore_case_chars(a: Seq<char>, b: Seq<char>) -> bool {
    lower_chars(a) == lower_chars(b)
}

/// `s` with leading white space removed (`str::trim_start`).
pub open spec fn trim_start(s: Seq<char>) -> Seq<char>
    decreases s.len(),
{
    if s.len() > 0 && is_white_space(s[0]) {
        trim_start(s.drop_first())
    } else {
        s
    }
}

/// `s` with trailing white space removed (`str::trim_end`).
pub open spec fn trim_end(s: Seq<char>) -> Seq<char>
    decreases s.len(),
{
    if s.len() > 0 && is_white_space(s.last()) {
        trim_end(s.drop_last())
    } else {
        s
    }
}

/// `s` with white space removed at both ends (`str::trim`).
pub open spec fn trim(s: Seq<char>) -> Seq<char> {
    trim_end(trim_start(s))
}

/// `s` with every leading and trailing `c` removed (`str::trim_matches` with one character).
pub open spec fn trim_matches_start(s: Seq<char>, c: char) -> Seq<char>
    decreases s.len(),
{
    if s.len() > 0 && s[0] == c {
        trim_matches_start(s.drop_first(), c)
    } else {
        s
    }
}

pub open spec fn trim_matches_end(s: Seq<char>, c: char) -> Seq<char>
    decreases s.len(),
{
    if s.len() > 0 && s.last() == c {
        trim_matches_end(s.drop_last(), c)
    } else {
        s
    }
}

pub open spec fn trim_matches(s: Seq<char>, c: char) -> Seq<char> {
    trim_matches_end(trim_matches_start(s, c), c)
}

/// Decimal digits (ASCII) of a natural number, without leading zeros.
pub open spec fn decimal(n: nat) -> Seq<u8>
    decreases n,
{
    if n < 10 {
        seq![(48 + n) as u8]
    } else {
        decimal(n / 10).push((48 + n % 10) as u8)
    }
}

/// The text that `String::from_utf8_lossy` produces for `bytes`.
pub uninterp spec fn lossy_utf8(bytes: Seq<u8>) -> Seq<char>;

/// Calls `String::from_utf8_lossy`. Claims that the text is a function of the bytes alone
/// (named `lossy_utf8`) and, as its documentation says, that valid UTF-8 is decoded
/// unchanged. How invalid sequences are replaced is left unstated.
#[verifier::external_body]
pub(crate) fn utf8_lossy(bytes: &[u8]) -> (s: String)
    ensures
        s@ == lossy_utf8(bytes@),
        valid_utf8(bytes@) ==> s@ == decode_utf8(bytes@),
{
    String::from_utf8_lossy(bytes).into_owned()
}

/// Calls `String::from_utf8`: succeeds exactly on valid UTF-8, which it decodes.
#[verifier::external_body]
pub(crate) fn utf8_decode(bytes: Vec<u8>) -> (s: Option<String>)
    ensures
        s is Some <==> valid_utf8(bytes@),
        s matches Some(t) ==> t@ == decode_utf8(bytes@),
{
    String::from_utf8(bytes).ok()
}

/// Calls `str::chars`, collecting the characters of `s` in order.
#[verifier::external_body]
pub(crate) fn str_chars(s: &str) -> (v: Vec<char>)
    ensures
        v@ == s@,
{
    s.chars().collect()
}

/// Calls `String::from_iter` on the given characters.
#[verifier::external_body]
pub(crate) fn string_from_chars(v: &[char]) -> (s: String)
    ensures
        s@ == v@,
{
    String::from_iter(v.iter())
}

/// The UTF-8 bytes of `s`.
pub fn str_bytes(s: &str) -> (v: Vec<u8>)
    ensures
        v@ == encode_utf8(s@),
{
    let mut v: Vec<u8> = Vec::new();
    v.extend_from_slice(s.as_bytes());
    v
}

/// Appends the UTF-8 bytes of `s` to `out`.
pub fn push_str(out: &mut Vec<u8>, s: &str)
    ensures
        final(out)@ == old(out)@ + encode_utf8(s@),
{
    out.extend_from_slice(s.as_bytes());
}

/// A copy of `v[lo..hi]`.
pub fn copy_range<T: Copy>(v: &[T], lo: usize, hi: usize) -> (r: Vec<T>)
    requires
        lo <= hi <= v@.len(),
    ensures
        r@ == v@.subrange(lo as int, hi as int),
{
    let mut r: Vec<T> = Vec::new();
    let mut i = lo;
    while i < hi
        invariant
            lo <= i <= hi <= v@.len(),
            r@ == v@.subrange(lo as int, i as int),
        decreases hi - i,
    {
        r.push(v[i]);
        i = i + 1;
    }
    r
}

/// ASCII upper-case of a character.
pub fn to_upper_char(c: char) -> (r: char)
    ensures
        r == upper_char(c),
{
    if 'a' <= c && c <= 'z' {
        let u: u8 = ((c as u32) - 32) as u8;
        u as char
    } else {
        c
    }
}

/// ASCII lower-case of a character.
pub fn to_lower_char(c: char) -> (r: char)
    ensures
        r == lower_char(c),
{
    if 'A' <= c && c <= 'Z' {
        let u: u8 = ((c as u32) + 32) as u8;
        u as char
    } else {
        c
    }
}

/// ASCII lower-case of a byte.
pub fn to_lower_byte(b: u8) -> (r: u8)
    ensures
        r == lower_byte(b),
{
    if 65 <= b && b <= 90 {
        b + 32
    } else {
        b
    }
}

/// ASCII upper-case of every character.
pub fn to_upper_chars(v: &[char]) -> (r: Vec<char>)
    ensures
        r@ == upper_chars(v@),
{
    let mut r: Vec<char> = Vec::new();
    let mut i: usize = 0;
    while i < v.len()
        invariant
            i <= v@.len(),
            r@ == upper_chars(v@.subrange(0, i as int)),
        decreases v@.len() - i,
    {
        r.push(to_upper_char(v[i]));
        i = i + 1;
        assert(upper_chars(v@.subrange(0, i as int)) =~= upper_chars(v@.subrange(0, i - 1)).push(
            upper_char(v@[i - 1]),
        ));
    }
    assert(v@.subrange(0, v@.len() as int) =~= v@);
    r
}

/// ASCII lower-case of every character.
pub fn to_lower_chars(v: &[char]) -> (r: Vec<char>)
    ensures
        r@ == lower_chars(v@),
{
    let mut r: Vec<char> = Vec::new();
    let mut i: usize = 0;
    while i < v.len()
        invariant
            i <= v@.len(),
            r@ == lower_chars(v@.subrange(0, i as int)),
        decreases v@.len() - i,
    {
        r.push(to_lower_char(v[i]));
        i = i + 1;
        assert(lower_chars(v@.subrange(0, i as int)) =~= lower_chars(v@.subrange(0, i - 1)).push(
            lower_char(v@[i - 1]),
        ));
    }
    assert(v@.subrange(0, v@.len() as int) =~= v@);
    r
}

/// ASCII lower-case of every byte.
pub fn to_lower_bytes(v: &[u8]) -> (r: Vec<u8>)
    ensures
        r@ == lower_bytes(v@),
{
    let mut r: Vec<u8> = Vec::new();
    let mut i: usize = 0;
    while i < v.len()
        invariant
            i <= v@.len(),
            r@ == lower_bytes(v@.subrange(0, i as int)),
        decreases v@.len() - i,
    {
        r.push(to_lower_byte(v[i]));
        i = i + 1;
        assert(lower_bytes(v@.subrange(0, i as int)) =~= lower_bytes(v@.subrange(0, i - 1)).push(
            lower_byte(v@[i - 1]),
        ));
    }
    assert(v@.subrange(0, v@.len() as int) =~= v@);
    r
}

/// Whether two byte strings are equal up to ASCII case (`eq_ignore_ascii_case`).
pub fn bytes_eq_ignore_case(a: &[u8], b: &[u8]) -> (r: bool)
    ensures
        r == eq_ignore_case_bytes(a@, b@),
{
    if a.len() != b.len() {
        proof {
            if eq_ignore_case_bytes(a@, b@) {
                assert(lower_bytes(a@).len() == lower_bytes(b@).len());
            }
        }
        return false;
    }
    let mut i: usize = 0;
    while i < a.len()
        invariant
            a@.len() == b@.len(),
            i <= a@.len(),
            forall|j: int| 0 <= j < i ==> lower_byte(#[trigger] a@[j]) == lower_byte(b@[j]),
        decreases a@.len() - i,
    {
        if to_lower_byte(a[i]) != to_lower_byte(b[i]) {
            proof {
                assert(lower_bytes(a@)[i as int] != lower_bytes(b@)[i as int]);
            }
            return false;
        }
        i = i + 1;
    }
    assert(lower_bytes(a@) =~= lower_bytes(b@));
    true
}

/// Whether two character strings are equal up to ASCII case.
pub fn chars_eq_ignore_case(a: &[char], b: &[char]) -> (r: bool)
    ensures
        r == eq_ignore_case_chars(a@, b@),
{
    if a.len() != b.len() {
        proof {
            if eq_ignore_case_chars(a@, b@) {
                assert(lower_chars(a@).len() == lower_chars(b@).len());
            }
        }
        return false;
    }
    let mut i: usize = 0;
    while i < a.len()
        invariant
            a@.len() == b@.len(),
            i <= a@.len(),
            forall|j: int| 0 <= j < i ==> lower_char(#[trigger] a@[j]) == lower_char(b@[j]),
        decreases a@.len() - i,
    {
        if to_lower_char(a[i]) != to_lower_char(b[i]) {
            proof {
                assert(lower_chars(a@)[i as int] != lower_chars(b@)[i as int]);
            }
            return false;
        }
        i = i + 1;
    }
    assert(lower_chars(a@) =~= lower_chars(b@));
    true
}

proof fn lemma_trim_start_skip(s: Seq<char>, i: int)
    requires
        0 <= i <= s.len(),
        forall|j: int| 0 <= j < i ==> is_white_space(#[trigger] s[j]),
    ensures
        trim_start(s) == trim_start(s.skip(i)),
    decreases i,
{
    if i > 0 {
        assert(s.skip(1).skip(i - 1) =~= s.skip(i));
        assert(s.drop_first() =~= s.skip(1));
        lemma_trim_start_skip(s.drop_first(), i - 1);
    } else {
        assert(s.skip(0) =~= s);
    }
}

proof fn lemma_trim_end_take(s: Seq<char>, i: int)
    requires
        0 <= i <= s.len(),
        forall|j: int| i <= j < s.len() ==> is_white_space(#[trigger] s[j]),
    ensures
        trim_end(s) == trim_end(s.take(i)),
    decreases s.len() - i,
{
    if i < s.len() {
        assert(s.drop_last().take(i) =~= s.take(i));
        lemma_trim_end_take(s.drop_last(), i);
    } else {
        assert(s.take(i) =~= s);
    }
}

/// Index of the first character that is not white space (`v.len()` when there is none).
pub fn trim_start_index(v: &[char]) -> (i: usize)
    ensures
        i <= v@.len(),
        trim_start(v@) == v@.skip(i as int),
{
    let mut i: usize = 0;
    while i < v.len() && is_whitespace(v[i])
        invariant
            i <= v@.len(),
            forall|j: int| 0 <= j < i ==> is_white_space(#[trigger] v@[j]),
        decreases v@.len() - i,
    {
        i = i + 1;
    }
    proof {
        lemma_trim_start_skip(v@, i as int);
        let t = v@.skip(i as int);
        if t.len() > 0 {
            assert(t[0] == v@[i as int]);
        }
    }
    i
}

/// Index just past the last character that is not white space (0 when there is none).
pub fn trim_end_index(v: &[char]) -> (i: usize)
    ensures
        i <= v@.len(),
        trim_end(v@) == v@.take(i as int),
{
    let mut i: usize = v.len();
    while i > 0 && is_whitespace(v[i - 1])
        invariant
            i <= v@.len(),
            forall|j: int| i <= j < v@.len() ==> is_white_space(#[trigger] v@[j]),
        decreases i,
    {
        i = i - 1;
    }
    proof {
        lemma_trim_end_take(v@, i as int);
        let t = v@.take(i as int);
        if t.len() > 0 {
            assert(t.last() == v@[i - 1]);
        }
    }
    i
}

/// `str::trim_start` on a character vector.
pub fn trim_start_chars(v: &[char]) -> (r: Vec<char>)
    ensures
        r@ == trim_start(v@),
{
    let i = trim_start_index(v);
    let r = copy_range(v, i, v.len());
    assert(r@ =~= v@.skip(i as int));
    r
}

/// `str::trim_end` on a character vector.
pub fn trim_end_chars(v: &[char]) -> (r: Vec<char>)
    ensures
        r@ == trim_end(v@),
{
    let i = trim_end_index(v);
    let r = copy_range(v, 0, i);
    assert(r@ =~= v@.take(i as int));
    r
}

/// `str::trim` on a character vector.
pub fn trim_chars(v: &[char]) -> (r: Vec<char>)
    ensures
        r@ == trim(v@),
{
    let s = trim_start_chars(v);
    trim_end_chars(&s)
}

/// `str::trim` on a string.
pub fn trim_str(s: &str) -> (r: String)
    ensures
        r@ == trim(s@),
{
    let v = str_chars(s);
    let t = trim_chars(&v);
    string_from_chars(&t)
}

proof fn lemma_trim_matches_start_skip(s: Seq<char>, c: char, i: int)
    requires
        0 <= i <= s.len(),
        forall|j: int| 0 <= j < i ==> #[trigger] s[j] == c,
    ensures
        trim_matches_start(s, c) == trim_matches_start(s.skip(i), c),
    decreases i,
{
    if i > 0 {
        assert(s.skip(1).skip(i - 1) =~= s.skip(i));
        assert(s.drop_first() =~= s.skip(1));
        lemma_trim_matches_start_skip(s.drop_first(), c, i - 1);
    } else {
        assert(s.skip(0) =~= s);
    }
}

proof fn lemma_trim_matches_end_take(s: Seq<char>, c: char, i: int)
    requires
        0 <= i <= s.len(),
        forall|j: int| i <= j < s.len() ==> #[trigger] s[j] == c,
    ensures
        trim_matches_end(s, c) == trim_matches_end(s.take(i), c),
    decreases s.len() - i,
{
    if i < s.len() {
        assert(s.drop_last().take(i) =~= s.take(i));
        lemma_trim_matches_end_take(s.drop_last(), c, i);
    } else {
        assert(s.take(i) =~= s);
    }
}

/// `str::trim_matches(c)` on a character vector.
pub fn trim_matches_chars(v: &[char], c: char) -> (r: Vec<char>)
    ensures
        r@ == trim_matches(v@, c),
{
    let mut lo: usize = 0;
    while lo < v.len() && v[lo] == c
        invariant
            lo <= v@.len(),
            forall|j: int| 0 <= j < lo ==> #[trigger] v@[j] == c,
        decreases v@.len() - lo,
    {
        lo = lo + 1;
    }
    proof {
        lemma_trim_matches_start_skip(v@, c, lo as int);
        let t = v@.skip(lo as int);
        if t.len() > 0 {
            assert(t[0] == v@[lo as int]);
        }
    }
    let s = copy_range(v, lo, v.len());
    assert(s@ =~= v@.skip(lo as int));
    let mut hi: usize = s.len();
    while hi > 0 && s[hi - 1] == c
        invariant
            hi <= s@.len(),
            forall|j: int| hi <= j < s@.len() ==> #[trigger] s@[j] == c,
        decreases hi,
    {
        hi = hi - 1;
    }
    proof {
        lemma_trim_matches_end_take(s@, c, hi as int);
        let t = s@.take(hi as int);
        if t.len() > 0 {
            assert(t.last() == s@[hi - 1]);
        }
    }
    let r = copy_range(&s, 0, hi);
    assert(r@ =~= s@.take(hi as int));
    r
}

/// Appends the decimal digits of `n` to `out`.
pub fn push_decimal(out: &mut Vec<u8>, n: u64)
    ensures
        final(out)@ == old(out)@ + decimal(n as nat),
    decreases n,
{
    if n >= 10 {
        push_decimal(out, n / 10);
    }
    out.push(48 + (n % 10) as u8);
    proof {
        if n >= 10 {
            assert(old(out)@ + decimal(n as nat) =~= old(out)@ + decimal((n / 10) as nat) + seq![
                (48 + n % 10) as u8,
            ]);
        }
    }
}

/// Whether `v` starts with `p`.
pub fn starts_with_bytes(v: &[u8], p: &[u8]) -> (r: bool)
    ensures
        r == (p@.len() <= v@.len() && v@.take(p@.len() as int) == p@),
{
    if p.len() > v.len() {
        return false;
    }
    let mut i: usize = 0;
    while i < p.len()
        invariant
            p@.len() <= v@.len(),
            i <= p@.len(),
            forall|j: int| 0 <= j < i ==> #[trigger] v@[j] == p@[j],
        decreases p@.len() - i,
    {
        if v[i] != p[i] {
            assert(v@.take(p@.len() as int)[i as int] != p@[i as int]);
            return false;
        }
        i = i + 1;
    }
    assert(v@.take(p@.len() as int) =~= p@);
    true
}

/// Whether two character vectors are equal.
pub fn chars_eq(a: &[char], b: &[char]) -> (r: bool)
    ensures
        r == (a@ == b@),
{
    if a.len() != b.len() {
        return false;
    }
    let mut i: usize = 0;
    while i < a.len()
        invariant
            a@.len() == b@.len(),
            i <= a@.len(),
            forall|j: int| 0 <= j < i ==> #[trigger] a@[j] == b@[j],
        decreases a@.len() - i,
    {
        if a[i] != b[i] {
            return false;
        }
        i = i + 1;
    }
    assert(a@ =~= b@);
    true
}

/// Whether a string equals a literal.
pub fn str_is(s: &str, lit: &str) -> (r: bool)
    ensures
        r == (s@ == lit@),
{
    let a = str_chars(s);
    let b = str_chars(lit);
    chars_eq(&a, &b)
}

/// A copy of a vector of strings.
pub fn clone_strings(v: &Vec<String>) -> (r: Vec<String>)
    ensures
        r.deep_view() == v.deep_view(),
{
    let mut r: Vec<String> = Vec::new();
    let mut i: usize = 0;
    while i < v.len()
        invariant
            i <= v@.len(),
            r.deep_view() == v.deep_view().take(i as int),
        decreases v@.len() - i,
    {
        let ghost before = r.deep_view();
        let item = v[i].clone();
        r.push(item);
        assert(r.deep_view() =~= before.push(item@));
        i = i + 1;
        assert(r.deep_view() =~= v.deep_view().take(i as int));
    }
    assert(v.deep_view().take(i as int) =~= v.deep_view());
    r
}

/// Index of the first white space character of `s` at or after `i`, or `s.len()`.
pub open spec fn first_ws_from(s: Seq<char>, i: int) -> int
    decreases s.len() - i,
{
    if i < 0 || i >= s.len() {
        s.len() as int
    } else if is_white_space(s[i]) {
        i
    } else {
        first_ws_from(s, i + 1)
    }
}

pub open spec fn first_ws(s: Seq<char>) -> int {
    first_ws_from(s, 0)
}

proof fn lemma_first_ws_bounds(s: Seq<char>, i: int)
    requires
        0 <= i <= s.len(),
    ensures
        i <= first_ws_from(s, i) <= s.len(),
        first_ws_from(s, i) < s.len() ==> is_white_space(s[first_ws_from(s, i)]),
        forall|j: int| i <= j < first_ws_from(s, i) ==> !is_white_space(#[trigger] s[j]),
    decreases s.len() - i,
{
    if i < s.len() && !is_white_space(s[i]) {
        lemma_first_ws_bounds(s, i + 1);
    }
}

/// Finds the first white space character.
pub fn first_ws_index(v: &[char]) -> (k: usize)
    ensures
        k as int == first_ws(v@),
        k <= v@.len(),
        k < v@.len() ==> is_white_space(v@[k as int]),
        forall|j: int| 0 <= j < k ==> !is_white_space(#[trigger] v@[j]),
{
    let mut i: usize = 0;
    while i < v.len()
        invariant
            i <= v@.len(),
            first_ws(v@) == first_ws_from(v@, i as int),
            forall|j: int| 0 <= j < i ==> !is_white_space(#[trigger] v@[j]),
        decreases v@.len() - i,
    {
        if is_whitespace(v[i]) {
            return i;
        }
        i = i + 1;
    }
    i
}

/// The first white-space-separated word of `s` (empty when there is none).
pub open spec fn first_token(s: Seq<char>) -> Seq<char> {
    let t = trim_start(s);
    t.take(first_ws(t))
}

/// What follows the first word of `s`.
pub open spec fn after_first_token(s: Seq<char>) -> Seq<char> {
    let t = trim_start(s);
    t.skip(first_ws(t))
}

/// Whether `s` holds a word at all.
pub open spec fn has_token(s: Seq<char>) -> bool {
    trim_start(s).len() > 0
}

/// The first word of `v` and what follows it.
pub fn split_first_token(v: &[char]) -> (r: (Vec<char>, Vec<char>))
    ensures
        r.0@ == first_token(v@),
        r.1@ == after_first_token(v@),
{
    let t = trim_start_chars(v);
    let k = first_ws_index(&t);
    let a = copy_range(&t, 0, k);
    let b = copy_range(&t, k, t.len());
    assert(a@ =~= t@.take(k as int));
    assert(b@ =~= t@.skip(k as int));
    (a, b)
}

/// A string with a word has a non-empty first word.
pub proof fn lemma_first_token_nonempty(s: Seq<char>)
    ensures
        has_token(s) <==> first_token(s).len() > 0,
{
    let t = trim_start(s);
    lemma_trim_start_no_ws(s);
    lemma_first_ws_bounds(t, 0);
    if t.len() > 0 {
        assert(!is_white_space(t[0]));
        assert(first_ws(t) > 0);
    }
}

/// The trimmed string does not start with white space.
pub proof fn lemma_trim_start_no_ws(s: Seq<char>)
    ensures
        trim_start(s).len() > 0 ==> !is_white_space(trim_start(s)[0]),
    decreases s.len(),
{
    if s.len() > 0 && is_white_space(s[0]) {
        lemma_trim_start_no_ws(s.drop_first());
    }
}


/// A string is never shorter after `trim_start`.
pub proof fn lemma_trim_start_len(s: Seq<char>)
    ensures
        trim_start(s).len() <= s.len(),
    decreases s.len(),
{
    if s.len() > 0 && is_white_space(s[0]) {
        lemma_trim_start_len(s.drop_first());
    }
}

/// What follows the first word is shorter than the whole string.
pub proof fn lemma_after_first_token_shorter(s: Seq<char>)
    requires
        has_token(s),
    ensures
        after_first_token(s).len() < s.len(),
{
    let t = trim_start(s);
    lemma_trim_start_len(s);
    lemma_first_token_nonempty(s);
    lemma_first_ws_bounds(t, 0);
}

/// The white-space-separated words of `s` (`str::split_whitespace`).
pub open spec fn words(s: Seq<char>) -> Seq<Seq<char>>
    decreases s.len(),
{
    if !has_token(s) {
        Seq::empty()
    } else {
        proof {
            lemma_after_first_token_shorter(s);
        }
        seq![first_token(s)] + words(after_first_token(s))
    }
}

/// Splits `v` into its white-space-separated words.
pub fn split_words(v: &[char]) -> (r: Vec<Vec<char>>)
    ensures
        r.deep_view() == words(v@),
{
    let mut out: Vec<Vec<char>> = Vec::new();
    let mut cur = copy_range(v, 0, v.len());
    assert(cur@ =~= v@);
    loop
        invariant
            out.deep_view() + words(cur@) == words(v@),
        ensures
            out.deep_view() == words(v@),
        decreases cur@.len(),
    {
        let (w, after) = split_first_token(&cur);
        proof {
            lemma_first_token_nonempty(cur@);
        }
        if w.len() == 0 {
            assert(out.deep_view() + words(cur@) =~= out.deep_view());
            break;
        }
        proof {
            lemma_after_first_token_shorter(cur@);
        }
        let ghost before = out.deep_view();
        let ghost rest = words(cur@);
        assert(rest =~= seq![w@] + words(after@));
        assert(w.deep_view() =~= w@);
        out.push(w);
        assert(out.deep_view() =~= before.push(w@));
        assert(out.deep_view() + words(after@) =~= before + rest);
        cur = after;
    }
    out
}

/// Adding an element to a sequence adds it to the sequence's set.
/// ASCII lower-casing keeps white space and leaves every other character's class: a
/// character is white space, or equal to a non-letter `c`, exactly when its lower case is.
pub proof fn lemma_lower_char_classes(x: char, c: char)
    requires
        !('A' <= c <= 'Z'),
        !('a' <= c <= 'z'),
    ensures
        is_white_space(lower_char(x)) == is_white_space(x),
        (lower_char(x) == c) == (x == c),
        !('A' <= lower_char(x) <= 'Z'),
{
    if 'A' <= x <= 'Z' {
        assert(97 <= (x as u32) + 32 <= 122);
        assert(lower_char(x) as u32 == (x as u32) + 32);
    }
}

/// Lower-casing commutes with removing leading white space.
pub proof fn lemma_lower_trim_start(s: Seq<char>)
    ensures
        lower_chars(trim_start(s)) == trim_start(lower_chars(s)),
    decreases s.len(),
{
    if s.len() > 0 {
        assert(lower_chars(s).drop_first() =~= lower_chars(s.drop_first()));
        lemma_lower_char_classes(s[0], ' ');
        if is_white_space(s[0]) {
            lemma_lower_trim_start(s.drop_first());
        }
    } else {
        assert(lower_chars(s) =~= s);
    }
}

/// Lower-casing commutes with removing trailing white space.
pub proof fn lemma_lower_trim_end(s: Seq<char>)
    ensures
        lower_chars(trim_end(s)) == trim_end(lower_chars(s)),
    decreases s.len(),
{
    if s.len() > 0 {
        assert(lower_chars(s).drop_last() =~= lower_chars(s.drop_last()));
        lemma_lower_char_classes(s.last(), ' ');
        if is_white_space(s.last()) {
            lemma_lower_trim_end(s.drop_last());
        }
    } else {
        assert(lower_chars(s) =~= s);
    }
}

/// Lower-casing commutes with removing leading and trailing copies of a non-letter.
pub proof fn lemma_lower_trim_matches(s: Seq<char>, c: char)
    requires
        !('A' <= c <= 'Z'),
        !('a' <= c <= 'z'),
    ensures
        lower_chars(trim_matches(s, c)) == trim_matches(lower_chars(s), c),
{
    lemma_lower_trim_matches_start(s, c);
    lemma_lower_trim_matches_end(trim_matches_start(s, c), c);
}

proof fn lemma_lower_trim_matches_start(s: Seq<char>, c: char)
    requires
        !('A' <= c <= 'Z'),
        !('a' <= c <= 'z'),
    ensures
        lower_chars(trim_matches_start(s, c)) == trim_matches_start(lower_chars(s), c),
    decreases s.len(),
{
    if s.len() > 0 {
        assert(lower_chars(s).drop_first() =~= lower_chars(s.drop_first()));
        lemma_lower_char_classes(s[0], c);
        if s[0] == c {
            lemma_lower_trim_matches_start(s.drop_first(), c);
        }
    } else {
        assert(lower_chars(s) =~= s);
    }
}

proof fn lemma_lower_trim_matches_end(s: Seq<char>, c: char)
    requires
        !('A' <= c <= 'Z'),
        !('a' <= c <= 'z'),
    ensures
        lower_chars(trim_matches_end(s, c)) == trim_matches_end(lower_chars(s), c),
    decreases s.len(),
{
    if s.len() > 0 {
        assert(lower_chars(s).drop_last() =~= lower_chars(s.drop_last()));
        lemma_lower_char_classes(s.last(), c);
        if s.last() == c {
            lemma_lower_trim_matches_end(s.drop_last(), c);
        }
    } else {
        assert(lower_chars(s) =~= s);
    }
}

/// After removing trailing copies of `c`, the text does not end with `c`.
pub proof fn lemma_trim_matches_end_last(s: Seq<char>, c: char)
    ensures
        trim_matches_end(s, c).len() > 0 ==> trim_matches_end(s, c).last() != c,
    decreases s.len(),
{
    if s.len() > 0 && s.last() == c {
        lemma_trim_matches_end_last(s.drop_last(), c);
    }
}

pub proof fn lemma_push_to_set<A>(s: Seq<A>, x: A)
    ensures
        s.push(x).to_set() =~= s.to_set().insert(x),
{
    assert forall|a: A| #[trigger] s.push(x).to_set().contains(a) <==> s.to_set().insert(
        x,
    ).contains(a) by {
        if s.contains(a) {
            let k = choose|k: int| 0 <= k < s.len() && s[k] == a;
            assert(s.push(x)[k] == a);
        }
        if a == x {
            assert(s.push(x)[s.len() as int] == x);
        }
        if s.push(x).contains(a) {
            let k = choose|k: int| 0 <= k < s.push(x).len() && s.push(x)[k] == a;
            if k < s.len() {
                assert(s[k] == a);
            }
        }
    }
}

/// The lines joined with `sep` between each two (`[String]::join`).
pub open spec fn join_lines(lines: Seq<Seq<char>>, sep: Seq<char>) -> Seq<char>
    decreases lines.len(),
{
    if lines.len() == 0 {
        Seq::empty()
    } else if lines.len() == 1 {
        lines[0]
    } else {
        join_lines(lines.drop_last(), sep) + sep + lines.last()
    }
}

/// Joins the strings with `sep` between each two.
pub fn join_strings(lines: &Vec<String>, sep: &str) -> (r: String)
    ensures
        r@ == join_lines(lines.deep_view(), sep@),
{
    let ghost all = lines.deep_view();
    if lines.len() == 0 {
        return String::new();
    }
    let sep_chars = str_chars(sep);
    let mut out = str_chars(lines[0].as_str());
    assert(all.take(1).drop_last() =~= Seq::<Seq<char>>::empty());
    let mut i: usize = 1;
    while i < lines.len()
        invariant
            1 <= i <= lines@.len(),
            all == lines.deep_view(),
            sep_chars@ == sep@,
            out@ == join_lines(all.take(i as int), sep@),
        decreases lines@.len() - i,
    {
        let next = str_chars(lines[i].as_str());
        let ghost before = out@;
        let mut k: usize = 0;
        while k < sep_chars.len()
            invariant
                k <= sep_chars@.len(),
                out@ == before + sep_chars@.take(k as int),
            decreases sep_chars@.len() - k,
        {
            out.push(sep_chars[k]);
            k = k + 1;
            assert(out@ =~= before + sep_chars@.take(k as int));
        }
        let ghost mid = out@;
        let mut j: usize = 0;
        while j < next.len()
            invariant
                j <= next@.len(),
                out@ == mid + next@.take(j as int),
            decreases next@.len() - j,
        {
            out.push(next[j]);
            j = j + 1;
            assert(out@ =~= mid + next@.take(j as int));
        }
        assert(all.take(i as int + 1).drop_last() =~= all.take(i as int));
        assert(out@ =~= before + sep@ + all[i as int]);
        i = i + 1;
    }
    assert(all.take(i as int) =~= all);
    string_from_chars(&out)
}


/// Appends the characters of `s` to `out`.
pub fn append_chars(out: &mut Vec<char>, s: &str)
    ensures
        final(out)@ == old(out)@ + s@,
{
    let v = str_chars(s);
    let ghost start = out@;
    let mut i: usize = 0;
    while i < v.len()
        invariant
            i <= v@.len(),
            out@ == start + v@.take(i as int),
        decreases v@.len() - i,
    {
        out.push(v[i]);
        i = i + 1;
        assert(out@ =~= start + v@.take(i as int));
    }
    assert(v@.take(i as int) =~= v@);
}


proof fn lemma_encode_scalar_no_nul(v: u32)
    requires
        v != 0,
    ensures
        forall|i: int| 0 <= i < encode_scalar(v).len() ==> #[trigger] encode_scalar(v)[i] != 0,
{
    assert(forall|x: u32| 1 <= x <= 0x7F ==> #[trigger] ((x & 0x7F) as u8) != 0u8) by (bit_vector);
    assert(forall|y: u8| #[trigger] (0xC0u8 | y) != 0u8) by (bit_vector);
    assert(forall|y: u8| #[trigger] (0xE0u8 | y) != 0u8) by (bit_vector);
    assert(forall|y: u8| #[trigger] (0xF0u8 | y) != 0u8) by (bit_vector);
    assert(forall|y: u8| #[trigger] (0x80u8 | y) != 0u8) by (bit_vector);
}

/// Text without NUL characters encodes to bytes without a zero byte.
pub proof fn lemma_encode_utf8_no_nul(s: Seq<char>)
    requires
        !s.contains('\0'),
    ensures
        forall|i: int| 0 <= i < encode_utf8(s).len() ==> #[trigger] encode_utf8(s)[i] != 0,
    decreases s.len(),
{
    if s.len() > 0 {
        let head = encode_scalar(s[0] as u32);
        let rest = s.drop_first();
        assert(s[0] != '\0');
        if s[0] as u32 == 0 {
            vstd::utf8::char_u32_cast(s[0], 0u32);
            assert((0u32 as char) == '\0');
        }
        lemma_encode_scalar_no_nul(s[0] as u32);
        assert(!rest.contains('\0')) by {
            if rest.contains('\0') {
                let k = choose|k: int| 0 <= k < rest.len() && rest[k] == '\0';
                assert(s[k + 1] == '\0');
            }
        }
        lemma_encode_utf8_no_nul(rest);
        let e = encode_utf8(s);
        assert(e == head + encode_utf8(rest));
        assert forall|i: int| 0 <= i < e.len() implies #[trigger] e[i] != 0 by {
            if i < head.len() {
                assert(e[i] == head[i]);
            } else {
                assert(e[i] == encode_utf8(rest)[i - head.len()]);
            }
        }
    }
}

} // verus!
