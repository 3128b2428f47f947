//! The inbound SMTP session: line parsing, AUTH PLAIN, the command state machine, the DATA
//! phase and the replies sent to local clients.
use base64::Engine;
use vstd::prelude::*;
use vstd::utf8::decode_utf8;
use vstd::utf8::encode_utf8;
use vstd::utf8::is_char_boundary;
use vstd::utf8::valid_utf8;

use crate::config::ListenConfig;
use crate::message::{crlf, find_byte, find_byte_from, position_of, Envelope, DOT, SP};
use crate::net::{is_allowed_peer, is_allowed_spec, all_wf, IpAddress};
use crate::text::{
    after_first_token, bytes_eq_ignore_case, chars_eq, chars_eq_ignore_case, clone_strings,
    copy_range, decimal, eq_ignore_case_bytes, eq_ignore_case_chars, first_token, first_ws,
    first_ws_index, has_token, lossy_utf8, push_decimal, push_str, split_first_token, str_bytes, str_is,
    str_chars, string_from_chars, to_upper_chars, trim, trim_chars, trim_start, trim_start_chars,
    upper_chars, utf8_decode, utf8_lossy, CR, LF,
};

verus! {

/// Longest command line (with its line ending) that a client may send.
pub const MAX_COMMAND_LINE: usize = 4096;

/// What `STANDARD.decode` of the `base64` crate yields for `text`.
pub uninterp spec fn base64_decoded(text: Seq<u8>) -> Option<Seq<u8>>;

/// What `STANDARD.encode` of the `base64` crate yields for `data`.
pub uninterp spec fn base64_encoded(data: Seq<u8>) -> Seq<char>;

/// Calls `base64::engine::general_purpose::STANDARD.decode` (RFC 4648 alphabet, padding
/// required). Claims that the outcome is a function of the input (named
/// `base64_decoded`); the decoding rules themselves are not stated.
#[verifier::external_body]
pub(crate) fn base64_decode(text: &[u8]) -> (r: Option<Vec<u8>>)
    ensures
        r is Some <==> base64_decoded(text@) is Some,
        r matches Some(d) ==> d@ == base64_decoded(text@)->Some_0,
{
    base64::engine::general_purpose::STANDARD.decode(text).ok()
}

/// Calls `base64::engine::general_purpose::STANDARD.encode`. Claims that the text is a
/// function of the data (named `base64_encoded`), that it is ASCII, and that decoding it
/// with the same engine gives the data back, as the crate's round-trip guarantee states.
#[verifier::external_body]
pub(crate) fn base64_encode(data: &[u8]) -> (s: String)
    ensures
        s@ == base64_encoded(data@),
        vstd::utf8::is_ascii_chars(s@),
        base64_decoded(encode_utf8(s@)) == Some(data@),
{
    base64::engine::general_purpose::STANDARD.encode(data)
}

/// `line` without its trailing CR and LF bytes.
pub open spec fn trim_crlf_spec(s: Seq<u8>) -> Seq<u8>
    decreases s.len(),
{
    if s.len() > 0 && (s.last() == CR || s.last() == LF) {
        trim_crlf_spec(s.drop_last())
    } else {
        s
    }
}

proof fn lemma_trim_crlf_take(s: Seq<u8>, i: int)
    requires
        0 <= i <= s.len(),
        forall|j: int| i <= j < s.len() ==> (#[trigger] s[j] == CR || s[j] == LF),
    ensures
        trim_crlf_spec(s) == trim_crlf_spec(s.take(i)),
    decreases s.len() - i,
{
    if i < s.len() {
        assert(s.drop_last().take(i) =~= s.take(i));
        lemma_trim_crlf_take(s.drop_last(), i);
    } else {
        assert(s.take(i) =~= s);
    }
}

/// Removes every trailing CR and LF byte.
pub fn trim_crlf_bytes(line: &[u8]) -> (r: Vec<u8>)
    ensures
        r@ == trim_crlf_spec(line@),
{
    let mut end = line.len();
    while end > 0 && (line[end - 1] == CR || line[end - 1] == LF)
        invariant
            end <= line@.len(),
            forall|j: int| end <= j < line@.len() ==> (#[trigger] line@[j] == CR || line@[j] == LF),
        decreases end,
    {
        end = end - 1;
    }
    proof {
        lemma_trim_crlf_take(line@, end as int);
        let t = line@.take(end as int);
        if t.len() > 0 {
            assert(t.last() == line@[end - 1]);
        }
    }
    let r = copy_range(line, 0, end);
    assert(r@ =~= line@.take(end as int));
    r
}

/// A received line as text: line ending removed, invalid UTF-8 replaced.
pub fn trim_crlf(line: &[u8]) -> (r: String)
    ensures
        r@ == lossy_utf8(trim_crlf_spec(line@)),
{
    let t = trim_crlf_bytes(line);
    utf8_lossy(&t)
}

/// The command word of a line, ASCII upper-cased.
pub open spec fn command_of(s: Seq<char>) -> Seq<char> {
    upper_chars(s.take(first_ws(s)))
}

/// The argument of a line: what follows the first white space, trimmed.
pub open spec fn argument_of(s: Seq<char>) -> Seq<char> {
    if first_ws(s) < s.len() {
        trim(s.skip(first_ws(s) + 1))
    } else {
        Seq::empty()
    }
}

/// Splits a command line into its upper-cased command word and its trimmed argument.
pub fn split_command(line: &str) -> (r: (String, String))
    ensures
        r.0@ == command_of(line@),
        r.1@ == argument_of(line@),
{
    let v = str_chars(line);
    let k = first_ws_index(&v);
    let head = copy_range(&v, 0, k);
    let command = to_upper_chars(&head);
    assert(head@ =~= v@.take(k as int));
    let argument = if k < v.len() {
        let rest = copy_range(&v, k + 1, v.len());
        assert(rest@ =~= v@.skip(k + 1));
        trim_chars(&rest)
    } else {
        Vec::new()
    };
    (string_from_chars(&command), string_from_chars(&argument))
}

/// Strips `prefix` from the front of `value` ignoring ASCII case, byte-wise; no match where
/// the cut would fall inside a character of `value`.
pub open spec fn strip_prefix_ci_spec(value: Seq<u8>, prefix: Seq<u8>) -> Option<Seq<u8>> {
    if value.len() < prefix.len() || !is_char_boundary(value, prefix.len() as int)
        || !eq_ignore_case_bytes(value.take(prefix.len() as int), prefix) {
        None
    } else {
        Some(value.skip(prefix.len() as int))
    }
}

/// Removes `prefix` from the front of `value` when they match ignoring ASCII case.
pub fn strip_prefix_ignore_ascii_case(value: &str, prefix: &str) -> (r: Option<String>)
    ensures
        match strip_prefix_ci_spec(encode_utf8(value@), encode_utf8(prefix@)) {
            None => r is None,
            Some(rest) => r matches Some(s) && s@ == decode_utf8(rest),
        },
{
    let prefix_len = prefix.as_bytes().len();
    if value.as_bytes().len() < prefix_len || !value.is_char_boundary(prefix_len) {
        return None;
    }
    let (head, tail) = value.split_at(prefix_len);
    let hb = str_bytes(head);
    let pb = str_bytes(prefix);
    assert(hb@ =~= encode_utf8(value@).take(prefix_len as int));
    if !bytes_eq_ignore_case(&hb, &pb) {
        return None;
    }
    let tv = str_chars(tail);
    proof {
        vstd::utf8::encode_utf8_decode_utf8(tail@);
        assert(encode_utf8(tail@) =~= encode_utf8(value@).skip(prefix_len as int));
    }
    Some(string_from_chars(&tv))
}

/// Why a MAIL or RCPT argument was refused.
#[derive(Debug, PartialEq, Eq, Structural)]
pub enum PathError {
    /// The argument does not start with the expected keyword ("FROM:" or "TO:").
    MissingKeyword,
    /// A '<' without a closing '>'.
    UnterminatedPath,
}

/// Index of the first `c` in `s`.
pub open spec fn find_char_from(s: Seq<char>, c: char, i: int) -> Option<int>
    decreases s.len() - i,
{
    if i < 0 || i >= s.len() {
        None
    } else if s[i] == c {
        Some(i)
    } else {
        find_char_from(s, c, i + 1)
    }
}

/// The address in a MAIL FROM / RCPT TO argument.
pub open spec fn path_argument_spec(argument: Seq<char>, prefix: Seq<char>) -> Result<
    Seq<char>,
    PathError,
> {
    match strip_prefix_ci_spec(encode_utf8(trim_start(argument)), encode_utf8(prefix)) {
        None => Err(PathError::MissingKeyword),
        Some(rest_bytes) => {
            let rest = trim_start(decode_utf8(rest_bytes));
            if rest.len() > 0 && rest[0] == '<' {
                let inner = rest.drop_first();
                match find_char_from(inner, '>', 0) {
                    None => Err(PathError::UnterminatedPath),
                    Some(end) => Ok(trim(inner.take(end))),
                }
            } else {
                Ok(trim(first_token(rest)))
            }
        },
    }
}

/// Extracts the address from a MAIL FROM or RCPT TO argument: after the keyword, either the
/// text between '<' and the first '>', or the first word.
pub fn parse_path_argument(argument: &str, prefix: &str) -> (r: Result<String, PathError>)
    ensures
        match path_argument_spec(argument@, prefix@) {
            Ok(v) => r matches Ok(s) && s@ == v,
            Err(e) => r == Err::<String, PathError>(e),
        },
{
    let chars = str_chars(argument);
    let t = trim_start_chars(&chars);
    let ts = string_from_chars(&t);
    let rest_str = match strip_prefix_ignore_ascii_case(ts.as_str(), prefix) {
        None => {
            return Err(PathError::MissingKeyword);
        },
        Some(r) => r,
    };
    let rest_chars = str_chars(rest_str.as_str());
    let rest = trim_start_chars(&rest_chars);
    if rest.len() > 0 && rest[0] == '<' {
        let inner = copy_range(&rest, 1, rest.len());
        assert(inner@ =~= rest@.drop_first());
        let mut i: usize = 0;
        assert(path_argument_spec(argument@, prefix@) == match find_char_from(inner@, '>', 0) {
            None => Err(PathError::UnterminatedPath),
            Some(end) => Ok(trim(inner@.take(end))),
        });
        while i < inner.len()
            invariant
                i <= inner@.len(),
                find_char_from(inner@, '>', 0) == find_char_from(inner@, '>', i as int),
                path_argument_spec(argument@, prefix@) == match find_char_from(inner@, '>', 0) {
                    None => Err(PathError::UnterminatedPath),
                    Some(end) => Ok(trim(inner@.take(end))),
                },
            decreases inner@.len() - i,
        {
            if inner[i] == '>' {
                assert(find_char_from(inner@, '>', i as int) == Some(i as int));
                let addr = copy_range(&inner, 0, i);
                assert(addr@ =~= inner@.take(i as int));
                let trimmed = trim_chars(&addr);
                return Ok(string_from_chars(&trimmed));
            }
            i = i + 1;
        }
        return Err(PathError::UnterminatedPath);
    }
    let (word, _) = split_first_token(&rest);
    let trimmed = trim_chars(&word);
    Ok(string_from_chars(&trimmed))
}

/// Why an AUTH PLAIN response was refused.
#[derive(Debug, PartialEq, Eq, Structural)]
pub enum AuthPlainError {
    InvalidBase64,
    Malformed,
    UsernameNotUtf8,
    PasswordNotUtf8,
}

impl AuthPlainError {
    /// The text sent to the client with the 501 reply.
    pub open spec fn message_spec(self) -> Seq<char> {
        match self {
            AuthPlainError::InvalidBase64 => "invalid base64 payload for AUTH PLAIN"@,
            AuthPlainError::Malformed => "AUTH PLAIN payload is malformed"@,
            AuthPlainError::UsernameNotUtf8 => "AUTH username is not UTF-8"@,
            AuthPlainError::PasswordNotUtf8 => "AUTH password is not UTF-8"@,
        }
    }

    /// The text sent to the client with the 501 reply.
    pub fn message(&self) -> (r: &'static str)
        ensures
            r@ == self.message_spec(),
    {
        match self {
            AuthPlainError::InvalidBase64 => "invalid base64 payload for AUTH PLAIN",
            AuthPlainError::Malformed => "AUTH PLAIN payload is malformed",
            AuthPlainError::UsernameNotUtf8 => "AUTH username is not UTF-8",
            AuthPlainError::PasswordNotUtf8 => "AUTH password is not UTF-8",
        }
    }
}

/// The second and third NUL-separated fields of an AUTH PLAIN payload
/// (authorization identity, NUL, username, NUL, password), when there are at least three.
pub open spec fn plain_fields(d: Seq<u8>) -> Option<(Seq<u8>, Seq<u8>)> {
    match find_byte(d, 0) {
        None => None,
        Some(z1) => match find_byte_from(d, 0, z1 + 1) {
            None => None,
            Some(z2) => {
                let end = match find_byte_from(d, 0, z2 + 1) {
                    Some(z3) => z3,
                    None => d.len() as int,
                };
                Some((d.subrange(z1 + 1, z2), d.subrange(z2 + 1, end)))
            },
        },
    }
}

/// The username and password that an AUTH PLAIN response carries.
pub open spec fn auth_plain_spec(value: Seq<char>) -> Result<(Seq<char>, Seq<char>), AuthPlainError> {
    match base64_decoded(encode_utf8(value)) {
        None => Err(AuthPlainError::InvalidBase64),
        Some(d) => match plain_fields(d) {
            None => Err(AuthPlainError::Malformed),
            Some((u, p)) => if !valid_utf8(u) {
                Err(AuthPlainError::UsernameNotUtf8)
            } else if !valid_utf8(p) {
                Err(AuthPlainError::PasswordNotUtf8)
            } else {
                Ok((decode_utf8(u), decode_utf8(p)))
            },
        },
    }
}

proof fn lemma_find_byte_from_bounds(s: Seq<u8>, b: u8, i: int)
    requires
        0 <= i,
    ensures
        find_byte_from(s, b, i) matches Some(k) ==> i <= k < s.len() && s[k] == b,
    decreases s.len() - i,
{
    if i < s.len() && s[i] != b {
        lemma_find_byte_from_bounds(s, b, i + 1);
    }
}

/// Finds the first `b` at or after `from`.
fn position_from(s: &[u8], b: u8, from: usize) -> (r: Option<usize>)
    ensures
        r matches Some(k) ==> find_byte_from(s@, b, from as int) == Some(k as int) && from <= k
            < s@.len(),
        r is None ==> find_byte_from(s@, b, from as int) is None,
{
    let mut i = from;
    while i < s.len()
        invariant
            from <= i,
            find_byte_from(s@, b, from as int) == find_byte_from(s@, b, i as int),
        decreases s@.len() - i,
    {
        if s[i] == b {
            return Some(i);
        }
        i = i + 1;
    }
    None
}

/// Decodes an AUTH PLAIN response into username and password.
pub fn decode_auth_plain(value: &str) -> (r: Result<(String, String), AuthPlainError>)
    ensures
        match auth_plain_spec(value@) {
            Ok((u, p)) => r matches Ok(x) && x.0@ == u && x.1@ == p,
            Err(e) => r matches Err(e2) && e2 == e,
        },
{
    let text = str_bytes(value);
    let decoded = match base64_decode(&text) {
        Some(d) => d,
        None => {
            return Err(AuthPlainError::InvalidBase64);
        },
    };
    let n = decoded.len();
    let z1 = match position_from(&decoded, 0, 0) {
        Some(z) => z,
        None => {
            return Err(AuthPlainError::Malformed);
        },
    };
    let z2 = match position_from(&decoded, 0, z1 + 1) {
        Some(z) => z,
        None => {
            return Err(AuthPlainError::Malformed);
        },
    };
    let end = match position_from(&decoded, 0, z2 + 1) {
        Some(z) => z,
        None => decoded.len(),
    };
    let user_bytes = copy_range(&decoded, z1 + 1, z2);
    let pass_bytes = copy_range(&decoded, z2 + 1, end);
    let username = match utf8_decode(user_bytes) {
        Some(u) => u,
        None => {
            return Err(AuthPlainError::UsernameNotUtf8);
        },
    };
    let password = match utf8_decode(pass_bytes) {
        Some(p) => p,
        None => {
            return Err(AuthPlainError::PasswordNotUtf8);
        },
    };
    Ok((username, password))
}

/// One reply line: the code, a space, the text and CRLF.
pub open spec fn reply_spec(code: u16, text: Seq<char>) -> Seq<u8> {
    decimal(code as nat) + seq![SP] + encode_utf8(text) + crlf()
}

/// Formats a single-line SMTP reply.
pub fn reply(code: u16, text: &str) -> (r: Vec<u8>)
    ensures
        r@ == reply_spec(code, text@),
{
    let mut out: Vec<u8> = Vec::new();
    push_decimal(&mut out, code as u64);
    out.push(SP);
    push_str(&mut out, text);
    out.push(CR);
    out.push(LF);
    assert(out@ =~= reply_spec(code, text@));
    out
}

/// A multi-line reply: every line but the last has '-' after the code.
pub open spec fn multiline_spec(code: u16, lines: Seq<Seq<u8>>) -> Seq<u8>
    decreases lines.len(),
{
    if lines.len() == 0 {
        Seq::empty()
    } else if lines.len() == 1 {
        decimal(code as nat) + seq![SP] + lines[0] + crlf()
    } else {
        decimal(code as nat) + seq![45u8] + lines[0] + crlf() + multiline_spec(
            code,
            lines.drop_first(),
        )
    }
}

proof fn lemma_multiline_step(code: u16, lines: Seq<Seq<u8>>, i: int)
    requires
        0 <= i < lines.len(),
    ensures
        multiline_spec(code, lines.skip(i)) == decimal(code as nat) + seq![
            if i + 1 == lines.len() {
                SP
            } else {
                45u8
            },
        ] + lines[i] + crlf() + multiline_spec(code, lines.skip(i + 1)),
{
    let s = lines.skip(i);
    assert(s[0] == lines[i]);
    assert(s.drop_first() =~= lines.skip(i + 1));
    if i + 1 == lines.len() {
        assert(lines.skip(i + 1) =~= Seq::<Seq<u8>>::empty());
        assert(multiline_spec(code, Seq::<Seq<u8>>::empty()) == Seq::<u8>::empty());
        assert(decimal(code as nat) + seq![SP] + lines[i] + crlf() + Seq::<u8>::empty()
            =~= decimal(code as nat) + seq![SP] + lines[i] + crlf());
    }
}

/// Formats a multi-line SMTP reply.
pub fn multiline_reply(code: u16, lines: &Vec<Vec<u8>>) -> (r: Vec<u8>)
    ensures
        r@ == multiline_spec(code, lines.deep_view()),
{
    let ghost ls = lines.deep_view();
    let mut out: Vec<u8> = Vec::new();
    let mut i: usize = 0;
    assert(ls.skip(0) =~= ls);
    while i < lines.len()
        invariant
            ls == lines.deep_view(),
            i <= lines@.len(),
            multiline_spec(code, ls) == out@ + multiline_spec(code, ls.skip(i as int)),
        decreases lines@.len() - i,
    {
        proof {
            lemma_multiline_step(code, ls, i as int);
        }
        let ghost before = out@;
        push_decimal(&mut out, code as u64);
        if i + 1 == lines.len() {
            out.push(SP);
        } else {
            out.push(45u8);
        }
        assert(lines@[i as int].deep_view() =~= lines@[i as int]@);
        out.extend_from_slice(&lines[i]);
        out.push(CR);
        out.push(LF);
        assert(out@ =~= before + (decimal(code as nat) + seq![
            if i + 1 == lines@.len() {
                SP
            } else {
                45u8
            },
        ] + ls[i as int] + crlf()));
        i = i + 1;
    }
    assert(ls.skip(i as int) =~= Seq::<Seq<u8>>::empty());
    assert(out@ + Seq::<u8>::empty() =~= out@);
    out
}

/// The EHLO reply: banner, AUTH PLAIN, 8BITMIME and the size limit.
pub open spec fn ehlo_reply_spec(banner: Seq<char>, limit: usize) -> Seq<u8> {
    multiline_spec(
        250,
        seq![
            encode_utf8(banner),
            encode_utf8("AUTH PLAIN"@),
            encode_utf8("8BITMIME"@),
            encode_utf8("SIZE "@) + decimal(limit as nat),
        ],
    )
}

fn ehlo_reply(banner: &str, limit: usize) -> (r: Vec<u8>)
    ensures
        r@ == ehlo_reply_spec(banner@, limit),
{
    let mut lines: Vec<Vec<u8>> = Vec::new();
    lines.push(str_bytes(banner));
    lines.push(str_bytes("AUTH PLAIN"));
    lines.push(str_bytes("8BITMIME"));
    let mut size = str_bytes("SIZE ");
    push_decimal(&mut size, limit as u64);
    lines.push(size);
    assert(lines@[0].deep_view() =~= lines@[0]@);
    assert(lines@[1].deep_view() =~= lines@[1]@);
    assert(lines@[2].deep_view() =~= lines@[2]@);
    assert(lines@[3].deep_view() =~= lines@[3]@);
    assert(lines.deep_view() =~= seq![
        encode_utf8(banner@),
        encode_utf8("AUTH PLAIN"@),
        encode_utf8("8BITMIME"@),
        encode_utf8("SIZE "@) + decimal(limit as nat),
    ]);
    multiline_reply(250, &lines)
}

/// The per-connection SMTP state: greeting seen, authenticated, and the open transaction.
#[derive(Debug)]
pub struct SessionState {
    pub helo: bool,
    pub authenticated: bool,
    pub mail_from: Option<String>,
    pub rcpt_to: Vec<String>,
}

impl SessionState {
    /// Clears the sender and the recipients of the open transaction.
    pub fn reset_transaction(&mut self)
        ensures
            final(self).mail_from is None,
            final(self).rcpt_to@.len() == 0,
            final(self).helo == old(self).helo,
            final(self).authenticated == old(self).authenticated,
    {
        self.mail_from = None;
        self.rcpt_to.clear();
    }
}

/// Where the session is in the protocol.
#[derive(Debug, Clone, Copy, PartialEq, Eq, Structural)]
pub enum Phase {
    /// Reading commands.
    Command,
    /// AUTH PLAIN sent 334 and waits for the client's response line.
    AuthResponse,
    /// Reading message data after DATA.
    Data,
}

/// Why a session ends with an error (the connection is closed without a reply).
#[derive(Debug, Clone, Copy, PartialEq, Eq, Structural)]
pub enum SessionError {
    /// A line longer than the current limit.
    LineTooLong,
    /// The client closed the connection in the middle of DATA.
    ClosedDuringData,
    /// The message data grew past the configured size limit.
    MessageTooLarge,
}

/// How the encryption and relay of a delivered message ended.
#[derive(Debug, Clone, Copy, PartialEq, Eq, Structural)]
pub enum DeliveryOutcome {
    Relayed,
    RelayFailed,
    EncryptionFailed,
}

/// What the connection handler does after a session step.
#[derive(Debug)]
pub enum SessionAction {
    /// Nothing to send; read the next line.
    Continue,
    /// Send the bytes, then read the next line.
    Reply(Vec<u8>),
    /// Send the bytes, then close the connection.
    ReplyAndClose(Vec<u8>),
    /// Close the connection.
    Close,
    /// Encrypt and relay the message, then report with `delivery_finished`.
    Deliver(Envelope, Vec<u8>),
    /// End the session with an error.
    Abort(SessionError),
}

/// The mathematical value of a session action.
pub ghost enum ActionView {
    Continue,
    Reply(Seq<u8>),
    ReplyAndClose(Seq<u8>),
    Close,
    Deliver(Seq<char>, Seq<Seq<char>>, Seq<u8>),
    Abort(SessionError),
}

impl View for SessionAction {
    type V = ActionView;

    open spec fn view(&self) -> ActionView {
        match self {
            SessionAction::Continue => ActionView::Continue,
            SessionAction::Reply(b) => ActionView::Reply(b@),
            SessionAction::ReplyAndClose(b) => ActionView::ReplyAndClose(b@),
            SessionAction::Close => ActionView::Close,
            SessionAction::Deliver(e, m) => ActionView::Deliver(
                e.mail_from@,
                e.rcpt_to.deep_view(),
                m@,
            ),
            SessionAction::Abort(e) => ActionView::Abort(*e),
        }
    }
}

/// One SMTP session with a local client.
#[derive(Debug)]
pub struct SmtpSession {
    pub state: SessionState,
    pub phase: Phase,
    pub data: Vec<u8>,
    pub banner: String,
    pub username: String,
    pub password: String,
    pub size_limit: usize,
}

/// The mathematical value of a session.
pub ghost struct SessionView {
    pub helo: bool,
    pub authenticated: bool,
    pub mail_from: Option<Seq<char>>,
    pub rcpt_to: Seq<Seq<char>>,
    pub phase: Phase,
    pub data: Seq<u8>,
    pub banner: Seq<char>,
    pub username: Seq<char>,
    pub password: Seq<char>,
    pub size_limit: usize,
}

pub open spec fn opt_view(o: Option<String>) -> Option<Seq<char>> {
    match o {
        Some(s) => Some(s@),
        None => None,
    }
}

impl View for SmtpSession {
    type V = SessionView;

    open spec fn view(&self) -> SessionView {
        SessionView {
            helo: self.state.helo,
            authenticated: self.state.authenticated,
            mail_from: opt_view(self.state.mail_from),
            rcpt_to: self.state.rcpt_to.deep_view(),
            phase: self.phase,
            data: self.data@,
            banner: self.banner@,
            username: self.username@,
            password: self.password@,
            size_limit: self.size_limit,
        }
    }
}

pub open spec fn reset_spec(v: SessionView) -> SessionView {
    SessionView { mail_from: None, rcpt_to: Seq::empty(), ..v }
}

pub open spec fn replying(v: SessionView, code: u16, text: Seq<char>) -> (SessionView, ActionView) {
    (v, ActionView::Reply(reply_spec(code, text)))
}

/// The longest line accepted in the current phase, line ending included.
pub open spec fn max_line_spec(v: SessionView) -> int {
    match v.phase {
        Phase::Data => if v.size_limit + 5 > usize::MAX {
            usize::MAX as int
        } else {
            v.size_limit + 5
        },
        _ => MAX_COMMAND_LINE as int,
    }
}

/// The reply text for a refused MAIL or RCPT argument.
pub open spec fn path_error_text(e: PathError, prefix: Seq<char>) -> Seq<char> {
    match e {
        PathError::MissingKeyword => "expected "@ + prefix,
        PathError::UnterminatedPath => "unterminated address path"@,
    }
}

/// Checks an AUTH PLAIN response against the configured credentials.
pub open spec fn auth_evaluate_spec(v: SessionView, response: Seq<char>) -> (SessionView, ActionView) {
    match auth_plain_spec(response) {
        Ok((u, p)) => if u == v.username && p == v.password {
            (
                SessionView { authenticated: true, ..v },
                ActionView::Reply(reply_spec(235, "authentication successful"@)),
            )
        } else {
            replying(v, 535, "authentication failed"@)
        },
        Err(e) => replying(v, 501, e.message_spec()),
    }
}

/// AUTH with its argument: the mechanism must be PLAIN; the response comes with it or on
/// the next line.
pub open spec fn auth_command_spec(v: SessionView, arg: Seq<char>) -> (SessionView, ActionView) {
    if !has_token(arg) {
        replying(v, 501, "missing AUTH mechanism"@)
    } else if !eq_ignore_case_chars(first_token(arg), "PLAIN"@) {
        replying(v, 504, "only AUTH PLAIN is supported"@)
    } else if has_token(after_first_token(arg)) {
        auth_evaluate_spec(v, first_token(after_first_token(arg)))
    } else {
        (SessionView { phase: Phase::AuthResponse, ..v }, ActionView::Reply(reply_spec(334, ""@)))
    }
}

/// One command line (already without its line ending).
pub open spec fn command_spec(v: SessionView, s: Seq<char>) -> (SessionView, ActionView) {
    let cmd = command_of(s);
    let arg = argument_of(s);
    if s.len() == 0 {
        (v, ActionView::Continue)
    } else if cmd == "EHLO"@ {
        (
            reset_spec(SessionView { helo: true, ..v }),
            ActionView::Reply(ehlo_reply_spec(v.banner, v.size_limit)),
        )
    } else if cmd == "HELO"@ {
        (reset_spec(SessionView { helo: true, ..v }), ActionView::Reply(reply_spec(250, v.banner)))
    } else if cmd == "AUTH"@ {
        if !v.helo {
            replying(v, 503, "send EHLO/HELO first"@)
        } else if v.authenticated {
            replying(v, 503, "already authenticated"@)
        } else {
            auth_command_spec(v, arg)
        }
    } else if cmd == "MAIL"@ {
        if !v.helo {
            replying(v, 503, "send EHLO/HELO first"@)
        } else if !v.authenticated {
            replying(v, 530, "authentication required"@)
        } else {
            match path_argument_spec(arg, "FROM:"@) {
                Err(e) => replying(v, 501, path_error_text(e, "FROM:"@)),
                Ok(sender) => (
                    SessionView { mail_from: Some(sender), rcpt_to: Seq::empty(), ..v },
                    ActionView::Reply(reply_spec(250, "sender ok"@)),
                ),
            }
        }
    } else if cmd == "RCPT"@ {
        if v.mail_from is None {
            replying(v, 503, "need MAIL before RCPT"@)
        } else {
            match path_argument_spec(arg, "TO:"@) {
                Err(e) => replying(v, 501, path_error_text(e, "TO:"@)),
                Ok(r) => (
                    SessionView { rcpt_to: v.rcpt_to.push(r), ..v },
                    ActionView::Reply(reply_spec(250, "recipient ok"@)),
                ),
            }
        }
    } else if cmd == "DATA"@ {
        if v.mail_from is None || v.rcpt_to.len() == 0 {
            replying(v, 503, "need MAIL and RCPT before DATA"@)
        } else {
            (
                SessionView { phase: Phase::Data, data: Seq::empty(), ..v },
                ActionView::Reply(reply_spec(354, "end data with <CRLF>.<CRLF>"@)),
            )
        }
    } else if cmd == "RSET"@ {
        (reset_spec(v), ActionView::Reply(reply_spec(250, "state reset"@)))
    } else if cmd == "NOOP"@ {
        replying(v, 250, "ok"@)
    } else if cmd == "QUIT"@ {
        (v, ActionView::ReplyAndClose(reply_spec(221, "bye"@)))
    } else {
        replying(v, 502, "command not implemented"@)
    }
}

/// A received DATA line without the '.' that dot-stuffing put before a leading '.'.
pub open spec fn unstuffed_line(t: Seq<u8>) -> Seq<u8> {
    if t.len() >= 2 && t[0] == DOT && t[1] == DOT {
        t.skip(1)
    } else {
        t
    }
}

/// What the DATA phase reads from these received lines: the message up to the line ".",
/// or `None` when the lines end before it (the size limit aside).
pub open spec fn read_data_lines(lines: Seq<Seq<u8>>, acc: Seq<u8>) -> Option<Seq<u8>>
    decreases lines.len(),
{
    if lines.len() == 0 {
        None
    } else if trim_crlf_spec(lines[0]) == seq![DOT] {
        Some(acc)
    } else {
        read_data_lines(lines.drop_first(), acc + unstuffed_line(trim_crlf_spec(lines[0])) + crlf())
    }
}

/// One line of message data (already without its line ending).
pub open spec fn data_spec(v: SessionView, t: Seq<u8>) -> (SessionView, ActionView) {
    if t == seq![DOT] {
        (
            SessionView { phase: Phase::Command, data: Seq::empty(), ..v },
            ActionView::Deliver(
                match v.mail_from {
                    Some(m) => m,
                    None => Seq::empty(),
                },
                v.rcpt_to,
                v.data,
            ),
        )
    } else {
        let m = v.data + unstuffed_line(t) + crlf();
        if m.len() > v.size_limit {
            (SessionView { data: m, ..v }, ActionView::Abort(SessionError::MessageTooLarge))
        } else {
            (SessionView { data: m, ..v }, ActionView::Continue)
        }
    }
}

/// The session's response to one received line.
pub open spec fn step_spec(v: SessionView, line: Seq<u8>) -> (SessionView, ActionView) {
    if line.len() > max_line_spec(v) {
        (v, ActionView::Abort(SessionError::LineTooLong))
    } else {
        match v.phase {
            Phase::Command => command_spec(v, lossy_utf8(trim_crlf_spec(line))),
            Phase::AuthResponse => auth_evaluate_spec(
                SessionView { phase: Phase::Command, ..v },
                lossy_utf8(trim_crlf_spec(line)),
            ),
            Phase::Data => data_spec(v, trim_crlf_spec(line)),
        }
    }
}

/// The session's response to the client closing the connection.
pub open spec fn eof_spec(v: SessionView) -> ActionView {
    match v.phase {
        Phase::Data => ActionView::Abort(SessionError::ClosedDuringData),
        _ => ActionView::Close,
    }
}

/// The reply after a delivered message was encrypted and relayed (or not).
pub open spec fn delivery_reply_spec(outcome: DeliveryOutcome) -> Seq<u8> {
    match outcome {
        DeliveryOutcome::Relayed => reply_spec(250, "message relayed"@),
        DeliveryOutcome::RelayFailed => reply_spec(554, "failed to relay message"@),
        DeliveryOutcome::EncryptionFailed => reply_spec(554, "failed to encrypt message"@),
    }
}

fn reply_action(code: u16, text: &str) -> (a: SessionAction)
    ensures
        a@ == ActionView::Reply(reply_spec(code, text@)),
{
    SessionAction::Reply(reply(code, text))
}

impl SmtpSession {
    /// A new session for a client, configured by the listener settings.
    pub fn new(listen: &ListenConfig) -> (s: SmtpSession)
        ensures
            !s@.helo,
            !s@.authenticated,
            s@.mail_from is None,
            s@.rcpt_to.len() == 0,
            s@.phase == Phase::Command,
            s@.banner == listen.banner@,
            s@.username == listen.auth.username@,
            s@.password == listen.auth.password@,
            s@.size_limit == listen.message_size_limit_bytes,
            session_inv(s@),
    {
        let s = SmtpSession {
            state: SessionState {
                helo: false,
                authenticated: false,
                mail_from: None,
                rcpt_to: Vec::new(),
            },
            phase: Phase::Command,
            data: Vec::new(),
            banner: listen.banner.clone(),
            username: listen.auth.username.clone(),
            password: listen.auth.password.clone(),
            size_limit: listen.message_size_limit_bytes,
        };
        assert(s.state.rcpt_to.deep_view() =~= Seq::<Seq<char>>::empty());
        s
    }

    /// The greeting sent when the connection opens: 220 with the banner.
    pub fn greeting(&self) -> (r: Vec<u8>)
        ensures
            r@ == reply_spec(220, self.banner@ + " ESMTP ready"@),
    {
        let a = str_chars(self.banner.as_str());
        let b = str_chars(" ESMTP ready");
        let mut all = a;
        let mut i: usize = 0;
        let ghost p = all@;
        while i < b.len()
            invariant
                i <= b@.len(),
                all@ == p + b@.take(i as int),
            decreases b@.len() - i,
        {
            all.push(b[i]);
            i = i + 1;
            assert(all@ =~= p + b@.take(i as int));
        }
        assert(b@.take(i as int) =~= b@);
        let text = string_from_chars(&all);
        reply(220, text.as_str())
    }

    /// The longest line the session accepts next.
    pub fn max_line_len(&self) -> (n: usize)
        ensures
            n == max_line_spec(self@),
    {
        match self.phase {
            Phase::Data => self.size_limit.saturating_add(5),
            _ => MAX_COMMAND_LINE,
        }
    }

    fn evaluate_auth(&mut self, response: &str) -> (a: SessionAction)
        requires
            old(self)@.phase == Phase::Command,
        ensures
            (final(self)@, a@) == auth_evaluate_spec(old(self)@, response@),
    {
        match decode_auth_plain(response) {
            Ok((username, password)) => {
                if username == self.username && password == self.password {
                    self.state.authenticated = true;
                    reply_action(235, "authentication successful")
                } else {
                    reply_action(535, "authentication failed")
                }
            },
            Err(e) => reply_action(501, e.message()),
        }
    }

    fn auth_command(&mut self, arg: &str) -> (a: SessionAction)
        requires
            old(self)@.phase == Phase::Command,
        ensures
            (final(self)@, a@) == auth_command_spec(old(self)@, arg@),
    {
        let chars = str_chars(arg);
        let (mechanism, rest) = split_first_token(&chars);
        if mechanism.len() == 0 {
            proof {
                crate::text::lemma_first_token_nonempty(arg@);
            }
            return reply_action(501, "missing AUTH mechanism");
        }
        proof {
            crate::text::lemma_first_token_nonempty(arg@);
        }
        let plain = str_chars("PLAIN");
        if !chars_eq_ignore_case(&mechanism, &plain) {
            return reply_action(504, "only AUTH PLAIN is supported");
        }
        let (initial, _) = split_first_token(&rest);
        proof {
            crate::text::lemma_first_token_nonempty(rest@);
        }
        if initial.len() > 0 {
            let response = string_from_chars(&initial);
            self.evaluate_auth(response.as_str())
        } else {
            self.phase = Phase::AuthResponse;
            reply_action(334, "")
        }
    }

    fn mail_command(&mut self, arg: &str) -> (a: SessionAction)
        requires
            old(self)@.phase == Phase::Command,
            old(self)@.helo,
            old(self)@.authenticated,
        ensures
            (final(self)@, a@) == (match path_argument_spec(arg@, "FROM:"@) {
                Err(e) => replying(old(self)@, 501, path_error_text(e, "FROM:"@)),
                Ok(sender) => (
                    SessionView { mail_from: Some(sender), rcpt_to: Seq::empty(), ..old(self)@ },
                    ActionView::Reply(reply_spec(250, "sender ok"@)),
                ),
            }),
    {
        match parse_path_argument(arg, "FROM:") {
            Ok(sender) => {
                self.state.reset_transaction();
                self.state.mail_from = Some(sender);
                assert(self.state.rcpt_to.deep_view() =~= Seq::<Seq<char>>::empty());
                reply_action(250, "sender ok")
            },
            Err(e) => {
                let text = path_error_string(&e, "FROM:");
                SessionAction::Reply(reply(501, text.as_str()))
            },
        }
    }

    fn rcpt_command(&mut self, arg: &str) -> (a: SessionAction)
        requires
            old(self)@.phase == Phase::Command,
            old(self)@.mail_from is Some,
        ensures
            (final(self)@, a@) == (match path_argument_spec(arg@, "TO:"@) {
                Err(e) => replying(old(self)@, 501, path_error_text(e, "TO:"@)),
                Ok(r) => (
                    SessionView { rcpt_to: old(self)@.rcpt_to.push(r), ..old(self)@ },
                    ActionView::Reply(reply_spec(250, "recipient ok"@)),
                ),
            }),
    {
        match parse_path_argument(arg, "TO:") {
            Ok(recipient) => {
                let ghost before = self.state.rcpt_to.deep_view();
                self.state.rcpt_to.push(recipient);
                assert(self.state.rcpt_to.deep_view() =~= before.push(recipient@));
                reply_action(250, "recipient ok")
            },
            Err(e) => {
                let text = path_error_string(&e, "TO:");
                SessionAction::Reply(reply(501, text.as_str()))
            },
        }
    }

    fn command_line(&mut self, line: &str) -> (a: SessionAction)
        requires
            old(self)@.phase == Phase::Command,
        ensures
            (final(self)@, a@) == command_spec(old(self)@, line@),
    {
        if line.is_empty() {
            return SessionAction::Continue;
        }
        let (command, argument) = split_command(line);
        let cmd = command.as_str();
        if str_is(cmd, "EHLO") {
            self.state.helo = true;
            self.state.reset_transaction();
            assert(self.state.rcpt_to.deep_view() =~= Seq::<Seq<char>>::empty());
            SessionAction::Reply(ehlo_reply(self.banner.as_str(), self.size_limit))
        } else if str_is(cmd, "HELO") {
            self.state.helo = true;
            self.state.reset_transaction();
            assert(self.state.rcpt_to.deep_view() =~= Seq::<Seq<char>>::empty());
            SessionAction::Reply(reply(250, self.banner.as_str()))
        } else if str_is(cmd, "AUTH") {
            if !self.state.helo {
                reply_action(503, "send EHLO/HELO first")
            } else if self.state.authenticated {
                reply_action(503, "already authenticated")
            } else {
                self.auth_command(argument.as_str())
            }
        } else if str_is(cmd, "MAIL") {
            if !self.state.helo {
                reply_action(503, "send EHLO/HELO first")
            } else if !self.state.authenticated {
                reply_action(530, "authentication required")
            } else {
                self.mail_command(argument.as_str())
            }
        } else if str_is(cmd, "RCPT") {
            if self.state.mail_from.is_none() {
                reply_action(503, "need MAIL before RCPT")
            } else {
                self.rcpt_command(argument.as_str())
            }
        } else if str_is(cmd, "DATA") {
            if self.state.mail_from.is_none() || self.state.rcpt_to.len() == 0 {
                reply_action(503, "need MAIL and RCPT before DATA")
            } else {
                self.phase = Phase::Data;
                self.data = Vec::new();
                reply_action(354, "end data with <CRLF>.<CRLF>")
            }
        } else if str_is(cmd, "RSET") {
            self.state.reset_transaction();
            assert(self.state.rcpt_to.deep_view() =~= Seq::<Seq<char>>::empty());
            reply_action(250, "state reset")
        } else if str_is(cmd, "NOOP") {
            reply_action(250, "ok")
        } else if str_is(cmd, "QUIT") {
            SessionAction::ReplyAndClose(reply(221, "bye"))
        } else {
            reply_action(502, "command not implemented")
        }
    }

    fn data_line(&mut self, t: Vec<u8>) -> (a: SessionAction)
        requires
            old(self)@.phase == Phase::Data,
        ensures
            (final(self)@, a@) == data_spec(old(self)@, t@),
    {
        if t.len() == 1 && t[0] == DOT {
            assert(t@ =~= seq![DOT]);
            let mut message: Vec<u8> = Vec::new();
            std::mem::swap(&mut message, &mut self.data);
            self.phase = Phase::Command;
            let mail_from = match &self.state.mail_from {
                Some(m) => m.clone(),
                None => String::new(),
            };
            let envelope = Envelope { mail_from, rcpt_to: clone_strings(&self.state.rcpt_to) };
            return SessionAction::Deliver(envelope, message);
        }
        proof {
            if t@ == seq![DOT] {
                assert(t@.len() == 1);
            }
        }
        let ghost old_data = self.data@;
        if t.len() >= 2 && t[0] == DOT && t[1] == DOT {
            let body = copy_range(&t, 1, t.len());
            assert(body@ =~= t@.skip(1));
            self.data.extend_from_slice(&body);
        } else {
            self.data.extend_from_slice(&t);
        }
        self.data.push(CR);
        self.data.push(LF);
        let ghost body = if t@.len() >= 2 && t@[0] == DOT && t@[1] == DOT {
            t@.skip(1)
        } else {
            t@
        };
        assert(self.data@ =~= old_data + body + crlf());
        if self.data.len() > self.size_limit {
            SessionAction::Abort(SessionError::MessageTooLarge)
        } else {
            SessionAction::Continue
        }
    }

    /// Handles one line received from the client (with its line ending).
    pub fn on_line(&mut self, line: &[u8]) -> (a: SessionAction)
        ensures
            (final(self)@, a@) == step_spec(old(self)@, line@),
    {
        if line.len() > self.max_line_len() {
            return SessionAction::Abort(SessionError::LineTooLong);
        }
        match self.phase {
            Phase::Command => {
                let text = trim_crlf(line);
                self.command_line(text.as_str())
            },
            Phase::AuthResponse => {
                self.phase = Phase::Command;
                let text = trim_crlf(line);
                self.evaluate_auth(text.as_str())
            },
            Phase::Data => {
                let t = trim_crlf_bytes(line);
                self.data_line(t)
            },
        }
    }

    /// Handles the client closing the connection.
    pub fn on_eof(&self) -> (a: SessionAction)
        ensures
            a@ == eof_spec(self@),
    {
        match self.phase {
            Phase::Data => SessionAction::Abort(SessionError::ClosedDuringData),
            _ => SessionAction::Close,
        }
    }

    /// Reports the end of a delivery: the transaction is reset and the client is told.
    pub fn delivery_finished(&mut self, outcome: DeliveryOutcome) -> (r: Vec<u8>)
        ensures
            final(self)@ == reset_spec(old(self)@),
            r@ == delivery_reply_spec(outcome),
            session_inv(old(self)@) && old(self)@.phase != Phase::Data ==> session_inv(final(self)@),
    {
        self.state.reset_transaction();
        assert(self.state.rcpt_to.deep_view() =~= Seq::<Seq<char>>::empty());
        match outcome {
            DeliveryOutcome::Relayed => reply(250, "message relayed"),
            DeliveryOutcome::RelayFailed => reply(554, "failed to relay message"),
            DeliveryOutcome::EncryptionFailed => reply(554, "failed to encrypt message"),
        }
    }
}

/// The reply text for a refused MAIL or RCPT argument.
fn path_error_string(e: &PathError, prefix: &str) -> (r: String)
    ensures
        r@ == path_error_text(*e, prefix@),
{
    match e {
        PathError::MissingKeyword => {
            let mut a = str_chars("expected ");
            let b = str_chars(prefix);
            let ghost p = a@;
            let mut i: usize = 0;
            while i < b.len()
                invariant
                    i <= b@.len(),
                    a@ == p + b@.take(i as int),
                decreases b@.len() - i,
            {
                a.push(b[i]);
                i = i + 1;
                assert(a@ =~= p + b@.take(i as int));
            }
            assert(b@.take(i as int) =~= b@);
            string_from_chars(&a)
        },
        PathError::UnterminatedPath => {
            let a = str_chars("unterminated address path");
            string_from_chars(&a)
        },
    }
}

/// Whether a client may connect, and the greeting or refusal it gets.
#[derive(Debug)]
pub enum ConnectionStart {
    /// The client is outside the allowed networks: send the reply and close.
    Refused(Vec<u8>),
    /// The client may proceed: send the greeting and run the session.
    Accepted(SmtpSession, Vec<u8>),
}

/// Opens a session for a client at `peer`, or refuses it with "554 access denied".
pub fn open_connection(listen: &ListenConfig, peer: &IpAddress) -> (r: ConnectionStart)
    requires
        all_wf(listen.allowed_networks@),
    ensures
        match r {
            ConnectionStart::Refused(b) => !is_allowed_spec(listen.allowed_networks@, *peer)
                && b@ == reply_spec(554, "access denied"@),
            ConnectionStart::Accepted(s, g) => is_allowed_spec(listen.allowed_networks@, *peer)
                && !s@.helo && !s@.authenticated && s@.mail_from is None && s@.rcpt_to.len() == 0
                && s@.phase == Phase::Command && s@.banner == listen.banner@ && s@.username
                == listen.auth.username@ && s@.password == listen.auth.password@
                && s@.size_limit == listen.message_size_limit_bytes && g@ == reply_spec(
                220,
                listen.banner@ + " ESMTP ready"@,
            ),
        },
{
    if !is_allowed_peer(&listen.allowed_networks, peer) {
        return ConnectionStart::Refused(reply(554, "access denied"));
    }
    let session = SmtpSession::new(listen);
    let greeting = session.greeting();
    ConnectionStart::Accepted(session, greeting)
}


/// What holds in every state of a session: a sender only after EHLO/HELO and
/// authentication, recipients only after a sender, DATA only with both, and AUTH's second
/// line only awaited after EHLO/HELO and before authentication.
pub open spec fn session_inv(v: SessionView) -> bool {
    &&& v.mail_from is Some ==> v.helo && v.authenticated
    &&& v.rcpt_to.len() > 0 ==> v.mail_from is Some
    &&& v.phase == Phase::Data ==> v.mail_from is Some && v.rcpt_to.len() > 0
    &&& v.phase == Phase::AuthResponse ==> v.helo && !v.authenticated
}

/// Every line keeps `session_inv`.
pub proof fn law_session_step_keeps_invariant(v: SessionView, line: Seq<u8>)
    requires
        session_inv(v),
    ensures
        session_inv(step_spec(v, line).0),
{
}

/// A message is handed over for delivery only from an authenticated session that named a
/// sender and at least one recipient, with exactly that envelope and the data received.
pub proof fn law_delivery_needs_authenticated_envelope(v: SessionView, line: Seq<u8>)
    requires
        session_inv(v),
    ensures
        step_spec(v, line).1 matches ActionView::Deliver(from, rcpts, data) ==> v.helo
            && v.authenticated && v.mail_from == Some(from) && rcpts == v.rcpt_to && rcpts.len()
            > 0 && data == v.data,
{
}

proof fn lemma_auth_evaluate_credentials(v: SessionView, response: Seq<char>)
    ensures
        !v.authenticated && auth_evaluate_spec(v, response).0.authenticated ==> auth_plain_spec(
            response,
        ) == Ok::<(Seq<char>, Seq<char>), AuthPlainError>((v.username, v.password)),
{
}

/// The AUTH PLAIN response that a line carries: the whole line while the session waits
/// for one, or the word after the mechanism of an AUTH command.
pub open spec fn auth_response_of(v: SessionView, line: Seq<u8>) -> Seq<char> {
    let text = lossy_utf8(trim_crlf_spec(line));
    match v.phase {
        Phase::AuthResponse => text,
        _ => first_token(after_first_token(argument_of(text))),
    }
}

/// A session becomes authenticated only by a line whose AUTH PLAIN response carries the
/// configured username and password; that line is answered "235 authentication successful".
pub proof fn law_authentication_needs_configured_credentials(v: SessionView, line: Seq<u8>)
    ensures
        !v.authenticated && step_spec(v, line).0.authenticated ==> auth_plain_spec(
            auth_response_of(v, line),
        ) == Ok::<(Seq<char>, Seq<char>), AuthPlainError>((v.username, v.password)) && step_spec(
            v,
            line,
        ).1 == ActionView::Reply(reply_spec(235, "authentication successful"@)),
{
    if !v.authenticated && step_spec(v, line).0.authenticated && line.len() <= max_line_spec(v) {
        let text = lossy_utf8(trim_crlf_spec(line));
        match v.phase {
            Phase::AuthResponse => {
                let w = SessionView { phase: Phase::Command, ..v };
                lemma_auth_evaluate_credentials(w, text);
            },
            Phase::Command => {
                let arg = argument_of(text);
                let response = first_token(after_first_token(arg));
                lemma_auth_evaluate_credentials(v, response);
            },
            Phase::Data => {},
        }
    }
}

/// The command words that come before RSET in the command table are other words.
proof fn lemma_command_words_differ()
    ensures
        "RSET"@ != "EHLO"@,
        "RSET"@ != "HELO"@,
        "RSET"@ != "AUTH"@,
        "RSET"@ != "MAIL"@,
        "RSET"@ != "RCPT"@,
        "RSET"@ != "DATA"@,
        "RCPT"@ != "EHLO"@,
        "RCPT"@ != "HELO"@,
        "RCPT"@ != "AUTH"@,
        "RCPT"@ != "MAIL"@,
        "DATA"@ != "EHLO"@,
        "DATA"@ != "HELO"@,
        "DATA"@ != "AUTH"@,
        "DATA"@ != "MAIL"@,
        "DATA"@ != "RCPT"@,
{
    reveal_strlit("RSET");
    reveal_strlit("EHLO");
    reveal_strlit("HELO");
    reveal_strlit("AUTH");
    reveal_strlit("MAIL");
    reveal_strlit("RCPT");
    reveal_strlit("DATA");
    assert("RSET"@[0] != "EHLO"@[0] && "RSET"@[0] != "HELO"@[0] && "RSET"@[0] != "AUTH"@[0]
        && "RSET"@[0] != "MAIL"@[0] && "RSET"@[1] != "RCPT"@[1] && "RSET"@[0] != "DATA"@[0]);
    assert("RCPT"@[0] != "EHLO"@[0] && "RCPT"@[0] != "HELO"@[0] && "RCPT"@[0] != "AUTH"@[0]
        && "RCPT"@[0] != "MAIL"@[0]);
    assert("DATA"@[0] != "EHLO"@[0] && "DATA"@[0] != "HELO"@[0] && "DATA"@[0] != "AUTH"@[0]
        && "DATA"@[0] != "MAIL"@[0] && "DATA"@[0] != "RCPT"@[0]);
}

/// RSET clears the transaction: after it the session holds no sender and no recipients,
/// answers "250 state reset", and keeps its greeting and authentication.
pub proof fn law_rset_clears_transaction(v: SessionView, line: Seq<u8>)
    requires
        v.phase == Phase::Command,
        line.len() <= max_line_spec(v),
        lossy_utf8(trim_crlf_spec(line)).len() > 0,
        command_of(lossy_utf8(trim_crlf_spec(line))) == "RSET"@,
    ensures
        step_spec(v, line).0.mail_from is None,
        step_spec(v, line).0.rcpt_to.len() == 0,
        step_spec(v, line).0.helo == v.helo,
        step_spec(v, line).0.authenticated == v.authenticated,
        step_spec(v, line).0.phase == Phase::Command,
        step_spec(v, line).0.size_limit == v.size_limit,
        step_spec(v, line).1 == ActionView::Reply(reply_spec(250, "state reset"@)),
{
    lemma_command_words_differ();
    assert(step_spec(v, line) == command_spec(v, lossy_utf8(trim_crlf_spec(line))));
}

/// Without a sender, RCPT is answered "503 need MAIL before RCPT" and DATA "503 need MAIL and
/// RCPT before DATA", and neither changes the session.
pub proof fn law_rcpt_and_data_need_mail(v: SessionView, line: Seq<u8>)
    requires
        v.phase == Phase::Command,
        v.mail_from is None,
        line.len() <= max_line_spec(v),
        lossy_utf8(trim_crlf_spec(line)).len() > 0,
    ensures
        command_of(lossy_utf8(trim_crlf_spec(line))) == "RCPT"@ ==> step_spec(v, line) == (
            v,
            ActionView::Reply(reply_spec(503, "need MAIL before RCPT"@)),
        ),
        command_of(lossy_utf8(trim_crlf_spec(line))) == "DATA"@ ==> step_spec(v, line) == (
            v,
            ActionView::Reply(reply_spec(503, "need MAIL and RCPT before DATA"@)),
        ),
{
    lemma_command_words_differ();
    assert(step_spec(v, line) == command_spec(v, lossy_utf8(trim_crlf_spec(line))));
}

/// After RSET, a RCPT gets "503 need MAIL before RCPT": the recipients of the cleared
/// transaction cannot be added to.
pub proof fn law_rcpt_after_rset(v: SessionView, rset: Seq<u8>, rcpt: Seq<u8>)
    requires
        v.phase == Phase::Command,
        rset.len() <= max_line_spec(v),
        lossy_utf8(trim_crlf_spec(rset)).len() > 0,
        command_of(lossy_utf8(trim_crlf_spec(rset))) == "RSET"@,
        rcpt.len() <= max_line_spec(v),
        lossy_utf8(trim_crlf_spec(rcpt)).len() > 0,
        command_of(lossy_utf8(trim_crlf_spec(rcpt))) == "RCPT"@,
    ensures
        step_spec(step_spec(v, rset).0, rcpt).1 == ActionView::Reply(
            reply_spec(503, "need MAIL before RCPT"@),
        ),
{
    law_rset_clears_transaction(v, rset);
    let w = step_spec(v, rset).0;
    assert(w.phase == Phase::Command);
    assert(max_line_spec(w) == max_line_spec(v));
    law_rcpt_and_data_need_mail(w, rcpt);
}

/// Before the session is authenticated, MAIL is answered 503 (no EHLO/HELO yet) or
/// "530 authentication required", and the session names no sender.
pub proof fn law_mail_needs_authentication(v: SessionView, line: Seq<u8>)
    requires
        session_inv(v),
        !v.authenticated,
        v.phase == Phase::Command,
        line.len() <= max_line_spec(v),
        lossy_utf8(trim_crlf_spec(line)).len() > 0,
        command_of(lossy_utf8(trim_crlf_spec(line))) == "MAIL"@,
    ensures
        step_spec(v, line).1 == ActionView::Reply(reply_spec(503, "send EHLO/HELO first"@))
            || step_spec(v, line).1 == ActionView::Reply(reply_spec(530, "authentication required"@)),
        step_spec(v, line).0.mail_from is None,
{
    let s = lossy_utf8(trim_crlf_spec(line));
    reveal_strlit("MAIL");
    reveal_strlit("EHLO");
    reveal_strlit("HELO");
    reveal_strlit("AUTH");
    assert("MAIL"@ != "EHLO"@ && "MAIL"@ != "HELO"@ && "MAIL"@ != "AUTH"@) by {
        assert("MAIL"@[0] != "EHLO"@[0] && "MAIL"@[0] != "HELO"@[0] && "MAIL"@[0] != "AUTH"@[0]);
    }
    assert(step_spec(v, line) == command_spec(v, s));
}

/// A line longer than the current limit, and only such a line, aborts the session with
/// `LineTooLong`.
pub proof fn law_line_limit(v: SessionView, line: Seq<u8>)
    ensures
        step_spec(v, line).1 == ActionView::Abort(SessionError::LineTooLong) <==> line.len()
            > max_line_spec(v),
{
}

/// Message data never grows past the size limit without aborting the session, so a
/// delivered message is never larger than the limit.
pub proof fn law_message_size_limit(v: SessionView, line: Seq<u8>)
    requires
        v.phase == Phase::Data ==> v.data.len() <= v.size_limit,
    ensures
        !(step_spec(v, line).1 is Abort) && step_spec(v, line).0.phase == Phase::Data ==> step_spec(
            v,
            line,
        ).0.data.len() <= step_spec(v, line).0.size_limit,
        step_spec(v, line).1 matches ActionView::Deliver(_, _, d) ==> d.len() <= v.size_limit,
{
}


/// A session stays authenticated once it is, and its configuration (banner, credentials,
/// size limit) never changes.
pub proof fn law_session_keeps_authentication_and_settings(v: SessionView, line: Seq<u8>)
    ensures
        v.authenticated ==> step_spec(v, line).0.authenticated,
        step_spec(v, line).0.banner == v.banner,
        step_spec(v, line).0.username == v.username,
        step_spec(v, line).0.password == v.password,
        step_spec(v, line).0.size_limit == v.size_limit,
{
}

/// The session after one line, and after the delivery that a `Deliver` action starts
/// (`delivery_finished` resets the transaction).
pub open spec fn session_after(v: SessionView, line: Seq<u8>) -> SessionView {
    let (w, a) = step_spec(v, line);
    if a is Deliver {
        reset_spec(w)
    } else {
        w
    }
}

/// The session after each of the lines in turn.
pub open spec fn run_spec(v: SessionView, lines: Seq<Seq<u8>>) -> SessionView
    decreases lines.len(),
{
    if lines.len() == 0 {
        v
    } else {
        session_after(run_spec(v, lines.drop_last()), lines.last())
    }
}

/// The action that line `i` gets, after the lines before it.
pub open spec fn action_at(v: SessionView, lines: Seq<Seq<u8>>, i: int) -> ActionView {
    step_spec(run_spec(v, lines.take(i)), lines[i]).1
}

proof fn lemma_run_step(v: SessionView, lines: Seq<Seq<u8>>, j: int)
    requires
        0 <= j < lines.len(),
    ensures
        run_spec(v, lines.take(j + 1)) == session_after(run_spec(v, lines.take(j)), lines[j]),
{
    assert(lines.take(j + 1).drop_last() =~= lines.take(j));
}

proof fn lemma_run_keeps_invariant(v: SessionView, lines: Seq<Seq<u8>>, k: int)
    requires
        session_inv(v),
        0 <= k <= lines.len(),
    ensures
        session_inv(run_spec(v, lines.take(k))),
        run_spec(v, lines.take(k)).username == v.username,
        run_spec(v, lines.take(k)).password == v.password,
    decreases k,
{
    if k == 0 {
        assert(lines.take(0) =~= Seq::<Seq<u8>>::empty());
    } else {
        lemma_run_keeps_invariant(v, lines, k - 1);
        lemma_run_step(v, lines, k - 1);
        let w = run_spec(v, lines.take(k - 1));
        law_session_step_keeps_invariant(w, lines[k - 1]);
        law_session_keeps_authentication_and_settings(w, lines[k - 1]);
    }
}

proof fn lemma_first_authentication(v: SessionView, lines: Seq<Seq<u8>>, k: int)
    requires
        !v.authenticated,
        0 <= k <= lines.len(),
        run_spec(v, lines.take(k)).authenticated,
    ensures
        exists|j: int|
            0 <= j < k && !run_spec(v, lines.take(j)).authenticated && (#[trigger] run_spec(
                v,
                lines.take(j + 1),
            )).authenticated,
    decreases k,
{
    if k == 0 {
        assert(lines.take(0) =~= Seq::<Seq<u8>>::empty());
    } else if run_spec(v, lines.take(k - 1)).authenticated {
        lemma_first_authentication(v, lines, k - 1);
        let j = choose|j: int|
            0 <= j < k - 1 && !run_spec(v, lines.take(j)).authenticated && (#[trigger] run_spec(
                v,
                lines.take(j + 1),
            )).authenticated;
        assert(run_spec(v, lines.take(j + 1)).authenticated);
    } else {
        assert(run_spec(v, lines.take(k - 1 + 1)).authenticated);
    }
}

/// In a session that starts unauthenticated, a line that hands a message over for delivery
/// comes after an earlier line on which the session became authenticated: that line was
/// answered "235 authentication successful" and carried an AUTH PLAIN response with the
/// configured username and password.
pub proof fn law_delivery_after_successful_authentication(
    v: SessionView,
    lines: Seq<Seq<u8>>,
    i: int,
)
    requires
        session_inv(v),
        !v.authenticated,
        0 <= i < lines.len(),
        action_at(v, lines, i) is Deliver,
    ensures
        exists|j: int|
            0 <= j < i && !run_spec(v, lines.take(j)).authenticated && #[trigger] action_at(
                v,
                lines,
                j,
            ) == ActionView::Reply(reply_spec(235, "authentication successful"@)) && auth_plain_spec(
                auth_response_of(run_spec(v, lines.take(j)), lines[j]),
            ) == Ok::<(Seq<char>, Seq<char>), AuthPlainError>((v.username, v.password)),
{
    lemma_run_keeps_invariant(v, lines, i);
    let w = run_spec(v, lines.take(i));
    law_delivery_needs_authenticated_envelope(w, lines[i]);
    lemma_first_authentication(v, lines, i);
    let j = choose|j: int|
        0 <= j < i && !run_spec(v, lines.take(j)).authenticated && (#[trigger] run_spec(
            v,
            lines.take(j + 1),
        )).authenticated;
    lemma_run_step(v, lines, j);
    lemma_run_keeps_invariant(v, lines, j);
    let u = run_spec(v, lines.take(j));
    assert(step_spec(u, lines[j]).0.authenticated);
    law_authentication_needs_configured_credentials(u, lines[j]);
    assert(action_at(v, lines, j) == ActionView::Reply(reply_spec(235, "authentication successful"@)));
}

proof fn lemma_read_data_grows(lines: Seq<Seq<u8>>, acc: Seq<u8>, m: Seq<u8>)
    requires
        read_data_lines(lines, acc) == Some(m),
    ensures
        acc.len() <= m.len(),
    decreases lines.len(),
{
    if lines.len() > 0 && trim_crlf_spec(lines[0]) != seq![DOT] {
        lemma_read_data_grows(
            lines.drop_first(),
            acc + unstuffed_line(trim_crlf_spec(lines[0])) + crlf(),
            m,
        );
    }
}

/// In the DATA phase, lines that `read_data_lines` reads as `m` (within the size limit, each
/// line within the line limit) lead to the delivery of `m` with the session's envelope.
pub proof fn lemma_data_lines_delivered(
    v: SessionView,
    lines: Seq<Seq<u8>>,
    k: int,
    acc: Seq<u8>,
    m: Seq<u8>,
)
    requires
        v.phase == Phase::Data,
        0 <= k <= lines.len(),
        run_spec(v, lines.take(k)) == (SessionView { data: acc, ..v }),
        read_data_lines(lines.skip(k), acc) == Some(m),
        m.len() <= v.size_limit,
        forall|j: int| 0 <= j < lines.len() ==> (#[trigger] lines[j]).len() <= max_line_spec(v),
    ensures
        exists|i: int|
            k <= i < lines.len() && #[trigger] action_at(v, lines, i) == ActionView::Deliver(
                match v.mail_from {
                    Some(f) => f,
                    None => Seq::empty(),
                },
                v.rcpt_to,
                m,
            ),
    decreases lines.len() - k,
{
    let rest = lines.skip(k);
    assert(rest.len() > 0);
    assert(rest[0] == lines[k]);
    let w = SessionView { data: acc, ..v };
    assert(max_line_spec(w) == max_line_spec(v));
    assert(lines[k].len() <= max_line_spec(v));
    let t = trim_crlf_spec(lines[k]);
    if t == seq![DOT] {
        assert(acc == m);
        assert(action_at(v, lines, k) == ActionView::Deliver(
            match v.mail_from {
                Some(f) => f,
                None => Seq::empty(),
            },
            v.rcpt_to,
            m,
        ));
    } else {
        let acc2 = acc + unstuffed_line(t) + crlf();
        assert(rest.drop_first() =~= lines.skip(k + 1));
        lemma_read_data_grows(lines.skip(k + 1), acc2, m);
        lemma_run_step(v, lines, k);
        assert(run_spec(v, lines.take(k + 1)) == (SessionView { data: acc2, ..v }));
        lemma_data_lines_delivered(v, lines, k + 1, acc2, m);
    }
}

} // verus!
