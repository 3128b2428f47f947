//! The relay to the remote SMTP server: reading its replies, its EHLO capabilities, the
//! AUTH payloads, and the client state machine that carries one message to it.
use vstd::prelude::*;
use vstd::utf8::decode_utf8;
use vstd::utf8::encode_utf8;
use vstd::utf8::is_char_boundary;

use crate::config::{RemoteAuthConfig, RemoteSmtpConfig, RemoteTlsMode};
use crate::listener::{auth_plain_spec, base64_decoded, base64_encode, base64_encoded, AuthPlainError};
use crate::listener::{read_data_lines, trim_crlf_spec, unstuffed_line};
use crate::listener::{
    action_at, lemma_data_lines_delivered, max_line_spec, run_spec, ActionView, Phase, SessionView,
};
use crate::message::{
    crlf, dot_stuff, dot_stuff_spec, ends_with_crlf, find_byte_from, is_crlf_normalized,
    law_normalize_crlf_normalizes, lines_from, lit, normalize_crlf_spec, split_lines, stuff_lines,
    RelayMessage, DOT, SP,
};
use crate::text::{
    chars_eq, copy_range, decimal, join_lines, join_strings, lemma_push_to_set, lossy_utf8,
    push_decimal, push_str, split_words, str_bytes, str_is, str_chars, string_from_chars, to_upper_chars,
    trim, trim_chars, trim_str, upper_chars, utf8_lossy, words, CR, LF,
};

verus! {

/// A reply of the remote server: its code and the text of each of its lines.
#[derive(Debug)]
pub struct SmtpResponse {
    pub code: u16,
    pub lines: Vec<String>,
}

impl View for SmtpResponse {
    type V = (u16, Seq<Seq<char>>);

    open spec fn view(&self) -> (u16, Seq<Seq<char>>) {
        (self.code, self.lines.deep_view())
    }
}

/// The separator between the lines of a reply in error messages.
pub open spec fn summary_spec(lines: Seq<Seq<char>>) -> Seq<char> {
    join_lines(lines, " | "@)
}

impl SmtpResponse {
    /// The reply's lines joined with " | ".
    pub fn summary(&self) -> (r: String)
        ensures
            r@ == summary_spec(self.lines.deep_view()),
    {
        join_strings(&self.lines, " | ")
    }
}

/// `s` without the CR and LF characters at its end.
pub open spec fn trim_line_end(s: Seq<char>) -> Seq<char>
    decreases s.len(),
{
    if s.len() > 0 && (s.last() == '\r' || s.last() == '\n') {
        trim_line_end(s.drop_last())
    } else {
        s
    }
}

/// The text of a received line: decoded as `String::from_utf8_lossy` decodes it, without
/// its line ending.
pub open spec fn response_line_text(raw: Seq<u8>) -> Seq<char> {
    trim_line_end(lossy_utf8(raw))
}

pub open spec fn is_digit(b: u8) -> bool {
    48 <= b <= 57
}

/// The reply code in the first three bytes of a line, read as `u16::from_str` reads three
/// bytes: three digits, or '+' and two digits.
pub open spec fn reply_code_spec(b: Seq<u8>) -> Option<u16>
    recommends
        b.len() >= 3,
{
    if is_digit(b[0]) && is_digit(b[1]) && is_digit(b[2]) {
        Some(((b[0] - 48) * 100 + (b[1] - 48) * 10 + (b[2] - 48)) as u16)
    } else if b[0] == 43 && is_digit(b[1]) && is_digit(b[2]) {
        Some(((b[1] - 48) * 10 + (b[2] - 48)) as u16)
    } else {
        None
    }
}

/// The byte after the code; a line of three bytes counts as a last line.
pub open spec fn separator_spec(b: Seq<u8>) -> u8 {
    if b.len() > 3 {
        b[3]
    } else {
        SP
    }
}

/// The text after the code and the separator, trimmed; empty when the line ends there or
/// its fifth byte falls inside a character.
pub open spec fn reply_text_spec(b: Seq<u8>) -> Seq<char> {
    if b.len() >= 4 && is_char_boundary(b, 4) {
        trim(decode_utf8(b.skip(4)))
    } else {
        Seq::empty()
    }
}

/// Why a reply of the remote server could not be read.
#[derive(Debug)]
pub enum ResponseError {
    /// A line shorter than three bytes.
    Short,
    /// A line that does not start with a reply code; holds the line.
    InvalidCode(String),
    /// The lines of a multiline reply carry different codes.
    MixedCodes,
    /// The code is followed by neither '-' nor ' '.
    MalformedSeparator,
}

pub ghost enum ResponseErrorView {
    Short,
    InvalidCode(Seq<char>),
    MixedCodes,
    MalformedSeparator,
}

impl View for ResponseError {
    type V = ResponseErrorView;

    open spec fn view(&self) -> ResponseErrorView {
        match self {
            ResponseError::Short => ResponseErrorView::Short,
            ResponseError::InvalidCode(l) => ResponseErrorView::InvalidCode(l@),
            ResponseError::MixedCodes => ResponseErrorView::MixedCodes,
            ResponseError::MalformedSeparator => ResponseErrorView::MalformedSeparator,
        }
    }
}

/// Where reading a reply stands after one more line.
#[derive(Debug)]
pub enum ReadProgress {
    /// A continuation line: read the next one.
    More,
    /// The last line: the whole reply.
    Complete(SmtpResponse),
    /// The reply cannot be read.
    Failed(ResponseError),
}

pub ghost enum ReadProgressView {
    More,
    Complete(u16, Seq<Seq<char>>),
    Failed(ResponseErrorView),
}

impl View for ReadProgress {
    type V = ReadProgressView;

    open spec fn view(&self) -> ReadProgressView {
        match self {
            ReadProgress::More => ReadProgressView::More,
            ReadProgress::Complete(r) => ReadProgressView::Complete(r.code, r.lines.deep_view()),
            ReadProgress::Failed(e) => ReadProgressView::Failed(e@),
        }
    }
}

/// Collects the lines of one (possibly multiline) reply.
#[derive(Debug)]
pub struct ResponseReader {
    pub code: Option<u16>,
    pub lines: Vec<String>,
}

impl View for ResponseReader {
    type V = (Option<u16>, Seq<Seq<char>>);

    open spec fn view(&self) -> (Option<u16>, Seq<Seq<char>>) {
        (self.code, self.lines.deep_view())
    }
}

/// One received line (with its line ending) added to a reply being read.
pub open spec fn feed_spec(st: (Option<u16>, Seq<Seq<char>>), raw: Seq<u8>) -> (
    (Option<u16>, Seq<Seq<char>>),
    ReadProgressView,
) {
    let text = response_line_text(raw);
    let b = encode_utf8(text);
    if b.len() < 3 {
        (st, ReadProgressView::Failed(ResponseErrorView::Short))
    } else if !is_char_boundary(b, 3) {
        (st, ReadProgressView::Failed(ResponseErrorView::InvalidCode(text)))
    } else {
        match reply_code_spec(b) {
            None => (st, ReadProgressView::Failed(ResponseErrorView::InvalidCode(text))),
            Some(c) => if st.0 matches Some(e) && e != c {
                (st, ReadProgressView::Failed(ResponseErrorView::MixedCodes))
            } else if separator_spec(b) == 45 {
                ((Some(c), st.1.push(reply_text_spec(b))), ReadProgressView::More)
            } else if separator_spec(b) == SP {
                (
                    (None, Seq::empty()),
                    ReadProgressView::Complete(c, st.1.push(reply_text_spec(b))),
                )
            } else {
                (st, ReadProgressView::Failed(ResponseErrorView::MalformedSeparator))
            },
        }
    }
}

/// The text of a received line (see `response_line_text`).
pub fn response_line(raw: &[u8]) -> (s: String)
    ensures
        s@ == response_line_text(raw@),
{
    let text = utf8_lossy(raw);
    let chars = str_chars(text.as_str());
    let mut k = chars.len();
    assert(chars@.take(k as int) =~= chars@);
    while k > 0 && (chars[k - 1] == '\r' || chars[k - 1] == '\n')
        invariant
            k <= chars@.len(),
            chars@ == lossy_utf8(raw@),
            trim_line_end(chars@) == trim_line_end(chars@.take(k as int)),
        decreases k,
    {
        assert(chars@.take(k as int).drop_last() =~= chars@.take(k - 1));
        k = k - 1;
    }
    let kept = copy_range(&chars, 0, k);
    assert(kept@ =~= chars@.take(k as int));
    string_from_chars(&kept)
}

fn parse_reply_code(b: &[u8]) -> (r: Option<u16>)
    requires
        b@.len() >= 3,
    ensures
        r == reply_code_spec(b@),
{
    let d0 = b[0];
    let d1 = b[1];
    let d2 = b[2];
    if 48 <= d1 && d1 <= 57 && 48 <= d2 && d2 <= 57 {
        let low = ((d1 - 48) as u16) * 10 + ((d2 - 48) as u16);
        if 48 <= d0 && d0 <= 57 {
            return Some(((d0 - 48) as u16) * 100 + low);
        }
        if d0 == 43 {
            return Some(low);
        }
    }
    None
}

fn reply_text(line: &str) -> (r: String)
    ensures
        r@ == reply_text_spec(encode_utf8(line@)),
{
    if line.as_bytes().len() >= 4 && line.is_char_boundary(4) {
        let (_, tail) = line.split_at(4);
        proof {
            vstd::utf8::encode_utf8_decode_utf8(tail@);
        }
        trim_str(tail)
    } else {
        String::new()
    }
}

impl ResponseReader {
    /// A reader for a new reply.
    pub fn new() -> (r: ResponseReader)
        ensures
            r@ == (None::<u16>, Seq::<Seq<char>>::empty()),
    {
        let r = ResponseReader { code: None, lines: Vec::new() };
        assert(r.lines.deep_view() =~= Seq::<Seq<char>>::empty());
        r
    }

    /// Adds one received line (with its line ending) to the reply.
    pub fn feed(&mut self, raw: &[u8]) -> (r: ReadProgress)
        ensures
            (final(self)@, r@) == feed_spec(old(self)@, raw@),
    {
        let line = response_line(raw);
        let b = str_bytes(line.as_str());
        if b.len() < 3 {
            return ReadProgress::Failed(ResponseError::Short);
        }
        if !line.is_char_boundary(3) {
            return ReadProgress::Failed(ResponseError::InvalidCode(line));
        }
        let code = match parse_reply_code(&b) {
            Some(c) => c,
            None => {
                return ReadProgress::Failed(ResponseError::InvalidCode(line));
            },
        };
        match self.code {
            Some(existing) => {
                if existing != code {
                    return ReadProgress::Failed(ResponseError::MixedCodes);
                }
            },
            None => {},
        }
        let separator = if b.len() > 3 {
            b[3]
        } else {
            SP
        };
        if separator != 45 && separator != SP {
            return ReadProgress::Failed(ResponseError::MalformedSeparator);
        }
        let text = reply_text(line.as_str());
        let ghost before = self.lines.deep_view();
        self.lines.push(text);
        assert(self.lines.deep_view() =~= before.push(text@));
        if separator == 45 {
            self.code = Some(code);
            ReadProgress::More
        } else {
            let mut lines: Vec<String> = Vec::new();
            std::mem::swap(&mut lines, &mut self.lines);
            self.code = None;
            assert(self.lines.deep_view() =~= Seq::<Seq<char>>::empty());
            ReadProgress::Complete(SmtpResponse { code, lines })
        }
    }
}

/// What the server offers in its EHLO reply: STARTTLS, and the AUTH mechanisms.
#[derive(Debug)]
pub struct ServerCapabilities {
    pub starttls: bool,
    pub auth_mechanisms: Vec<String>,
}

impl View for ServerCapabilities {
    type V = (bool, Set<Seq<char>>);

    open spec fn view(&self) -> (bool, Set<Seq<char>>) {
        (self.starttls, self.auth_mechanisms.deep_view().to_set())
    }
}

/// What one line of an EHLO reply adds (compared in ASCII upper case): "STARTTLS", the
/// mechanisms after "AUTH ", or the one after "AUTH=".
pub open spec fn caps_after_line(c: (bool, Set<Seq<char>>), line: Seq<char>) -> (
    bool,
    Set<Seq<char>>,
) {
    let upper = upper_chars(line);
    if upper == "STARTTLS"@ {
        (true, c.1)
    } else if upper.len() >= 5 && upper.take(5) == "AUTH "@ {
        (c.0, c.1 + words(upper.skip(5)).to_set())
    } else if upper.len() >= 5 && upper.take(5) == "AUTH="@ {
        (c.0, c.1.insert(trim(upper.skip(5))))
    } else {
        c
    }
}

/// The capabilities that an EHLO reply's lines announce.
pub open spec fn caps_spec(lines: Seq<Seq<char>>) -> (bool, Set<Seq<char>>)
    decreases lines.len(),
{
    if lines.len() == 0 {
        (false, Set::empty())
    } else {
        caps_after_line(caps_spec(lines.drop_last()), lines.last())
    }
}

/// The name of an AUTH mechanism.
#[derive(Debug, Clone, Copy, PartialEq, Eq, Structural)]
pub enum AuthKind {
    Plain,
    OauthBearer,
    Xoauth2,
}

pub open spec fn mechanism_name(k: AuthKind) -> Seq<char> {
    match k {
        AuthKind::Plain => "PLAIN"@,
        AuthKind::OauthBearer => "OAUTHBEARER"@,
        AuthKind::Xoauth2 => "XOAUTH2"@,
    }
}

/// The mechanism's name as sent with AUTH.
pub fn mechanism_str(k: AuthKind) -> (r: &'static str)
    ensures
        r@ == mechanism_name(k),
{
    match k {
        AuthKind::Plain => "PLAIN",
        AuthKind::OauthBearer => "OAUTHBEARER",
        AuthKind::Xoauth2 => "XOAUTH2",
    }
}

fn add_words(mechs: &mut Vec<String>, ws: &Vec<Vec<char>>)
    ensures
        final(mechs).deep_view().to_set() == old(mechs).deep_view().to_set() + ws.deep_view().to_set(),
{
    let ghost start = mechs.deep_view().to_set();
    let ghost all = ws.deep_view();
    let mut j: usize = 0;
    assert(all.take(0).to_set() =~= Set::<Seq<char>>::empty());
    while j < ws.len()
        invariant
            j <= ws@.len(),
            all == ws.deep_view(),
            mechs.deep_view().to_set() == start + all.take(j as int).to_set(),
        decreases ws@.len() - j,
    {
        let m = string_from_chars(ws[j].as_slice());
        let ghost before = mechs.deep_view();
        assert(m@ == all[j as int]);
        mechs.push(m);
        assert(mechs.deep_view() =~= before.push(m@));
        proof {
            lemma_push_to_set(before, m@);
            assert(all.take(j as int + 1) =~= all.take(j as int).push(all[j as int]));
            lemma_push_to_set(all.take(j as int), all[j as int]);
        }
        j = j + 1;
        assert(mechs.deep_view().to_set() =~= start + all.take(j as int).to_set());
    }
    assert(all.take(j as int) =~= all);
}

impl ServerCapabilities {
    /// Reads the capabilities from an EHLO reply.
    pub fn from_ehlo(response: &SmtpResponse) -> (c: ServerCapabilities)
        ensures
            c@ == caps_spec(response.lines.deep_view()),
    {
        let ghost lines = response.lines.deep_view();
        let mut starttls = false;
        let mut mechs: Vec<String> = Vec::new();
        let mut i: usize = 0;
        assert(lines.take(0) =~= Seq::<Seq<char>>::empty());
        assert(mechs.deep_view().to_set() =~= Set::<Seq<char>>::empty());
        while i < response.lines.len()
            invariant
                i <= response.lines@.len(),
                lines == response.lines.deep_view(),
                (starttls, mechs.deep_view().to_set()) == caps_spec(lines.take(i as int)),
            decreases response.lines@.len() - i,
        {
            let chars = str_chars(response.lines[i].as_str());
            assert(chars@ == lines[i as int]);
            let upper = to_upper_chars(&chars);
            let ghost before = mechs.deep_view().to_set();
            let starttls_word = str_chars("STARTTLS");
            let auth_space = str_chars("AUTH ");
            let auth_equals = str_chars("AUTH=");
            if chars_eq(&upper, &starttls_word) {
                starttls = true;
            } else if upper.len() >= 5 && chars_eq(&copy_range(&upper, 0, 5), &auth_space) {
                let rest = copy_range(&upper, 5, upper.len());
                assert(rest@ =~= upper@.skip(5));
                let ws = split_words(&rest);
                add_words(&mut mechs, &ws);
            } else if upper.len() >= 5 && chars_eq(&copy_range(&upper, 0, 5), &auth_equals) {
                let rest = copy_range(&upper, 5, upper.len());
                assert(rest@ =~= upper@.skip(5));
                let t = trim_chars(&rest);
                let m = string_from_chars(&t);
                let ghost seq_before = mechs.deep_view();
                mechs.push(m);
                assert(mechs.deep_view() =~= seq_before.push(m@));
                proof {
                    lemma_push_to_set(seq_before, m@);
                }
            }
            proof {
                assert(lines.take(i as int + 1).drop_last() =~= lines.take(i as int));
                assert(upper@.take(5) =~= upper@.subrange(0, 5));
            }
            i = i + 1;
        }
        assert(lines.take(i as int) =~= lines);
        ServerCapabilities { starttls, auth_mechanisms: mechs }
    }

    /// Whether the server offers the mechanism.
    pub fn advertises(&self, mechanism: &str) -> (r: bool)
        ensures
            r == self@.1.contains(mechanism@),
    {
        let ghost ms = self.auth_mechanisms.deep_view();
        let mut i: usize = 0;
        while i < self.auth_mechanisms.len()
            invariant
                i <= self.auth_mechanisms@.len(),
                ms == self.auth_mechanisms.deep_view(),
                forall|j: int| 0 <= j < i ==> ms[j] != mechanism@,
            decreases self.auth_mechanisms@.len() - i,
        {
            if str_is(self.auth_mechanisms[i].as_str(), mechanism) {
                assert(ms[i as int] == mechanism@);
                return true;
            }
            i = i + 1;
        }
        false
    }

    /// Succeeds when the server offers the mechanism.
    pub fn require_mechanism(&self, kind: AuthKind) -> (r: Result<(), RelayError>)
        ensures
            r is Ok <==> self@.1.contains(mechanism_name(kind)),
            r matches Err(e) ==> e@ == RelayErrorView::MechanismNotAdvertised(kind),
    {
        if self.advertises(mechanism_str(kind)) {
            Ok(())
        } else {
            Err(RelayError::MechanismNotAdvertised(kind))
        }
    }
}


/// Where the relay of one message stands.
#[derive(Debug, Clone, Copy, PartialEq, Eq, Structural)]
pub enum RelayStage {
    /// Waiting for the TLS handshake of an SMTPS connection.
    Handshake,
    /// Waiting for the server's greeting.
    Greeting,
    /// EHLO sent.
    Ehlo,
    /// STARTTLS sent.
    StartTls,
    /// Waiting for the TLS handshake after STARTTLS.
    Upgrade,
    /// AUTH with the mechanism sent.
    AuthStart,
    /// The AUTH payload (the credentials) sent.
    AuthPayload,
    /// MAIL FROM sent.
    MailFrom,
    /// RCPT TO sent for the recipient with this index.
    Rcpt(usize),
    /// DATA sent.
    Data,
    /// The message data sent.
    DataEnd,
    /// Finished, successfully or not.
    Done,
}

/// Why relaying a message failed.
#[derive(Debug)]
pub enum RelayError {
    /// The server answered a step with a code that the step does not accept.
    Rejected { stage: RelayStage, code: u16, summary: String },
    /// A plain connection whose server does not offer STARTTLS.
    StartTlsNotAdvertised,
    /// The server does not offer the configured AUTH mechanism.
    MechanismNotAdvertised(AuthKind),
    /// OAUTHBEARER or XOAUTH2 authentication was refused; holds the reply's summary.
    AuthFailed { kind: AuthKind, summary: String },
}

pub ghost enum RelayErrorView {
    Rejected(RelayStage, u16, Seq<char>),
    StartTlsNotAdvertised,
    MechanismNotAdvertised(AuthKind),
    AuthFailed(AuthKind, Seq<char>),
}

impl View for RelayError {
    type V = RelayErrorView;

    open spec fn view(&self) -> RelayErrorView {
        match self {
            RelayError::Rejected { stage, code, summary } => RelayErrorView::Rejected(
                *stage,
                *code,
                summary@,
            ),
            RelayError::StartTlsNotAdvertised => RelayErrorView::StartTlsNotAdvertised,
            RelayError::MechanismNotAdvertised(k) => RelayErrorView::MechanismNotAdvertised(*k),
            RelayError::AuthFailed { kind, summary } => RelayErrorView::AuthFailed(*kind, summary@),
        }
    }
}

pub open spec fn result_view(r: Result<(), RelayError>) -> Result<(), RelayErrorView> {
    match r {
        Ok(()) => Ok(()),
        Err(e) => Err(e@),
    }
}

/// What the connection driver does next for the relay.
#[derive(Debug)]
pub enum RelayAction {
    /// Perform the TLS handshake on the connection, then call `on_tls_ready`.
    Handshake,
    /// Read a reply, then call `on_response` with it.
    Read,
    /// Write the bytes, read a reply, then call `on_response` with it.
    Send(Vec<u8>),
    /// Write the bytes and read a reply whatever happens, then end with the result.
    SendThenFinish(Vec<u8>, Result<(), RelayError>),
    /// End with the result.
    Finish(Result<(), RelayError>),
}

pub ghost enum RelayActionView {
    Handshake,
    Read,
    Send(Seq<u8>),
    SendThenFinish(Seq<u8>, Result<(), RelayErrorView>),
    Finish(Result<(), RelayErrorView>),
}

impl View for RelayAction {
    type V = RelayActionView;

    open spec fn view(&self) -> RelayActionView {
        match self {
            RelayAction::Handshake => RelayActionView::Handshake,
            RelayAction::Read => RelayActionView::Read,
            RelayAction::Send(b) => RelayActionView::Send(b@),
            RelayAction::SendThenFinish(b, r) => RelayActionView::SendThenFinish(
                b@,
                result_view(*r),
            ),
            RelayAction::Finish(r) => RelayActionView::Finish(result_view(*r)),
        }
    }
}

/// The mechanism that the configured credentials use.
pub open spec fn auth_kind_spec(auth: RemoteAuthConfig) -> AuthKind {
    match auth {
        RemoteAuthConfig::Plain { .. } => AuthKind::Plain,
        RemoteAuthConfig::Oauthbearer { .. } => AuthKind::OauthBearer,
        RemoteAuthConfig::Xoauth2 { .. } => AuthKind::Xoauth2,
    }
}

/// The AUTH payload before base64: "\0user\0password" for PLAIN (RFC 4616), the GS2 header
/// and key/value pairs for OAUTHBEARER (RFC 7628), "user=..\x01auth=Bearer ..\x01\x01" for
/// XOAUTH2.
pub open spec fn auth_payload_spec(auth: RemoteAuthConfig, host: Seq<char>, port: u16) -> Seq<u8> {
    match auth {
        RemoteAuthConfig::Plain { username, password } => seq![0u8] + encode_utf8(username@)
            + seq![0u8] + encode_utf8(password@),
        RemoteAuthConfig::Oauthbearer { username, access_token, authzid } => lit("n,a=")
            + encode_utf8(
            match authzid {
                Some(a) => a@,
                None => username@,
            },
        ) + lit(",") + seq![1u8] + lit("host=") + encode_utf8(host) + seq![1u8] + lit("port=")
            + decimal(port as nat) + seq![1u8] + lit("auth=Bearer ") + encode_utf8(access_token@)
            + seq![1u8, 1u8],
        RemoteAuthConfig::Xoauth2 { username, access_token } => lit("user=") + encode_utf8(
            username@,
        ) + seq![1u8] + lit("auth=Bearer ") + encode_utf8(access_token@) + seq![1u8, 1u8],
    }
}

/// Builds the AUTH payload (before base64) for the configured credentials.
pub fn auth_payload(config: &RemoteSmtpConfig) -> (r: Vec<u8>)
    ensures
        r@ == auth_payload_spec(config.auth, config.host@, config.port),
{
    let mut out: Vec<u8> = Vec::new();
    match &config.auth {
        RemoteAuthConfig::Plain { username, password } => {
            out.push(0);
            push_str(&mut out, username.as_str());
            out.push(0);
            push_str(&mut out, password.as_str());
        },
        RemoteAuthConfig::Oauthbearer { username, access_token, authzid } => {
            push_str(&mut out, "n,a=");
            match authzid {
                Some(a) => push_str(&mut out, a.as_str()),
                None => push_str(&mut out, username.as_str()),
            }
            push_str(&mut out, ",");
            out.push(1);
            push_str(&mut out, "host=");
            push_str(&mut out, config.host.as_str());
            out.push(1);
            push_str(&mut out, "port=");
            push_decimal(&mut out, config.port as u64);
            out.push(1);
            push_str(&mut out, "auth=Bearer ");
            push_str(&mut out, access_token.as_str());
            out.push(1);
            out.push(1);
        },
        RemoteAuthConfig::Xoauth2 { username, access_token } => {
            push_str(&mut out, "user=");
            push_str(&mut out, username.as_str());
            out.push(1);
            push_str(&mut out, "auth=Bearer ");
            push_str(&mut out, access_token.as_str());
            out.push(1);
            out.push(1);
        },
    }
    assert(out@ =~= auth_payload_spec(config.auth, config.host@, config.port));
    out
}

/// A command line: the text and CRLF.
pub open spec fn command_spec(text: Seq<u8>) -> Seq<u8> {
    text + crlf()
}

pub open spec fn ehlo_command(hello: Seq<char>) -> Seq<u8> {
    command_spec(lit("EHLO ") + encode_utf8(hello))
}

pub open spec fn auth_command(k: AuthKind) -> Seq<u8> {
    command_spec(lit("AUTH ") + encode_utf8(mechanism_name(k)))
}

/// MAIL FROM with the sender in angle brackets; the null sender "<>" for an empty one.
pub open spec fn mail_command(from: Seq<char>) -> Seq<u8> {
    if from.len() == 0 {
        command_spec(lit("MAIL FROM:<>"))
    } else {
        command_spec(lit("MAIL FROM:<") + encode_utf8(from) + lit(">"))
    }
}

pub open spec fn rcpt_command(to: Seq<char>) -> Seq<u8> {
    command_spec(lit("RCPT TO:<") + encode_utf8(to) + lit(">"))
}

/// The message data as sent after DATA: dot-stuffed, then the terminating ".\r\n".
pub open spec fn data_transfer(data: Seq<u8>) -> Seq<u8> {
    dot_stuff_spec(data) + lit(".\r\n")
}

fn command_bytes(text: &str) -> (r: Vec<u8>)
    ensures
        r@ == command_spec(encode_utf8(text@)),
{
    let mut out: Vec<u8> = Vec::new();
    push_str(&mut out, text);
    out.push(CR);
    out.push(LF);
    assert(out@ =~= command_spec(encode_utf8(text@)));
    out
}

/// The mathematical value of a relay session.
pub ghost struct RelayView {
    pub mode: RemoteTlsMode,
    pub hello: Seq<char>,
    pub kind: AuthKind,
    pub payload: Seq<char>,
    pub mail_from: Seq<char>,
    pub rcpt: Seq<Seq<char>>,
    pub data: Seq<u8>,
    pub stage: RelayStage,
    pub tls: bool,
}

/// The relay of one message to the remote server.
#[derive(Debug)]
pub struct RelaySession {
    pub mode: RemoteTlsMode,
    pub hello_name: String,
    pub kind: AuthKind,
    /// The base64 AUTH payload.
    pub payload: String,
    pub mail_from: String,
    pub rcpt_to: Vec<String>,
    pub data: Vec<u8>,
    pub stage: RelayStage,
    /// The connection is protected by TLS.
    pub tls: bool,
}

impl View for RelaySession {
    type V = RelayView;

    open spec fn view(&self) -> RelayView {
        RelayView {
            mode: self.mode,
            hello: self.hello_name@,
            kind: self.kind,
            payload: self.payload@,
            mail_from: self.mail_from@,
            rcpt: self.rcpt_to.deep_view(),
            data: self.data@,
            stage: self.stage,
            tls: self.tls,
        }
    }
}

/// The stages in which the relay waits for a reply.
pub open spec fn awaits_reply(stage: RelayStage) -> bool {
    match stage {
        RelayStage::Handshake | RelayStage::Upgrade | RelayStage::Done => false,
        _ => true,
    }
}

/// The reply codes that let each stage go on.
pub open spec fn accepted_code(stage: RelayStage, code: u16) -> bool {
    match stage {
        RelayStage::Greeting => code == 220,
        RelayStage::Ehlo => code == 250,
        RelayStage::StartTls => code == 220,
        RelayStage::AuthStart => code == 334,
        RelayStage::AuthPayload => code == 235,
        RelayStage::MailFrom => code == 250,
        RelayStage::Rcpt(_) => code == 250 || code == 251,
        RelayStage::Data => code == 354,
        RelayStage::DataEnd => code == 250,
        _ => false,
    }
}

/// The session as it starts for a configuration and a message.
pub open spec fn relay_start_spec(config: RemoteSmtpConfig, message: RelayMessage) -> RelayView {
    RelayView {
        mode: config.tls_mode,
        hello: config.hello_name@,
        kind: auth_kind_spec(config.auth),
        payload: base64_encoded(auth_payload_spec(config.auth, config.host@, config.port)),
        mail_from: message.envelope.mail_from@,
        rcpt: message.envelope.rcpt_to.deep_view(),
        data: message.data@,
        stage: match config.tls_mode {
            RemoteTlsMode::Wrapper => RelayStage::Handshake,
            RemoteTlsMode::Starttls => RelayStage::Greeting,
        },
        tls: false,
    }
}

pub open spec fn relay_start_action(mode: RemoteTlsMode) -> RelayActionView {
    match mode {
        RemoteTlsMode::Wrapper => RelayActionView::Handshake,
        RemoteTlsMode::Starttls => RelayActionView::Read,
    }
}

pub open spec fn finish_with(v: RelayView, e: RelayErrorView) -> (RelayView, RelayActionView) {
    (RelayView { stage: RelayStage::Done, ..v }, RelayActionView::Finish(Err(e)))
}

pub open spec fn send_in(v: RelayView, stage: RelayStage, bytes: Seq<u8>) -> (
    RelayView,
    RelayActionView,
) {
    (RelayView { stage, ..v }, RelayActionView::Send(bytes))
}

/// RCPT TO for the recipient `i`, or DATA after the last one.
pub open spec fn next_recipient(v: RelayView, i: int) -> (RelayView, RelayActionView) {
    if 0 <= i < v.rcpt.len() {
        send_in(v, RelayStage::Rcpt(i as usize), rcpt_command(v.rcpt[i]))
    } else {
        send_in(v, RelayStage::Data, command_spec(lit("DATA")))
    }
}

/// The relay's response to the server's reply (code and lines) in the current stage.
pub open spec fn relay_step_spec(v: RelayView, code: u16, lines: Seq<Seq<char>>) -> (
    RelayView,
    RelayActionView,
) {
    let rejected = RelayErrorView::Rejected(v.stage, code, summary_spec(lines));
    if !accepted_code(v.stage, code) {
        match v.stage {
            RelayStage::AuthPayload => match v.kind {
                AuthKind::Plain => finish_with(v, rejected),
                AuthKind::OauthBearer => if code == 334 {
                    (
                        RelayView { stage: RelayStage::Done, ..v },
                        RelayActionView::SendThenFinish(
                            command_spec(lit("AQ==")),
                            Err(RelayErrorView::AuthFailed(v.kind, summary_spec(lines))),
                        ),
                    )
                } else {
                    finish_with(v, RelayErrorView::AuthFailed(v.kind, summary_spec(lines)))
                },
                AuthKind::Xoauth2 => if code == 334 {
                    (
                        RelayView { stage: RelayStage::Done, ..v },
                        RelayActionView::SendThenFinish(
                            command_spec(Seq::empty()),
                            Err(RelayErrorView::AuthFailed(v.kind, summary_spec(lines))),
                        ),
                    )
                } else {
                    finish_with(v, RelayErrorView::AuthFailed(v.kind, summary_spec(lines)))
                },
            },
            _ => finish_with(v, rejected),
        }
    } else {
        match v.stage {
            RelayStage::Greeting => send_in(v, RelayStage::Ehlo, ehlo_command(v.hello)),
            RelayStage::Ehlo => {
                let caps = caps_spec(lines);
                if !v.tls {
                    if !caps.0 {
                        finish_with(v, RelayErrorView::StartTlsNotAdvertised)
                    } else {
                        send_in(v, RelayStage::StartTls, command_spec(lit("STARTTLS")))
                    }
                } else if !caps.1.contains(mechanism_name(v.kind)) {
                    finish_with(v, RelayErrorView::MechanismNotAdvertised(v.kind))
                } else {
                    send_in(v, RelayStage::AuthStart, auth_command(v.kind))
                }
            },
            RelayStage::StartTls => (
                RelayView { stage: RelayStage::Upgrade, ..v },
                RelayActionView::Handshake,
            ),
            RelayStage::AuthStart => send_in(
                v,
                RelayStage::AuthPayload,
                command_spec(encode_utf8(v.payload)),
            ),
            RelayStage::AuthPayload => send_in(v, RelayStage::MailFrom, mail_command(v.mail_from)),
            RelayStage::MailFrom => next_recipient(v, 0),
            RelayStage::Rcpt(i) => next_recipient(v, i + 1),
            RelayStage::Data => send_in(v, RelayStage::DataEnd, data_transfer(v.data)),
            RelayStage::DataEnd => (
                RelayView { stage: RelayStage::Done, ..v },
                RelayActionView::SendThenFinish(command_spec(lit("QUIT")), Ok(())),
            ),
            _ => (v, RelayActionView::Read),
        }
    }
}

/// The relay's response to a finished TLS handshake.
pub open spec fn tls_ready_spec(v: RelayView) -> (RelayView, RelayActionView) {
    match v.stage {
        RelayStage::Handshake => (
            RelayView { stage: RelayStage::Greeting, tls: true, ..v },
            RelayActionView::Read,
        ),
        _ => (
            RelayView { stage: RelayStage::Ehlo, tls: true, ..v },
            RelayActionView::Send(ehlo_command(v.hello)),
        ),
    }
}

impl RelaySession {
    /// Starts relaying `message` to the configured server, with the first action.
    pub fn start(config: &RemoteSmtpConfig, message: RelayMessage) -> (r: (RelaySession, RelayAction))
        ensures
            r.0@ == relay_start_spec(*config, message),
            r.1@ == relay_start_action(config.tls_mode),
            relay_inv(r.0@),
            plain_credentials_carried(config.auth) ==> auth_plain_spec(r.0@.payload) == Ok::<
                (Seq<char>, Seq<char>),
                AuthPlainError,
            >(plain_credentials(config.auth)),
    {
        let data = auth_payload(config);
        let payload = base64_encode(&data);
        proof {
            if plain_credentials_carried(config.auth) {
                lemma_plain_payload_decodes(config.auth, config.host@, config.port, payload@);
            }
        }
        let kind = match &config.auth {
            RemoteAuthConfig::Plain { .. } => AuthKind::Plain,
            RemoteAuthConfig::Oauthbearer { .. } => AuthKind::OauthBearer,
            RemoteAuthConfig::Xoauth2 { .. } => AuthKind::Xoauth2,
        };
        let (stage, action) = match config.tls_mode {
            RemoteTlsMode::Wrapper => (RelayStage::Handshake, RelayAction::Handshake),
            RemoteTlsMode::Starttls => (RelayStage::Greeting, RelayAction::Read),
        };
        let RelayMessage { envelope, data: body } = message;
        let recipients: usize = envelope.rcpt_to.len();
        assert(envelope.rcpt_to.deep_view().len() == recipients);
        let session = RelaySession {
            mode: config.tls_mode,
            hello_name: config.hello_name.clone(),
            kind,
            payload,
            mail_from: envelope.mail_from,
            rcpt_to: envelope.rcpt_to,
            data: body,
            stage,
            tls: false,
        };
        (session, action)
    }

    fn finish(&mut self, e: RelayError) -> (a: RelayAction)
        ensures
            (final(self)@, a@) == finish_with(old(self)@, e@),
    {
        self.stage = RelayStage::Done;
        RelayAction::Finish(Err(e))
    }

    fn send_in(&mut self, stage: RelayStage, bytes: Vec<u8>) -> (a: RelayAction)
        ensures
            (final(self)@, a@) == send_in(old(self)@, stage, bytes@),
    {
        self.stage = stage;
        RelayAction::Send(bytes)
    }

    fn next_recipient(&mut self, i: usize) -> (a: RelayAction)
        ensures
            (final(self)@, a@) == next_recipient(old(self)@, i as int),
    {
        if i < self.rcpt_to.len() {
            let mut out: Vec<u8> = Vec::new();
            push_str(&mut out, "RCPT TO:<");
            push_str(&mut out, self.rcpt_to[i].as_str());
            push_str(&mut out, ">");
            out.push(CR);
            out.push(LF);
            assert(out@ =~= rcpt_command(self.rcpt_to.deep_view()[i as int]));
            self.send_in(RelayStage::Rcpt(i), out)
        } else {
            self.send_in(RelayStage::Data, command_bytes("DATA"))
        }
    }

    fn mail_bytes(&self) -> (r: Vec<u8>)
        ensures
            r@ == mail_command(self.mail_from@),
    {
        if self.mail_from.as_str().is_empty() {
            command_bytes("MAIL FROM:<>")
        } else {
            let mut out: Vec<u8> = Vec::new();
            push_str(&mut out, "MAIL FROM:<");
            push_str(&mut out, self.mail_from.as_str());
            push_str(&mut out, ">");
            out.push(CR);
            out.push(LF);
            assert(out@ =~= mail_command(self.mail_from@));
            out
        }
    }

    fn ehlo_bytes(&self) -> (r: Vec<u8>)
        ensures
            r@ == ehlo_command(self.hello_name@),
    {
        let mut out: Vec<u8> = Vec::new();
        push_str(&mut out, "EHLO ");
        push_str(&mut out, self.hello_name.as_str());
        out.push(CR);
        out.push(LF);
        assert(out@ =~= ehlo_command(self.hello_name@));
        out
    }

    /// Goes on after the TLS handshake that the last action asked for.
    pub fn on_tls_ready(&mut self) -> (a: RelayAction)
        requires
            old(self)@.stage == RelayStage::Handshake || old(self)@.stage == RelayStage::Upgrade,
        ensures
            (final(self)@, a@) == tls_ready_spec(old(self)@),
    {
        self.tls = true;
        match self.stage {
            RelayStage::Handshake => {
                self.stage = RelayStage::Greeting;
                RelayAction::Read
            },
            _ => {
                self.stage = RelayStage::Ehlo;
                RelayAction::Send(self.ehlo_bytes())
            },
        }
    }

    /// Goes on after the server's reply to the last action.
    pub fn on_response(&mut self, response: &SmtpResponse) -> (a: RelayAction)
        requires
            awaits_reply(old(self)@.stage),
        ensures
            (final(self)@, a@) == relay_step_spec(old(self)@, response.code, response.lines.deep_view()),
    {
        let code = response.code;
        let accepted = match self.stage {
            RelayStage::Greeting => code == 220,
            RelayStage::Ehlo => code == 250,
            RelayStage::StartTls => code == 220,
            RelayStage::AuthStart => code == 334,
            RelayStage::AuthPayload => code == 235,
            RelayStage::MailFrom => code == 250,
            RelayStage::Rcpt(_) => code == 250 || code == 251,
            RelayStage::Data => code == 354,
            RelayStage::DataEnd => code == 250,
            _ => false,
        };
        if !accepted {
            let summary = response.summary();
            if self.stage == RelayStage::AuthPayload && self.kind != AuthKind::Plain {
                let kind = self.kind;
                self.stage = RelayStage::Done;
                let error = RelayError::AuthFailed { kind, summary };
                if code == 334 {
                    let line = match kind {
                        AuthKind::Xoauth2 => {
                            let mut empty: Vec<u8> = Vec::new();
                            empty.push(CR);
                            empty.push(LF);
                            assert(empty@ =~= command_spec(Seq::empty()));
                            empty
                        },
                        _ => command_bytes("AQ=="),
                    };
                    return RelayAction::SendThenFinish(line, Err(error));
                }
                return RelayAction::Finish(Err(error));
            }
            let stage = self.stage;
            return self.finish(RelayError::Rejected { stage, code, summary });
        }
        match self.stage {
            RelayStage::Greeting => {
                let bytes = self.ehlo_bytes();
                self.send_in(RelayStage::Ehlo, bytes)
            },
            RelayStage::Ehlo => {
                let caps = ServerCapabilities::from_ehlo(response);
                if !self.tls {
                    if !caps.starttls {
                        self.finish(RelayError::StartTlsNotAdvertised)
                    } else {
                        self.send_in(RelayStage::StartTls, command_bytes("STARTTLS"))
                    }
                } else {
                    match caps.require_mechanism(self.kind) {
                        Err(e) => self.finish(e),
                        Ok(()) => {
                            let mut out: Vec<u8> = Vec::new();
                            push_str(&mut out, "AUTH ");
                            push_str(&mut out, mechanism_str(self.kind));
                            out.push(CR);
                            out.push(LF);
                            assert(out@ =~= auth_command(self.kind));
                            self.send_in(RelayStage::AuthStart, out)
                        },
                    }
                }
            },
            RelayStage::StartTls => {
                self.stage = RelayStage::Upgrade;
                RelayAction::Handshake
            },
            RelayStage::AuthStart => {
                let bytes = command_bytes(self.payload.as_str());
                self.send_in(RelayStage::AuthPayload, bytes)
            },
            RelayStage::AuthPayload => {
                let bytes = self.mail_bytes();
                self.send_in(RelayStage::MailFrom, bytes)
            },
            RelayStage::MailFrom => self.next_recipient(0),
            RelayStage::Rcpt(i) => {
                if i < self.rcpt_to.len() {
                    self.next_recipient(i + 1)
                } else {
                    self.send_in(RelayStage::Data, command_bytes("DATA"))
                }
            },
            RelayStage::Data => {
                let mut bytes = dot_stuff(&self.data);
                push_str(&mut bytes, ".\r\n");
                self.send_in(RelayStage::DataEnd, bytes)
            },
            _ => {
                self.stage = RelayStage::Done;
                RelayAction::SendThenFinish(command_bytes("QUIT"), Ok(()))
            },
        }
    }
}


/// The stages in which the credentials or the message are on the wire.
pub open spec fn past_authentication_start(stage: RelayStage) -> bool {
    match stage {
        RelayStage::AuthStart | RelayStage::AuthPayload | RelayStage::MailFrom | RelayStage::Rcpt(
            _,
        ) | RelayStage::Data | RelayStage::DataEnd => true,
        _ => false,
    }
}

/// What holds in every state the relay reaches.
pub open spec fn relay_inv(v: RelayView) -> bool {
    &&& v.stage == RelayStage::Handshake ==> v.mode == RemoteTlsMode::Wrapper && !v.tls
    &&& (v.stage == RelayStage::StartTls || v.stage == RelayStage::Upgrade) ==> v.mode
        == RemoteTlsMode::Starttls && !v.tls
    &&& (v.mode == RemoteTlsMode::Wrapper && v.stage != RelayStage::Handshake) ==> v.tls
    &&& past_authentication_start(v.stage) ==> v.tls
    &&& v.stage matches RelayStage::Rcpt(i) ==> i < v.rcpt.len()
    &&& v.rcpt.len() <= usize::MAX
}

/// The result that an action ends the relay with, if it ends it.
pub open spec fn action_result(a: RelayActionView) -> Option<Result<(), RelayErrorView>> {
    match a {
        RelayActionView::SendThenFinish(_, r) => Some(r),
        RelayActionView::Finish(r) => Some(r),
        _ => None,
    }
}

/// A reply keeps `relay_inv`.
pub proof fn law_relay_step_keeps_invariant(v: RelayView, code: u16, lines: Seq<Seq<char>>)
    requires
        relay_inv(v),
        awaits_reply(v.stage),
    ensures
        relay_inv(relay_step_spec(v, code, lines).0),
{
}

/// A finished TLS handshake keeps `relay_inv`.
pub proof fn law_tls_ready_keeps_invariant(v: RelayView)
    requires
        relay_inv(v),
        v.stage == RelayStage::Handshake || v.stage == RelayStage::Upgrade,
    ensures
        relay_inv(tls_ready_spec(v).0),
{
}

/// The credentials, the envelope and the message are sent only over TLS: every command that
/// AUTH, its payload, MAIL, RCPT, DATA or the data make is sent on a TLS connection, and
/// before TLS only EHLO and STARTTLS are.
pub proof fn law_secrets_only_over_tls(v: RelayView, code: u16, lines: Seq<Seq<char>>)
    requires
        relay_inv(v),
        awaits_reply(v.stage),
    ensures
        past_authentication_start(relay_step_spec(v, code, lines).0.stage) ==> v.tls,
        !v.tls ==> match relay_step_spec(v, code, lines).1 {
            RelayActionView::Send(b) => b == ehlo_command(v.hello) || b == command_spec(
                lit("STARTTLS"),
            ),
            RelayActionView::SendThenFinish(_, _) => false,
            _ => true,
        },
{
}

/// MAIL FROM is sent only after the server accepted the credentials (235).
pub proof fn law_mail_only_after_authentication(v: RelayView, code: u16, lines: Seq<Seq<char>>)
    requires
        awaits_reply(v.stage),
    ensures
        relay_step_spec(v, code, lines).0.stage == RelayStage::MailFrom ==> v.stage
            == RelayStage::AuthPayload && code == 235,
{
}

/// Recipients are sent one after another in envelope order, each after the previous one
/// (or MAIL FROM) was accepted, and DATA only after the last of them was accepted.
pub proof fn law_recipients_in_order(v: RelayView, code: u16, lines: Seq<Seq<char>>)
    requires
        relay_inv(v),
        awaits_reply(v.stage),
    ensures
        relay_step_spec(v, code, lines).0.stage matches RelayStage::Rcpt(j) ==> accepted_code(
            v.stage,
            code,
        ) && j < v.rcpt.len() && relay_step_spec(v, code, lines).1 == RelayActionView::Send(
            rcpt_command(v.rcpt[j as int]),
        ) && (if j == 0 {
            v.stage == RelayStage::MailFrom
        } else {
            v.stage == RelayStage::Rcpt((j - 1) as usize)
        }),
        relay_step_spec(v, code, lines).0.stage == RelayStage::Data ==> accepted_code(v.stage, code)
            && ((v.stage == RelayStage::MailFrom && v.rcpt.len() == 0) || (
        v.stage matches RelayStage::Rcpt(i) && i + 1 == v.rcpt.len())),
        relay_step_spec(v, code, lines).0.stage == RelayStage::DataEnd ==> v.stage
            == RelayStage::Data && code == 354 && relay_step_spec(v, code, lines).1
            == RelayActionView::Send(data_transfer(v.data)),
{
}

/// A reply that the stage does not accept ends the relay with an error.
pub proof fn law_refusal_ends_relay(v: RelayView, code: u16, lines: Seq<Seq<char>>)
    requires
        awaits_reply(v.stage),
        !accepted_code(v.stage, code),
    ensures
        relay_step_spec(v, code, lines).0.stage == RelayStage::Done,
        action_result(relay_step_spec(v, code, lines).1) matches Some(r) && r is Err,
{
}

/// The relay succeeds only when the server accepted the message data (250 after the data).
pub proof fn law_success_only_after_data_accepted(v: RelayView, code: u16, lines: Seq<Seq<char>>)
    requires
        awaits_reply(v.stage),
    ensures
        action_result(relay_step_spec(v, code, lines).1) == Some(Ok::<(), RelayErrorView>(()))
            ==> v.stage == RelayStage::DataEnd && code == 250,
{
}


proof fn lemma_find_byte_skip(s: Seq<u8>, b: u8, i: int, j: int)
    requires
        0 <= i <= j <= s.len(),
        forall|k: int| i <= k < j ==> s[k] != b,
    ensures
        find_byte_from(s, b, i) == find_byte_from(s, b, j),
    decreases j - i,
{
    if i < j {
        lemma_find_byte_skip(s, b, i + 1, j);
    }
}

/// Whether AUTH PLAIN credentials can be carried: neither the username nor the password
/// holds a NUL character (RFC 4616 separates them with NUL).
pub open spec fn plain_credentials_carried(auth: RemoteAuthConfig) -> bool {
    match auth {
        RemoteAuthConfig::Plain { username, password } => !username@.contains('\0')
            && !password@.contains('\0'),
        _ => false,
    }
}

pub open spec fn plain_credentials(auth: RemoteAuthConfig) -> (Seq<char>, Seq<char>) {
    match auth {
        RemoteAuthConfig::Plain { username, password } => (username@, password@),
        _ => (Seq::empty(), Seq::empty()),
    }
}

/// The AUTH PLAIN response built from the configured credentials decodes, as the local
/// listener decodes AUTH PLAIN, to those credentials.
proof fn lemma_plain_payload_decodes(
    auth: RemoteAuthConfig,
    host: Seq<char>,
    port: u16,
    payload: Seq<char>,
)
    requires
        base64_decoded(encode_utf8(payload)) == Some(auth_payload_spec(auth, host, port)),
        plain_credentials_carried(auth),
    ensures
        auth_plain_spec(payload) == Ok::<(Seq<char>, Seq<char>), AuthPlainError>(
            plain_credentials(auth),
        ),
{
    broadcast use vstd::utf8::encode_utf8_valid_utf8, vstd::utf8::encode_utf8_decode_utf8;

    let (u, p) = plain_credentials(auth);
    let eu = encode_utf8(u);
    let ep = encode_utf8(p);
    let d = seq![0u8] + eu + seq![0u8] + ep;
    assert(d == auth_payload_spec(auth, host, port));
    crate::text::lemma_encode_utf8_no_nul(u);
    crate::text::lemma_encode_utf8_no_nul(p);
    let z2: int = 1 + eu.len() as int;
    assert(d[0] == 0);
    assert(d[z2] == 0);
    assert forall|k: int| 1 <= k < z2 implies d[k] != 0 by {
        assert(d[k] == eu[k - 1]);
    }
    lemma_find_byte_skip(d, 0, 1, z2);
    assert forall|k: int| z2 + 1 <= k < d.len() implies d[k] != 0 by {
        assert(d[k] == ep[k - z2 - 1]);
    }
    lemma_find_byte_skip(d, 0, z2 + 1, d.len() as int);
    assert(d.subrange(1, z2) =~= eu);
    assert(d.subrange(z2 + 1, d.len() as int) =~= ep);
}


/// The line as dot-stuffing sends it: a leading '.' doubled.
pub open spec fn stuffed_line(l: Seq<u8>) -> Seq<u8> {
    if l.len() > 0 && l[0] == DOT {
        seq![DOT] + l
    } else {
        l
    }
}

/// No CR and no LF in `l`.
pub open spec fn no_line_break(l: Seq<u8>) -> bool {
    forall|i: int| 0 <= i < l.len() ==> #[trigger] l[i] != CR && l[i] != LF
}

proof fn lemma_stuff_concat(a: Seq<u8>, b: Seq<u8>, at_start: bool)
    ensures
        stuff_lines(a + b, at_start) == stuff_lines(a, at_start) + stuff_lines(
            b,
            if a.len() == 0 {
                at_start
            } else {
                a.last() == LF
            },
        ),
    decreases a.len(),
{
    if a.len() == 0 {
        assert(a + b =~= b);
        assert(stuff_lines(a, at_start) =~= Seq::<u8>::empty());
    } else {
        let ab = a + b;
        assert(ab[0] == a[0]);
        assert(ab.drop_first() =~= a.drop_first() + b);
        lemma_stuff_concat(a.drop_first(), b, a[0] == LF);
        if a.len() == 1 {
            assert(a.drop_first() =~= Seq::<u8>::empty());
            assert(a.last() == a[0]);
        } else {
            assert(a.drop_first().last() == a.last());
        }
        let head = if at_start && a[0] == DOT {
            seq![DOT, DOT]
        } else {
            seq![a[0]]
        };
        assert(stuff_lines(ab, at_start) == head + stuff_lines(ab.drop_first(), a[0] == LF));
        assert(stuff_lines(a, at_start) == head + stuff_lines(a.drop_first(), a[0] == LF));
    }
}

proof fn lemma_stuff_plain_line(l: Seq<u8>, at_start: bool)
    requires
        no_line_break(l),
    ensures
        stuff_lines(l, at_start) == (if at_start {
            stuffed_line(l)
        } else {
            l
        }),
    decreases l.len(),
{
    if l.len() > 0 {
        let r = l.drop_first();
        assert(no_line_break(r)) by {
            assert forall|i: int| 0 <= i < r.len() implies #[trigger] r[i] != CR && r[i] != LF by {
                assert(r[i] == l[i + 1]);
            }
        }
        assert(l[0] != LF);
        lemma_stuff_plain_line(r, false);
        assert(l =~= seq![l[0]] + r);
        if at_start && l[0] == DOT {
            assert(seq![DOT, DOT] + r =~= seq![DOT] + l);
        }
    }
}

proof fn lemma_stuff_last(n: Seq<u8>, at_start: bool)
    requires
        n.len() > 0,
    ensures
        stuff_lines(n, at_start).len() > 0,
        stuff_lines(n, at_start).last() == n.last(),
    decreases n.len(),
{
    let head = if at_start && n[0] == DOT {
        seq![DOT, DOT]
    } else {
        seq![n[0]]
    };
    let rest = stuff_lines(n.drop_first(), n[0] == LF);
    assert(stuff_lines(n, at_start) == head + rest);
    if n.len() > 1 {
        lemma_stuff_last(n.drop_first(), n[0] == LF);
        assert(n.drop_first().last() == n.last());
        assert((head + rest).last() == rest.last());
    } else {
        assert(n.drop_first() =~= Seq::<u8>::empty());
        assert(rest =~= Seq::<u8>::empty());
        assert(head + rest =~= head);
        assert(n.last() == n[0]);
    }
}

proof fn lemma_stuff_crlf(at_start: bool)
    ensures
        stuff_lines(crlf(), at_start) == crlf(),
{
    let c = crlf();
    let e = Seq::<u8>::empty();
    let lf = seq![LF];
    assert(stuff_lines(e, true) =~= e);
    assert(lf.drop_first() =~= e);
    assert(lf[0] == LF);
    assert(stuff_lines(lf, false) == seq![lf[0]] + stuff_lines(e, true));
    assert(stuff_lines(lf, false) =~= lf);
    assert(c.drop_first() =~= lf);
    assert(c[0] == CR);
    assert(stuff_lines(c, at_start) == seq![c[0]] + stuff_lines(lf, false));
    assert(stuff_lines(c, at_start) =~= c);
}

proof fn lemma_lines_from_line(x: Seq<u8>, y: Seq<u8>, cur: Seq<u8>)
    requires
        forall|i: int| 0 <= i < x.len() ==> #[trigger] x[i] != LF,
    ensures
        lines_from(x + seq![LF] + y, cur) == seq![cur + x + seq![LF]] + lines_from(y, Seq::empty()),
    decreases x.len(),
{
    let s = x + seq![LF] + y;
    if x.len() == 0 {
        assert(s[0] == LF);
        assert(s.drop_first() =~= y);
        assert(cur + x + seq![LF] =~= cur.push(LF));
    } else {
        assert(s[0] == x[0]);
        assert(s.drop_first() =~= x.drop_first() + seq![LF] + y);
        assert forall|i: int| 0 <= i < x.drop_first().len() implies #[trigger] x.drop_first()[i]
            != LF by {
            assert(x.drop_first()[i] == x[i + 1]);
        }
        lemma_lines_from_line(x.drop_first(), y, cur.push(x[0]));
        assert(cur.push(x[0]) + x.drop_first() + seq![LF] =~= cur + x + seq![LF]);
    }
}

proof fn lemma_trim_crlf_plain(x: Seq<u8>)
    requires
        no_line_break(x),
    ensures
        trim_crlf_spec(x + crlf()) == x,
{
    let s = x + crlf();
    let xc = x + seq![CR];
    assert(s.last() == LF);
    assert(s.drop_last() =~= xc);
    assert(trim_crlf_spec(s) == trim_crlf_spec(xc));
    assert(xc.last() == CR);
    assert(xc.drop_last() =~= x);
    assert(trim_crlf_spec(xc) == trim_crlf_spec(x));
    if x.len() > 0 {
        assert(x.last() == x[x.len() - 1]);
        assert(x[x.len() - 1] != CR && x[x.len() - 1] != LF);
    }
    assert(trim_crlf_spec(x) == x);
}

proof fn lemma_first_lf(m: Seq<u8>, i: int) -> (k: int)
    requires
        0 <= i < m.len(),
        m[m.len() - 1] == LF,
        forall|j: int| 0 <= j < i ==> m[j] != LF,
    ensures
        i <= k < m.len(),
        m[k] == LF,
        forall|j: int| 0 <= j < k ==> m[j] != LF,
    decreases m.len() - i,
{
    if m[i] == LF {
        i
    } else {
        lemma_first_lf(m, i + 1)
    }
}

/// A normalized message that ends with CRLF is one line (without CR or LF), CRLF, and the
/// rest, which is again normalized and, unless empty, ends with CRLF.
proof fn lemma_first_line(m: Seq<u8>) -> (k: int)
    requires
        is_crlf_normalized(m),
        ends_with_crlf(m),
    ensures
        1 <= k < m.len(),
        no_line_break(m.take(k - 1)),
        m == m.take(k - 1) + crlf() + m.skip(k + 1),
        is_crlf_normalized(m.skip(k + 1)),
        m.skip(k + 1).len() == 0 || ends_with_crlf(m.skip(k + 1)),
{
    let k = lemma_first_lf(m, 0);
    assert(m[k] == LF);
    let l = m.take(k - 1);
    let rest = m.skip(k + 1);
    assert forall|i: int| 0 <= i < l.len() implies #[trigger] l[i] != CR && l[i] != LF by {
        assert(l[i] == m[i]);
        if m[i] == CR {
            assert(m[i + 1] == LF);
        }
    }
    assert(m =~= l + crlf() + rest);
    assert forall|i: int| 0 <= i < rest.len() implies (#[trigger] rest[i] == CR ==> i + 1
        < rest.len() && rest[i + 1] == LF) && (rest[i] == LF ==> i > 0 && rest[i - 1] == CR) by {
        assert(rest[i] == m[k + 1 + i]);
        if i + 1 < rest.len() {
            assert(rest[i + 1] == m[k + 2 + i]);
        }
        if i > 0 {
            assert(rest[i - 1] == m[k + i]);
        }
    }
    if rest.len() > 0 {
        if rest.len() == 1 {
            assert(rest[0] == m[m.len() - 1]);
        }
        assert(rest[rest.len() - 1] == m[m.len() - 1]);
        assert(rest[rest.len() - 2] == m[m.len() - 2]);
    }
    k
}

proof fn lemma_stuffed_line_plain(l: Seq<u8>)
    requires
        no_line_break(l),
    ensures
        no_line_break(stuffed_line(l)),
        stuffed_line(l) != seq![DOT],
        unstuffed_line(stuffed_line(l)) == l,
{
    let sl = stuffed_line(l);
    assert forall|i: int| 0 <= i < sl.len() implies #[trigger] sl[i] != CR && sl[i] != LF by {
        if l.len() > 0 && l[0] == DOT {
            if i > 0 {
                assert(sl[i] == l[i - 1]);
            }
        } else {
            assert(sl[i] == l[i]);
        }
    }
    if l.len() > 0 && l[0] == DOT {
        assert(sl.len() >= 2);
        assert(sl[0] == DOT && sl[1] == DOT);
        assert(sl.skip(1) =~= l);
    } else {
        if sl == seq![DOT] {
            assert(l[0] == DOT);
        }
    }
}

/// Reading one stuffed line and CRLF, then `y`, reads the line back.
proof fn lemma_read_first_line(l: Seq<u8>, y: Seq<u8>, acc: Seq<u8>)
    requires
        no_line_break(l),
    ensures
        read_data_lines(lines_from(stuffed_line(l) + crlf() + y, Seq::empty()), acc)
            == read_data_lines(lines_from(y, Seq::empty()), acc + l + crlf()),
{
    let sl = stuffed_line(l);
    lemma_stuffed_line_plain(l);
    let x = sl + seq![CR];
    assert(sl + crlf() + y =~= x + seq![LF] + y);
    assert forall|i: int| 0 <= i < x.len() implies #[trigger] x[i] != LF by {
        if i < sl.len() {
            assert(x[i] == sl[i]);
        }
    }
    lemma_lines_from_line(x, y, Seq::empty());
    let first = Seq::<u8>::empty() + x + seq![LF];
    assert(first =~= sl + crlf());
    lemma_trim_crlf_plain(sl);
    let lines = seq![first] + lines_from(y, Seq::empty());
    assert(lines[0] == first);
    assert(lines.drop_first() =~= lines_from(y, Seq::empty()));
}

/// The stuffing of a message splits at the end of its first line.
proof fn lemma_stuff_first_line(l: Seq<u8>, rest: Seq<u8>)
    requires
        no_line_break(l),
    ensures
        stuff_lines(l + crlf() + rest, true) == stuffed_line(l) + crlf() + stuff_lines(rest, true),
{
    let lc = l + crlf();
    assert(lc.last() == LF);
    lemma_stuff_concat(lc, rest, true);
    lemma_stuff_concat(l, crlf(), true);
    lemma_stuff_plain_line(l, true);
    lemma_stuff_crlf(true);
    lemma_stuff_crlf(false);
}

/// Reading the dot-stuffed lines of a normalized message ending in CRLF, followed by `t`,
/// adds the message to what was read and goes on with `t`.
proof fn lemma_read_stuffed(m: Seq<u8>, t: Seq<u8>, acc: Seq<u8>)
    requires
        is_crlf_normalized(m),
        m.len() == 0 || ends_with_crlf(m),
    ensures
        read_data_lines(lines_from(stuff_lines(m, true) + t, Seq::empty()), acc) == read_data_lines(
            lines_from(t, Seq::empty()),
            acc + m,
        ),
    decreases m.len(),
{
    if m.len() == 0 {
        assert(stuff_lines(m, true) =~= Seq::<u8>::empty());
        assert(stuff_lines(m, true) + t =~= t);
        assert(acc + m =~= acc);
    } else {
        let k = lemma_first_line(m);
        let l = m.take(k - 1);
        let rest = m.skip(k + 1);
        lemma_stuff_first_line(l, rest);
        let y = stuff_lines(rest, true) + t;
        assert(stuff_lines(m, true) + t =~= stuffed_line(l) + crlf() + y);
        lemma_read_first_line(l, y, acc);
        lemma_read_stuffed(rest, t, acc + l + crlf());
        assert(acc + l + crlf() + rest =~= acc + m);
    }
}

/// The lines of the dot-stuffed message, followed by `t`, are at most one byte longer than
/// the message when the lines of `t` are.
proof fn lemma_stuffed_lines_short(m: Seq<u8>, t: Seq<u8>, b: int)
    requires
        is_crlf_normalized(m),
        m.len() == 0 || ends_with_crlf(m),
        m.len() + 1 <= b,
        forall|j: int|
            0 <= j < lines_from(t, Seq::empty()).len() ==> (#[trigger] lines_from(
                t,
                Seq::empty(),
            )[j]).len() <= b,
    ensures
        forall|j: int|
            0 <= j < lines_from(stuff_lines(m, true) + t, Seq::empty()).len() ==> (
            #[trigger] lines_from(stuff_lines(m, true) + t, Seq::empty())[j]).len() <= b,
    decreases m.len(),
{
    if m.len() == 0 {
        assert(stuff_lines(m, true) =~= Seq::<u8>::empty());
        assert(stuff_lines(m, true) + t =~= t);
    } else {
        let k = lemma_first_line(m);
        let l = m.take(k - 1);
        let rest = m.skip(k + 1);
        lemma_stuff_first_line(l, rest);
        lemma_stuffed_lines_short(rest, t, b);
        let y = stuff_lines(rest, true) + t;
        let sl = stuffed_line(l);
        lemma_stuffed_line_plain(l);
        let x = sl + seq![CR];
        assert(stuff_lines(m, true) + t =~= x + seq![LF] + y);
        assert forall|i: int| 0 <= i < x.len() implies #[trigger] x[i] != LF by {
            if i < sl.len() {
                assert(x[i] == sl[i]);
            }
        }
        lemma_lines_from_line(x, y, Seq::empty());
        let first = Seq::<u8>::empty() + x + seq![LF];
        assert(first.len() <= l.len() + 3);
        let all = seq![first] + lines_from(y, Seq::empty());
        assert forall|j: int| 0 <= j < all.len() implies (#[trigger] all[j]).len() <= b by {
            if j > 0 {
                assert(all[j] == lines_from(y, Seq::empty())[j - 1]);
            }
        }
    }
}

/// What the receiving side's DATA phase reads back of `data`: its lines with CRLF endings,
/// the last one ending with CRLF too.
pub open spec fn data_received(data: Seq<u8>) -> Seq<u8> {
    let n = normalize_crlf_spec(data);
    if ends_with_crlf(n) {
        n
    } else {
        n + crlf()
    }
}

/// What the relay sends after DATA reads back, line by line as the DATA phase of the local
/// listener reads lines, as the data with CRLF line endings: dot-stuffing is undone, and only
/// the final "." ends the data.
/// What the relay sends after DATA is the dot-stuffing of the data as read back (normalized,
/// ending with CRLF) and the line ".".
proof fn lemma_transfer_shape(data: Seq<u8>)
    ensures
        is_crlf_normalized(data_received(data)),
        ends_with_crlf(data_received(data)),
        data_transfer(data) == stuff_lines(data_received(data), true) + seq![DOT, CR, LF],
{
    let n = normalize_crlf_spec(data);
    law_normalize_crlf_normalizes(data);
    let m = data_received(data);
    if ends_with_crlf(n) {
        let p = n.take(n.len() - 2);
        assert(n =~= p + crlf());
        lemma_stuff_concat(p, crlf(), true);
        lemma_stuff_crlf(true);
        lemma_stuff_crlf(false);
        assert(ends_with_crlf(stuff_lines(n, true)));
        assert(dot_stuff_spec(data) == stuff_lines(m, true));
    } else {
        lemma_stuff_concat(n, crlf(), true);
        lemma_stuff_crlf(true);
        lemma_stuff_crlf(false);
        if n.len() > 0 {
            lemma_stuff_last(n, true);
            assert(n[n.len() - 1] != CR);
            if ends_with_crlf(stuff_lines(n, true)) {
                assert(n.last() == LF);
                assert(n[n.len() - 1] == LF);
            }
        } else {
            assert(stuff_lines(n, true) =~= Seq::<u8>::empty());
        }
        assert(!ends_with_crlf(stuff_lines(n, true)));
        assert(dot_stuff_spec(data) == stuff_lines(m, true));
        assert forall|i: int| 0 <= i < m.len() implies (#[trigger] m[i] == CR ==> i + 1 < m.len()
            && m[i + 1] == LF) && (m[i] == LF ==> i > 0 && m[i - 1] == CR) by {
            if i < n.len() {
                assert(m[i] == n[i]);
                if i + 1 < n.len() {
                    assert(m[i + 1] == n[i + 1]);
                }
                if i > 0 {
                    assert(m[i - 1] == n[i - 1]);
                }
                if n[i] == CR && i + 1 == n.len() {
                    assert(false);
                }
            } else if i == n.len() {
                assert(m[i + 1] == LF);
            } else {
                assert(m[i - 1] == CR);
            }
        }
    }
    reveal_strlit(".\r\n");
    let t = lit(".\r\n");
    let cs = ".\r\n"@;
    assert(cs =~= seq!['.', '\r', '\n']);
    assert(vstd::utf8::is_ascii_chars(cs));
    vstd::utf8::is_ascii_chars_encode_utf8(cs);
    assert(t[0] == cs[0] as u8 && t[1] == cs[1] as u8 && t[2] == cs[2] as u8);
    assert(t =~= seq![DOT, CR, LF]);
    assert(data_transfer(data) == stuff_lines(m, true) + t);
}

pub proof fn law_data_transfer_round_trip(data: Seq<u8>)
    ensures
        read_data_lines(split_lines(data_transfer(data)), Seq::empty()) == Some(
            data_received(data),
        ),
{
    let m = data_received(data);
    let t = seq![DOT, CR, LF];
    lemma_transfer_shape(data);
    lemma_read_stuffed(m, t, Seq::empty());
    assert(Seq::<u8>::empty() + m =~= m);
    assert(seq![DOT, CR, LF] =~= seq![DOT, CR] + seq![LF] + Seq::<u8>::empty());
    lemma_lines_from_line(seq![DOT, CR], Seq::empty(), Seq::empty());
    assert(lines_from(Seq::<u8>::empty(), Seq::empty()) =~= Seq::<Seq<u8>>::empty());
    let dot_line = Seq::<u8>::empty() + seq![DOT, CR] + seq![LF];
    assert(dot_line =~= seq![DOT] + crlf());
    lemma_trim_crlf_plain(seq![DOT]);
    assert(seq![dot_line] + Seq::<Seq<u8>>::empty() =~= seq![dot_line]);
}


/// AUTH PLAIN, step by step: over TLS, an EHLO reply that offers PLAIN is answered
/// "AUTH PLAIN"; only a 334 to it sends the payload (which `RelaySession::start` built from
/// the configured credentials); only a 235 to the payload lets MAIL FROM follow; any other
/// code at either step ends the relay with that code refused.
pub proof fn law_auth_plain_exchange(v: RelayView, code: u16, lines: Seq<Seq<char>>)
    requires
        v.kind == AuthKind::Plain,
    ensures
        v.stage == RelayStage::Ehlo && v.tls && code == 250 && caps_spec(lines).1.contains(
            "PLAIN"@,
        ) ==> relay_step_spec(v, code, lines) == send_in(
            v,
            RelayStage::AuthStart,
            command_spec(lit("AUTH ") + encode_utf8("PLAIN"@)),
        ),
        v.stage == RelayStage::AuthStart && code == 334 ==> relay_step_spec(v, code, lines)
            == send_in(v, RelayStage::AuthPayload, command_spec(encode_utf8(v.payload))),
        v.stage == RelayStage::AuthPayload && code == 235 ==> relay_step_spec(v, code, lines)
            == send_in(v, RelayStage::MailFrom, mail_command(v.mail_from)),
        (v.stage == RelayStage::AuthStart && code != 334) || (v.stage == RelayStage::AuthPayload
            && code != 235) ==> relay_step_spec(v, code, lines) == finish_with(
            v,
            RelayErrorView::Rejected(v.stage, code, summary_spec(lines)),
        ),
{
}

/// The relay never changes what it carries: the envelope, the data, the AUTH payload, the
/// EHLO name, the mechanism and the TLS mode stay as they started, and TLS, once up, stays.
pub proof fn law_relay_keeps_message(v: RelayView, code: u16, lines: Seq<Seq<char>>)
    requires
        awaits_reply(v.stage),
    ensures
        ({
            let w = relay_step_spec(v, code, lines).0;
            &&& w.mail_from == v.mail_from
            &&& w.rcpt == v.rcpt
            &&& w.data == v.data
            &&& w.payload == v.payload
            &&& w.hello == v.hello
            &&& w.kind == v.kind
            &&& w.mode == v.mode
            &&& v.tls ==> w.tls
        }),
{
}

/// Every line that the relay sends after DATA is at most one byte longer than the data
/// that the receiving side reads back.
proof fn lemma_transfer_lines_short(data: Seq<u8>)
    ensures
        forall|j: int|
            0 <= j < split_lines(data_transfer(data)).len() ==> (#[trigger] split_lines(
                data_transfer(data),
            )[j]).len() <= data_received(data).len() + 1,
{
    let m = data_received(data);
    let b: int = m.len() as int + 1;
    let t = seq![DOT, CR, LF];
    lemma_transfer_shape(data);
    assert(seq![DOT, CR, LF] =~= seq![DOT, CR] + seq![LF] + Seq::<u8>::empty());
    lemma_lines_from_line(seq![DOT, CR], Seq::empty(), Seq::empty());
    assert(lines_from(Seq::<u8>::empty(), Seq::empty()) =~= Seq::<Seq<u8>>::empty());
    assert(lines_from(t, Seq::empty()) =~= seq![t]);
    lemma_stuffed_lines_short(m, t, b);
}

/// Reading DATA undoes dot-stuffing: a session in its DATA phase, with no data yet, that
/// receives the dot-stuffed data and the final "." line hands over for delivery its
/// envelope and `data_received(d)` (the data with CRLF line endings, ending with CRLF),
/// when that fits the size limit and no line is longer than the line limit.
pub proof fn law_dot_stuffed_data_is_delivered(v: SessionView, d: Seq<u8>)
    requires
        v.phase == Phase::Data,
        v.data == Seq::<u8>::empty(),
        data_received(d).len() <= v.size_limit,
        data_received(d).len() < usize::MAX,
    ensures
        exists|i: int|
            0 <= i < split_lines(data_transfer(d)).len() && #[trigger] action_at(
                v,
                split_lines(data_transfer(d)),
                i,
            ) == ActionView::Deliver(
                match v.mail_from {
                    Some(f) => f,
                    None => Seq::empty(),
                },
                v.rcpt_to,
                data_received(d),
            ),
{
    let lines = split_lines(data_transfer(d));
    law_data_transfer_round_trip(d);
    lemma_transfer_lines_short(d);
    assert forall|j: int| 0 <= j < lines.len() implies (#[trigger] lines[j]).len() <= max_line_spec(
        v,
    ) by {
        assert(lines[j].len() <= data_received(d).len() + 1);
    }
    assert(lines.take(0) =~= Seq::<Seq<u8>>::empty());
    assert(lines.skip(0) =~= lines);
    assert(run_spec(v, lines.take(0)) == (SessionView { data: Seq::<u8>::empty(), ..v }));
    lemma_data_lines_delivered(v, lines, 0, Seq::<u8>::empty(), data_received(d));
}

} // verus!
