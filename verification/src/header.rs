//! Header names and values as text, and the `HEADER:VALUE` rule syntax.

use vstd::prelude::*;

verus! {

/// The identification that every request carries in its `user-agent` header.
pub const APP_USER_AGENT: &'static str = "heater 0.2.3";

/// The characters that a header name may hold before it is put in lower case.
pub open spec fn is_token_char(c: char) -> bool {
    ||| 'a' <= c <= 'z'
    ||| 'A' <= c <= 'Z'
    ||| '0' <= c <= '9'
    ||| c == '!' || c == '#' || c == '$' || c == '%' || c == '&' || c == '\''
    ||| c == '*' || c == '+' || c == '-' || c == '.' || c == '^' || c == '_'
    ||| c == '`' || c == '|' || c == '~'
}

/// The lower-case form of an ASCII letter; any other character is itself.
pub open spec fn lower_char(c: char) -> char {
    if 'A' <= c <= 'Z' {
        ((c as u8) + 32) as char
    } else {
        c
    }
}

/// The longest header name, in characters.
pub const MAX_NAME_LEN: usize = 65535;

/// Text that is accepted as a header name, in either case.
pub open spec fn is_name_text(s: Seq<char>) -> bool {
    &&& 0 < s.len() <= MAX_NAME_LEN
    &&& forall|i: int| 0 <= i < s.len() ==> is_token_char(#[trigger] s[i])
}

/// A text with each ASCII letter in lower case.
pub open spec fn lower_text(s: Seq<char>) -> Seq<char> {
    s.map_values(|c: char| lower_char(c))
}

/// A header name in the form in which it is stored and compared.
pub open spec fn is_header_name(s: Seq<char>) -> bool {
    is_name_text(s) && lower_text(s) == s
}

/// The characters that a header value may hold: no control character but the tab.
pub open spec fn is_value_char(c: char) -> bool {
    c == '\t' || (' ' <= c && c != '\x7f')
}

/// Text that is accepted as a header value.
pub open spec fn is_header_value(s: Seq<char>) -> bool {
    forall|i: int| 0 <= i < s.len() ==> is_value_char(#[trigger] s[i])
}

/// What the http crate, which reqwest hands on, answers to a text that is
/// no header name: carried as it is.
#[verifier::external_type_specification]
#[verifier::external_body]
pub struct ExInvalidHeaderName(reqwest::header::InvalidHeaderName);

/// What the http crate, which reqwest hands on, answers to a text that is
/// no header value: carried as it is.
#[verifier::external_type_specification]
#[verifier::external_body]
pub struct ExInvalidHeaderValue(reqwest::header::InvalidHeaderValue);

/// `HeaderName::from_str` of the http crate, which reqwest hands on: a name is
/// accepted when it has between one and 65535 characters, all of them token
/// characters, and comes back with its letters in lower case.
#[verifier::external_body]
pub(crate) fn parse_name(s: &str) -> (r: Result<String, reqwest::header::InvalidHeaderName>)
    ensures
        r.is_ok() == is_name_text(s@),
        r matches Ok(name) ==> name@ == lower_text(s@),
{
    match <reqwest::header::HeaderName as std::str::FromStr>::from_str(s) {
        Ok(name) => Ok(name.as_str().to_owned()),
        Err(e) => Err(e),
    }
}

/// `HeaderValue::from_str` of the http crate, which reqwest hands on: a value
/// is accepted when it holds no control character but the tab, and holds the
/// text it was made from.
#[verifier::external_body]
pub(crate) fn parse_value(s: &str) -> (r: Result<String, reqwest::header::InvalidHeaderValue>)
    ensures
        r.is_ok() == is_header_value(s@),
        r matches Ok(value) ==> value@ == s@,
{
    match reqwest::header::HeaderValue::from_str(s) {
        Ok(value) => Ok(String::from_utf8_lossy(value.as_bytes()).into_owned()),
        Err(e) => Err(e),
    }
}

/// The characters of text that can be read back from a header value: the
/// visible ASCII characters, the space and the tab.
pub open spec fn is_text_char(c: char) -> bool {
    c == '\t' || ' ' <= c <= '~'
}

/// Text that is a header value and can be read back from it as text.
pub open spec fn is_header_text(s: Seq<char>) -> bool {
    forall|i: int| 0 <= i < s.len() ==> is_text_char(#[trigger] s[i])
}

/// Text of spaces and tabs alone, the empty text among them.
pub open spec fn is_blank(s: Seq<char>) -> bool {
    forall|i: int| 0 <= i < s.len() ==> (#[trigger] s[i]) == ' ' || s[i] == '\t'
}

/// The bytes of text that can be read back from a header value.
pub open spec fn is_text_bytes(bytes: Seq<u8>) -> bool {
    forall|i: int| 0 <= i < bytes.len() ==> (#[trigger] bytes[i]) == 9 || 32 <= bytes[i] <= 126
}

/// The text whose characters are the given ASCII bytes.
pub open spec fn bytes_text(bytes: Seq<u8>) -> Seq<char> {
    bytes.map_values(|b: u8| b as char)
}

/// `HeaderValue::to_str` of the http crate, which reqwest hands on, on the
/// value that `HeaderValue::from_bytes` makes of the bytes: there is a text
/// when every byte is a visible ASCII character, a space or a tab, and the
/// text has these bytes as its characters.
#[verifier::external_body]
pub(crate) fn value_text(bytes: &Vec<u8>) -> (r: Option<String>)
    ensures
        r.is_some() == is_text_bytes(bytes@),
        r matches Some(text) ==> text@ == bytes_text(bytes@),
{
    match reqwest::header::HeaderValue::from_bytes(bytes) {
        Ok(value) => match value.to_str() {
            Ok(text) => Some(text.to_owned()),
            Err(_) => None,
        },
        Err(_) => None,
    }
}

/// Header text is a header value.
pub proof fn lemma_text_is_value(s: Seq<char>)
    requires
        is_header_text(s),
    ensures
        is_header_value(s),
{
}

/// Whether `s` is header text.
pub fn is_text(s: &str) -> (r: bool)
    ensures
        r == is_header_text(s@),
{
    if !s.is_ascii() {
        return false;
    }
    let n = s.unicode_len();
    let mut i: usize = 0;
    while i < n
        invariant
            i <= n,
            n == s@.len(),
            s.is_ascii(),
            forall|k: int| 0 <= k < i ==> is_text_char(#[trigger] s@[k]),
        decreases n - i,
    {
        let b = s.get_ascii(i);
        if !(b == 9 || (32 <= b && b <= 126)) {
            return false;
        }
        i += 1;
    }
    true
}

/// Whether `s` holds spaces and tabs alone.
pub fn is_blank_text(s: &str) -> (r: bool)
    ensures
        r == is_blank(s@),
{
    if !s.is_ascii() {
        return false;
    }
    let n = s.unicode_len();
    let mut i: usize = 0;
    while i < n
        invariant
            i <= n,
            n == s@.len(),
            s.is_ascii(),
            forall|k: int| 0 <= k < i ==> (#[trigger] s@[k]) == ' ' || s@[k] == '\t',
        decreases n - i,
    {
        let b = s.get_ascii(i);
        if !(b == 9 || b == 32) {
            return false;
        }
        i += 1;
    }
    true
}

/// What is wrong with a `HEADER:VALUE` rule.
#[derive(Clone, Copy, Debug, PartialEq, Eq)]
pub enum Error {
    /// The rule has no name. A rule without text before its colon has the
    /// empty name, which is an invalid one.
    MissingHeaderName,
    /// What stands before the first colon is no header name.
    InvalidHeaderName,
    /// The rule has no colon.
    MissingHeaderValue,
    /// What stands after the first colon is no header value.
    InvalidHeaderValue,
}

impl Error {
    /// The message that names the error.
    pub fn message(&self) -> (r: &'static str)
        ensures
            r@ == match *self {
                Error::MissingHeaderName => "missing header name"@,
                Error::InvalidHeaderName => "invalid header name"@,
                Error::MissingHeaderValue => "missing header value"@,
                Error::InvalidHeaderValue => "invalid header value"@,
            },
    {
        match self {
            Error::MissingHeaderName => "missing header name",
            Error::InvalidHeaderName => "invalid header name",
            Error::MissingHeaderValue => "missing header value",
            Error::InvalidHeaderValue => "invalid header value",
        }
    }
}

/// One value for one header: a rule of the variations to replay.
#[derive(Clone, Debug, PartialEq, Eq)]
pub struct HeaderVariation {
    /// The name of the header, in lower case.
    pub header: String,
    /// The value to send.
    pub value: String,
}

impl DeepView for HeaderVariation {
    type V = (Seq<char>, Seq<char>);

    open spec fn deep_view(&self) -> (Seq<char>, Seq<char>) {
        (self.header@, self.value@)
    }
}

impl HeaderVariation {
    /// A stored name with a value that a header can carry.
    pub open spec fn wf(&self) -> bool {
        is_header_name(self.header@) && is_header_value(self.value@)
    }
}

/// The place of the first colon of `s`, or the length of `s` where it has none.
pub open spec fn colon_index(s: Seq<char>) -> int
    decreases s.len(),
{
    if s.len() == 0 || s[0] == ':' {
        0
    } else {
        1 + colon_index(s.drop_first())
    }
}

/// What a rule says: the name before the first colon, in lower case, and the
/// value after it.
pub open spec fn parse_rule(s: Seq<char>) -> Result<(Seq<char>, Seq<char>), Error> {
    let at = colon_index(s);
    if !is_name_text(s.take(at)) {
        Err(Error::InvalidHeaderName)
    } else if at == s.len() {
        Err(Error::MissingHeaderValue)
    } else if !is_header_value(s.skip(at + 1)) {
        Err(Error::InvalidHeaderValue)
    } else {
        Ok((lower_text(s.take(at)), s.skip(at + 1)))
    }
}

proof fn lemma_colon_index(s: Seq<char>, at: int)
    requires
        0 <= at <= s.len(),
        forall|k: int| 0 <= k < at ==> s[k] != ':',
        at < s.len() ==> s[at] == ':',
    ensures
        colon_index(s) == at,
    decreases s.len(),
{
    if at > 0 {
        let tail = s.drop_first();
        lemma_colon_index(tail, at - 1);
    }
}

/// Reads a rule of the form `HEADER:VALUE`. The name ends at the first colon
/// and is put in lower case; the value is everything after that colon.
pub fn parse_header(input: &str) -> (r: Result<HeaderVariation, Error>)
    ensures
        match parse_rule(input@) {
            Ok(rule) => r matches Ok(found) && found.deep_view() == rule && found.wf(),
            Err(e) => r == Err::<HeaderVariation, Error>(e),
        },
{
    let n = input.unicode_len();
    let mut at: usize = 0;
    while at < n && input.get_char(at) != ':'
        invariant
            at <= n,
            n == input@.len(),
            forall|k: int| 0 <= k < at ==> input@[k] != ':',
        decreases n - at,
    {
        at += 1;
    }
    proof {
        lemma_colon_index(input@, at as int);
    }
    match parse_name(input.substring_char(0, at)) {
        Err(_) => Err(Error::InvalidHeaderName),
        Ok(header) => {
            if at == n {
                return Err(Error::MissingHeaderValue);
            }
            match parse_value(input.substring_char(at + 1, n)) {
                Err(_) => Err(Error::InvalidHeaderValue),
                Ok(value) => {
                    proof {
                        lemma_lower_text_is_name(input@.take(at as int));
                    }
                    Ok(HeaderVariation { header, value })
                },
            }
        },
    }
}

/// A name that is put in lower case is a stored name.
pub proof fn lemma_lower_text_is_name(s: Seq<char>)
    requires
        is_name_text(s),
    ensures
        is_header_name(lower_text(s)),
{
    let l = lower_text(s);
    assert(lower_text(l) =~= l) by {
        assert forall|i: int| 0 <= i < l.len() implies lower_char(l[i]) == l[i] by {}
    }
}

} // verus!
