//! What a response tells: whether a cache served it, and which of the
//! headers that it varies on were not sent.

use crate::combine::{contains_text, lemma_unseen, unseen};
use crate::header::{
    bytes_text, is_header_text, is_name_text, is_text_bytes, is_text_char, lower_text, parse_name,
    value_text, HeaderVariation,
};
use crate::report::Outcome;
use vstd::prelude::*;
use vstd::string::StringExecFns;

verus! {

/// The lower-case form of the byte of an ASCII letter; any other byte is itself.
pub open spec fn lower_byte(b: u8) -> u8 {
    if 65 <= b <= 90 {
        (b + 32) as u8
    } else {
        b
    }
}

/// Whether the first three characters are `hit`, in either case.
pub open spec fn says_hit(value: Seq<u8>) -> bool {
    &&& value.len() >= 3
    &&& lower_byte(value[0]) == 104
    &&& lower_byte(value[1]) == 105
    &&& lower_byte(value[2]) == 116
}

/// Whether a cache served the response, as its `x-cache` header tells:
/// unknown without the header or where its value is no text, else a hit
/// where the value starts with `hit` and a miss where it does not.
pub open spec fn cache_state(x_cache: Option<Seq<u8>>) -> Option<bool> {
    match x_cache {
        None => None,
        Some(value) => if is_text_bytes(value) {
            Some(says_hit(value))
        } else {
            None
        },
    }
}

/// The space and the tab.
pub open spec fn is_space(c: char) -> bool {
    c == ' ' || c == '\t'
}

/// The pieces of `s` between its commas: one more than it has commas.
pub open spec fn split_commas(s: Seq<char>) -> Seq<Seq<char>>
    decreases s.len(),
{
    if s.len() == 0 {
        seq![Seq::<char>::empty()]
    } else {
        let before = split_commas(s.drop_last());
        if s.last() == ',' {
            before.push(Seq::<char>::empty())
        } else {
            before.drop_last().push(before.last().push(s.last()))
        }
    }
}

/// The text without the spaces and tabs at its start.
pub open spec fn trim_start(s: Seq<char>) -> Seq<char>
    decreases s.len(),
{
    if s.len() > 0 && is_space(s[0]) {
        trim_start(s.drop_first())
    } else {
        s
    }
}

/// The text without the spaces and tabs at its end.
pub open spec fn trim_end(s: Seq<char>) -> Seq<char>
    decreases s.len(),
{
    if s.len() > 0 && is_space(s.last()) {
        trim_end(s.drop_last())
    } else {
        s
    }
}

/// The text without the spaces and tabs at its start and at its end.
pub open spec fn trim(s: Seq<char>) -> Seq<char> {
    trim_end(trim_start(s))
}

/// The header names among the pieces, in lower case: a piece counts
/// without the spaces around it, and one that is no header name is left out.
pub open spec fn names_of_pieces(pieces: Seq<Seq<char>>) -> Seq<Seq<char>>
    decreases pieces.len(),
{
    if pieces.len() == 0 {
        Seq::empty()
    } else {
        let before = names_of_pieces(pieces.drop_last());
        let token = trim(pieces.last());
        if is_name_text(token) {
            before.push(lower_text(token))
        } else {
            before
        }
    }
}

/// The header names that the values of `vary` list, in their order; a value
/// that is no text lists none.
pub open spec fn vary_names(vary: Seq<Seq<u8>>) -> Seq<Seq<char>>
    decreases vary.len(),
{
    if vary.len() == 0 {
        Seq::empty()
    } else {
        let before = vary_names(vary.drop_last());
        if is_text_bytes(vary.last()) {
            before + names_of_pieces(split_commas(bytes_text(vary.last())))
        } else {
            before
        }
    }
}

/// The names of the headers of a header set.
pub open spec fn header_names(sent: Seq<(Seq<char>, Seq<char>)>) -> Seq<Seq<char>> {
    sent.map_values(|h: (Seq<char>, Seq<char>)| h.0)
}

/// The headers that the response varies on and that the request did not
/// carry.
pub open spec fn uncovered(vary: Seq<Seq<u8>>, sent: Seq<(Seq<char>, Seq<char>)>) -> Seq<
    Seq<char>,
> {
    unseen(vary_names(vary), header_names(sent))
}

/// The headers that `uncovered` gives are those that the response names in
/// `vary` and that the request did not carry, and none is given twice.
pub proof fn lemma_uncovered(vary: Seq<Seq<u8>>, sent: Seq<(Seq<char>, Seq<char>)>)
    ensures
        uncovered(vary, sent).no_duplicates(),
        forall|name: Seq<char>|
            uncovered(vary, sent).contains(name) <==> vary_names(vary).contains(name)
                && !header_names(sent).contains(name),
{
    lemma_unseen(vary_names(vary), header_names(sent));
}

/// What of a response the classification reads.
#[derive(Clone, Debug, PartialEq, Eq)]
pub struct Response {
    /// The status code.
    pub status: u16,
    /// The first value of the `x-cache` header, if the response has one.
    pub x_cache: Option<Vec<u8>>,
    /// The values of the `vary` header.
    pub vary: Vec<Vec<u8>>,
}

impl Response {
    /// The value of `x-cache` as bytes.
    pub open spec fn x_cache_view(&self) -> Option<Seq<u8>> {
        match self.x_cache {
            None => None,
            Some(value) => Some(value@),
        }
    }
}

/// The lower-case form of the byte of an ASCII letter.
fn to_lower(b: u8) -> (r: u8)
    ensures
        r == lower_byte(b),
{
    if 65 <= b && b <= 90 {
        b + 32
    } else {
        b
    }
}

/// Whether a cache served the response, as the value of its `x-cache`
/// header tells.
pub fn cache_hit(x_cache: &Option<Vec<u8>>) -> (r: Option<bool>)
    ensures
        r == cache_state(
            match *x_cache {
                None => None,
                Some(value) => Some(value@),
            },
        ),
{
    match x_cache {
        None => None,
        Some(bytes) => match value_text(bytes) {
            None => None,
            Some(text) => {
                let s = text.as_str();
                if s.unicode_len() < 3 {
                    return Some(false);
                }
                let hit = to_lower(s.get_ascii(0)) == 104 && to_lower(s.get_ascii(1)) == 105
                    && to_lower(s.get_ascii(2)) == 116;
                Some(hit)
            },
        },
    }
}

/// The pieces of `s` between its commas.
fn pieces(s: &str) -> (r: Vec<String>)
    requires
        is_header_text(s@),
    ensures
        r.deep_view() == split_commas(s@),
        forall|i: int| 0 <= i < r.len() ==> is_header_text(#[trigger] r.deep_view()[i]),
{
    let n = s.unicode_len();
    let mut done: Vec<String> = Vec::new();
    let mut start: usize = 0;
    let mut i: usize = 0;
    assert(s@.take(0) =~= Seq::<char>::empty());
    while i < n
        invariant
            start <= i <= n,
            n == s@.len(),
            s.is_ascii(),
            is_header_text(s@),
            split_commas(s@.take(i as int)) == done.deep_view().push(
                s@.subrange(start as int, i as int),
            ),
            forall|k: int| 0 <= k < done.len() ==> is_header_text(#[trigger] done.deep_view()[k]),
        decreases n - i,
    {
        let ghost before = done.deep_view();
        let ghost piece = s@.subrange(start as int, i as int);
        proof {
            assert(s@.take(i + 1).drop_last() =~= s@.take(i as int));
        }
        if s.get_ascii(i) == 44 {
            let part = String::from_str(s.substring_ascii(start, i));
            done.push(part);
            start = i + 1;
            assert(done.deep_view() =~= before.push(piece));
            assert(s@.subrange(start as int, i + 1) =~= Seq::<char>::empty());
        } else {
            assert(s@.subrange(start as int, i + 1) =~= piece.push(s@[i as int]));
        }
        i += 1;
    }
    let part = String::from_str(s.substring_ascii(start, n));
    assert(is_header_text(part@)) by {
        assert forall|k: int| 0 <= k < part@.len() implies is_text_char(#[trigger] part@[k]) by {}
    }
    done.push(part);
    assert(s@.take(n as int) =~= s@);
    done
}

/// The text without the spaces and tabs at its start and at its end.
fn trimmed(s: &str) -> (r: String)
    requires
        is_header_text(s@),
    ensures
        r@ == trim(s@),
{
    let n = s.unicode_len();
    let mut from: usize = 0;
    assert(s@.subrange(0, n as int) =~= s@);
    while from < n && (s.get_ascii(from) == 32 || s.get_ascii(from) == 9)
        invariant
            from <= n,
            n == s@.len(),
            s.is_ascii(),
            is_header_text(s@),
            trim_start(s@) == trim_start(s@.subrange(from as int, n as int)),
        decreases n - from,
    {
        proof {
            let rest = s@.subrange(from as int, n as int);
            assert(rest.drop_first() =~= s@.subrange(from + 1, n as int));
        }
        from += 1;
    }
    let mut to: usize = n;
    while to > from && (s.get_ascii(to - 1) == 32 || s.get_ascii(to - 1) == 9)
        invariant
            from <= to <= n,
            n == s@.len(),
            s.is_ascii(),
            is_header_text(s@),
            trim(s@) == trim_end(s@.subrange(from as int, to as int)),
        decreases to,
    {
        proof {
            let rest = s@.subrange(from as int, to as int);
            assert(rest.drop_last() =~= s@.subrange(from as int, to - 1));
        }
        to -= 1;
    }
    String::from_str(s.substring_ascii(from, to))
}

/// Whether the header set holds a header of the given name.
pub fn contains_key(sent: &Vec<HeaderVariation>, name: &String) -> (r: bool)
    ensures
        r == header_names(sent.deep_view()).contains(name@),
{
    let ghost names = header_names(sent.deep_view());
    let mut i: usize = 0;
    while i < sent.len()
        invariant
            i <= sent.len(),
            names == header_names(sent.deep_view()),
            forall|k: int| 0 <= k < i ==> names[k] != name@,
        decreases sent.len() - i,
    {
        assert(names[i as int] == sent[i as int].header@);
        if sent[i].header == *name {
            return true;
        }
        i += 1;
    }
    false
}

/// The headers that the response varies on and that the request did not
/// carry: each once, in lower case, in the order in which the values of
/// `vary` name them first.
pub fn uncovered_vary_headers(vary: &Vec<Vec<u8>>, sent: &Vec<HeaderVariation>) -> (r: Vec<String>)
    ensures
        r.deep_view() == uncovered(vary.deep_view(), sent.deep_view()),
{
    let ghost lines = vary.deep_view();
    let ghost carried = header_names(sent.deep_view());
    let mut found: Vec<String> = Vec::new();
    let mut v: usize = 0;
    while v < vary.len()
        invariant
            v <= vary.len(),
            lines == vary.deep_view(),
            carried == header_names(sent.deep_view()),
            found.deep_view() == unseen(vary_names(lines.take(v as int)), carried),
        decreases vary.len() - v,
    {
        let ghost seen = vary_names(lines.take(v as int));
        proof {
            assert(lines.take(v + 1).drop_last() =~= lines.take(v as int));
            assert(lines.take(v + 1).last() == vary[v as int]@);
        }
        match value_text(&vary[v]) {
            None => {},
            Some(text) => {
                let parts = pieces(text.as_str());
                let ghost all = parts.deep_view();
                let mut p: usize = 0;
                while p < parts.len()
                    invariant
                        p <= parts.len(),
                        all == parts.deep_view(),
                        carried == header_names(sent.deep_view()),
                        forall|i: int| 0 <= i < all.len() ==> is_header_text(#[trigger] all[i]),
                        found.deep_view() == unseen(
                            seen + names_of_pieces(all.take(p as int)),
                            carried,
                        ),
                    decreases parts.len() - p,
                {
                    let ghost names = seen + names_of_pieces(all.take(p as int));
                    proof {
                        assert(all.take(p + 1).drop_last() =~= all.take(p as int));
                        assert(all.take(p + 1).last() == parts[p as int]@);
                    }
                    let token = trimmed(parts[p].as_str());
                    match parse_name(token.as_str()) {
                        Err(_) => {},
                        Ok(name) => {
                            proof {
                                let more = seen + names_of_pieces(all.take(p + 1));
                                assert(more.drop_last() =~= names);
                            }
                            if !contains_key(sent, &name) && !contains_text(
                                &found,
                                &name,
                            ) {
                                found.push(name);
                            }
                        },
                    }
                    p += 1;
                }
                assert(all.take(p as int) =~= all);
            },
        }
        v += 1;
    }
    assert(lines.take(v as int) =~= lines);
    found
}

/// Reads a response that came after `elapsed_ms` milliseconds to a request
/// that carried the headers `sent`: its outcome, and the headers that it
/// varies on and that were not sent.
pub fn classify(response: &Response, elapsed_ms: u64, sent: &Vec<HeaderVariation>) -> (r: (
    Outcome,
    Vec<String>,
))
    ensures
        r.0 == (Outcome {
            status: response.status,
            cache_hit: cache_state(response.x_cache_view()),
            elapsed_ms,
        }),
        r.1.deep_view() == uncovered(response.vary.deep_view(), sent.deep_view()),
{
    let outcome = Outcome {
        status: response.status,
        cache_hit: cache_hit(&response.x_cache),
        elapsed_ms,
    };
    (outcome, uncovered_vary_headers(&response.vary, sent))
}

} // verus!
