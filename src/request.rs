//! Reading a request head: the request line, the query string and the
//! header lines.
use crate::http::{header_map, lookup_header, Header};
use crate::lookup::{first_index, lemma_first_index_at, lemma_first_index_range};
use crate::path::{trim_str, trimmed};
use crate::wire::{header_pair, split_first};
use vstd::prelude::*;
use vstd::string::StrSliceExecFns;

verus! {

broadcast use vstd::string::group_string_axioms;

/// `s` without its leading and trailing whitespace, as a new string.
fn trim_text(s: &str) -> (r: String)
    ensures
        r@ == trimmed(s@),
{
    trim_str(s).to_string()
}

/// `s` split at its first `c`, as two new strings.
pub fn split_once(s: &str, c: char) -> (r: Option<(String, String)>)
    ensures
        match split_first(s@, c) {
            Some((a, b)) => r matches Some((x, y)) && x@ == a && y@ == b,
            None => r is None,
        },
{
    let n = s.unicode_len();
    let mut i: usize = 0;
    proof {
        lemma_first_index_range(s@, c);
    }
    while i < n
        invariant
            i <= n,
            n == s@.len(),
            forall|j: int| 0 <= j < i ==> s@[j] != c,
        decreases n - i,
    {
        if s.get_char(i) == c {
            proof {
                lemma_first_index_at(s@, c, i as int);
            }
            let a = s.substring_char(0, i).to_string();
            let b = s.substring_char(i + 1, n).to_string();
            return Some((a, b));
        }
        i = i + 1;
    }
    None
}

/// The text up to the first `c`, or all of it.
pub open spec fn before_first(s: Seq<char>, c: char) -> Seq<char> {
    match split_first(s, c) {
        Some((a, _)) => a,
        None => s,
    }
}

fn take_before(s: &str, c: char) -> (r: String)
    ensures
        r@ == before_first(s@, c),
{
    match split_once(s, c) {
        Some((a, _)) => a,
        None => s.to_string(),
    }
}

/// The parts of a request line `METHOD TARGET VERSION`: the method, the
/// target, and the version up to any further space, trimmed; `None` where
/// the line has fewer than two spaces.
pub open spec fn request_line_parts(line: Seq<char>) -> Option<(Seq<char>, Seq<char>, Seq<char>)> {
    match split_first(line, ' ') {
        Some((method, r1)) => match split_first(r1, ' ') {
            Some((target, r2)) => Some((method, target, trimmed(before_first(r2, ' ')))),
            None => None,
        },
        None => None,
    }
}

/// Reads a request line.
pub fn parse_request_line(line: &str) -> (r: Option<(String, String, String)>)
    ensures
        match request_line_parts(line@) {
            Some((m, t, v)) => r matches Some((x, y, z)) && x@ == m && y@ == t && z@ == v,
            None => r is None,
        },
{
    match split_once(line, ' ') {
        None => None,
        Some((method, r1)) => match split_once(r1.as_str(), ' ') {
            None => None,
            Some((target, r2)) => {
                let v = take_before(r2.as_str(), ' ');
                let version = trim_text(v.as_str());
                Some((method, target, version))
            },
        },
    }
}

/// A query parameter `key=value`: the key up to the first `=`, and the
/// value up to any further `=`.
pub open spec fn query_pair(p: Seq<char>) -> Option<(Seq<char>, Seq<char>)> {
    match split_first(p, '=') {
        Some((k, rest)) => Some((k, before_first(rest, '='))),
        None => None,
    }
}

/// The path of a request target: up to the first `?`, with one trailing `/`
/// taken off.
pub open spec fn target_path(t: Seq<char>) -> Seq<char> {
    let p = before_first(t, '?');
    if p.len() > 0 && p.last() == '/' {
        p.drop_last()
    } else {
        p
    }
}

/// The `&`-separated `key=value` pairs of a query text, in order; `None`
/// where a pair has no `=`.
pub open spec fn query_pairs(q: Seq<char>) -> Option<Seq<(Seq<char>, Seq<char>)>>
    decreases q.len(),
{
    match split_first(q, '&') {
        Some((a, b)) => if b.len() < q.len() {
            match (query_pair(a), query_pairs(b)) {
                (Some(p), Some(rest)) => Some(seq![p] + rest),
                _ => None,
            }
        } else {
            None
        },
        None => match query_pair(q) {
            Some(p) => Some(seq![p]),
            None => None,
        },
    }
}

/// The query text of a request target: after the first `?`, up to any
/// further `?`.
pub open spec fn target_query(t: Seq<char>) -> Option<Seq<char>> {
    match split_first(t, '?') {
        Some((_, rest)) => Some(before_first(rest, '?')),
        None => None,
    }
}

/// `pre` in front of the pairs of `o`, if there are any.
pub open spec fn prepend_pairs(pre: Seq<(Seq<char>, Seq<char>)>, o: Option<Seq<(Seq<char>, Seq<char>)>>) -> Option<Seq<(Seq<char>, Seq<char>)>> {
    match o {
        Some(x) => Some(pre + x),
        None => None,
    }
}

/// Splits a request target into its path and its query parameters. `None`
/// where a query pair has no `=`.
pub fn split_target(target: &str) -> (r: Option<(String, Vec<Header>)>)
    ensures
        match target_query(target@) {
            None => r matches Some((p, q)) && p@ == target_path(target@) && q@.len() == 0,
            Some(qt) => match query_pairs(qt) {
                Some(ps) => r matches Some((p, q)) && p@ == target_path(target@) && q@.map_values(|h: Header| header_pair(h)) == ps,
                None => r is None,
            },
        },
{
    let (path, query) = match split_once(target, '?') {
        Some((p, rest)) => (p, Some(take_before(rest.as_str(), '?'))),
        None => (target.to_string(), None),
    };
    let mut params: Vec<Header> = Vec::new();
    assert(match query {
        Some(q) => target_query(target@) == Some(q@),
        None => target_query(target@) is None,
    });
    match query {
        None => {},
        Some(q) => {
            let mut rest = q.clone();
            let mut more = true;
            proof {
                assert(params@.map_values(|h: Header| header_pair(h)) =~= Seq::<(Seq<char>, Seq<char>)>::empty());
                assert(prepend_pairs(Seq::empty(), query_pairs(rest@)) =~~= query_pairs(rest@)) by {
                    match query_pairs(rest@) {
                        Some(x) => {
                            assert(Seq::<(Seq<char>, Seq<char>)>::empty() + x =~= x);
                        },
                        None => {},
                    }
                }
            }
            while more
                invariant
                    target_query(target@) == Some(q@),
                    more ==> query_pairs(q@) == prepend_pairs(params@.map_values(|h: Header| header_pair(h)), query_pairs(rest@)),
                    !more ==> query_pairs(q@) == Some(params@.map_values(|h: Header| header_pair(h))),
                decreases rest@.len() + (if more { 1int } else { 0int }),
            {
                let ghost pre = params@.map_values(|h: Header| header_pair(h));
                let ghost old_rest = rest@;
                proof {
                    lemma_first_index_range(rest@, '&');
                }
                let (pair, tail) = match split_once(rest.as_str(), '&') {
                    Some((a, b)) => (a, Some(b)),
                    None => (rest.clone(), None),
                };
                proof {
                    match split_first(old_rest, '&') {
                        Some((a, b)) => {
                            assert(b.len() < old_rest.len());
                            assert(pair@ == a);
                        },
                        None => {
                            assert(pair@ == old_rest);
                        },
                    }
                }
                match split_once(pair.as_str(), '=') {
                    None => {
                        assert(query_pair(pair@) is None);
                        assert(query_pairs(old_rest) is None);
                        return None;
                    },
                    Some((k, v)) => {
                        let value = take_before(v.as_str(), '=');
                        let h = Header { name: k, value };
                        let ghost hp = header_pair(h);
                        params.push(h);
                        proof {
                            assert(params@.map_values(|h: Header| header_pair(h)) =~= pre + seq![hp]);
                        }
                    },
                }
                match tail {
                    Some(t) => {
                        rest = t;
                        proof {
                            let post = params@.map_values(|h: Header| header_pair(h));
                            match query_pairs(rest@) {
                                Some(x) => {
                                    assert(pre + (seq![post.last()] + x) =~= post + x);
                                },
                                None => {},
                            }
                        }
                    },
                    None => {
                        more = false;
                        proof {
                            let post = params@.map_values(|h: Header| header_pair(h));
                            assert(query_pairs(old_rest) == Some(seq![post.last()]));
                            assert(pre + seq![post.last()] =~= post);
                        }
                    },
                }
            }
        },
    }
    let n = path.as_str().unicode_len();
    assert(path@ == before_first(target@, '?'));
    let p = if n > 0 && path.as_str().get_char(n - 1) == '/' {
        proof {
            assert(path@.subrange(0, path@.len() - 1) =~= path@.drop_last());
        }
        path.as_str().substring_char(0, n - 1).to_string()
    } else {
        path
    };
    Some((p, params))
}

/// A header line `Name: value`: the name up to the first `:`, and the rest
/// of the line, trimmed.
pub open spec fn header_parts(line: Seq<char>) -> Option<(Seq<char>, Seq<char>)> {
    match split_first(line, ':') {
        Some((name, rest)) => Some((name, trimmed(rest))),
        None => None,
    }
}

/// Reads a header line.
pub fn parse_header(line: &str) -> (r: Option<Header>)
    ensures
        match header_parts(line@) {
            Some((n, v)) => r matches Some(h) && h.name@ == n && h.value@ == v,
            None => r is None,
        },
{
    match split_once(line, ':') {
        None => None,
        Some((name, rest)) => {
            let value = trim_text(rest.as_str());
            Some(Header { name, value })
        },
    }
}

/// The value of a decimal text of one or more digits.
pub open spec fn digits_value(s: Seq<char>) -> int
    decreases s.len(),
{
    if s.len() == 0 {
        0
    } else {
        10 * digits_value(s.drop_last()) + (s.last() as int - '0' as int)
    }
}

/// `s` is one or more decimal digits.
pub open spec fn all_digits(s: Seq<char>) -> bool {
    s.len() > 0 && forall|i: int| 0 <= i < s.len() ==> '0' <= #[trigger] s[i] <= '9'
}

/// The digits of a number text: the text without one leading `+`.
pub open spec fn unsigned_part(s: Seq<char>) -> Seq<char> {
    if s.len() > 0 && s[0] == '+' {
        s.drop_first()
    } else {
        s
    }
}

/// Reads a decimal number, with an optional leading `+`; `None` if the rest
/// is not one or more digits or the value does not fit a `usize`.
pub fn parse_decimal(s: &str) -> (r: Option<usize>)
    ensures
        r matches Some(n) ==> all_digits(unsigned_part(s@)) && n == digits_value(unsigned_part(s@)),
        r is None ==> !all_digits(unsigned_part(s@)) || digits_value(unsigned_part(s@)) > usize::MAX,
{
    let n = s.unicode_len();
    if n > 0 && s.get_char(0) == '+' {
        let rest = s.substring_char(1, n);
        assert(rest@ =~= s@.drop_first());
        parse_digits(rest)
    } else {
        parse_digits(s)
    }
}

/// Reads one or more decimal digits; `None` if `s` is not that or the value
/// does not fit a `usize`.
fn parse_digits(s: &str) -> (r: Option<usize>)
    ensures
        r matches Some(n) ==> all_digits(s@) && n == digits_value(s@),
        r is None ==> !all_digits(s@) || digits_value(s@) > usize::MAX,
{
    let n = s.unicode_len();
    if n == 0 {
        return None;
    }
    let mut value: usize = 0;
    let mut i: usize = 0;
    while i < n
        invariant
            i <= n,
            n == s@.len(),
            n > 0,
            forall|j: int| 0 <= j < i ==> '0' <= #[trigger] s@[j] <= '9',
            value == digits_value(s@.take(i as int)),
        decreases n - i,
    {
        let c = s.get_char(i);
        proof {
            assert(s@.take(i + 1).drop_last() =~= s@.take(i as int));
        }
        if c < '0' || c > '9' {
            return None;
        }
        let d = (c as u32 - '0' as u32) as usize;
        if value > (usize::MAX - d) / 10 {
            proof {
                assert(value * 10 + d > usize::MAX) by (nonlinear_arith)
                    requires value > (usize::MAX - d) / 10, d <= 9;
                assert(s@.take(i + 1).last() == c);
                if all_digits(s@) {
                    lemma_digits_grow(s@, i as int + 1);
                }
            }
            return None;
        }
        value = value * 10 + d;
        i = i + 1;
    }
    proof {
        assert(s@.take(n as int) =~= s@);
    }
    Some(value)
}

proof fn lemma_digits_grow(s: Seq<char>, k: int)
    requires
        0 <= k <= s.len(),
        forall|j: int| 0 <= j < k ==> '0' <= #[trigger] s[j] <= '9',
        all_digits(s),
    ensures
        digits_value(s) >= digits_value(s.take(k)),
    decreases s.len() - k,
{
    if k < s.len() {
        lemma_digits_grow(s, k + 1);
        assert(s.take(k + 1).drop_last() =~= s.take(k));
        lemma_digits_nonneg(s.take(k));
    } else {
        assert(s.take(k) =~= s);
    }
}

proof fn lemma_digits_nonneg(s: Seq<char>)
    requires
        forall|j: int| 0 <= j < s.len() ==> '0' <= #[trigger] s[j] <= '9',
    ensures
        digits_value(s) >= 0,
    decreases s.len(),
{
    if s.len() > 0 {
        lemma_digits_nonneg(s.drop_last());
    }
}

/// The length of the body that the headers announce: the `Content-Length`
/// value read as a decimal number (a leading `+` allowed), or 0 where it is
/// absent or not one.
pub fn content_length(headers: &Vec<Header>) -> (r: usize)
    ensures
        r == ({
            let hm = header_map(headers@);
            let name = "Content-Length"@;
            if hm.dom().contains(name) && all_digits(unsigned_part(hm[name])) && digits_value(unsigned_part(hm[name])) <= usize::MAX {
                digits_value(unsigned_part(hm[name]))
            } else {
                0
            }
        }),
{
    match lookup_header(headers, "Content-Length") {
        None => 0,
        Some(v) => match parse_decimal(v.as_str()) {
            Some(n) => n,
            None => 0,
        },
    }
}

} // verus!
