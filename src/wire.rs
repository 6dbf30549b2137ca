//! The bytes of a response as sent on the connection.
use crate::http::{header_map, header_set, set_header, status_text, Header, Response};
use crate::lookup::{first_index, lemma_first_index_at};
use vstd::prelude::*;
use vstd::string::{StrSliceExecFns, StringExecFns};
use vstd::utf8::encode_utf8;

verus! {

broadcast use vstd::string::group_string_axioms;

/// The decimal digit for `d`, where `d < 10`.
pub open spec fn digit(d: nat) -> char {
    if d == 0 { '0' } else if d == 1 { '1' } else if d == 2 { '2' } else if d == 3 { '3' } else if d == 4 { '4' }
    else if d == 5 { '5' } else if d == 6 { '6' } else if d == 7 { '7' } else if d == 8 { '8' } else { '9' }
}

/// The decimal text of `n`, without leading zeros.
pub open spec fn decimal(n: nat) -> Seq<char>
    decreases n,
{
    if n < 10 {
        seq![digit(n)]
    } else {
        decimal(n / 10).push(digit(n % 10))
    }
}

/// The one-digit text of `d`, where `d < 10`.
fn digit_text(d: usize) -> (r: String)
    requires
        d < 10,
    ensures
        r@ == seq![digit(d as nat)],
{
    let r = if d == 0 {
        "0".to_string()
    } else if d == 1 {
        "1".to_string()
    } else if d == 2 {
        "2".to_string()
    } else if d == 3 {
        "3".to_string()
    } else if d == 4 {
        "4".to_string()
    } else if d == 5 {
        "5".to_string()
    } else if d == 6 {
        "6".to_string()
    } else if d == 7 {
        "7".to_string()
    } else if d == 8 {
        "8".to_string()
    } else {
        "9".to_string()
    };
    proof {
        reveal_strlit("0");
        reveal_strlit("1");
        reveal_strlit("2");
        reveal_strlit("3");
        reveal_strlit("4");
        reveal_strlit("5");
        reveal_strlit("6");
        reveal_strlit("7");
        reveal_strlit("8");
        reveal_strlit("9");
        assert(r@ =~= seq![digit(d as nat)]);
    }
    r
}

/// The decimal text of `n`.
pub fn decimal_text(n: usize) -> (r: String)
    ensures
        r@ == decimal(n as nat),
    decreases n,
{
    if n < 10 {
        digit_text(n)
    } else {
        let mut r = decimal_text(n / 10);
        let d = digit_text(n % 10);
        r.append(d.as_str());
        assert(r@ =~= decimal((n / 10) as nat).push(digit((n % 10) as nat)));
        r
    }
}

/// The header lines of a head, each `name: value` and a line break.
pub open spec fn header_lines(hs: Seq<Header>) -> Seq<char>
    decreases hs.len(),
{
    if hs.len() == 0 {
        Seq::empty()
    } else {
        header_lines(hs.drop_last()) + hs.last().name@ + ": "@ + hs.last().value@ + "\r\n"@
    }
}

/// The head of a response: the status line, the header lines, and the
/// blank line that ends them.
pub open spec fn head_text(version: Seq<char>, resp: Response) -> Seq<char> {
    version + " "@ + status_text(resp.status) + "\r\n"@ + header_lines(resp.headers@) + "\r\n"@
}

impl Response {
    /// Sets the `Content-Length` header to the length of the body.
    pub fn set_content_length(&mut self)
        ensures
            exists|h: Header| h.name@ == "Content-Length"@ && h.value@ == decimal(old(self).body@.len())
                && #[trigger] header_set(old(self).headers@, h) == final(self).headers@,
            header_map(final(self).headers@) == header_map(old(self).headers@).insert("Content-Length"@, decimal(old(self).body@.len())),
            final(self).status == old(self).status,
            final(self).body == old(self).body,
    {
        let len = decimal_text(self.body.len());
        set_header(&mut self.headers, "Content-Length".to_string(), len);
    }

    /// The head of the response, for a request of protocol `version`.
    pub fn head(&self, version: &str) -> (r: String)
        ensures
            r@ == head_text(version@, *self),
    {
        let mut out = version.to_string();
        out.append(" ");
        let status = self.status.as_raw();
        out.append(status.as_str());
        out.append("\r\n");
        let mut i: usize = 0;
        while i < self.headers.len()
            invariant
                i <= self.headers@.len(),
                out@ == version@ + " "@ + status_text(self.status) + "\r\n"@ + header_lines(self.headers@.take(i as int)),
            decreases self.headers@.len() - i,
        {
            let ghost before = out@;
            out.append(self.headers[i].name.as_str());
            out.append(": ");
            out.append(self.headers[i].value.as_str());
            out.append("\r\n");
            proof {
                let t = self.headers@.take(i + 1);
                assert(t.drop_last() =~= self.headers@.take(i as int));
                assert(out@ =~= before + self.headers@[i as int].name@ + ": "@ + self.headers@[i as int].value@ + "\r\n"@);
            }
            i = i + 1;
        }
        proof {
            assert(self.headers@.take(i as int) =~= self.headers@);
        }
        out.append("\r\n");
        out
    }

    /// The bytes to send for the response to a request of protocol
    /// `version`: the `Content-Length` header is set to the length of the
    /// body first, then the head is followed by the body.
    pub fn to_bytes(&mut self, version: &str) -> (r: Vec<u8>)
        ensures
            exists|h: Header| h.name@ == "Content-Length"@ && h.value@ == decimal(old(self).body@.len())
                && #[trigger] header_set(old(self).headers@, h) == final(self).headers@,
            header_map(final(self).headers@) == header_map(old(self).headers@).insert("Content-Length"@, decimal(old(self).body@.len())),
            final(self).status == old(self).status,
            final(self).body == old(self).body,
            r@ == encode_utf8(head_text(version@, *final(self))) + old(self).body@,
    {
        self.set_content_length();
        let head = self.head(version);
        let mut out = head.as_str().as_bytes_vec();
        let mut i: usize = 0;
        let ghost start = out@;
        while i < self.body.len()
            invariant
                i <= self.body@.len(),
                out@ == start + self.body@.take(i as int),
            decreases self.body@.len() - i,
        {
            out.push(self.body[i]);
            i = i + 1;
            assert(out@ =~= start + self.body@.take(i as int));
        }
        assert(self.body@.take(i as int) =~= self.body@);
        out
    }
}

/// `s` does not hold `c`.
pub open spec fn lacks(s: Seq<char>, c: char) -> bool {
    forall|i: int| 0 <= i < s.len() ==> s[i] != c
}

/// The text of lines, each followed by a line break.
pub open spec fn lines_text(ls: Seq<Seq<char>>) -> Seq<char>
    decreases ls.len(),
{
    if ls.len() == 0 {
        Seq::empty()
    } else {
        ls[0] + "\r\n"@ + lines_text(ls.drop_first())
    }
}

/// How a reader splits a text into lines: each line ends at the first `\r`,
/// which a `\n` must follow; `None` if the text does not end with a line
/// break or holds a `\r` without `\n`.
pub open spec fn split_lines(t: Seq<char>) -> Option<Seq<Seq<char>>>
    decreases t.len(),
{
    if t.len() == 0 {
        Some(Seq::empty())
    } else {
        let j = first_index(t, '\r');
        if 0 <= j && j + 1 < t.len() && t[j + 1] == '\n' {
            match split_lines(t.subrange(j + 2, t.len() as int)) {
                Some(rest) => Some(seq![t.subrange(0, j)] + rest),
                None => None,
            }
        } else {
            None
        }
    }
}

/// `s` split at the first `c`, if it holds one.
pub open spec fn split_first(s: Seq<char>, c: char) -> Option<(Seq<char>, Seq<char>)> {
    let j = first_index(s, c);
    if 0 <= j < s.len() {
        Some((s.subrange(0, j), s.subrange(j + 1, s.len() as int)))
    } else {
        None
    }
}

/// How a reader reads a header line `name: value`.
pub open spec fn parse_header_line(l: Seq<char>) -> Option<(Seq<char>, Seq<char>)> {
    match split_first(l, ':') {
        Some((name, rest)) => if rest.len() > 0 && rest[0] == ' ' {
            Some((name, rest.drop_first()))
        } else {
            None
        },
        None => None,
    }
}

pub open spec fn parse_header_lines(ls: Seq<Seq<char>>) -> Option<Seq<(Seq<char>, Seq<char>)>>
    decreases ls.len(),
{
    if ls.len() == 0 {
        Some(Seq::empty())
    } else {
        match (parse_header_line(ls[0]), parse_header_lines(ls.drop_first())) {
            (Some(h), Some(rest)) => Some(seq![h] + rest),
            _ => None,
        }
    }
}

/// How a reader reads a response head: the protocol version and the status
/// from the first line, split at its first space, then the header lines up
/// to the blank line that ends the head.
pub open spec fn parse_head(t: Seq<char>) -> Option<(Seq<char>, Seq<char>, Seq<(Seq<char>, Seq<char>)>)> {
    match split_lines(t) {
        Some(ls) => if ls.len() >= 2 && ls.last().len() == 0 {
            match (split_first(ls[0], ' '), parse_header_lines(ls.subrange(1, ls.len() - 1))) {
                (Some((version, status)), Some(hs)) => Some((version, status, hs)),
                _ => None,
            }
        } else {
            None
        },
        None => None,
    }
}

/// The header line of a header, without its line break.
pub open spec fn header_line(h: Header) -> Seq<char> {
    h.name@ + ": "@ + h.value@
}

/// A header as a name and value.
pub open spec fn header_pair(h: Header) -> (Seq<char>, Seq<char>) {
    (h.name@, h.value@)
}

proof fn lemma_split_at_first(s: Seq<char>, c: char, a: Seq<char>, b: Seq<char>)
    requires
        s == a + seq![c] + b,
        lacks(a, c),
    ensures
        split_first(s, c) == Some((a, b)),
{
    lemma_first_index_at(s, c, a.len() as int);
    assert(s.subrange(0, a.len() as int) =~= a);
    assert(s.subrange(a.len() as int + 1, s.len() as int) =~= b);
}

proof fn lemma_split_line(a: Seq<char>, rest: Seq<char>)
    requires
        lacks(a, '\r'),
    ensures
        split_lines(a + "\r\n"@ + rest) == match split_lines(rest) {
            Some(r) => Some(seq![a] + r),
            None => None::<Seq<Seq<char>>>,
        },
{
    reveal_strlit("\r\n");
    let t = a + "\r\n"@ + rest;
    assert(t[a.len() as int] == '\r');
    assert(t[a.len() as int + 1] == '\n');
    assert forall|j: int| 0 <= j < a.len() implies t[j] != '\r' by {
        assert(t[j] == a[j]);
    }
    lemma_first_index_at(t, '\r', a.len() as int);
    assert(t.subrange(0, a.len() as int) =~= a);
    assert(t.subrange(a.len() as int + 2, t.len() as int) =~= rest);
}

proof fn lemma_split_lines_text(ls: Seq<Seq<char>>)
    requires
        forall|i: int| 0 <= i < ls.len() ==> lacks(#[trigger] ls[i], '\r'),
    ensures
        split_lines(lines_text(ls)) == Some(ls),
    decreases ls.len(),
{
    if ls.len() > 0 {
        let rest = ls.drop_first();
        assert forall|i: int| 0 <= i < rest.len() implies lacks(#[trigger] rest[i], '\r') by {
            assert(rest[i] == ls[i + 1]);
        }
        lemma_split_lines_text(rest);
        assert(ls[0] + "\r\n"@ + lines_text(rest) == lines_text(ls));
        lemma_split_line(ls[0], lines_text(rest));
        assert(seq![ls[0]] + rest =~= ls);
    }
}

proof fn lemma_lines_text_append(a: Seq<Seq<char>>, b: Seq<Seq<char>>)
    ensures
        lines_text(a + b) == lines_text(a) + lines_text(b),
    decreases a.len(),
{
    if a.len() == 0 {
        assert(a + b =~= b);
        assert(lines_text(a) + lines_text(b) =~= lines_text(b));
    } else {
        lemma_lines_text_append(a.drop_first(), b);
        assert((a + b).drop_first() =~= a.drop_first() + b);
        assert(lines_text(a + b) =~= lines_text(a) + lines_text(b));
    }
}

proof fn lemma_header_lines_text(hs: Seq<Header>)
    ensures
        header_lines(hs) == lines_text(hs.map_values(|h: Header| header_line(h))),
    decreases hs.len(),
{
    if hs.len() > 0 {
        let front = hs.drop_last();
        lemma_header_lines_text(front);
        let lf = front.map_values(|h: Header| header_line(h));
        let last = seq![header_line(hs.last())];
        assert(hs.map_values(|h: Header| header_line(h)) =~= lf + last);
        lemma_lines_text_append(lf, last);
        assert(last.drop_first() =~= Seq::<Seq<char>>::empty());
        assert(lines_text(last.drop_first()) == Seq::<char>::empty());
        assert(lines_text(last) =~= header_line(hs.last()) + "\r\n"@);
        assert(header_lines(hs) =~= lines_text(lf) + lines_text(last));
    }
}

proof fn lemma_parse_header_lines(hs: Seq<Header>)
    requires
        forall|i: int| 0 <= i < hs.len() ==> lacks((#[trigger] hs[i]).name@, ':'),
    ensures
        parse_header_lines(hs.map_values(|h: Header| header_line(h))) == Some(hs.map_values(|h: Header| header_pair(h))),
    decreases hs.len(),
{
    reveal_strlit(": ");
    let ls = hs.map_values(|h: Header| header_line(h));
    if hs.len() > 0 {
        let rest = hs.drop_first();
        assert forall|i: int| 0 <= i < rest.len() implies lacks((#[trigger] rest[i]).name@, ':') by {
            assert(rest[i] == hs[i + 1]);
        }
        lemma_parse_header_lines(rest);
        assert(ls.drop_first() =~= rest.map_values(|h: Header| header_line(h)));
        let h = hs[0];
        assert(ls[0] =~= h.name@ + seq![':'] + (seq![' '] + h.value@));
        lemma_split_at_first(ls[0], ':', h.name@, seq![' '] + h.value@);
        assert((seq![' '] + h.value@).drop_first() =~= h.value@);
        assert(seq![header_pair(h)] + rest.map_values(|h: Header| header_pair(h)) =~= hs.map_values(|h: Header| header_pair(h)));
    } else {
        assert(hs.map_values(|h: Header| header_pair(h)) =~= Seq::<(Seq<char>, Seq<char>)>::empty());
    }
}

/// A reader of the head that `head` writes gets back the protocol version,
/// the status, and every header with its name and value, in order, as long
/// as no line break stands inside them, no space inside the version, and no
/// `:` inside a header name.
pub proof fn lemma_head_round_trip(version: Seq<char>, resp: Response)
    requires
        lacks(version, ' '),
        lacks(version, '\r'),
        lacks(status_text(resp.status), '\r'),
        forall|i: int| 0 <= i < resp.headers@.len() ==> lacks((#[trigger] resp.headers@[i]).name@, ':')
            && lacks(resp.headers@[i].name@, '\r') && lacks(resp.headers@[i].value@, '\r'),
    ensures
        parse_head(head_text(version, resp)) == Some((version, status_text(resp.status), resp.headers@.map_values(|h: Header| header_pair(h)))),
{
    reveal_strlit(" ");
    reveal_strlit("\r\n");
    reveal_strlit(": ");
    let hs = resp.headers@;
    let first = version + " "@ + status_text(resp.status);
    let hl = hs.map_values(|h: Header| header_line(h));
    let ls = seq![first] + hl + seq![Seq::<char>::empty()];
    lemma_header_lines_text(hs);
    lemma_lines_text_append(seq![first], hl + seq![Seq::<char>::empty()]);
    lemma_lines_text_append(hl, seq![Seq::<char>::empty()]);
    assert(seq![first] + (hl + seq![Seq::<char>::empty()]) =~= ls);
    assert(seq![first].drop_first() =~= Seq::<Seq<char>>::empty());
    assert(seq![Seq::<char>::empty()].drop_first() =~= Seq::<Seq<char>>::empty());
    assert(lines_text(seq![Seq::<char>::empty()].drop_first()) == Seq::<char>::empty());
    assert(lines_text(seq![first].drop_first()) == Seq::<char>::empty());
    assert(lines_text(seq![Seq::<char>::empty()]) =~= "\r\n"@);
    assert(lines_text(seq![first]) =~= first + "\r\n"@);
    assert(head_text(version, resp) =~= lines_text(ls));
    assert forall|i: int| 0 <= i < ls.len() implies lacks(#[trigger] ls[i], '\r') by {
        if i == 0 {
            assert forall|j: int| 0 <= j < first.len() implies first[j] != '\r' by {
                if j < version.len() {
                    assert(first[j] == version[j]);
                } else if j > version.len() {
                    assert(first[j] == status_text(resp.status)[j - version.len() - 1]);
                }
            }
        } else if i < ls.len() - 1 {
            let h = hs[i - 1];
            assert(ls[i] == header_line(h));
            assert forall|j: int| 0 <= j < ls[i].len() implies ls[i][j] != '\r' by {
                if j < h.name@.len() {
                    assert(ls[i][j] == h.name@[j]);
                } else if j >= h.name@.len() + 2 {
                    assert(ls[i][j] == h.value@[j - h.name@.len() - 2]);
                }
            }
        }
    }
    lemma_split_lines_text(ls);
    assert(first =~= version + seq![' '] + status_text(resp.status));
    lemma_split_at_first(first, ' ', version, status_text(resp.status));
    assert(ls.subrange(1, ls.len() - 1) =~= hl);
    assert forall|i: int| 0 <= i < hs.len() implies lacks((#[trigger] hs[i]).name@, ':') by {}
    lemma_parse_header_lines(hs);
}

} // verus!
