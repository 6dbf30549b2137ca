//! Route paths: splitting into segments, and the placeholder mark.
use vstd::prelude::*;

verus! {

broadcast use vstd::string::group_string_axioms;

/// The text of each string of a sequence.
pub open spec fn views(v: Seq<String>) -> Seq<Seq<char>> {
    v.map_values(|s: String| s@)
}

/// A left-to-right scan of a path: the non-empty segments completed so far,
/// and the segment being read.
pub open spec fn scan(p: Seq<char>) -> (Seq<Seq<char>>, Seq<char>)
    decreases p.len(),
{
    if p.len() == 0 {
        (Seq::empty(), Seq::empty())
    } else {
        let (done, cur) = scan(p.drop_last());
        if p.last() == '/' {
            (if cur.len() > 0 { done.push(cur) } else { done }, Seq::empty())
        } else {
            (done, cur.push(p.last()))
        }
    }
}

/// The non-empty pieces of a path between `/` characters, in order.
pub open spec fn segments_of(p: Seq<char>) -> Seq<Seq<char>> {
    let (done, cur) = scan(p);
    if cur.len() > 0 {
        done.push(cur)
    } else {
        done
    }
}

/// The root path has no segment.
pub proof fn lemma_root_has_no_segment()
    ensures
        segments_of(seq!['/']) == Seq::<Seq<char>>::empty(),
{
    let p = seq!['/'];
    assert(p.drop_last() =~= Seq::<char>::empty());
    assert(scan(p.drop_last()) == (Seq::<Seq<char>>::empty(), Seq::<char>::empty()));
}

/// A segment written `:name` matches any single segment.
pub open spec fn is_placeholder(seg: Seq<char>) -> bool {
    seg.len() > 0 && seg[0] == ':'
}

/// What `str::trim` returns for a string: a function of its characters.
pub uninterp spec fn trimmed(s: Seq<char>) -> Seq<char>;

/// A printable ASCII character other than the space, which is never
/// whitespace.
pub open spec fn is_graphic(c: char) -> bool {
    '!' <= c <= '~'
}

/// The text begins and ends with a printable ASCII character other than the
/// space.
pub open spec fn graphic_ends(s: Seq<char>) -> bool {
    s.len() > 0 && is_graphic(s[0]) && is_graphic(s.last())
}

/// Relies on `str::trim`: the string without its leading and trailing
/// whitespace (Unicode `White_Space`), which depends on the characters
/// alone; a string with no whitespace at either end comes back as it is.
#[verifier::external_body]
pub(crate) fn trim_str(s: &str) -> (r: &str)
    ensures
        r@ == trimmed(s@),
        graphic_ends(s@) ==> r@ == s@,
        s@.len() == 0 ==> r@.len() == 0,
{
    s.trim()
}

/// Whether the path, once trimmed, is the root path `/`.
pub fn is_root_path(path: &str) -> (r: bool)
    ensures
        r == (trimmed(path@) == seq!['/']),
        graphic_ends(path@) ==> trimmed(path@) == path@,
{
    let t = trim_str(path);
    let n = t.unicode_len();
    if n == 1 {
        let c = t.get_char(0);
        if c == '/' {
            assert(t@ =~= seq!['/']);
            true
        } else {
            false
        }
    } else {
        false
    }
}

/// Whether a segment is a placeholder (starts with `:`).
pub fn placeholder(seg: &String) -> (r: bool)
    ensures
        r == is_placeholder(seg@),
{
    let s = seg.as_str();
    s.unicode_len() > 0 && s.get_char(0) == ':'
}

proof fn lemma_views_push(v: Seq<String>, s: String)
    ensures
        views(v.push(s)) == views(v).push(s@),
{
    assert(views(v.push(s)) =~= views(v).push(s@));
}

/// Splits a path into its non-empty segments.
pub fn split_path(path: &str) -> (r: Vec<String>)
    ensures
        views(r@) == segments_of(path@),
{
    let n = path.unicode_len();
    let mut out: Vec<String> = Vec::new();
    let mut start: usize = 0;
    let mut i: usize = 0;
    proof {
        assert(path@.take(0) =~= Seq::<char>::empty());
        assert(views(out@) =~= Seq::<Seq<char>>::empty());
        assert(path@.subrange(0, 0) =~= Seq::<char>::empty());
    }
    while i < n
        invariant
            start <= i <= n,
            n == path@.len(),
            scan(path@.take(i as int)) == (views(out@), path@.subrange(start as int, i as int)),
        decreases n - i,
    {
        let c = path.get_char(i);
        proof {
            let p = path@.take(i + 1);
            assert(p.drop_last() =~= path@.take(i as int));
            assert(p.last() == c);
        }
        if c == '/' {
            if start < i {
                let piece = path.substring_char(start, i).to_string();
                proof {
                    lemma_views_push(out@, piece);
                }
                out.push(piece);
            }
            start = i + 1;
            proof {
                assert(path@.subrange(start as int, start as int) =~= Seq::<char>::empty());
            }
        } else {
            proof {
                assert(path@.subrange(start as int, i + 1) =~= path@.subrange(start as int, i as int).push(c));
            }
        }
        i = i + 1;
    }
    proof {
        assert(path@.take(n as int) =~= path@);
    }
    if start < n {
        let piece = path.substring_char(start, n).to_string();
        proof {
            lemma_views_push(out@, piece);
        }
        out.push(piece);
    }
    out
}

} // verus!
