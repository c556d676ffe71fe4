use vstd::prelude::*;
use vstd::seq_lib::lemma_flatten_concat;

verus! {

/// The lines of `s` from scan position `i`, the current line having begun at
/// `start`. A line ends after `\n`, after `\r\n`, or after a `\r` that no
/// `\n` follows; the terminator stays part of the line, and a last line
/// without one is kept as it is.
pub open spec fn lines_from(s: Seq<char>, start: int, i: int) -> Seq<Seq<char>>
    decreases s.len() - i,
{
    if i >= s.len() || i < 0 {
        if 0 <= start < s.len() {
            seq![s.subrange(start, s.len() as int)]
        } else {
            seq![]
        }
    } else if s[i] == '\n' {
        seq![s.subrange(start, i + 1)] + lines_from(s, i + 1, i + 1)
    } else if s[i] == '\r' {
        if i + 1 < s.len() && s[i + 1] == '\n' {
            seq![s.subrange(start, i + 2)] + lines_from(s, i + 2, i + 2)
        } else {
            seq![s.subrange(start, i + 1)] + lines_from(s, i + 1, i + 1)
        }
    } else {
        lines_from(s, start, i + 1)
    }
}

/// `s` cut into lines, each with its terminator.
pub open spec fn line_tokens(s: Seq<char>) -> Seq<Seq<char>> {
    lines_from(s, 0, 0)
}

/// The lines scanned from `(start, i)` put back together give the rest of
/// `s`, and there are no more of them than characters left.
pub proof fn lemma_lines_from(s: Seq<char>, start: int, i: int)
    requires
        0 <= start <= i <= s.len(),
    ensures
        lines_from(s, start, i).flatten() == s.subrange(start, s.len() as int),
        lines_from(s, start, i).len() <= s.len() - start,
    decreases s.len() - i,
{
    let rest_start: int = if i < s.len() && s[i] == '\r' && i + 1 < s.len() && s[i + 1] == '\n' {
        i + 2
    } else {
        i + 1
    };
    if i >= s.len() {
        if start < s.len() {
            seq![s.subrange(start, s.len() as int)].lemma_flatten_one_element();
        } else {
            assert(s.subrange(start, s.len() as int) =~= Seq::<char>::empty());
        }
    } else if s[i] == '\n' || s[i] == '\r' {
        lemma_lines_from(s, rest_start, rest_start);
        let head = seq![s.subrange(start, rest_start)];
        lemma_flatten_concat(head, lines_from(s, rest_start, rest_start));
        head.lemma_flatten_one_element();
        assert(s.subrange(start, rest_start) + s.subrange(rest_start, s.len() as int)
            =~= s.subrange(start, s.len() as int));
    } else {
        lemma_lines_from(s, start, i + 1);
    }
}

/// Joining the lines of `s` gives back `s`.
pub proof fn lemma_line_tokens(s: Seq<char>)
    ensures
        line_tokens(s).flatten() == s,
        line_tokens(s).len() <= s.len(),
{
    lemma_lines_from(s, 0, 0);
    assert(s.subrange(0, s.len() as int) =~= s);
}

} // verus!

verus! {

/// The characters of `s`, in order.
/// Relies on `str::chars` collected into a `Vec`: one entry per character.
#[verifier::external_body]
pub(crate) fn chars_of(s: &str) -> (r: Vec<char>)
    ensures
        r@ == s@,
{
    s.chars().collect()
}

/// The string made of `cs`, in order.
/// Relies on `String: FromIterator<char>`: the characters are appended one by one.
#[verifier::external_body]
pub(crate) fn string_of(cs: &[char]) -> (r: String)
    ensures
        r@ == cs@,
{
    cs.iter().collect()
}

/// The views of a sequence of strings.
pub open spec fn views(ls: Seq<String>) -> Seq<Seq<char>> {
    ls.map_values(|l: String| l@)
}

/// Cuts `s` into lines the way `line_tokens` describes.
pub fn split_lines(s: &str) -> (r: Vec<String>)
    ensures
        views(r@) == line_tokens(s@),
{
    let cs = chars_of(s);
    let n = cs.len();
    let mut out: Vec<String> = Vec::new();
    let mut cur: Vec<char> = Vec::new();
    let mut start: usize = 0;
    let mut i: usize = 0;
    while i < n
        invariant
            cs@ == s@,
            n == cs@.len(),
            start <= i <= n,
            cur@ == cs@.subrange(start as int, i as int),
            views(out@) + lines_from(cs@, start as int, i as int) == line_tokens(s@),
        decreases n - i,
    {
        let c = cs[i];
        cur.push(c);
        if c == '\n' || (c == '\r' && !(i + 1 < n && cs[i + 1] == '\n')) {
            let line = string_of(cur.as_slice());
            proof {
                assert(cur@ == cs@.subrange(start as int, i + 1));
                assert(views(out@.push(line)) =~= views(out@).push(line@));
                assert(views(out@).push(line@) + lines_from(cs@, i + 1, i + 1) =~= views(out@)
                    + lines_from(cs@, start as int, i as int));
            }
            out.push(line);
            cur = Vec::new();
            i = i + 1;
            start = i;
        } else if c == '\r' {
            cur.push('\n');
            let line = string_of(cur.as_slice());
            proof {
                assert(cur@ =~= cs@.subrange(start as int, i + 2));
                assert(views(out@.push(line)) =~= views(out@).push(line@));
                assert(views(out@).push(line@) + lines_from(cs@, i + 2, i + 2) =~= views(out@)
                    + lines_from(cs@, start as int, i as int));
            }
            out.push(line);
            cur = Vec::new();
            i = i + 2;
            start = i;
        } else {
            proof {
                assert(cur@ =~= cs@.subrange(start as int, i + 1));
            }
            i = i + 1;
        }
    }
    if start < n {
        let line = string_of(cur.as_slice());
        proof {
            assert(views(out@.push(line)) =~= views(out@) + seq![line@]);
        }
        out.push(line);
    } else {
        assert(views(out@) + seq![] =~= views(out@));
    }
    out
}

} // verus!
