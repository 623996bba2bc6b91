//! Splitting text into lines and trimming surrounding whitespace.
//!
//! Lines are the segments of the text between `'\n'` characters. A carriage
//! return before the line break needs no special handling: it is whitespace,
//! so trimming removes it. Whitespace here is the ASCII whitespace set.

use vstd::prelude::*;

verus! {

/// The characters that trimming removes from the ends of a line.
pub open spec fn is_space(c: char) -> bool {
    c == ' ' || c == '\t' || c == '\n' || c == '\r' || c == '\u{b}' || c == '\u{c}'
}

/// The line without its leading whitespace.
pub open spec fn trim_start(s: Seq<char>) -> Seq<char>
    decreases s.len(),
{
    if s.len() > 0 && is_space(s[0]) {
        trim_start(s.drop_first())
    } else {
        s
    }
}

/// The line without its trailing whitespace.
pub open spec fn trim_end(s: Seq<char>) -> Seq<char>
    decreases s.len(),
{
    if s.len() > 0 && is_space(s.last()) {
        trim_end(s.drop_last())
    } else {
        s
    }
}

/// The line without leading and trailing whitespace.
pub open spec fn spec_trim(s: Seq<char>) -> Seq<char> {
    trim_end(trim_start(s))
}

fn space_char(c: char) -> (r: bool)
    ensures
        r == is_space(c),
{
    c == ' ' || c == '\t' || c == '\n' || c == '\r' || c == '\u{b}' || c == '\u{c}'
}

/// The trimmed view of a string slice.
pub fn trim_of<'a>(s: &'a str) -> (r: &'a str)
    ensures
        r@ == spec_trim(s@),
{
    let n = s.unicode_len();
    proof {
        assert(s@.subrange(0, n as int) =~= s@);
    }
    let mut lo: usize = 0;
    while lo < n && space_char(s.get_char(lo))
        invariant
            n == s@.len(),
            lo <= n,
            trim_start(s@) == trim_start(s@.subrange(lo as int, n as int)),
        decreases n - lo,
    {
        proof {
            assert(s@.subrange(lo as int, n as int).drop_first() =~= s@.subrange(
                lo as int + 1,
                n as int,
            ));
        }
        lo = lo + 1;
    }
    proof {
        assert(trim_start(s@) == s@.subrange(lo as int, n as int));
    }
    let mut hi: usize = n;
    while hi > lo && space_char(s.get_char(hi - 1))
        invariant
            n == s@.len(),
            lo <= hi <= n,
            trim_end(s@.subrange(lo as int, n as int)) == trim_end(s@.subrange(lo as int, hi as int)),
        decreases hi,
    {
        proof {
            assert(s@.subrange(lo as int, hi as int).drop_last() =~= s@.subrange(
                lo as int,
                hi as int - 1,
            ));
        }
        hi = hi - 1;
    }
    proof {
        assert(spec_trim(s@) == s@.subrange(lo as int, hi as int));
    }
    s.substring_char(lo, hi)
}

/// The position of the first line break, or the length when there is none.
pub open spec fn first_newline(s: Seq<char>) -> int
    decreases s.len(),
{
    if s.len() == 0 {
        0
    } else if s[0] == '\n' {
        0
    } else {
        1 + first_newline(s.drop_first())
    }
}

/// The segments of the text between line breaks. Text without a line break is
/// one segment; every line break separates two segments, so text ending in a
/// line break has a final empty segment (which trims to nothing).
pub open spec fn split_lines(s: Seq<char>) -> Seq<Seq<char>>
    decreases s.len(),
{
    let i = first_newline(s);
    if 0 <= i < s.len() {
        seq![s.subrange(0, i)] + split_lines(s.subrange(i + 1, s.len() as int))
    } else {
        seq![s]
    }
}

pub proof fn lemma_first_newline(s: Seq<char>)
    ensures
        0 <= first_newline(s) <= s.len(),
        forall|j: int| 0 <= j < first_newline(s) ==> s[j] != '\n',
        first_newline(s) < s.len() ==> s[first_newline(s)] == '\n',
    decreases s.len(),
{
    if s.len() > 0 && s[0] != '\n' {
        lemma_first_newline(s.drop_first());
        assert(forall|j: int| 1 <= j < first_newline(s) ==> s[j] == s.drop_first()[j - 1]);
    }
}

pub proof fn lemma_first_newline_is(s: Seq<char>, k: int)
    requires
        0 <= k <= s.len(),
        forall|j: int| 0 <= j < k ==> s[j] != '\n',
        k < s.len() ==> s[k] == '\n',
    ensures
        first_newline(s) == k,
    decreases s.len(),
{
    if s.len() > 0 && s[0] != '\n' {
        lemma_first_newline_is(s.drop_first(), k - 1);
    }
}

fn newline_char(c: char) -> (r: bool)
    ensures
        r == (c == '\n'),
{
    c == '\n'
}

/// The lines of a string, as the segments between line breaks.
pub fn split_into_lines(s: &str) -> (r: Vec<String>)
    ensures
        r@.map_values(|l: String| l@) == split_lines(s@),
{
    let n = s.unicode_len();
    let mut lines: Vec<String> = Vec::new();
    let mut start: usize = 0;
    proof {
        assert(s@.subrange(0, n as int) =~= s@);
        assert(lines@.map_values(|l: String| l@) + split_lines(s@) =~= split_lines(s@));
    }
    loop
        invariant_except_break
            n == s@.len(),
            start <= n,
            split_lines(s@) == lines@.map_values(|l: String| l@) + split_lines(
                s@.subrange(start as int, n as int),
            ),
        ensures
            split_lines(s@) == lines@.map_values(|l: String| l@),
        decreases n - start,
    {
        let ghost tail = s@.subrange(start as int, n as int);
        let mut end: usize = start;
        while end < n && !newline_char(s.get_char(end))
            invariant
                n == s@.len(),
                start <= end <= n,
                forall|j: int| start <= j < end ==> s@[j] != '\n',
            decreases n - end,
        {
            end = end + 1;
        }
        proof {
            assert(forall|j: int| 0 <= j < end - start ==> tail[j] != '\n');
            lemma_first_newline_is(tail, end - start);
        }
        let seg = s.substring_char(start, end);
        let owned = seg.to_owned();
        let ghost old_lines = lines@;
        lines.push(owned);
        proof {
            assert(lines@.map_values(|l: String| l@) =~= old_lines.map_values(|l: String| l@)
                + seq![seg@]);
            assert(seg@ =~= tail.subrange(0, end - start));
        }
        if end == n {
            proof {
                assert(seg@ =~= tail);
                assert(split_lines(tail) == seq![tail]);
                assert(split_lines(s@) =~= lines@.map_values(|l: String| l@));
            }
            return lines;
        }
        proof {
            assert(split_lines(tail) == seq![tail.subrange(0, end - start)] + split_lines(
                tail.subrange(end - start + 1, tail.len() as int),
            ));
            assert(tail.subrange(end - start + 1, tail.len() as int) =~= s@.subrange(
                end + 1,
                n as int,
            ));
            assert(split_lines(s@) =~= lines@.map_values(|l: String| l@) + split_lines(
                s@.subrange(end as int + 1, n as int),
            ));
        }
        start = end + 1;
    }
}

/// The trimmed non-empty lines among the given segments, in order.
pub open spec fn kept_of(ls: Seq<Seq<char>>) -> Seq<Seq<char>>
    decreases ls.len(),
{
    if ls.len() == 0 {
        Seq::empty()
    } else if spec_trim(ls[0]).len() == 0 {
        kept_of(ls.drop_first())
    } else {
        seq![spec_trim(ls[0])] + kept_of(ls.drop_first())
    }
}

/// The trimmed non-empty lines of the text, in order: the lines that produce
/// tokens.
pub open spec fn kept_lines(text: Seq<char>) -> Seq<Seq<char>> {
    kept_of(split_lines(text))
}

/// Keeping lines distributes over concatenation of segment sequences.
pub proof fn lemma_kept_of_add(a: Seq<Seq<char>>, b: Seq<Seq<char>>)
    ensures
        kept_of(a + b) == kept_of(a) + kept_of(b),
    decreases a.len(),
{
    if a.len() == 0 {
        assert(a + b =~= b);
        assert(kept_of(a) + kept_of(b) =~= kept_of(b));
    } else {
        lemma_kept_of_add(a.drop_first(), b);
        assert((a + b).drop_first() =~= a.drop_first() + b);
        assert((a + b)[0] == a[0]);
        if spec_trim(a[0]).len() == 0 {
        } else {
            assert(seq![spec_trim(a[0])] + (kept_of(a.drop_first()) + kept_of(b)) =~= (seq![
                spec_trim(a[0]),
            ] + kept_of(a.drop_first())) + kept_of(b));
        }
    }
}

/// Splitting distributes over concatenation at a line break.
pub proof fn lemma_split_lines_concat(a: Seq<char>, b: Seq<char>)
    ensures
        split_lines(a + seq!['\n'] + b) == split_lines(a) + split_lines(b),
    decreases a.len(),
{
    let c = a + seq!['\n'] + b;
    lemma_first_newline(a);
    let i = first_newline(a);
    assert(forall|j: int| 0 <= j < i ==> c[j] == a[j]);
    if i == a.len() {
        assert(c[a.len() as int] == '\n');
        lemma_first_newline_is(c, a.len() as int);
        assert(c.subrange(0, a.len() as int) =~= a);
        assert(c.subrange(a.len() as int + 1, c.len() as int) =~= b);
        assert(split_lines(a) == seq![a]);
        assert(split_lines(c) == seq![a] + split_lines(b));
    } else {
        assert(a[i] == '\n');
        assert(c[i] == '\n');
        lemma_first_newline_is(c, i);
        let a2 = a.subrange(i + 1, a.len() as int);
        lemma_split_lines_concat(a2, b);
        assert(c.subrange(0, i) =~= a.subrange(0, i));
        assert(c.subrange(i + 1, c.len() as int) =~= a2 + seq!['\n'] + b);
        assert(seq![a.subrange(0, i)] + (split_lines(a2) + split_lines(b)) =~= (seq![
            a.subrange(0, i),
        ] + split_lines(a2)) + split_lines(b));
    }
}

/// Keeping lines distributes over concatenation of two texts at a line break.
pub proof fn lemma_kept_lines_concat(a: Seq<char>, b: Seq<char>)
    ensures
        kept_lines(a + seq!['\n'] + b) == kept_lines(a) + kept_lines(b),
{
    lemma_split_lines_concat(a, b);
    lemma_kept_of_add(split_lines(a), split_lines(b));
}

} // verus!
