//! Character-level helpers shared by the descriptor parser: splitting on a
//! separator and trimming whitespace, stated over `Seq<char>`.
use vstd::prelude::*;

verus! {

/// Relies on `String::push`: it appends the one character at the end.
pub assume_specification[ String::push ](s: &mut String, ch: char)
    ensures
        final(s)@ == old(s)@.push(ch),
;

/// The pieces of `s` between occurrences of `sep`, as `str::split` yields
/// them: `k` separators give `k + 1` pieces, some of which may be empty.
pub open spec fn split_on(s: Seq<char>, sep: char) -> Seq<Seq<char>>
    decreases s.len(),
{
    if s.len() == 0 {
        seq![Seq::empty()]
    } else {
        let front = split_on(s.drop_last(), sep);
        if s.last() == sep {
            front.push(Seq::empty())
        } else {
            front.update(front.len() - 1, front.last().push(s.last()))
        }
    }
}

/// The `White_Space` characters of Unicode, which `char::is_whitespace` accepts.
pub open spec fn is_white_space(c: char) -> bool {
    ||| '\u{9}' <= c <= '\u{d}'
    ||| c == ' '
    ||| c == '\u{85}'
    ||| c == '\u{a0}'
    ||| c == '\u{1680}'
    ||| '\u{2000}' <= c <= '\u{200a}'
    ||| c == '\u{2028}'
    ||| c == '\u{2029}'
    ||| c == '\u{202f}'
    ||| c == '\u{205f}'
    ||| c == '\u{3000}'
}

/// `s` without its leading whitespace.
pub open spec fn trim_start(s: Seq<char>) -> Seq<char>
    decreases s.len(),
{
    if s.len() > 0 && is_white_space(s[0]) {
        trim_start(s.drop_first())
    } else {
        s
    }
}

/// `s` without its trailing whitespace.
pub open spec fn trim_end(s: Seq<char>) -> Seq<char>
    decreases s.len(),
{
    if s.len() > 0 && is_white_space(s.last()) {
        trim_end(s.drop_last())
    } else {
        s
    }
}

/// `s` without surrounding whitespace, as `str::trim` returns it.
pub open spec fn trim(s: Seq<char>) -> Seq<char> {
    trim_end(trim_start(s))
}

pub proof fn lemma_split_nonempty(s: Seq<char>, sep: char)
    ensures
        split_on(s, sep).len() >= 1,
    decreases s.len(),
{
    if s.len() > 0 {
        lemma_split_nonempty(s.drop_last(), sep);
    }
}

/// A run of non-separators that starts a piece extends that last piece.
pub proof fn lemma_split_run(s: Seq<char>, sep: char, start: int, end: int)
    requires
        0 <= start <= end <= s.len(),
        start == 0 || s[start - 1] == sep,
        forall|k: int| start <= k < end ==> s[k] != sep,
    ensures
        split_on(s.subrange(0, end), sep) == split_on(s.subrange(0, start), sep).drop_last().push(
            s.subrange(start, end),
        ),
    decreases end - start,
{
    if end == start {
        if start > 0 {
            assert(s.subrange(0, start).drop_last() =~= s.subrange(0, start - 1));
            lemma_split_nonempty(s.subrange(0, start - 1), sep);
        }
        assert(split_on(s.subrange(0, start), sep).last() =~= s.subrange(start, end));
        lemma_split_nonempty(s.subrange(0, start), sep);
        assert(split_on(s.subrange(0, start), sep) =~= split_on(
            s.subrange(0, start),
            sep,
        ).drop_last().push(s.subrange(start, end)));
    } else {
        lemma_split_run(s, sep, start, end - 1);
        assert(s.subrange(0, end).drop_last() =~= s.subrange(0, end - 1));
        lemma_split_nonempty(s.subrange(0, end - 1), sep);
        assert(s.subrange(start, end - 1).push(s[end - 1]) =~= s.subrange(start, end));
        assert(split_on(s.subrange(0, end), sep) =~= split_on(
            s.subrange(0, start),
            sep,
        ).drop_last().push(s.subrange(start, end)));
    }
}

/// A separator closes the last piece and opens an empty one.
pub proof fn lemma_split_sep(s: Seq<char>, sep: char, end: int)
    requires
        0 <= end < s.len(),
        s[end] == sep,
    ensures
        split_on(s.subrange(0, end + 1), sep) == split_on(s.subrange(0, end), sep).push(
            Seq::<char>::empty(),
        ),
{
    assert(s.subrange(0, end + 1).drop_last() =~= s.subrange(0, end));
}

proof fn lemma_trim_start(s: Seq<char>, lo: int)
    requires
        0 <= lo <= s.len(),
        forall|k: int| 0 <= k < lo ==> is_white_space(s[k]),
        lo < s.len() ==> !is_white_space(s[lo]),
    ensures
        trim_start(s) == s.subrange(lo, s.len() as int),
    decreases lo,
{
    if lo == 0 {
        assert(s =~= s.subrange(0, s.len() as int));
    } else {
        lemma_trim_start(s.drop_first(), lo - 1);
        assert(s.drop_first().subrange(lo - 1, s.len() - 1) =~= s.subrange(lo, s.len() as int));
    }
}

proof fn lemma_trim_end(s: Seq<char>, hi: int)
    requires
        0 <= hi <= s.len(),
        forall|k: int| hi <= k < s.len() ==> is_white_space(s[k]),
        hi > 0 ==> !is_white_space(s[hi - 1]),
    ensures
        trim_end(s) == s.subrange(0, hi),
    decreases s.len() - hi,
{
    if hi == s.len() {
        assert(s =~= s.subrange(0, hi));
    } else {
        lemma_trim_end(s.drop_last(), hi);
        assert(s.drop_last().subrange(0, hi) =~= s.subrange(0, hi));
    }
}

/// Where the first and the last non-whitespace characters stand, the
/// trimmed text lies between them.
pub proof fn lemma_trim(s: Seq<char>, lo: int, hi: int)
    requires
        0 <= lo <= hi <= s.len(),
        forall|k: int| 0 <= k < lo ==> is_white_space(s[k]),
        forall|k: int| hi <= k < s.len() ==> is_white_space(s[k]),
        lo < hi ==> !is_white_space(s[lo]) && !is_white_space(s[hi - 1]),
        lo == hi ==> lo == s.len(),
    ensures
        trim(s) == s.subrange(lo, hi),
{
    lemma_trim_start(s, lo);
    let t = s.subrange(lo, s.len() as int);
    lemma_trim_end(t, hi - lo);
    assert(t.subrange(0, hi - lo) =~= s.subrange(lo, hi));
}

/// Whether `c` is whitespace, as `char::is_whitespace` decides it.
pub fn is_white_space_char(c: char) -> (r: bool)
    ensures
        r == is_white_space(c),
{
    ('\u{9}' <= c && c <= '\u{d}') || c == ' ' || c == '\u{85}' || c == '\u{a0}' || c
        == '\u{1680}' || ('\u{2000}' <= c && c <= '\u{200a}') || c == '\u{2028}' || c
        == '\u{2029}' || c == '\u{202f}' || c == '\u{205f}' || c == '\u{3000}'
}

/// The characters of `s`, in order.
pub fn chars_of(s: &str) -> (r: Vec<char>)
    ensures
        r@ == s@,
{
    let mut r: Vec<char> = Vec::new();
    for c in it: s.chars()
        invariant
            r@ == it.seq().subrange(0, it.index() as int),
    {
        r.push(c);
    }
    r
}

/// Appends the characters `text[lo..hi]` to `out`.
pub fn push_chars(out: &mut String, text: &Vec<char>, lo: usize, hi: usize)
    requires
        lo <= hi <= text@.len(),
    ensures
        final(out)@ == old(out)@ + text@.subrange(lo as int, hi as int),
{
    let mut i: usize = lo;
    while i < hi
        invariant
            lo <= i <= hi <= text@.len(),
            out@ == old(out)@ + text@.subrange(lo as int, i as int),
        decreases hi - i,
    {
        out.push(text[i]);
        assert(text@.subrange(lo as int, i + 1) =~= text@.subrange(lo as int, i as int).push(
            text@[i as int],
        ));
        i = i + 1;
    }
}

/// The characters `text[lo..hi]` as a `String`.
pub fn string_of(text: &Vec<char>, lo: usize, hi: usize) -> (r: String)
    requires
        lo <= hi <= text@.len(),
    ensures
        r@ == text@.subrange(lo as int, hi as int),
{
    let mut r = String::new();
    push_chars(&mut r, text, lo, hi);
    assert(Seq::<char>::empty() + text@.subrange(lo as int, hi as int) =~= text@.subrange(
        lo as int,
        hi as int,
    ));
    r
}

/// Whether `text[lo..hi]` begins with `prefix`.
pub fn starts_with_at(text: &Vec<char>, lo: usize, hi: usize, prefix: &Vec<char>) -> (r: bool)
    requires
        lo <= hi <= text@.len(),
    ensures
        r == (prefix@.len() <= hi - lo && text@.subrange(lo as int, hi as int).subrange(
            0,
            prefix@.len() as int,
        ) == prefix@),
{
    if prefix.len() > hi - lo {
        return false;
    }
    let mut k: usize = 0;
    while k < prefix.len()
        invariant
            lo <= hi <= text@.len(),
            prefix@.len() <= hi - lo,
            k <= prefix@.len(),
            forall|j: int| 0 <= j < k ==> text@[lo + j] == prefix@[j],
        decreases prefix@.len() - k,
    {
        if text[lo + k] != prefix[k] {
            assert(text@.subrange(lo as int, hi as int).subrange(0, prefix@.len() as int)[k as int]
                != prefix@[k as int]);
            return false;
        }
        k = k + 1;
    }
    assert(text@.subrange(lo as int, hi as int).subrange(0, prefix@.len() as int) =~= prefix@);
    true
}

/// Whether `text[lo..hi]`, with surrounding whitespace removed, is `word`.
pub fn trimmed_equals(text: &Vec<char>, lo: usize, hi: usize, word: &Vec<char>) -> (r: bool)
    requires
        lo <= hi <= text@.len(),
    ensures
        r == (trim(text@.subrange(lo as int, hi as int)) == word@),
{
    let ghost s = text@.subrange(lo as int, hi as int);
    let mut a: usize = lo;
    while a < hi && is_white_space_char(text[a])
        invariant
            lo <= a <= hi <= text@.len(),
            forall|k: int| lo <= k < a ==> is_white_space(text@[k]),
        decreases hi - a,
    {
        a = a + 1;
    }
    let mut b: usize = hi;
    while b > a && is_white_space_char(text[b - 1])
        invariant
            lo <= a <= b <= hi <= text@.len(),
            forall|k: int| b <= k < hi ==> is_white_space(text@[k]),
        decreases b - a,
    {
        b = b - 1;
    }
    proof {
        if a == b && a < hi {
            assert(is_white_space(text@[a as int]));
            assert(false);
        }
        lemma_trim(s, a - lo, b - lo);
        assert(s.subrange(a - lo, b - lo) =~= text@.subrange(a as int, b as int));
    }
    if b - a != word.len() {
        return false;
    }
    let mut k: usize = 0;
    while k < word.len()
        invariant
            lo <= a <= b <= hi <= text@.len(),
            trim(text@.subrange(lo as int, hi as int)) == text@.subrange(a as int, b as int),
            b - a == word@.len(),
            k <= word@.len(),
            forall|j: int| 0 <= j < k ==> text@[a + j] == word@[j],
        decreases word@.len() - k,
    {
        if text[a + k] != word[k] {
            assert(text@.subrange(a as int, b as int)[k as int] != word@[k as int]);
            return false;
        }
        k = k + 1;
    }
    assert(text@.subrange(a as int, b as int) =~= word@);
    true
}

} // verus!
