//! The descriptor format. The `[Desktop Entry]` block begins right after the
//! first occurrence of `[Desktop Entry]` in the text, wherever it stands, and
//! ends at the next line that begins with `[Desktop` or at the end of the
//! file. Within the block the first `Name` and the first `Exec` key are kept;
//! the `Exec` value then loses its field codes (`%f`, `%U`, ...).
use vstd::prelude::*;

use crate::errors::Errors;
use crate::text::{
    lemma_split_run, lemma_split_sep, push_chars, split_on, starts_with_at, string_of, trim,
    trimmed_equals,
};

verus! {

pub open spec fn section_header() -> Seq<char> {
    seq!['[', 'D', 'e', 's', 'k', 't', 'o', 'p', ' ', 'E', 'n', 't', 'r', 'y', ']']
}

pub open spec fn section_prefix() -> Seq<char> {
    seq!['[', 'D', 'e', 's', 'k', 't', 'o', 'p']
}

pub open spec fn name_key() -> Seq<char> {
    seq!['N', 'a', 'm', 'e']
}

pub open spec fn exec_key() -> Seq<char> {
    seq!['E', 'x', 'e', 'c']
}

pub open spec fn starts_with(s: Seq<char>, prefix: Seq<char>) -> bool {
    prefix.len() <= s.len() && s.subrange(0, prefix.len() as int) == prefix
}

/// Whether `pat` occurs in `text` at position `i`.
pub open spec fn occurs_at(text: Seq<char>, pat: Seq<char>, i: int) -> bool {
    0 <= i && i + pat.len() <= text.len() && text.subrange(i, i + pat.len()) == pat
}

/// Whether `i` is where `pat` first occurs in `text`.
pub open spec fn first_occurrence_at(text: Seq<char>, pat: Seq<char>, i: int) -> bool {
    occurs_at(text, pat, i) && forall|j: int| 0 <= j < i ==> !#[trigger] occurs_at(text, pat, j)
}

/// Whether the text holds `[Desktop Entry]` anywhere.
pub open spec fn has_section(text: Seq<char>) -> bool {
    exists|i: int| #[trigger] occurs_at(text, section_header(), i)
}

/// Where `[Desktop Entry]` first occurs in the text (meaningful when
/// `has_section`).
pub open spec fn section_start(text: Seq<char>) -> int {
    choose|i: int| first_occurrence_at(text, section_header(), i)
}

/// The text after the first `[Desktop Entry]`, split on `\n`. Its first line
/// is what follows the header on the header's own line.
pub open spec fn lines_after_header(text: Seq<char>) -> Seq<Seq<char>> {
    split_on(
        text.subrange(section_start(text) + section_header().len(), text.len() as int),
        '\n',
    )
}

/// Where `c` first occurs in `s`.
pub open spec fn first_index_of(s: Seq<char>, c: char) -> Option<int>
    decreases s.len(),
{
    if s.len() == 0 {
        None
    } else if s[0] == c {
        Some(0)
    } else {
        match first_index_of(s.drop_first(), c) {
            Some(i) => Some(i + 1),
            None => None,
        }
    }
}

/// A `key=value` line, split at its first `=`: the key trimmed of
/// whitespace, the value as it stands. A line without `=` holds no key.
pub open spec fn key_value(line: Seq<char>) -> Option<(Seq<char>, Seq<char>)> {
    match first_index_of(line, '=') {
        Some(i) => Some((trim(line.subrange(0, i)), line.subrange(i + 1, line.len() as int))),
        None => None,
    }
}

/// Where a scan of the lines stands.
#[derive(Clone, Copy, PartialEq, Eq, Structural, Debug)]
pub enum Phase {
    /// Inside the first `[Desktop Entry]` block.
    InBlock,
    /// The block has ended; later lines are ignored.
    Done,
}

/// What a scan has gathered: the phase, and the first `Name` and `Exec`
/// values met in the block.
pub struct ScanModel {
    pub phase: Phase,
    pub name: Option<Seq<char>>,
    pub command: Option<Seq<char>>,
}

pub open spec fn scan_start() -> ScanModel {
    ScanModel { phase: Phase::InBlock, name: None, command: None }
}

/// A line inside the block: the first value of each of the two keys is kept.
pub open spec fn record(st: ScanModel, line: Seq<char>) -> ScanModel {
    match key_value(line) {
        Some((key, value)) => if key == name_key() && st.name is None {
            ScanModel { name: Some(value), ..st }
        } else if key == exec_key() && st.command is None {
            ScanModel { command: Some(value), ..st }
        } else {
            st
        },
        None => st,
    }
}

/// The scan after one more line.
pub open spec fn step(st: ScanModel, line: Seq<char>) -> ScanModel {
    match st.phase {
        Phase::InBlock => if starts_with(line, section_prefix()) {
            ScanModel { phase: Phase::Done, ..st }
        } else {
            record(st, line)
        },
        Phase::Done => st,
    }
}

/// The scan after all of `lines`, in order.
pub open spec fn scan_lines(lines: Seq<Seq<char>>) -> ScanModel
    decreases lines.len(),
{
    if lines.len() == 0 {
        scan_start()
    } else {
        step(scan_lines(lines.drop_last()), lines.last())
    }
}

/// The scan of the lines after the first `[Desktop Entry]`.
pub open spec fn scan_block(text: Seq<char>) -> ScanModel {
    scan_lines(lines_after_header(text))
}

/// One of the field codes that an `Exec` value may hold in place of
/// arguments: `%f %F %u %U %d %D %n %N %i %c %k %v %m`.
pub open spec fn is_field_code(t: Seq<char>) -> bool {
    &&& t.len() == 2
    &&& t[0] == '%'
    &&& {
        let c = t[1];
        ||| c == 'f'
        ||| c == 'F'
        ||| c == 'u'
        ||| c == 'U'
        ||| c == 'd'
        ||| c == 'D'
        ||| c == 'n'
        ||| c == 'N'
        ||| c == 'i'
        ||| c == 'c'
        ||| c == 'k'
        ||| c == 'v'
        ||| c == 'm'
    }
}

/// The tokens that are not field codes, joined with nothing between them.
pub open spec fn join_kept(tokens: Seq<Seq<char>>) -> Seq<char>
    decreases tokens.len(),
{
    if tokens.len() == 0 {
        Seq::empty()
    } else if is_field_code(tokens.last()) {
        join_kept(tokens.drop_last())
    } else {
        join_kept(tokens.drop_last()) + tokens.last()
    }
}

/// An `Exec` value split on single spaces, without its field codes, and
/// joined again without separators.
pub open spec fn strip_field_codes(value: Seq<char>) -> Seq<char> {
    join_kept(split_on(value, ' '))
}

/// What a descriptor file yields: its display name and its command line, or
/// why it yields no entry. A missing key is reported before an empty value,
/// `Name` before `Exec`; a name or a command line must not be empty.
pub open spec fn parse_descriptor(text: Seq<char>) -> Result<(Seq<char>, Seq<char>), Errors> {
    let st = scan_block(text);
    if !has_section(text) {
        Err(Errors::MissingSection)
    } else if st.name is None {
        Err(Errors::MissingName)
    } else if st.command is None {
        Err(Errors::MissingExec)
    } else if st.name->0.len() == 0 {
        Err(Errors::MissingName)
    } else if strip_field_codes(st.command->0).len() == 0 {
        Err(Errors::MissingExec)
    } else {
        Ok((st.name->0, strip_field_codes(st.command->0)))
    }
}

proof fn lemma_first_index(s: Seq<char>, c: char, i: int)
    requires
        0 <= i <= s.len(),
        forall|k: int| 0 <= k < i ==> s[k] != c,
        i < s.len() ==> s[i] == c,
    ensures
        first_index_of(s, c) == (if i < s.len() {
            Some(i)
        } else {
            None::<int>
        }),
    decreases i,
{
    if i > 0 {
        lemma_first_index(s.drop_first(), c, i - 1);
    }
}

/// Where `c` first occurs in `text[lo..hi]`, counted from the start of `text`.
fn find_char(text: &Vec<char>, lo: usize, hi: usize, c: char) -> (r: Option<usize>)
    requires
        lo <= hi <= text@.len(),
    ensures
        match r {
            Some(p) => lo <= p < hi && first_index_of(text@.subrange(lo as int, hi as int), c)
                == Some(p - lo),
            None => first_index_of(text@.subrange(lo as int, hi as int), c) is None,
        },
{
    let ghost s = text@.subrange(lo as int, hi as int);
    let mut p: usize = lo;
    while p < hi
        invariant
            lo <= p <= hi <= text@.len(),
            s == text@.subrange(lo as int, hi as int),
            forall|k: int| lo <= k < p ==> text@[k] != c,
        decreases hi - p,
    {
        if text[p] == c {
            proof {
                lemma_first_index(s, c, p - lo);
            }
            return Some(p);
        }
        p = p + 1;
    }
    proof {
        lemma_first_index(s, c, hi - lo);
    }
    None
}

/// The fixed words of the format, as characters.
struct Words {
    header: Vec<char>,
    prefix: Vec<char>,
    name: Vec<char>,
    exec_word: Vec<char>,
}

impl Words {
    spec fn wf(&self) -> bool {
        &&& self.header@ == section_header()
        &&& self.prefix@ == section_prefix()
        &&& self.name@ == name_key()
        &&& self.exec_word@ == exec_key()
    }

    fn new() -> (r: Words)
        ensures
            r.wf(),
    {
        Words {
            header: vec!['[', 'D', 'e', 's', 'k', 't', 'o', 'p', ' ', 'E', 'n', 't', 'r', 'y', ']'],
            prefix: vec!['[', 'D', 'e', 's', 'k', 't', 'o', 'p'],
            name: vec!['N', 'a', 'm', 'e'],
            exec_word: vec!['E', 'x', 'e', 'c'],
        }
    }
}

/// A scan over a character buffer: values are kept as ranges of it.
struct Scanner {
    phase: Phase,
    name: Option<(usize, usize)>,
    command: Option<(usize, usize)>,
}

spec fn range_within(r: Option<(usize, usize)>, n: nat) -> bool {
    r matches Some((a, b)) ==> a <= b <= n
}

spec fn range_view(text: Seq<char>, r: Option<(usize, usize)>) -> Option<Seq<char>> {
    match r {
        Some((a, b)) => Some(text.subrange(a as int, b as int)),
        None => None,
    }
}

impl Scanner {
    spec fn within(&self, n: nat) -> bool {
        range_within(self.name, n) && range_within(self.command, n)
    }

    spec fn model(&self, text: Seq<char>) -> ScanModel {
        ScanModel {
            phase: self.phase,
            name: range_view(text, self.name),
            command: range_view(text, self.command),
        }
    }
}

/// The scan after the line `text[lo..hi]`.
fn step_line(text: &Vec<char>, words: &Words, st: Scanner, lo: usize, hi: usize) -> (r: Scanner)
    requires
        lo <= hi <= text@.len(),
        st.within(text@.len()),
        words.wf(),
    ensures
        r.within(text@.len()),
        r.model(text@) == step(st.model(text@), text@.subrange(lo as int, hi as int)),
{
    let ghost line = text@.subrange(lo as int, hi as int);
    match st.phase {
        Phase::InBlock => {
            if starts_with_at(text, lo, hi, &words.prefix) {
                Scanner { phase: Phase::Done, ..st }
            } else {
                match find_char(text, lo, hi, '=') {
                    Some(p) => {
                        proof {
                            assert(line.subrange(0, p - lo) =~= text@.subrange(lo as int, p as int));
                            assert(line.subrange(p - lo + 1, line.len() as int) =~= text@.subrange(
                                p + 1,
                                hi as int,
                            ));
                        }
                        if st.name.is_none() && trimmed_equals(text, lo, p, &words.name) {
                            Scanner { name: Some((p + 1, hi)), ..st }
                        } else if st.command.is_none() && trimmed_equals(text, lo, p, &words.exec_word) {
                            Scanner { command: Some((p + 1, hi)), ..st }
                        } else {
                            st
                        }
                    },
                    None => st,
                }
            }
        },
        Phase::Done => st,
    }
}

/// If `pat` occurs in `text` at all, it has a first occurrence.
proof fn lemma_first_occurrence_exists(text: Seq<char>, pat: Seq<char>, i: int)
    requires
        occurs_at(text, pat, i),
    ensures
        exists|k: int| first_occurrence_at(text, pat, k),
    decreases i,
{
    if exists|j: int| 0 <= j < i && #[trigger] occurs_at(text, pat, j) {
        let j = choose|j: int| 0 <= j < i && #[trigger] occurs_at(text, pat, j);
        lemma_first_occurrence_exists(text, pat, j);
    } else {
        assert(first_occurrence_at(text, pat, i));
    }
}

/// Where `[Desktop Entry]` first occurs in `text`, if it does.
fn find_header(text: &Vec<char>, words: &Words) -> (r: Option<usize>)
    requires
        words.wf(),
    ensures
        match r {
            Some(i) => has_section(text@) && section_start(text@) == i && i + section_header().len()
                <= text@.len(),
            None => !has_section(text@),
        },
{
    let n = text.len();
    let m = words.header.len();
    let mut i: usize = 0;
    while i < n && m <= n - i
        invariant
            n == text@.len(),
            m == section_header().len(),
            words.wf(),
            forall|j: int| 0 <= j < i ==> !#[trigger] occurs_at(text@, section_header(), j),
        decreases n - i,
    {
        if starts_with_at(text, i, n, &words.header) {
            proof {
                assert(text@.subrange(i as int, n as int).subrange(0, m as int) =~= text@.subrange(
                    i as int,
                    i + m,
                ));
                assert(first_occurrence_at(text@, section_header(), i as int));
                let k = section_start(text@);
                assert(first_occurrence_at(text@, section_header(), k));
                if k < i {
                    assert(!occurs_at(text@, section_header(), k));
                } else if k > i {
                    assert(!occurs_at(text@, section_header(), i as int));
                }
            }
            return Some(i);
        }
        proof {
            if occurs_at(text@, section_header(), i as int) {
                assert(text@.subrange(i as int, n as int).subrange(0, m as int) =~= text@.subrange(
                    i as int,
                    i + m,
                ));
            }
        }
        i = i + 1;
    }
    proof {
        assert forall|j: int| !#[trigger] occurs_at(text@, section_header(), j) by {
            if 0 <= j < i {
            }
        }
    }
    None
}

/// Scans the lines of `text[start..]`.
fn scan(text: &Vec<char>, start: usize) -> (r: Scanner)
    requires
        start <= text@.len(),
    ensures
        r.within(text@.len()),
        r.model(text@) == scan_lines(
            split_on(text@.subrange(start as int, text@.len() as int), '\n'),
        ),
{
    let words = Words::new();
    let n = text.len();
    let ghost v = text@.subrange(start as int, n as int);
    let mut st = Scanner { phase: Phase::InBlock, name: None, command: None };
    let mut lo: usize = start;
    let mut pos: usize = start;
    proof {
        assert(v.subrange(0, 0) =~= Seq::<char>::empty());
        assert(split_on(v.subrange(0, 0), '\n').drop_last() =~= Seq::<Seq<char>>::empty());
    }
    while pos < n
        invariant
            n == text@.len(),
            v == text@.subrange(start as int, n as int),
            words.wf(),
            start <= lo <= pos <= n,
            lo == start || text@[lo - 1] == '\n',
            forall|k: int| lo <= k < pos ==> text@[k] != '\n',
            st.within(n as nat),
            st.model(text@) == scan_lines(split_on(v.subrange(0, lo - start), '\n').drop_last()),
        decreases n - pos,
    {
        if text[pos] == '\n' {
            let ghost before = split_on(v.subrange(0, lo - start), '\n').drop_last();
            st = step_line(text, &words, st, lo, pos);
            proof {
                let line = text@.subrange(lo as int, pos as int);
                assert(v.subrange(lo - start, pos - start) =~= line);
                lemma_split_run(v, '\n', lo - start, pos - start);
                lemma_split_sep(v, '\n', pos - start);
                assert(split_on(v.subrange(0, pos - start + 1), '\n').drop_last() =~= before.push(
                    line,
                ));
                assert(before.push(line).drop_last() =~= before);
            }
            lo = pos + 1;
        }
        pos = pos + 1;
    }
    let ghost before = split_on(v.subrange(0, lo - start), '\n').drop_last();
    st = step_line(text, &words, st, lo, n);
    proof {
        let line = text@.subrange(lo as int, n as int);
        assert(v.subrange(lo - start, n - start) =~= line);
        lemma_split_run(v, '\n', lo - start, n - start);
        assert(v.subrange(0, n - start) =~= v);
        assert(before.push(line).drop_last() =~= before);
    }
    st
}

/// Whether `text[lo..hi]` is a field code.
fn is_field_code_at(text: &Vec<char>, lo: usize, hi: usize) -> (r: bool)
    requires
        lo <= hi <= text@.len(),
    ensures
        r == is_field_code(text@.subrange(lo as int, hi as int)),
{
    if hi - lo != 2 || text[lo] != '%' {
        return false;
    }
    let c = text[lo + 1];
    c == 'f' || c == 'F' || c == 'u' || c == 'U' || c == 'd' || c == 'D' || c == 'n' || c == 'N'
        || c == 'i' || c == 'c' || c == 'k' || c == 'v' || c == 'm'
}

/// `text[lo..hi]` with its field codes dropped, as `strip_field_codes` states.
fn strip_field_codes_at(text: &Vec<char>, lo: usize, hi: usize) -> (r: String)
    requires
        lo <= hi <= text@.len(),
    ensures
        r@ == strip_field_codes(text@.subrange(lo as int, hi as int)),
{
    let ghost v = text@.subrange(lo as int, hi as int);
    let mut out = String::new();
    let mut ts: usize = lo;
    let mut pos: usize = lo;
    proof {
        assert(v.subrange(0, 0) =~= Seq::<char>::empty());
        assert(split_on(v.subrange(0, 0), ' ').drop_last() =~= Seq::<Seq<char>>::empty());
    }
    while pos < hi
        invariant
            lo <= ts <= pos <= hi <= text@.len(),
            v == text@.subrange(lo as int, hi as int),
            ts == lo || text@[ts - 1] == ' ',
            forall|k: int| ts <= k < pos ==> text@[k] != ' ',
            out@ == join_kept(split_on(v.subrange(0, ts - lo), ' ').drop_last()),
        decreases hi - pos,
    {
        if text[pos] == ' ' {
            let ghost before = split_on(v.subrange(0, ts - lo), ' ').drop_last();
            let ghost tok = text@.subrange(ts as int, pos as int);
            if !is_field_code_at(text, ts, pos) {
                push_chars(&mut out, text, ts, pos);
            }
            proof {
                assert(v.subrange(ts - lo, pos - lo) =~= tok);
                lemma_split_run(v, ' ', ts - lo, pos - lo);
                lemma_split_sep(v, ' ', pos - lo);
                assert(split_on(v.subrange(0, pos - lo + 1), ' ').drop_last() =~= before.push(tok));
                assert(before.push(tok).drop_last() =~= before);
            }
            ts = pos + 1;
        }
        pos = pos + 1;
    }
    let ghost before = split_on(v.subrange(0, ts - lo), ' ').drop_last();
    let ghost tok = text@.subrange(ts as int, hi as int);
    if !is_field_code_at(text, ts, hi) {
        push_chars(&mut out, text, ts, hi);
    }
    proof {
        assert(v.subrange(ts - lo, hi - lo) =~= tok);
        lemma_split_run(v, ' ', ts - lo, hi - lo);
        assert(v.subrange(0, hi - lo) =~= v);
        assert(before.push(tok).drop_last() =~= before);
    }
    out
}

/// Reads a descriptor held as characters: its name and its command line, or
/// why it yields no entry.
pub fn read_descriptor(text: &Vec<char>) -> (r: Result<(String, String), Errors>)
    ensures
        match (r, parse_descriptor(text@)) {
            (Ok((name, command)), Ok((spec_name, spec_command))) => name@ == spec_name
                && command@ == spec_command,
            (Err(e), Err(spec_e)) => e == spec_e,
            _ => false,
        },
{
    let words = Words::new();
    let found = find_header(text, &words);
    let start = match found {
        Some(i) => {
            let m = words.header.len();
            let n = text.len();
            assert(i + m <= n);
            i + m
        },
        None => {
            return Err(Errors::MissingSection);
        },
    };
    let st = scan(text, start);
    let (name_lo, name_hi) = match st.name {
        Some(range) => range,
        None => {
            return Err(Errors::MissingName);
        },
    };
    let (exec_lo, exec_hi) = match st.command {
        Some(range) => range,
        None => {
            return Err(Errors::MissingExec);
        },
    };
    if name_lo == name_hi {
        return Err(Errors::MissingName);
    }
    let name = string_of(text, name_lo, name_hi);
    let command = strip_field_codes_at(text, exec_lo, exec_hi);
    if command.as_str().is_empty() {
        return Err(Errors::MissingExec);
    }
    Ok((name, command))
}

} // verus!
