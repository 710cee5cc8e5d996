//! One discovered application, and how descriptor files become entries.
use vstd::prelude::*;

use crate::desktop::{
    exec_key, has_section, key_value, lines_after_header, name_key, parse_descriptor,
    read_descriptor, scan_block, scan_lines, section_prefix, starts_with, Phase,
};
use crate::errors::Errors;
use crate::text::{chars_of, lemma_split_run, split_on, string_of};

verus! {

/// What an entry holds, as plain sequences of characters.
pub struct BinView {
    pub filepath: Seq<char>,
    pub name: Seq<char>,
    pub command: Seq<char>,
}

/// One application: the descriptor file it came from, the label shown for it,
/// and the shell command line that starts it.
#[derive(Debug, Clone, Eq, Hash)]
pub struct Bin {
    filepath: String,
    name: String,
    command: String,
}

impl View for Bin {
    type V = BinView;

    closed spec fn view(&self) -> BinView {
        BinView { filepath: self.filepath@, name: self.name@, command: self.command@ }
    }
}

impl PartialEq for Bin {
    fn eq(&self, other: &Bin) -> (r: bool)
        ensures
            r == (self@ == other@),
    {
        self.filepath == other.filepath && self.name == other.name && self.command == other.command
    }
}

impl vstd::std_specs::cmp::PartialEqSpecImpl for Bin {
    open spec fn obeys_eq_spec() -> bool {
        true
    }

    open spec fn eq_spec(&self, other: &Bin) -> bool {
        self@ == other@
    }
}

/// The last `/`-separated segment of a path.
pub open spec fn file_name_of(path: Seq<char>) -> Seq<char> {
    split_on(path, '/').last()
}

impl Bin {
    /// An entry for a bare executable path: it is its own command line, and
    /// its name is the path's last segment.
    pub fn from_only_filepath(filepath: &str) -> (r: Self)
        ensures
            r@ == (BinView {
                filepath: filepath@,
                name: file_name_of(filepath@),
                command: filepath@,
            }),
    {
        let text = chars_of(filepath);
        let n = text.len();
        let mut b: usize = n;
        while b > 0 && text[b - 1] != '/'
            invariant
                b <= n == text@.len(),
                forall|k: int| b <= k < n ==> text@[k] != '/',
            decreases b,
        {
            b = b - 1;
        }
        proof {
            lemma_split_run(text@, '/', b as int, n as int);
            assert(text@.subrange(0, n as int) =~= text@);
        }
        let name = string_of(&text, b, n);
        Bin { filepath: filepath.to_owned(), name, command: filepath.to_owned() }
    }

    pub fn new(filepath: &str, name: &str, command: &str) -> (r: Self)
        ensures
            r@ == (BinView { filepath: filepath@, name: name@, command: command@ }),
    {
        Bin { filepath: filepath.to_owned(), name: name.to_owned(), command: command.to_owned() }
    }

    /// The descriptor file this entry was read from.
    pub fn filepath(&self) -> (r: &str)
        ensures
            r@ == self@.filepath,
    {
        self.filepath.as_str()
    }

    /// The label shown for this entry.
    pub fn name(&self) -> (r: &str)
        ensures
            r@ == self@.name,
    {
        self.name.as_str()
    }

    /// The command line that starts this entry, field codes removed.
    pub fn exec_cmd(&self) -> (r: &str)
        ensures
            r@ == self@.command,
    {
        self.command.as_str()
    }
}

/// The entry that the descriptor `text`, read from `filepath`, yields, or why
/// it yields none.
pub open spec fn parse_entry(filepath: Seq<char>, text: Seq<char>) -> Result<BinView, Errors> {
    match parse_descriptor(text) {
        Ok((name, command)) => Ok(BinView { filepath, name, command }),
        Err(e) => Err(e),
    }
}

/// Parses the contents of the descriptor file at `filepath` into an entry.
pub fn parse_desktop_file_for_bin(filepath: &str, contents: &str) -> (r: Result<Bin, Errors>)
    ensures
        match (r, parse_entry(filepath@, contents@)) {
            (Ok(b), Ok(v)) => b@ == v,
            (Err(e), Err(spec_e)) => e == spec_e,
            _ => false,
        },
{
    let text = chars_of(contents);
    match read_descriptor(&text) {
        Ok((name, command)) => Ok(Bin { filepath: filepath.to_owned(), name, command }),
        Err(e) => Err(e),
    }
}

/// Descriptor files as (path, contents) pairs of character sequences.
pub open spec fn files_view(files: Seq<(String, String)>) -> Seq<(Seq<char>, Seq<char>)> {
    files.map_values(|f: (String, String)| (f.0@, f.1@))
}

/// The entries that a list of descriptor files yields, in the list's order;
/// a file that fails to parse yields none.
pub open spec fn discovered(files: Seq<(Seq<char>, Seq<char>)>) -> Seq<BinView>
    decreases files.len(),
{
    if files.len() == 0 {
        Seq::empty()
    } else {
        let front = discovered(files.drop_last());
        match parse_entry(files.last().0, files.last().1) {
            Ok(v) => front.push(v),
            Err(_) => front,
        }
    }
}

/// Parses each (path, contents) pair and keeps the entries of those that
/// parse, in order.
pub fn bins_from_files(files: &Vec<(String, String)>) -> (r: Vec<Bin>)
    ensures
        r@.map_values(|b: Bin| b@) == discovered(files_view(files@)),
{
    let mut bins: Vec<Bin> = Vec::new();
    let n = files.len();
    let mut i: usize = 0;
    while i < n
        invariant
            i <= n == files@.len(),
            bins@.map_values(|b: Bin| b@) == discovered(files_view(files@.subrange(0, i as int))),
        decreases n - i,
    {
        let file = &files[i];
        let parsed = parse_desktop_file_for_bin(file.0.as_str(), file.1.as_str());
        proof {
            let prefix = files_view(files@.subrange(0, i + 1));
            assert(prefix.drop_last() =~= files_view(files@.subrange(0, i as int)));
            assert(prefix.last() == (file.0@, file.1@));
        }
        match parsed {
            Ok(b) => {
                let ghost before = bins@;
                bins.push(b);
                assert(bins@.map_values(|b: Bin| b@) =~= before.map_values(|b: Bin| b@).push(b@));
            },
            Err(_) => {},
        }
        i = i + 1;
    }
    assert(files@.subrange(0, n as int) =~= files@);
    bins
}

/// Whether `line` is a `key=value` line for `key`.
pub open spec fn has_key(line: Seq<char>, key: Seq<char>) -> bool {
    key_value(line) matches Some((k, _)) && k == key
}

/// Whether line `i` of `lines` still belongs to the block: neither it nor an
/// earlier line begins with `[Desktop`.
pub open spec fn in_block(lines: Seq<Seq<char>>, i: int) -> bool {
    forall|j: int| 0 <= j <= i ==> !starts_with(#[trigger] lines[j], section_prefix())
}

/// Whether the `[Desktop Entry]` block of `text` has a `key=value` line for
/// `key`.
pub open spec fn block_has_key(text: Seq<char>, key: Seq<char>) -> bool {
    let lines = lines_after_header(text);
    exists|i: int| 0 <= i < lines.len() && in_block(lines, i) && #[trigger] has_key(lines[i], key)
}

proof fn lemma_scan_facts(lines: Seq<Seq<char>>)
    ensures
        scan_lines(lines).phase == Phase::InBlock <==> forall|j: int|
            0 <= j < lines.len() ==> !starts_with(#[trigger] lines[j], section_prefix()),
        (forall|i: int| 0 <= i < lines.len() && in_block(lines, i) ==> !#[trigger] has_key(lines[i], name_key()))
            <==> scan_lines(lines).name is None,
        (forall|i: int| 0 <= i < lines.len() && in_block(lines, i) ==> !#[trigger] has_key(lines[i], exec_key()))
            ==> scan_lines(lines).command is None,
    decreases lines.len(),
{
    if lines.len() > 0 {
        let front = lines.drop_last();
        let last = lines.len() - 1;
        lemma_scan_facts(front);
        assert forall|i: int| 0 <= i < front.len() implies front[i] == lines[i] by {}
        assert forall|i: int| 0 <= i < front.len() implies in_block(front, i) == in_block(lines, i) by {
            assert forall|j: int| 0 <= j <= i implies front[j] == lines[j] by {}
        }
        if scan_lines(front).phase == Phase::InBlock && !starts_with(lines[last], section_prefix()) {
            assert(in_block(lines, last)) by {
                assert forall|j: int| 0 <= j <= last implies !starts_with(#[trigger] lines[j], section_prefix()) by {
                    if j < last {
                        assert(front[j] == lines[j]);
                    }
                }
            }
        }
        if (forall|j: int| 0 <= j < lines.len() ==> !starts_with(#[trigger] lines[j], section_prefix())) {
            assert forall|j: int| 0 <= j < front.len() implies !starts_with(#[trigger] front[j], section_prefix()) by {
                assert(front[j] == lines[j]);
            }
            assert(!starts_with(lines[last], section_prefix()));
        }
        if scan_lines(lines).phase == Phase::InBlock {
            assert forall|j: int| 0 <= j < lines.len() implies !starts_with(#[trigger] lines[j], section_prefix()) by {
                if j < last {
                    assert(front[j] == lines[j]);
                }
            }
        }
        assert(scan_lines(lines) == crate::desktop::step(scan_lines(front), lines[last]));
        if (forall|i: int| 0 <= i < lines.len() && in_block(lines, i) ==> !#[trigger] has_key(lines[i], name_key())) {
            assert forall|i: int| 0 <= i < front.len() && in_block(front, i) implies !#[trigger] has_key(front[i], name_key()) by {
                assert(front[i] == lines[i]);
            }
            if scan_lines(front).phase == Phase::InBlock && !starts_with(lines[last], section_prefix()) {
                assert(!has_key(lines[last], name_key()));
            }
        }
        if scan_lines(lines).name is None {
            assert(scan_lines(front).name is None);
            assert forall|i: int| 0 <= i < lines.len() && in_block(lines, i) implies !#[trigger] has_key(lines[i], name_key()) by {
                if i < last {
                    assert(front[i] == lines[i]);
                    assert(in_block(front, i));
                } else {
                    assert(!starts_with(lines[last], section_prefix()));
                    assert forall|j: int| 0 <= j < front.len() implies !starts_with(#[trigger] front[j], section_prefix()) by {
                        assert(front[j] == lines[j]);
                        assert(j <= i);
                    }
                }
            }
        }
        if (forall|i: int| 0 <= i < lines.len() && in_block(lines, i) ==> !#[trigger] has_key(lines[i], exec_key())) {
            assert forall|i: int| 0 <= i < front.len() && in_block(front, i) implies !#[trigger] has_key(front[i], exec_key()) by {
                assert(front[i] == lines[i]);
            }
            if scan_lines(front).phase == Phase::InBlock && !starts_with(lines[last], section_prefix()) {
                assert(!has_key(lines[last], exec_key()));
            }
        }
    }
}

/// A file that nowhere holds `[Desktop Entry]` fails with `MissingSection`,
/// and a list of files yields the same entries with it as without it.
pub proof fn missing_section_yields_no_entry(files: Seq<(Seq<char>, Seq<char>)>, k: int)
    requires
        0 <= k < files.len(),
        !has_section(files[k].1),
    ensures
        parse_descriptor(files[k].1) == Err::<(Seq<char>, Seq<char>), Errors>(Errors::MissingSection),
        discovered(files) == discovered(files.remove(k)),
    decreases files.len(),
{
    if k < files.len() - 1 {
        assert(files.remove(k).drop_last() =~= files.drop_last().remove(k));
        assert(files.drop_last()[k] == files[k]);
        missing_section_yields_no_entry(files.drop_last(), k);
        assert(files.remove(k).last() == files.last());
    } else {
        assert(files.remove(k) =~= files.drop_last());
    }
}

/// A file with a `[Desktop Entry]` block that holds no `Name` line fails
/// with `MissingName`.
pub proof fn missing_name_line_fails(text: Seq<char>)
    requires
        has_section(text),
        !block_has_key(text, name_key()),
    ensures
        parse_descriptor(text) == Err::<(Seq<char>, Seq<char>), Errors>(Errors::MissingName),
{
    lemma_scan_facts(lines_after_header(text));
}

/// A file with a `[Desktop Entry]` block that holds a `Name` line but no
/// `Exec` line fails with `MissingExec`.
pub proof fn missing_exec_line_fails(text: Seq<char>)
    requires
        has_section(text),
        block_has_key(text, name_key()),
        !block_has_key(text, exec_key()),
    ensures
        parse_descriptor(text) == Err::<(Seq<char>, Seq<char>), Errors>(Errors::MissingExec),
{
    lemma_scan_facts(lines_after_header(text));
}

} // verus!
