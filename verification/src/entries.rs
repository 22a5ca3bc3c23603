//! From scanned inputs to archive entries: each input gets a top-level name
//! of its own, and each file under it a path that begins with that name.

use crate::error::ArchiveError;
use crate::text::{
    chars_eq, chars_of, concat_chars, decimal, decimal_chars, lemma_decimal_injective,
    string_of,
};
use vstd::prelude::*;

verus! {

/// What the scan found at an input path.
#[derive(Clone, Copy, Debug, PartialEq, Eq, Structural)]
pub enum InputKind {
    /// Nothing is there.
    Missing,
    /// Something that is not a directory.
    File,
    /// A directory.
    Directory,
}

/// A regular file found under an input directory.
#[derive(Clone, Debug)]
pub struct FoundFile {
    /// Where the file is.
    pub source_path: String,
    /// Its path below the input directory.
    pub relative_path: String,
}

/// One input as the scan found it.
#[derive(Clone, Debug)]
pub struct ScannedInput {
    /// The path as it was given.
    pub path: String,
    /// The last component of the path, where it has one that is text.
    pub base_name: Option<String>,
    pub kind: InputKind,
    /// The regular files below a directory, in the order in which the walk
    /// met them. Symbolic links are not followed.
    pub files: Vec<FoundFile>,
}

/// One file to pack: where it is, and the name it gets in the archive.
#[derive(Clone, Debug)]
pub struct ArchiveEntry {
    pub source_path: String,
    pub archive_path: String,
}

/// The mathematical content of an entry.
pub struct EntryView {
    pub source_path: Seq<char>,
    pub archive_path: Seq<char>,
}

impl View for ArchiveEntry {
    type V = EntryView;

    open spec fn view(&self) -> EntryView {
        EntryView { source_path: self.source_path@, archive_path: self.archive_path@ }
    }
}

/// The views of a sequence of entries.
pub open spec fn entry_views(s: Seq<ArchiveEntry>) -> Seq<EntryView> {
    s.map_values(|e: ArchiveEntry| e@)
}

/// The name an input goes by: its base name, or `input` where it has none.
pub open spec fn base_of(input: ScannedInput) -> Seq<char> {
    match input.base_name {
        Some(b) => b@,
        None => seq!['i', 'n', 'p', 'u', 't'],
    }
}

/// How many of the first `upto` inputs go by `name`.
pub open spec fn uses_of(inputs: Seq<ScannedInput>, name: Seq<char>, upto: int) -> nat
    decreases upto,
{
    if upto <= 0 {
        0
    } else {
        uses_of(inputs, name, upto - 1) + if base_of(inputs[upto - 1]) == name {
            1nat
        } else {
            0nat
        }
    }
}

/// The name with a number: `name`, then `-`, then the number in decimal.
pub open spec fn numbered(name: Seq<char>, n: nat) -> Seq<char> {
    name + seq!['-'] + decimal(n)
}

/// The top-level name of the input at `i`: its own name where no earlier
/// input goes by it, else its name with the number of inputs that go by it
/// up to and including this one.
pub open spec fn top_name(inputs: Seq<ScannedInput>, i: int) -> Seq<char> {
    let name = base_of(inputs[i]);
    let n = uses_of(inputs, name, i) + 1;
    if n == 1 {
        name
    } else {
        numbered(name, n)
    }
}

/// The entries for the files of a directory from `from` on.
pub open spec fn directory_entries(top: Seq<char>, files: Seq<FoundFile>, from: int) -> Seq<
    EntryView,
>
    decreases files.len() - from,
{
    if from < 0 || from >= files.len() {
        Seq::empty()
    } else {
        seq![
            EntryView {
                source_path: files[from].source_path@,
                archive_path: top + seq!['/'] + files[from].relative_path@,
            },
        ] + directory_entries(top, files, from + 1)
    }
}

/// The entries that the input at `i` gives: one for a file, under the top
/// name itself; one for each file found under a directory, under the top
/// name and its path below the directory.
pub open spec fn input_entries(inputs: Seq<ScannedInput>, i: int) -> Seq<EntryView> {
    match inputs[i].kind {
        InputKind::Directory => directory_entries(top_name(inputs, i), inputs[i].files@, 0),
        _ => seq![
            EntryView { source_path: inputs[i].path@, archive_path: top_name(inputs, i) },
        ],
    }
}

/// The entries of the first `upto` inputs, in the order of the inputs.
pub open spec fn entries_upto(inputs: Seq<ScannedInput>, upto: int) -> Seq<EntryView>
    decreases upto,
{
    if upto <= 0 {
        Seq::empty()
    } else {
        entries_upto(inputs, upto - 1) + input_entries(inputs, upto - 1)
    }
}

/// Whether some input is missing.
pub open spec fn any_missing(inputs: Seq<ScannedInput>) -> bool {
    exists|i: int| 0 <= i < inputs.len() && (#[trigger] inputs[i]).kind == InputKind::Missing
}

fn base_name_chars(input: &ScannedInput) -> (r: Vec<char>)
    ensures
        r@ == base_of(*input),
{
    match &input.base_name {
        Some(b) => chars_of(b.as_str()),
        None => {
            let v = chars_of("input");
            proof {
                reveal_strlit("input");
                assert(v@ =~= seq!['i', 'n', 'p', 'u', 't']);
            }
            v
        },
    }
}

fn top_name_chars(inputs: &[ScannedInput], i: usize) -> (r: Vec<char>)
    requires
        i < inputs@.len(),
    ensures
        r@ == top_name(inputs@, i as int),
{
    let name = base_name_chars(&inputs[i]);
    let mut seen: usize = 0;
    let mut j: usize = 0;
    while j < i
        invariant
            j <= i < inputs@.len(),
            seen <= j,
            seen == uses_of(inputs@, name@, j as int),
        decreases i - j,
    {
        let other = base_name_chars(&inputs[j]);
        if chars_eq(&other, &name) {
            seen += 1;
        }
        j += 1;
    }
    if seen == 0 {
        name
    } else {
        let mut dash: Vec<char> = Vec::new();
        dash.push('-');
        assert(dash@ =~= seq!['-']);
        let head = concat_chars(&name, &dash);
        let number = decimal_chars((seen + 1) as u64);
        concat_chars(&head, &number)
    }
}

/// The position of the first input that is missing.
pub fn first_missing(inputs: &[ScannedInput]) -> (r: Option<usize>)
    ensures
        match r {
            Some(i) => i < inputs@.len() && inputs@[i as int].kind == InputKind::Missing
                && forall|j: int| 0 <= j < i ==> (#[trigger] inputs@[j]).kind != InputKind::Missing,
            None => !any_missing(inputs@),
        },
{
    let mut i: usize = 0;
    while i < inputs.len()
        invariant
            i <= inputs@.len(),
            forall|j: int| 0 <= j < i ==> (#[trigger] inputs@[j]).kind != InputKind::Missing,
        decreases inputs@.len() - i,
    {
        if inputs[i].kind == InputKind::Missing {
            return Some(i);
        }
        i += 1;
    }
    None
}

/// Lists the files to pack: the inputs in the order given, the files of a
/// directory in the order in which the walk met them. `PathNotFound` where
/// an input is missing.
pub fn collect_entries(inputs: &[ScannedInput]) -> (r: Result<Vec<ArchiveEntry>, ArchiveError>)
    ensures
        match r {
            Ok(v) => !any_missing(inputs@) && entry_views(v@) == entries_upto(
                inputs@,
                inputs@.len() as int,
            ),
            Err(e) => e == ArchiveError::PathNotFound && any_missing(inputs@),
        },
{
    if first_missing(inputs).is_some() {
        return Err(ArchiveError::PathNotFound);
    }
    let mut out: Vec<ArchiveEntry> = Vec::new();
    let mut i: usize = 0;
    assert(entry_views(out@) =~= entries_upto(inputs@, 0));
    while i < inputs.len()
        invariant
            i <= inputs@.len(),
            entry_views(out@) == entries_upto(inputs@, i as int),
        decreases inputs@.len() - i,
    {
        let top = top_name_chars(inputs, i);
        let input = &inputs[i];
        let ghost before = entry_views(out@);
        match input.kind {
            InputKind::Directory => {
                let mut slash: Vec<char> = Vec::new();
                slash.push('/');
                assert(slash@ =~= seq!['/']);
                let prefix = concat_chars(&top, &slash);
                let mut k: usize = 0;
                assert(before + directory_entries(top@, input.files@, 0) =~= entry_views(out@)
                    + directory_entries(top@, input.files@, 0));
                while k < input.files.len()
                    invariant
                        k <= input.files@.len(),
                        prefix@ == top@ + seq!['/'],
                        before + directory_entries(top@, input.files@, 0) == entry_views(out@)
                            + directory_entries(top@, input.files@, k as int),
                    decreases input.files@.len() - k,
                {
                    let file = &input.files[k];
                    let rel = chars_of(file.relative_path.as_str());
                    let name = concat_chars(&prefix, &rel);
                    let ghost prev = entry_views(out@);
                    let entry = ArchiveEntry {
                        source_path: file.source_path.clone(),
                        archive_path: string_of(&name),
                    };
                    let ghost ev = entry@;
                    out.push(entry);
                    proof {
                        assert(entry_views(out@) =~= prev.push(ev));
                        assert(prev + directory_entries(top@, input.files@, k as int) =~= prev.push(
                            ev,
                        ) + directory_entries(top@, input.files@, k + 1));
                    }
                    k += 1;
                }
                assert(entry_views(out@) + directory_entries(
                    top@,
                    input.files@,
                    input.files@.len() as int,
                ) =~= entry_views(out@));
            },
            _ => {
                let entry = ArchiveEntry {
                    source_path: input.path.clone(),
                    archive_path: string_of(&top),
                };
                let ghost ev = entry@;
                out.push(entry);
                assert(entry_views(out@) =~= before + seq![ev]);
            },
        }
        i += 1;
    }
    Ok(out)
}

/// Lists the files to pack, and refuses with `NoInput` where there is none.
pub fn entries_to_pack(inputs: &[ScannedInput]) -> (r: Result<Vec<ArchiveEntry>, ArchiveError>)
    ensures
        match r {
            Ok(v) => !any_missing(inputs@) && v@.len() > 0 && entry_views(v@) == entries_upto(
                inputs@,
                inputs@.len() as int,
            ),
            Err(e) => if any_missing(inputs@) {
                e == ArchiveError::PathNotFound
            } else {
                e == ArchiveError::NoInput && entries_upto(inputs@, inputs@.len() as int).len()
                    == 0
            },
        },
{
    match collect_entries(inputs) {
        Err(e) => Err(e),
        Ok(v) => {
            if v.len() == 0 {
                Err(ArchiveError::NoInput)
            } else {
                Ok(v)
            }
        },
    }
}

/// The count of inputs that go by a name does not fall as more inputs are
/// counted, and rises with each input that goes by it.
pub proof fn lemma_uses_grow(inputs: Seq<ScannedInput>, name: Seq<char>, a: int, b: int)
    requires
        0 <= a <= b,
    ensures
        uses_of(inputs, name, a) <= uses_of(inputs, name, b),
        a < b && base_of(inputs[a]) == name ==> uses_of(inputs, name, a) < uses_of(
            inputs,
            name,
            b,
        ),
    decreases b - a,
{
    if a < b {
        lemma_uses_grow(inputs, name, a, b - 1);
    }
}

/// Two inputs that go by the same name get different top-level names.
pub proof fn lemma_same_name_distinct_tops(inputs: Seq<ScannedInput>, i: int, j: int)
    requires
        0 <= i < j < inputs.len(),
        base_of(inputs[i]) == base_of(inputs[j]),
    ensures
        top_name(inputs, i) != top_name(inputs, j),
{
    let name = base_of(inputs[i]);
    let n = uses_of(inputs, name, i) + 1;
    let m = uses_of(inputs, name, j) + 1;
    lemma_uses_grow(inputs, name, i, j);
    assert(numbered(name, m).len() > name.len());
    if n > 1 && numbered(name, n) == numbered(name, m) {
        assert(numbered(name, n).skip(name.len() as int + 1) =~= decimal(n));
        assert(numbered(name, m).skip(name.len() as int + 1) =~= decimal(m));
        lemma_decimal_injective(n, m);
    }
}

} // verus!
