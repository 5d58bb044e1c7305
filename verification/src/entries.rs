//! What the vault's panels share: worktree entries, notes, and how notes are
//! found among the entries of a project.
use vstd::prelude::*;

use crate::text::{eq_ignore_ascii_case, same_ignoring_ascii_case};

verus! {

// ---------------------------------------------------------------------------
// Models
// ---------------------------------------------------------------------------

/// A worktree-relative path as the panels read it.
pub ghost struct PathView {
    pub display: Seq<char>,
    pub file_stem: Option<Seq<char>>,
    pub extension: Option<Seq<char>>,
}

/// A worktree entry as the panels read it.
pub ghost struct EntryView {
    pub is_file: bool,
    pub abs_path: Seq<u8>,
    pub path: PathView,
}

/// A note of the vault.
pub ghost struct NoteView {
    pub abs_path: Seq<u8>,
    pub title: Seq<char>,
    pub relative: Seq<char>,
}

/// Whether the vault treats files with this extension as notes.
pub open spec fn is_note_extension(extension: Seq<char>) -> bool {
    ||| same_ignoring_ascii_case("md"@, extension)
    ||| same_ignoring_ascii_case("markdown"@, extension)
    ||| same_ignoring_ascii_case("mdx"@, extension)
    ||| same_ignoring_ascii_case("mdown"@, extension)
    ||| same_ignoring_ascii_case("mkd"@, extension)
    ||| same_ignoring_ascii_case("mdwn"@, extension)
}

/// Whether a path has the extension of a note.
pub open spec fn is_note_path(path: PathView) -> bool {
    path.extension is Some && is_note_extension(path.extension->0)
}

/// The title of a note: its file name without the extension.
pub open spec fn title_of(path: PathView) -> Seq<char> {
    match path.file_stem {
        Some(stem) => stem,
        None => "untitled"@,
    }
}

/// Whether an entry is a note.
pub open spec fn is_note(entry: EntryView) -> bool {
    entry.is_file && is_note_path(entry.path)
}

/// The note that an entry stands for.
pub open spec fn note_of(entry: EntryView) -> NoteView {
    NoteView {
        abs_path: entry.abs_path,
        title: title_of(entry.path),
        relative: entry.path.display,
    }
}

/// The notes among some entries, in their order.
pub open spec fn notes_in(entries: Seq<EntryView>) -> Seq<NoteView> {
    entries.filter(|entry: EntryView| is_note(entry)).map_values(
        |entry: EntryView| note_of(entry),
    )
}

/// The text in an optional string.
pub open spec fn text_in(s: Option<String>) -> Option<Seq<char>> {
    match s {
        Some(s) => Some(s@),
        None => None,
    }
}

// ---------------------------------------------------------------------------
// Values
// ---------------------------------------------------------------------------

/// A worktree-relative path: how it is displayed, and its file name taken
/// apart. A file name without an extension has none here.
pub struct RelativePath {
    pub display: String,
    pub file_stem: Option<String>,
    pub extension: Option<String>,
}

impl View for RelativePath {
    type V = PathView;

    open spec fn view(&self) -> PathView {
        PathView {
            display: self.display@,
            file_stem: text_in(self.file_stem),
            extension: text_in(self.extension),
        }
    }
}

/// An entry of a worktree. The absolute path is given by its bytes, with its
/// separators normalised, so that equal paths have equal bytes.
pub struct WorktreeEntry {
    pub is_file: bool,
    pub abs_path: Vec<u8>,
    pub path: RelativePath,
}

impl View for WorktreeEntry {
    type V = EntryView;

    open spec fn view(&self) -> EntryView {
        EntryView { is_file: self.is_file, abs_path: self.abs_path@, path: self.path@ }
    }
}

/// A worktree of the project.
pub struct Worktree {
    pub entries: Vec<WorktreeEntry>,
}

impl View for Worktree {
    type V = Seq<EntryView>;

    open spec fn view(&self) -> Seq<EntryView> {
        self.entries@.map_values(|entry: WorktreeEntry| entry@)
    }
}

/// All entries of some worktrees, in order.
pub open spec fn entries_of(worktrees: Seq<Worktree>) -> Seq<EntryView> {
    worktrees.map_values(|worktree: Worktree| worktree@).flatten()
}

/// A note discovered in one of the project's worktrees.
pub struct NoteEntry {
    /// Where the note is, to open it.
    pub abs_path: Vec<u8>,
    /// File name without its extension, shown as the note's title.
    pub title: String,
    /// Worktree-relative path, shown as the subtitle and used for filtering.
    pub relative: String,
}

impl View for NoteEntry {
    type V = NoteView;

    open spec fn view(&self) -> NoteView {
        NoteView { abs_path: self.abs_path@, title: self.title@, relative: self.relative@ }
    }
}

/// The notes of a list as the contracts speak of them.
pub open spec fn note_views(notes: Seq<NoteEntry>) -> Seq<NoteView> {
    notes.map_values(|note: NoteEntry| note@)
}

/// A copy of a path's bytes.
pub fn copy_bytes(bytes: &Vec<u8>) -> (copy: Vec<u8>)
    ensures
        copy@ == bytes@,
{
    let copy = bytes.clone();
    assert(copy@ =~= bytes@);
    copy
}

impl Clone for NoteEntry {
    fn clone(&self) -> (copy: Self)
        ensures
            copy@ == self@,
    {
        NoteEntry {
            abs_path: copy_bytes(&self.abs_path),
            title: self.title.clone(),
            relative: self.relative.clone(),
        }
    }
}

// ---------------------------------------------------------------------------
// Finding notes
// ---------------------------------------------------------------------------

/// Whether the vault treats files with this extension as notes.
pub fn has_note_extension(extension: &str) -> (b: bool)
    ensures
        b == is_note_extension(extension@),
{
    eq_ignore_ascii_case("md", extension) || eq_ignore_ascii_case("markdown", extension)
        || eq_ignore_ascii_case("mdx", extension) || eq_ignore_ascii_case("mdown", extension)
        || eq_ignore_ascii_case("mkd", extension) || eq_ignore_ascii_case("mdwn", extension)
}

impl RelativePath {
    /// Whether the path has the extension of a note.
    pub fn is_note(&self) -> (b: bool)
        ensures
            b == is_note_path(self@),
    {
        match &self.extension {
            Some(extension) => has_note_extension(extension.as_str()),
            None => false,
        }
    }

    /// The title of the note at this path.
    pub fn title(&self) -> (title: String)
        ensures
            title@ == title_of(self@),
    {
        match &self.file_stem {
            Some(stem) => stem.clone(),
            None => "untitled".to_owned(),
        }
    }
}

/// Adds the notes of one worktree to `notes`.
fn collect_from(worktree: &Worktree, notes: &mut Vec<NoteEntry>)
    ensures
        note_views(final(notes)@) == note_views(old(notes)@) + notes_in(worktree@),
{
    let ghost before = note_views(notes@);
    let ghost entries = worktree@;
    let ghost keep = |entry: EntryView| is_note(entry);
    let ghost make = |entry: EntryView| note_of(entry);
    let mut i: usize = 0;
    assert(note_views(notes@) =~= before + notes_in(entries.take(0)));
    while i < worktree.entries.len()
        invariant
            i <= worktree.entries.len(),
            entries == worktree@,
            keep == (|entry: EntryView| is_note(entry)),
            make == (|entry: EntryView| note_of(entry)),
            note_views(notes@) == before + notes_in(entries.take(i as int)),
        decreases worktree.entries.len() - i,
    {
        let entry = &worktree.entries[i];
        let ghost so_far = notes@;
        proof {
            let taken = entries.take(i as int);
            assert(entries.take(i + 1) =~= taken.push(entry@));
            taken.lemma_filter_push(entry@, keep);
            taken.filter(keep).lemma_push_map_commute(make, entry@);
        }
        if entry.is_file && entry.path.is_note() {
            notes.push(
                NoteEntry {
                    abs_path: copy_bytes(&entry.abs_path),
                    title: entry.path.title(),
                    relative: entry.path.display.clone(),
                },
            );
            assert(note_views(notes@) =~= note_views(so_far).push(note_of(entry@)));
        }
        i += 1;
    }
    assert(entries.take(entries.len() as int) =~= entries);
}

/// Every note among the entries of the worktrees, in the order of the entries.
pub fn collect_notes(worktrees: &Vec<Worktree>) -> (notes: Vec<NoteEntry>)
    ensures
        note_views(notes@) == notes_in(entries_of(worktrees@)),
{
    let ghost all = worktrees@.map_values(|worktree: Worktree| worktree@);
    let ghost keep = |entry: EntryView| is_note(entry);
    let ghost make = |entry: EntryView| note_of(entry);
    let mut notes: Vec<NoteEntry> = Vec::new();
    let mut i: usize = 0;
    assert(note_views(notes@) =~= notes_in(all.take(0).flatten()));
    while i < worktrees.len()
        invariant
            i <= worktrees.len(),
            all == worktrees@.map_values(|worktree: Worktree| worktree@),
            keep == (|entry: EntryView| is_note(entry)),
            make == (|entry: EntryView| note_of(entry)),
            note_views(notes@) == notes_in(all.take(i as int).flatten()),
        decreases worktrees.len() - i,
    {
        proof {
            let taken = all.take(i as int);
            assert(all.take(i + 1) =~= taken.push(all[i as int]));
            taken.lemma_flatten_push(all[i as int]);
            Seq::filter_distributes_over_add(taken.flatten(), all[i as int], keep);
            assert((taken.flatten().filter(keep) + all[i as int].filter(keep)).map_values(make)
                =~= taken.flatten().filter(keep).map_values(make) + all[i as int].filter(
                keep,
            ).map_values(make));
        }
        collect_from(&worktrees[i], &mut notes);
        i += 1;
    }
    assert(all.take(all.len() as int) =~= all);
    notes
}

// ---------------------------------------------------------------------------
// Laws
// ---------------------------------------------------------------------------

/// Notes have one of six extensions, in capitals or small letters.
pub proof fn six_extensions_are_of_notes(e: Seq<char>)
    ensures
        is_note_extension(e) <==> (
        (e.len() == 2 && (e[0] == 'm' || e[0] == 'M') && (e[1] == 'd' || e[1] == 'D'))
        || (e.len() == 8 && (e[0] == 'm' || e[0] == 'M') && (e[1] == 'a' || e[1] == 'A') && (e[2] == 'r' || e[2] == 'R') && (e[3] == 'k' || e[3] == 'K') && (e[4] == 'd' || e[4] == 'D') && (e[5] == 'o' || e[5] == 'O') && (e[6] == 'w' || e[6] == 'W') && (e[7] == 'n' || e[7] == 'N'))
        || (e.len() == 3 && (e[0] == 'm' || e[0] == 'M') && (e[1] == 'd' || e[1] == 'D') && (e[2] == 'x' || e[2] == 'X'))
        || (e.len() == 5 && (e[0] == 'm' || e[0] == 'M') && (e[1] == 'd' || e[1] == 'D') && (e[2] == 'o' || e[2] == 'O') && (e[3] == 'w' || e[3] == 'W') && (e[4] == 'n' || e[4] == 'N'))
        || (e.len() == 3 && (e[0] == 'm' || e[0] == 'M') && (e[1] == 'k' || e[1] == 'K') && (e[2] == 'd' || e[2] == 'D'))
        || (e.len() == 4 && (e[0] == 'm' || e[0] == 'M') && (e[1] == 'd' || e[1] == 'D') && (e[2] == 'w' || e[2] == 'W') && (e[3] == 'n' || e[3] == 'N'))),
{
    reveal_strlit("md");
    assert(same_ignoring_ascii_case("md"@, e) <==> (e.len() == 2 && (e[0] == 'm' || e[0] == 'M') && (e[1] == 'd' || e[1] == 'D'))) by {
        let w = "md"@;
        crate::text::ascii_case_is_ignored(w, e);
        assert(w[0] == 'm');
        assert(w[1] == 'd');
    }
    reveal_strlit("markdown");
    assert(same_ignoring_ascii_case("markdown"@, e) <==> (e.len() == 8 && (e[0] == 'm' || e[0] == 'M') && (e[1] == 'a' || e[1] == 'A') && (e[2] == 'r' || e[2] == 'R') && (e[3] == 'k' || e[3] == 'K') && (e[4] == 'd' || e[4] == 'D') && (e[5] == 'o' || e[5] == 'O') && (e[6] == 'w' || e[6] == 'W') && (e[7] == 'n' || e[7] == 'N'))) by {
        let w = "markdown"@;
        crate::text::ascii_case_is_ignored(w, e);
        assert(w[0] == 'm');
        assert(w[1] == 'a');
        assert(w[2] == 'r');
        assert(w[3] == 'k');
        assert(w[4] == 'd');
        assert(w[5] == 'o');
        assert(w[6] == 'w');
        assert(w[7] == 'n');
    }
    reveal_strlit("mdx");
    assert(same_ignoring_ascii_case("mdx"@, e) <==> (e.len() == 3 && (e[0] == 'm' || e[0] == 'M') && (e[1] == 'd' || e[1] == 'D') && (e[2] == 'x' || e[2] == 'X'))) by {
        let w = "mdx"@;
        crate::text::ascii_case_is_ignored(w, e);
        assert(w[0] == 'm');
        assert(w[1] == 'd');
        assert(w[2] == 'x');
    }
    reveal_strlit("mdown");
    assert(same_ignoring_ascii_case("mdown"@, e) <==> (e.len() == 5 && (e[0] == 'm' || e[0] == 'M') && (e[1] == 'd' || e[1] == 'D') && (e[2] == 'o' || e[2] == 'O') && (e[3] == 'w' || e[3] == 'W') && (e[4] == 'n' || e[4] == 'N'))) by {
        let w = "mdown"@;
        crate::text::ascii_case_is_ignored(w, e);
        assert(w[0] == 'm');
        assert(w[1] == 'd');
        assert(w[2] == 'o');
        assert(w[3] == 'w');
        assert(w[4] == 'n');
    }
    reveal_strlit("mkd");
    assert(same_ignoring_ascii_case("mkd"@, e) <==> (e.len() == 3 && (e[0] == 'm' || e[0] == 'M') && (e[1] == 'k' || e[1] == 'K') && (e[2] == 'd' || e[2] == 'D'))) by {
        let w = "mkd"@;
        crate::text::ascii_case_is_ignored(w, e);
        assert(w[0] == 'm');
        assert(w[1] == 'k');
        assert(w[2] == 'd');
    }
    reveal_strlit("mdwn");
    assert(same_ignoring_ascii_case("mdwn"@, e) <==> (e.len() == 4 && (e[0] == 'm' || e[0] == 'M') && (e[1] == 'd' || e[1] == 'D') && (e[2] == 'w' || e[2] == 'W') && (e[3] == 'n' || e[3] == 'N'))) by {
        let w = "mdwn"@;
        crate::text::ascii_case_is_ignored(w, e);
        assert(w[0] == 'm');
        assert(w[1] == 'd');
        assert(w[2] == 'w');
        assert(w[3] == 'n');
    }
}

/// A further entry adds a note behind the others where it is a file with the
/// extension of a note, and adds nothing otherwise. The note is where the entry
/// is, is titled by the file name without the extension, and shown with the
/// path in the worktree.
pub proof fn entries_are_indexed_one_by_one(entries: Seq<EntryView>, entry: EntryView)
    ensures
        notes_in(Seq::empty()) == Seq::<NoteView>::empty(),
        entry.is_file && entry.path.extension is Some && is_note_extension(entry.path.extension->0)
            ==> notes_in(entries.push(entry)) == notes_in(entries).push(
            NoteView {
                abs_path: entry.abs_path,
                title: if entry.path.file_stem is Some {
                    entry.path.file_stem->0
                } else {
                    "untitled"@
                },
                relative: entry.path.display,
            },
        ),
        !(entry.is_file && entry.path.extension is Some && is_note_extension(
            entry.path.extension->0,
        )) ==> notes_in(entries.push(entry)) == notes_in(entries),
{
    let keep = |e: EntryView| is_note(e);
    let make = |e: EntryView| note_of(e);
    entries.lemma_filter_push(entry, keep);
    entries.filter(keep).lemma_push_map_commute(make, entry);
    assert(notes_in(Seq::empty()) =~= Seq::<NoteView>::empty());
}

/// The entries of a further worktree come behind those of the others, each as
/// it is.
pub proof fn worktrees_are_read_one_by_one(worktrees: Seq<Worktree>, worktree: Worktree, k: int)
    requires
        0 <= k < worktree.entries@.len(),
    ensures
        entries_of(Seq::empty()) == Seq::<EntryView>::empty(),
        entries_of(worktrees.push(worktree)).len() == entries_of(worktrees).len()
            + worktree.entries@.len(),
        entries_of(worktrees.push(worktree)).take(entries_of(worktrees).len() as int)
            == entries_of(worktrees),
        entries_of(worktrees.push(worktree))[entries_of(worktrees).len() + k] == (EntryView {
            is_file: worktree.entries@[k].is_file,
            abs_path: worktree.entries@[k].abs_path@,
            path: worktree.entries@[k].path@,
        }),
{
    let view = |w: Worktree| w@;
    worktrees.lemma_push_map_commute(view, worktree);
    worktrees.map_values(view).lemma_flatten_push(worktree@);
    assert(entries_of(Seq::empty()) =~= Seq::<EntryView>::empty());
    assert(entries_of(worktrees.push(worktree)).take(entries_of(worktrees).len() as int)
        =~= entries_of(worktrees));
}

/// A path is that of a note by its extension alone, and titled by its file name
/// without the extension.
pub proof fn note_paths_are_told_by_extension(path: PathView, stem: Seq<char>, text: String)
    ensures
        path.extension is None ==> !is_note_path(path),
        path.extension is Some ==> is_note_path(path) == is_note_extension(path.extension->0),
        path.file_stem == Some(stem) ==> title_of(path) == stem,
        path.file_stem is None ==> title_of(path) == "untitled"@,
        text_in(Some(text)) == Some(text@),
        text_in(None) is None,
{
}

/// What the contracts speak of is what a path and a note hold.
pub proof fn views_are_the_fields(path: RelativePath, notes: Seq<NoteEntry>)
    ensures
        path@.display == path.display@,
        path.file_stem is Some ==> path@.file_stem == Some(path.file_stem->0@),
        path.file_stem is None ==> path@.file_stem is None,
        path.extension is Some ==> path@.extension == Some(path.extension->0@),
        path.extension is None ==> path@.extension is None,
        note_views(notes).len() == notes.len(),
        forall|i: int|
            0 <= i < notes.len() ==> (#[trigger] note_views(notes)[i]).title == notes[i].title@
                && note_views(notes)[i].relative == notes[i].relative@ && note_views(
                notes,
            )[i].abs_path == notes[i].abs_path@,
{
}

} // verus!
