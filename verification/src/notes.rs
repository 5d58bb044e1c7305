//! The notes panel: an index of every note in the vault, a filter over it, a
//! selection, and the names of new notes.
use vstd::prelude::*;
use vstd::utf8::encode_utf8;

use crate::numerals::{decimal, digits_injective, to_decimal};
use crate::order::{
    arranged, arranged_keeps_items, bytes_le, bytes_le_total, positions, precedes, rank_le,
    ranks_of, sort_positions, sorting_is_stable, stable_order, stable_order_is_stable, Rank,
    SortKey,
};
use crate::panel::{at_side, DockPosition};
use crate::text::{
    contains, contains_text, list_contains, lowercase, substring_is_found, text_pairs, texts, trim,
    trimmed,
};
use crate::entries::{
    collect_notes, copy_bytes, entries_of, is_note, note_of, note_views, notes_in, EntryView,
    NoteEntry, NoteView, Worktree,
};

verus! {

// ---------------------------------------------------------------------------
// Sorting
// ---------------------------------------------------------------------------

/// Notes are sorted by their titles without regard to case, then by their
/// paths.
pub open spec fn note_rank(lower_title: Seq<char>, relative: Seq<char>) -> Rank {
    Rank { first: encode_utf8(lower_title), second: encode_utf8(relative), third: 0 }
}

/// The ranks of `notes` whose titles read `lower_titles` in lower case.
pub open spec fn note_ranks(notes: Seq<NoteView>, lower_titles: Seq<Seq<char>>) -> Seq<Rank> {
    Seq::new(notes.len(), |i: int| note_rank(lower_titles[i], notes[i].relative))
}

/// The titles of `notes` in lower case.
pub open spec fn lower_titles_of(notes: Seq<NoteView>) -> Seq<Seq<char>> {
    notes.map_values(|note: NoteView| lowercase(note.title))
}

/// `notes` in the order in which the panel lists them.
pub open spec fn sorted_notes(notes: Seq<NoteView>) -> Seq<NoteView> {
    arranged(notes, stable_order(note_ranks(notes, lower_titles_of(notes))))
}

/// `notes` in ascending order of `lower_titles`, then of their paths; notes
/// that agree in both keep their order.
pub fn sort_notes(notes: &Vec<NoteEntry>, lower_titles: &Vec<String>) -> (sorted: Vec<NoteEntry>)
    requires
        lower_titles.len() == notes.len(),
    ensures
        note_views(sorted@) == arranged(
            note_views(notes@),
            stable_order(note_ranks(note_views(notes@), texts(lower_titles@))),
        ),
{
    let ghost ranks = note_ranks(note_views(notes@), texts(lower_titles@));
    let mut keys: Vec<SortKey> = Vec::new();
    let mut i: usize = 0;
    while i < notes.len()
        invariant
            lower_titles.len() == notes.len(),
            ranks == note_ranks(note_views(notes@), texts(lower_titles@)),
            i <= notes.len(),
            ranks_of(keys@) == ranks.take(i as int),
        decreases notes.len() - i,
    {
        let ghost before = keys@;
        let key = SortKey {
            first: lower_titles[i].as_str().as_bytes_vec(),
            second: notes[i].relative.as_str().as_bytes_vec(),
            third: 0,
        };
        assert(key@ == ranks[i as int]);
        keys.push(key);
        assert(ranks_of(keys@) =~= ranks_of(before).push(ranks[i as int]));
        assert(ranks.take(i + 1) =~= ranks.take(i as int).push(ranks[i as int]));
        i += 1;
    }
    assert(ranks.take(i as int) =~= ranks);
    let order = sort_positions(&keys);
    let ghost sorted_order = stable_order(ranks);
    proof {
        stable_order_is_stable(ranks);
    }
    let mut sorted: Vec<NoteEntry> = Vec::new();
    let mut j: usize = 0;
    while j < order.len()
        invariant
            positions(order@) == sorted_order,
            sorted_order.len() == notes.len(),
            forall|k: int| 0 <= k < sorted_order.len() ==> 0 <= #[trigger] sorted_order[k] < notes.len(),
            j <= order.len(),
            note_views(sorted@) == arranged(note_views(notes@), sorted_order).take(j as int),
        decreases order.len() - j,
    {
        let ghost before = sorted@;
        assert(sorted_order[j as int] == order@[j as int]);
        let note = notes[order[j]].clone();
        sorted.push(note);
        proof {
            let all = arranged(note_views(notes@), sorted_order);
            assert(note@ == all[j as int]);
            assert(note_views(sorted@) =~= note_views(before).push(note@));
            assert(all.take(j + 1) =~= all.take(j as int).push(all[j as int]));
        }
        j += 1;
    }
    assert(note_views(sorted@) =~= arranged(note_views(notes@), sorted_order));
    sorted
}

// ---------------------------------------------------------------------------
// Filtering
// ---------------------------------------------------------------------------

/// Whether a note matches a query, all in lower case: the query is empty, or
/// stands in the title or in the path.
pub open spec fn note_matches(
    lower_title: Seq<char>,
    lower_relative: Seq<char>,
    query: Seq<char>,
) -> bool {
    query.len() == 0 || contains_text(lower_title, query) || contains_text(lower_relative, query)
}

/// The numbers from 0 up to `n`.
pub open spec fn range(n: nat) -> Seq<int> {
    Seq::new(n, |i: int| i)
}

/// The positions of the notes that match, in order, given the lower-case title
/// and path of each.
pub open spec fn matches(lowered: Seq<(Seq<char>, Seq<char>)>, query: Seq<char>) -> Seq<int> {
    range(lowered.len()).filter(
        |i: int| note_matches(lowered[i].0, lowered[i].1, query),
    )
}

/// The titles and paths of `notes` in lower case.
pub open spec fn lowered_of(notes: Seq<NoteView>) -> Seq<(Seq<char>, Seq<char>)> {
    notes.map_values(|note: NoteView| (lowercase(note.title), lowercase(note.relative)))
}

/// The query that the text of the filter stands for.
pub open spec fn query_of(filter_text: Seq<char>) -> Seq<char> {
    lowercase(trimmed(filter_text))
}

/// The positions of the notes that the filter lets through, in order.
pub open spec fn filtered_by(notes: Seq<NoteView>, filter_text: Seq<char>) -> Seq<int> {
    matches(lowered_of(notes), query_of(filter_text))
}

pub(crate) proof fn lemma_range_filter(n: nat, keep: spec_fn(int) -> bool)
    ensures
        ({
            let kept = range(n).filter(keep);
            &&& forall|k: int| 0 <= k < kept.len() ==> 0 <= #[trigger] kept[k] < n && keep(kept[k])
            &&& forall|j: int, k: int|
                0 <= j < k < kept.len() ==> #[trigger] kept[j] < #[trigger] kept[k]
            &&& forall|i: int| 0 <= i < n && keep(i) ==> #[trigger] kept.contains(i)
        }),
    decreases n,
{
    if n > 0 {
        let shorter = range((n - 1) as nat);
        lemma_range_filter((n - 1) as nat, keep);
        assert(range(n) =~= shorter.push(n - 1));
        shorter.lemma_filter_push(n - 1, keep);
        let before = shorter.filter(keep);
        let kept = range(n).filter(keep);
        assert forall|i: int| 0 <= i < n && keep(i) implies #[trigger] kept.contains(i) by {
            if i == n - 1 {
                assert(kept[before.len() as int] == i);
            } else {
                assert(before.contains(i));
                let k = choose|k: int| 0 <= k < before.len() && before[k] == i;
                assert(kept[k] == i);
            }
        }
    }
}

/// The positions of the notes that match `query`, in order, given the
/// lower-case title and path of each.
pub fn filter_notes(lowered: &Vec<(String, String)>, query: &str) -> (filtered: Vec<usize>)
    ensures
        positions(filtered@) == matches(text_pairs(lowered@), query@),
{
    let ghost pairs = text_pairs(lowered@);
    let ghost keep = |i: int| note_matches(pairs[i].0, pairs[i].1, query@);
    let mut filtered: Vec<usize> = Vec::new();
    let mut i: usize = 0;
    assert(positions(filtered@) =~= range(0).filter(keep));
    while i < lowered.len()
        invariant
            pairs == text_pairs(lowered@),
            keep == (|i: int| note_matches(pairs[i].0, pairs[i].1, query@)),
            i <= lowered.len(),
            positions(filtered@) == range(i as nat).filter(keep),
        decreases lowered.len() - i,
    {
        let ghost before = filtered@;
        proof {
            assert(range((i + 1) as nat) =~= range(i as nat).push(i as int));
            range(i as nat).lemma_filter_push(i as int, keep);
            assert(pairs[i as int] == (lowered@[i as int].0@, lowered@[i as int].1@));
        }
        if query.is_empty() || contains(lowered[i].0.as_str(), query) || contains(
            lowered[i].1.as_str(),
            query,
        ) {
            filtered.push(i);
            assert(positions(filtered@) =~= positions(before).push(i as int));
        }
        i += 1;
    }
    filtered
}

// ---------------------------------------------------------------------------
// The panel
// ---------------------------------------------------------------------------

/// The state of the panel as the contracts speak of it.
pub ghost struct NotesState {
    /// The full vault index, sorted by title.
    pub notes: Seq<NoteView>,
    /// Positions in `notes` that match the filter, in display order.
    pub filtered: Seq<int>,
    /// Position in `filtered` of the highlighted note, if any.
    pub selected: Option<int>,
    pub position: DockPosition,
}

impl NotesState {
    /// What is filtered are notes, in the order of the index, and one of them
    /// is selected unless there is none.
    pub open spec fn wf(self) -> bool {
        &&& forall|k: int|
            0 <= k < self.filtered.len() ==> 0 <= #[trigger] self.filtered[k] < self.notes.len()
        &&& forall|j: int, k: int|
            0 <= j < k < self.filtered.len() ==> #[trigger] self.filtered[j]
                < #[trigger] self.filtered[k]
        &&& match self.selected {
            Some(index) => 0 <= index < self.filtered.len(),
            None => self.filtered.len() == 0,
        }
    }

    /// A panel that has seen no note.
    pub open spec fn initial() -> NotesState {
        NotesState {
            notes: Seq::empty(),
            filtered: Seq::empty(),
            selected: None,
            position: DockPosition::Left,
        }
    }

    /// After the filter reads `filter_text`: the notes that match are shown,
    /// and the first of them is selected.
    pub open spec fn filtered_by(self, filter_text: Seq<char>) -> NotesState {
        let filtered = filtered_by(self.notes, filter_text);
        NotesState {
            filtered,
            selected: if filtered.len() == 0 {
                None
            } else {
                Some(0)
            },
            ..self
        }
    }

    /// After the index was rebuilt from the entries of the project.
    pub open spec fn refreshed(
        self,
        entries: Seq<EntryView>,
        filter_text: Seq<char>,
    ) -> NotesState {
        NotesState { notes: sorted_notes(notes_in(entries)), ..self }.filtered_by(filter_text)
    }

    /// After the selection moved one row down, as far as there is one.
    pub open spec fn moved_down(self) -> NotesState {
        let index = self.selected->0;
        let next = if index + 1 < self.filtered.len() {
            index + 1
        } else {
            self.filtered.len() - 1
        };
        NotesState { selected: Some(next), ..self }
    }

    /// After the selection moved one row up, as far as there is one.
    pub open spec fn moved_up(self) -> NotesState {
        let index = self.selected->0;
        let previous = if index > 0 {
            index - 1
        } else {
            0
        };
        NotesState { selected: Some(previous), ..self }
    }

    /// The note shown in row `row`.
    pub open spec fn shown(self, row: int) -> NoteView {
        self.notes[self.filtered[row]]
    }
}

/// A row of the panel.
pub struct NoteRow {
    pub title: String,
    pub relative: String,
    pub selected: bool,
}

/// A row as the contracts speak of it.
pub ghost struct NoteRowView {
    pub title: Seq<char>,
    pub relative: Seq<char>,
    pub selected: bool,
}

impl View for NoteRow {
    type V = NoteRowView;

    open spec fn view(&self) -> NoteRowView {
        NoteRowView { title: self.title@, relative: self.relative@, selected: self.selected }
    }
}

impl NotesState {
    /// The row for the note at `note_index`, in place `row` of the list.
    pub open spec fn row(self, row: int, note_index: int) -> NoteRowView {
        NoteRowView {
            title: self.notes[note_index].title,
            relative: self.notes[note_index].relative,
            selected: self.selected == Some(row),
        }
    }

    /// The rows from `start` up to `end`, as far as there are any.
    pub open spec fn rows(self, start: int, end: int) -> Seq<NoteRowView> {
        let stop = if end < self.filtered.len() {
            end
        } else {
            self.filtered.len() as int
        };
        let count: nat = if start < stop {
            (stop - start) as nat
        } else {
            0
        };
        Seq::new(count, |i: int| self.row(start + i, self.filtered[start + i]))
    }
}

/// What stands below the filter: a message where no note is shown, and the
/// number of rows otherwise.
pub enum NotesBody {
    Message(&'static str),
    Rows(usize),
}

/// The notes panel.
pub struct NotesPanel {
    notes: Vec<NoteEntry>,
    filtered: Vec<usize>,
    selected_index: Option<usize>,
    position: DockPosition,
}

impl View for NotesPanel {
    type V = NotesState;

    closed spec fn view(&self) -> NotesState {
        NotesState {
            notes: note_views(self.notes@),
            filtered: positions(self.filtered@),
            selected: match self.selected_index {
                Some(index) => Some(index as int),
                None => None,
            },
            position: self.position,
        }
    }
}

impl NotesPanel {
    fn new() -> (panel: NotesPanel)
        ensures
            panel@ == NotesState::initial(),
            panel@.wf(),
    {
        let panel = NotesPanel {
            notes: Vec::new(),
            filtered: Vec::new(),
            selected_index: None,
            position: DockPosition::Left,
        };
        assert(panel@.notes =~= Seq::<NoteView>::empty());
        assert(panel@.filtered =~= Seq::<int>::empty());
        panel
    }

    /// A panel over the notes of the project.
    pub fn load(worktrees: &Vec<Worktree>, filter_text: &str) -> (panel: NotesPanel)
        ensures
            panel@ == NotesState::initial().refreshed(entries_of(worktrees@), filter_text@),
            panel@.wf(),
            trimmed(filter_text@).len() == 0 ==> panel@.filtered == range(panel@.notes.len()),
    {
        let mut panel = NotesPanel::new();
        panel.refresh_notes(worktrees, filter_text);
        panel
    }

    /// Rebuilds the vault index by scanning every worktree for notes, then
    /// recomputes the filtered view.
    pub fn refresh_notes(&mut self, worktrees: &Vec<Worktree>, filter_text: &str)
        ensures
            final(self)@ == old(self)@.refreshed(entries_of(worktrees@), filter_text@),
            final(self)@.wf(),
            trimmed(filter_text@).len() == 0 ==> final(self)@.filtered == range(
                final(self)@.notes.len(),
            ),
    {
        let notes = collect_notes(worktrees);
        let mut lower_titles: Vec<String> = Vec::new();
        let mut i: usize = 0;
        while i < notes.len()
            invariant
                i <= notes.len(),
                texts(lower_titles@) == lower_titles_of(note_views(notes@)).take(i as int),
            decreases notes.len() - i,
        {
            let ghost before = lower_titles@;
            let lower = notes[i].title.as_str().to_lowercase();
            lower_titles.push(lower);
            proof {
                let all = lower_titles_of(note_views(notes@));
                assert(lower@ == all[i as int]);
                assert(texts(lower_titles@) =~= texts(before).push(lower@));
                assert(all.take(i + 1) =~= all.take(i as int).push(all[i as int]));
            }
            i += 1;
        }
        proof {
            let all = lower_titles_of(note_views(notes@));
            assert(all.take(i as int) =~= all);
        }
        self.notes = sort_notes(&notes, &lower_titles);
        self.update_matches(filter_text);
    }

    /// Recomputes the filtered view for the text of the filter. Matching is a
    /// case-insensitive substring test against the title and relative path.
    pub fn update_matches(&mut self, filter_text: &str)
        ensures
            final(self)@ == old(self)@.filtered_by(filter_text@),
            final(self)@.wf(),
            trimmed(filter_text@).len() == 0 ==> final(self)@.filtered == range(
                final(self)@.notes.len(),
            ),
    {
        let query = trim(filter_text).to_lowercase();
        let mut lowered: Vec<(String, String)> = Vec::new();
        let mut i: usize = 0;
        while i < self.notes.len()
            invariant
                i <= self.notes.len(),
                text_pairs(lowered@) == lowered_of(note_views(self.notes@)).take(i as int),
            decreases self.notes.len() - i,
        {
            let ghost before = lowered@;
            let pair = (
                self.notes[i].title.as_str().to_lowercase(),
                self.notes[i].relative.as_str().to_lowercase(),
            );
            lowered.push(pair);
            proof {
                let all = lowered_of(note_views(self.notes@));
                assert((pair.0@, pair.1@) == all[i as int]);
                assert(text_pairs(lowered@) =~= text_pairs(before).push(all[i as int]));
                assert(all.take(i + 1) =~= all.take(i as int).push(all[i as int]));
            }
            i += 1;
        }
        proof {
            let all = lowered_of(note_views(self.notes@));
            assert(all.take(i as int) =~= all);
            let pairs = text_pairs(lowered@);
            lemma_range_filter(
                pairs.len(),
                |k: int| note_matches(pairs[k].0, pairs[k].1, query@),
            );
            if query@.len() == 0 {
                assert(query@ =~= Seq::<char>::empty());
                empty_query_shows_all(pairs);
            }
        }
        self.filtered = filter_notes(&lowered, query.as_str());
        self.selected_index = if self.filtered.len() == 0 {
            None
        } else {
            Some(0)
        };
    }

    /// Selects the note in row `filtered_index` and gives the path to open, or
    /// leaves the panel as it is where there is no such row or no workspace to
    /// open it in.
    pub fn open_note(&mut self, filtered_index: usize, workspace_open: bool) -> (path: Option<
        Vec<u8>,
    >)
        requires
            old(self)@.wf(),
        ensures
            final(self)@.wf(),
            path is Some <==> filtered_index < old(self)@.filtered.len() && workspace_open,
            path matches Some(abs_path) ==> {
                &&& abs_path@ == old(self)@.shown(filtered_index as int).abs_path
                &&& final(self)@ == (NotesState {
                    selected: Some(filtered_index as int),
                    ..old(self)@
                })
            },
            path is None ==> final(self)@ == old(self)@,
    {
        if filtered_index >= self.filtered.len() {
            return None;
        }
        assert(self@.filtered[filtered_index as int] == self.filtered@[filtered_index as int]);
        let note_index: usize = self.filtered[filtered_index];
        let abs_path = copy_bytes(&self.notes[note_index].abs_path);
        if !workspace_open {
            return None;
        }
        self.selected_index = Some(filtered_index);
        Some(abs_path)
    }

    /// Moves the selection one row down, as far as there is one, and gives the
    /// row to scroll to.
    pub fn select_next(&mut self) -> (row: Option<usize>)
        requires
            old(self)@.wf(),
        ensures
            final(self)@.wf(),
            row is None <==> old(self)@.filtered.len() == 0,
            row is None ==> final(self)@ == old(self)@,
            row matches Some(next) ==> {
                &&& final(self)@ == old(self)@.moved_down()
                &&& final(self)@.selected == Some(next as int)
            },
    {
        if self.filtered.len() == 0 {
            return None;
        }
        let next: usize = match self.selected_index {
            Some(index) => if index + 1 < self.filtered.len() {
                index + 1
            } else {
                self.filtered.len() - 1
            },
            None => 0,
        };
        self.selected_index = Some(next);
        Some(next)
    }

    /// Moves the selection one row up, as far as there is one, and gives the
    /// row to scroll to.
    pub fn select_previous(&mut self) -> (row: Option<usize>)
        requires
            old(self)@.wf(),
        ensures
            final(self)@.wf(),
            row is None <==> old(self)@.filtered.len() == 0,
            row is None ==> final(self)@ == old(self)@,
            row matches Some(previous) ==> {
                &&& final(self)@ == old(self)@.moved_up()
                &&& final(self)@.selected == Some(previous as int)
            },
    {
        if self.filtered.len() == 0 {
            return None;
        }
        let previous: usize = match self.selected_index {
            Some(index) => if index > 0 {
                index - 1
            } else {
                0
            },
            None => 0,
        };
        self.selected_index = Some(previous);
        Some(previous)
    }

    /// Opens the selected note.
    pub fn confirm(&mut self, workspace_open: bool) -> (path: Option<Vec<u8>>)
        requires
            old(self)@.wf(),
        ensures
            final(self)@ == old(self)@,
            path is Some <==> old(self)@.selected is Some && workspace_open,
            path matches Some(abs_path) ==> abs_path@ == old(self)@.shown(
                old(self)@.selected->0,
            ).abs_path,
    {
        match self.selected_index {
            Some(selected) => self.open_note(selected, workspace_open),
            None => None,
        }
    }

    /// Where the panel is docked.
    pub fn position(&self) -> (position: DockPosition)
        ensures
            position == self@.position,
    {
        self.position
    }

    /// Whether the panel can be docked at `position`.
    pub fn position_is_valid(&self, position: DockPosition) -> (b: bool)
        ensures
            b == at_side(position),
    {
        position.is_side()
    }

    /// Docks the panel at `position`.
    pub fn set_position(&mut self, position: DockPosition)
        ensures
            final(self)@ == (NotesState { position, ..old(self)@ }),
            old(self)@.wf() ==> final(self)@.wf(),
    {
        self.position = position;
    }

    /// The row for the note at `note_index`, in place `filtered_index` of the
    /// list, or nothing where there is no such note.
    pub fn render_note(&self, filtered_index: usize, note_index: usize) -> (row: Option<NoteRow>)
        ensures
            row is Some <==> note_index < self@.notes.len(),
            row matches Some(r) ==> r@ == self@.row(filtered_index as int, note_index as int),
    {
        if note_index >= self.notes.len() {
            return None;
        }
        let selected: bool = match self.selected_index {
            Some(index) => index == filtered_index,
            None => false,
        };
        Some(
            NoteRow {
                title: self.notes[note_index].title.clone(),
                relative: self.notes[note_index].relative.clone(),
                selected,
            },
        )
    }

    /// The rows from `start` up to `end`, as far as there are any.
    pub fn render_rows(&self, start: usize, end: usize) -> (rows: Vec<NoteRow>)
        requires
            self@.wf(),
        ensures
            rows@.map_values(|row: NoteRow| row@) == self@.rows(start as int, end as int),
    {
        let ghost all = self@.rows(start as int, end as int);
        let ghost view = |row: NoteRow| row@;
        let mut rows: Vec<NoteRow> = Vec::new();
        let stop: usize = if end < self.filtered.len() {
            end
        } else {
            self.filtered.len()
        };
        let mut i: usize = start;
        assert(rows@.map_values(view) =~= all.take(0));
        while i < stop
            invariant
                self@.wf(),
                all == self@.rows(start as int, end as int),
                view == (|row: NoteRow| row@),
                stop == if end < self.filtered.len() { end } else { self.filtered.len() },
                start <= i,
                i <= stop || i == start,
                rows@.map_values(view) == all.take(i - start),
            decreases stop - i,
        {
            let ghost before = rows@;
            assert(self@.filtered[i as int] == self.filtered@[i as int]);
            if let Some(row) = self.render_note(i, self.filtered[i]) {
                rows.push(row);
                proof {
                    assert(row@ == all[i - start]);
                    assert(rows@.map_values(view) =~= before.map_values(view).push(row@));
                    assert(all.take(i + 1 - start) =~= all.take(i - start).push(row@));
                }
            }
            i += 1;
        }
        assert(all.take(i - start) =~= all);
        rows
    }

    /// What stands below the filter.
    pub fn render(&self) -> (body: NotesBody)
        ensures
            match body {
                NotesBody::Message(message) => {
                    &&& self@.filtered.len() == 0
                    &&& message@ == if self@.notes.len() == 0 {
                        "No notes in this vault yet. Create one with the + button."@
                    } else {
                        "No notes match your search."@
                    }
                },
                NotesBody::Rows(count) => count == self@.filtered.len() && count > 0,
            },
    {
        if self.filtered.len() == 0 {
            NotesBody::Message(
                if self.notes.len() == 0 {
                    "No notes in this vault yet. Create one with the + button."
                } else {
                    "No notes match your search."
                },
            )
        } else {
            NotesBody::Rows(self.filtered.len())
        }
    }
}

// ---------------------------------------------------------------------------
// New notes
// ---------------------------------------------------------------------------

/// The name that is tried for a new note in attempt `n`, from 1: `Untitled.md`,
/// `Untitled 2.md`, `Untitled 3.md` and so on.
pub open spec fn untitled(n: nat) -> Seq<char> {
    if n == 1 {
        "Untitled.md"@
    } else {
        "Untitled "@ + decimal(n) + ".md"@
    }
}

/// Attempt `n` is the first whose name is not taken.
pub open spec fn first_free(taken: Seq<Seq<char>>, n: nat) -> bool {
    &&& 1 <= n
    &&& !taken.contains(untitled(n))
    &&& forall|m: nat| 1 <= m < n ==> taken.contains(#[trigger] untitled(m))
}

/// Different attempts have different names.
pub proof fn untitled_injective(m: nat, n: nat)
    requires
        1 <= m,
        1 <= n,
        untitled(m) == untitled(n),
    ensures
        m == n,
{
    reveal_strlit("Untitled.md");
    reveal_strlit("Untitled ");
    reveal_strlit(".md");
    if m == 1 && n != 1 {
        assert(untitled(m)[8] == '.');
        assert(untitled(n)[8] == ' ');
    } else if n == 1 && m != 1 {
        assert(untitled(n)[8] == '.');
        assert(untitled(m)[8] == ' ');
    } else if m != 1 {
        let a = untitled(m);
        let b = untitled(n);
        assert(a.subrange(9, a.len() - 3) =~= decimal(m));
        assert(b.subrange(9, b.len() - 3) =~= decimal(n));
        digits_injective(m, n, 10);
    }
}

proof fn lemma_taken_bound(taken: Seq<Seq<char>>, n: nat)
    requires
        forall|m: nat| 1 <= m <= n ==> taken.contains(#[trigger] untitled(m)),
    ensures
        n <= taken.len(),
{
    let names = Seq::new(n, |i: int| untitled((i + 1) as nat));
    assert forall|i: int, j: int|
        0 <= i < names.len() && 0 <= j < names.len() && i != j implies names[i] != names[j] by {
        if names[i] == names[j] {
            untitled_injective((i + 1) as nat, (j + 1) as nat);
        }
    }
    names.unique_seq_to_set();
    taken.lemma_cardinality_of_set();
    vstd::seq_lib::seq_to_set_is_finite(taken);
    assert forall|name: Seq<char>| names.to_set().contains(name) implies taken.to_set().contains(
        name,
    ) by {
        let i = choose|i: int| 0 <= i < names.len() && names[i] == name;
        assert(taken.contains(untitled((i + 1) as nat)));
    }
    vstd::set_lib::lemma_len_subset(names.to_set(), taken.to_set());
}

fn untitled_name(n: u128) -> (name: String)
    requires
        1 <= n,
    ensures
        name@ == untitled(n as nat),
{
    if n == 1 {
        "Untitled.md".to_owned()
    } else {
        let mut name = "Untitled ".to_owned();
        let number = to_decimal(n);
        name.append(number.as_str());
        name.append(".md");
        name
    }
}

/// The name of a new note at the root of a worktree whose entries have the
/// paths `taken`: the first of the names that are tried which no entry has.
pub fn new_note_name(taken: &Vec<String>) -> (name: String)
    ensures
        exists|n: nat| #[trigger] first_free(texts(taken@), n) && name@ == untitled(n),
        forall|i: int| 0 <= i < taken@.len() ==> (#[trigger] taken@[i])@ != name@,
{
    let ghost paths = texts(taken@);
    let mut counter: u128 = 1;
    loop
        invariant
            paths == texts(taken@),
            1 <= counter <= taken.len() + 1,
            forall|m: nat| 1 <= m < counter ==> paths.contains(#[trigger] untitled(m)),
        decreases taken.len() + 1 - counter,
    {
        let name = untitled_name(counter);
        if !list_contains(taken, &name) {
            assert(first_free(paths, counter as nat));
            assert forall|i: int| 0 <= i < taken@.len() implies (#[trigger] taken@[i])@ != name@ by {
                assert(paths[i] == taken@[i]@);
            }
            return name;
        }
        proof {
            lemma_taken_bound(paths, counter as nat);
        }
        counter += 1;
    }
}

// ---------------------------------------------------------------------------
// Laws
// ---------------------------------------------------------------------------

/// The index lists exactly the notes of the project: none is lost, none is
/// invented.
pub proof fn index_keeps_notes(notes: Seq<NoteView>)
    ensures
        sorted_notes(notes).to_multiset() == notes.to_multiset(),
{
    arranged_keeps_items(notes, note_ranks(notes, lower_titles_of(notes)));
}

/// The index is sorted by title without regard to case, and by path among
/// notes of the same title.
pub proof fn index_is_sorted(notes: Seq<NoteView>, i: int, j: int)
    requires
        0 <= i < j < sorted_notes(notes).len(),
    ensures
        rank_le(
            note_rank(lowercase(sorted_notes(notes)[i].title), sorted_notes(notes)[i].relative),
            note_rank(lowercase(sorted_notes(notes)[j].title), sorted_notes(notes)[j].relative),
        ),
{
    let ranks = note_ranks(notes, lower_titles_of(notes));
    let order = stable_order(ranks);
    stable_order_is_stable(ranks);
    assert(precedes(ranks, order[i], order[j]));
}

/// The filter shows a note if and only if it matches, each once and in the
/// order of the index.
pub proof fn filter_is_exact(lowered: Seq<(Seq<char>, Seq<char>)>, query: Seq<char>)
    ensures
        forall|i: int|
            0 <= i < lowered.len() ==> (#[trigger] matches(lowered, query).contains(i)
                <==> note_matches(lowered[i].0, lowered[i].1, query)),
        forall|k: int|
            0 <= k < matches(lowered, query).len() ==> 0 <= #[trigger] matches(lowered, query)[k]
                < lowered.len(),
        forall|j: int, k: int|
            0 <= j < k < matches(lowered, query).len() ==> #[trigger] matches(lowered, query)[j]
                < #[trigger] matches(lowered, query)[k],
{
    let keep = |i: int| note_matches(lowered[i].0, lowered[i].1, query);
    lemma_range_filter(lowered.len(), keep);
    assert forall|i: int|
        0 <= i < lowered.len() && #[trigger] matches(lowered, query).contains(
            i,
        ) implies note_matches(lowered[i].0, lowered[i].1, query) by {
        let kept = range(lowered.len()).filter(keep);
        let k = choose|k: int| 0 <= k < kept.len() && kept[k] == i;
        assert(keep(kept[k]));
    }
}

/// An empty query shows every note.
pub proof fn empty_query_shows_all(lowered: Seq<(Seq<char>, Seq<char>)>)
    ensures
        matches(lowered, Seq::empty()) == range(lowered.len()),
{
    let keep = |i: int| note_matches(lowered[i].0, lowered[i].1, Seq::empty());
    lemma_filter_all(range(lowered.len()), keep);
}

proof fn lemma_filter_all(s: Seq<int>, keep: spec_fn(int) -> bool)
    requires
        forall|i: int| 0 <= i < s.len() ==> keep(#[trigger] s[i]),
    ensures
        s.filter(keep) == s,
    decreases s.len(),
{
    reveal(Seq::filter);
    if s.len() > 0 {
        let shorter = s.drop_last();
        assert forall|i: int| 0 <= i < shorter.len() implies keep(#[trigger] shorter[i]) by {
            assert(keep(s[i]));
        }
        lemma_filter_all(shorter, keep);
        assert(keep(s[s.len() - 1]));
        assert(shorter.push(s.last()) =~= s);
    }
}

/// The index lists a note if and only if some entry of the project is a file
/// with the extension of a note and stands for it.
pub proof fn index_is_exact(entries: Seq<EntryView>, note: NoteView)
    ensures
        sorted_notes(notes_in(entries)).contains(note) <==> exists|k: int|
            0 <= k < entries.len() && is_note(#[trigger] entries[k]) && note_of(entries[k])
                == note,
{
    let keep = |entry: EntryView| is_note(entry);
    let make = |entry: EntryView| note_of(entry);
    let kept = entries.filter(keep);
    let notes = notes_in(entries);
    index_keeps_notes(notes);
    vstd::seq_lib::to_multiset_contains(notes, note);
    vstd::seq_lib::to_multiset_contains(sorted_notes(notes), note);
    if notes.contains(note) {
        let i = choose|i: int| 0 <= i < notes.len() && notes[i] == note;
        entries.lemma_filter_pred(keep, i);
        entries.lemma_filter_contains_rev(keep, kept[i]);
        let k = choose|k: int| 0 <= k < entries.len() && entries[k] == kept[i];
        assert(is_note(entries[k]));
    }
    if exists|k: int|
        0 <= k < entries.len() && is_note(#[trigger] entries[k]) && note_of(entries[k]) == note {
        let k = choose|k: int|
            0 <= k < entries.len() && is_note(#[trigger] entries[k]) && note_of(entries[k])
                == note;
        entries.lemma_filter_contains(keep, k);
        let i = choose|i: int| 0 <= i < kept.len() && kept[i] == entries[k];
        assert(notes[i] == note);
    }
}

/// Moving down and back up ends where it began, unless the last row was
/// selected.
pub proof fn down_then_up(s: NotesState)
    requires
        s.wf(),
        s.selected is Some,
    ensures
        s.selected->0 + 1 < s.filtered.len() ==> s.moved_down().moved_up() == s,
        s.selected->0 + 1 == s.filtered.len() ==> s.moved_down() == s,
{
}

/// Moving up and back down ends where it began, unless the first row was
/// selected.
pub proof fn up_then_down(s: NotesState)
    requires
        s.wf(),
        s.selected is Some,
    ensures
        s.selected->0 > 0 ==> s.moved_up().moved_down() == s,
        s.selected->0 == 0 ==> s.moved_up() == s,
{
}

/// Filtering for the same text twice is filtering for it once.
pub proof fn filter_again(s: NotesState, filter_text: Seq<char>)
    ensures
        s.filtered_by(filter_text).filtered_by(filter_text) == s.filtered_by(filter_text),
{
}

/// A new name is one that no entry has, and there is one only.
pub proof fn new_name_is_fresh(taken: Seq<Seq<char>>, m: nat, n: nat)
    requires
        first_free(taken, m),
        first_free(taken, n),
    ensures
        m == n,
        !taken.contains(untitled(n)),
        n <= taken.len() + 1,
{
    if m < n {
        assert(taken.contains(untitled(m)));
    } else if n < m {
        assert(taken.contains(untitled(n)));
    }
    lemma_taken_bound(taken, (n - 1) as nat);
}

/// Sorted by given lower-case titles, every note comes once. Of two notes the
/// one with the title that comes first is first, of two with the same title the
/// one with the path that comes first, and of two that agree in both the one
/// that came first before.
pub proof fn titles_then_paths_decide(notes: Seq<NoteView>, lower_titles: Seq<Seq<char>>)
    requires
        lower_titles.len() == notes.len(),
    ensures
        ({
            let order = stable_order(note_ranks(notes, lower_titles));
            let sorted = arranged(notes, order);
            &&& order.len() == notes.len()
            &&& sorted.len() == notes.len()
            &&& forall|i: int|
                0 <= i < order.len() ==> 0 <= #[trigger] order[i] < notes.len() && sorted[i]
                    == notes[order[i]]
            &&& forall|i: int, j: int|
                #![trigger order[i], order[j]]
                0 <= i < j < order.len() ==> {
                    let a = encode_utf8(lower_titles[order[i]]);
                    let b = encode_utf8(lower_titles[order[j]]);
                    let p = encode_utf8(notes[order[i]].relative);
                    let q = encode_utf8(notes[order[j]].relative);
                    &&& order[i] != order[j]
                    &&& bytes_le(a, b)
                    &&& a == b ==> bytes_le(p, q)
                    &&& a == b && p == q ==> order[i] < order[j]
                }
        }),
{
    let ranks = note_ranks(notes, lower_titles);
    let order = stable_order(ranks);
    sorting_is_stable(notes, ranks);
    assert forall|i: int, j: int|
        #![trigger order[i], order[j]]
        0 <= i < j < order.len() implies {
        let a = encode_utf8(lower_titles[order[i]]);
        let b = encode_utf8(lower_titles[order[j]]);
        let p = encode_utf8(notes[order[i]].relative);
        let q = encode_utf8(notes[order[j]].relative);
        &&& order[i] != order[j]
        &&& bytes_le(a, b)
        &&& a == b ==> bytes_le(p, q)
        &&& a == b && p == q ==> order[i] < order[j]
    } by {
        let x = ranks[order[i]];
        let y = ranks[order[j]];
        assert(rank_le(x, y));
        bytes_le_total(x.first, y.first);
        bytes_le_total(x.second, y.second);
    }
}

/// The index is sorted by title without regard to case, then by path: of two
/// notes in it the first has the title that comes first, byte by byte in lower
/// case, and where the titles are the same the path that comes first. It is
/// the notes of the project in another order, each once.
pub proof fn index_goes_by_title_then_path(notes: Seq<NoteView>, i: int, j: int)
    requires
        0 <= i < j < notes.len(),
    ensures
        sorted_notes(notes).len() == notes.len(),
        sorted_notes(notes).to_multiset() == notes.to_multiset(),
        bytes_le(
            encode_utf8(lowercase(sorted_notes(notes)[i].title)),
            encode_utf8(lowercase(sorted_notes(notes)[j].title)),
        ),
        encode_utf8(lowercase(sorted_notes(notes)[i].title)) == encode_utf8(
            lowercase(sorted_notes(notes)[j].title),
        ) ==> bytes_le(
            encode_utf8(sorted_notes(notes)[i].relative),
            encode_utf8(sorted_notes(notes)[j].relative),
        ),
{
    index_keeps_notes(notes);
    titles_then_paths_decide(notes, lower_titles_of(notes));
    let order = stable_order(note_ranks(notes, lower_titles_of(notes)));
    assert(order[i] != order[j]);
}

/// Whether the query stands in a note is what decides: a note is shown if and
/// only if the query is empty, or the lower-case title or the lower-case path
/// is the query with any text before it and any text behind it. Each such note
/// comes once, in the order of the index.
pub proof fn query_is_looked_for_anywhere(
    lowered: Seq<(Seq<char>, Seq<char>)>,
    query: Seq<char>,
    i: int,
)
    requires
        0 <= i < lowered.len(),
    ensures
        matches(lowered, query).contains(i) <==> query.len() == 0 || (exists|
            a: Seq<char>,
            b: Seq<char>,
        |
            lowered[i].0 == #[trigger] (a + query + b)) || (exists|a: Seq<char>, b: Seq<char>|
            lowered[i].1 == #[trigger] (a + query + b)),
        forall|k: int|
            0 <= k < matches(lowered, query).len() ==> 0 <= #[trigger] matches(lowered, query)[k]
                < lowered.len(),
        forall|j: int, k: int|
            0 <= j < k < matches(lowered, query).len() ==> #[trigger] matches(lowered, query)[j]
                < #[trigger] matches(lowered, query)[k],
{
    filter_is_exact(lowered, query);
    substring_is_found(lowered[i].0, query);
    substring_is_found(lowered[i].1, query);
}

/// The panel shows a note if and only if the text of the filter, trimmed and in
/// lower case, is blank or stands somewhere in the title or the path of the
/// note in lower case. The first row is selected, where there is one; the index
/// and the position stay.
pub proof fn filter_text_is_looked_for_anywhere(s: NotesState, filter_text: Seq<char>, i: int)
    requires
        0 <= i < s.notes.len(),
    ensures
        ({
            let query = lowercase(trimmed(filter_text));
            let after = s.filtered_by(filter_text);
            &&& after.notes == s.notes
            &&& after.position == s.position
            &&& after.filtered.contains(i) <==> query.len() == 0 || (exists|
                a: Seq<char>,
                b: Seq<char>,
            |
                lowercase(s.notes[i].title) == #[trigger] (a + query + b)) || (exists|
                a: Seq<char>,
                b: Seq<char>,
            |
                lowercase(s.notes[i].relative) == #[trigger] (a + query + b))
            &&& forall|j: int, k: int|
                0 <= j < k < after.filtered.len() ==> #[trigger] after.filtered[j]
                    < #[trigger] after.filtered[k]
            &&& forall|k: int|
                0 <= k < after.filtered.len() ==> 0 <= #[trigger] after.filtered[k] < s.notes.len()
            &&& after.filtered.len() > 0 ==> after.selected == Some(0int)
            &&& after.filtered.len() == 0 ==> after.selected is None
        }),
{
    query_is_looked_for_anywhere(lowered_of(s.notes), lowercase(trimmed(filter_text)), i);
}

/// After a rebuild the index is that of the entries, filtered by the text, and
/// the panel stays where it is; a new panel is on the left and empty.
pub proof fn refresh_replaces_the_index(
    s: NotesState,
    entries: Seq<EntryView>,
    filter_text: Seq<char>,
)
    ensures
        s.refreshed(entries, filter_text).notes == sorted_notes(notes_in(entries)),
        s.refreshed(entries, filter_text).position == s.position,
        forall|other: NotesState|
            other.notes == sorted_notes(notes_in(entries)) ==> s.refreshed(
                entries,
                filter_text,
            ).filtered == (#[trigger] other.filtered_by(filter_text)).filtered && s.refreshed(
                entries,
                filter_text,
            ).selected == other.filtered_by(filter_text).selected,
        NotesState::initial().notes.len() == 0,
        NotesState::initial().filtered.len() == 0,
        NotesState::initial().selected is None,
        NotesState::initial().position == DockPosition::Left,
{
}

/// The selection moves by one row and stops at either end; nothing else moves.
pub proof fn selection_moves_by_one(s: NotesState, index: int)
    requires
        s.selected == Some(index),
        0 <= index < s.filtered.len(),
    ensures
        index + 1 < s.filtered.len() ==> s.moved_down().selected == Some(index + 1),
        index + 1 == s.filtered.len() ==> s.moved_down().selected == Some(index),
        index > 0 ==> s.moved_up().selected == Some(index - 1),
        index == 0 ==> s.moved_up().selected == Some(index),
        s.moved_down().filtered == s.filtered && s.moved_up().filtered == s.filtered,
        s.moved_down().notes == s.notes && s.moved_up().notes == s.notes,
        s.moved_down().position == s.position && s.moved_up().position == s.position,
{
}

/// Row `start + i` shows the note that the filter let through in that place,
/// and is marked if and only if it is selected; there are rows as far as the
/// range and the list go.
pub proof fn rows_show_the_filtered_notes(s: NotesState, start: int, end: int, i: int)
    requires
        0 <= start,
        0 <= i,
        start + i < end,
        start + i < s.filtered.len(),
    ensures
        s.rows(start, end).len() == if end < s.filtered.len() {
            end - start
        } else {
            s.filtered.len() - start
        },
        s.rows(start, end)[i].title == s.notes[s.filtered[start + i]].title,
        s.rows(start, end)[i].relative == s.notes[s.filtered[start + i]].relative,
        s.rows(start, end)[i].selected <==> s.selected == Some(start + i),
        s.shown(start + i) == s.notes[s.filtered[start + i]],
        forall|a: int, b: int| a >= b || a >= s.filtered.len() ==> (#[trigger] s.rows(a, b)).len() == 0,
{
}

/// What the contracts speak of is what a row holds.
pub proof fn row_view_is_the_fields(row: NoteRow, s: NotesState, k: int, note_index: int)
    ensures
        forall|n: nat| (#[trigger] range(n)).len() == n,
        forall|n: nat, i: int| 0 <= i < n ==> #[trigger] range(n)[i] == i,
        row@.title == row.title@,
        row@.relative == row.relative@,
        row@.selected == row.selected,
        s.row(k, note_index).title == s.notes[note_index].title,
        s.row(k, note_index).relative == s.notes[note_index].relative,
        s.row(k, note_index).selected <==> s.selected == Some(k),
{
}

/// New notes are called `Untitled.md`, or else `Untitled 2.md`, `Untitled 3.md`
/// and so on with the first number that is free.
pub proof fn new_notes_are_numbered(taken: Seq<Seq<char>>, n: nat)
    ensures
        untitled(1) == "Untitled.md"@,
        n >= 2 ==> untitled(n) == "Untitled "@ + decimal(n) + ".md"@,
        first_free(taken, n) <==> n >= 1 && !taken.contains(untitled(n)) && forall|m: nat|
            1 <= m < n ==> taken.contains(#[trigger] untitled(m)),
{
}

} // verus!
