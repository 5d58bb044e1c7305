//! The backlinks panel: which notes link to the note in the active editor.
use vstd::hash_map::StringHashMap;
use vstd::prelude::*;
use vstd::utf8::encode_utf8;

use crate::notes::sorted_notes;
use crate::numerals::{decimal, to_decimal};
use crate::order::{
    arranged, arranged_keeps_items, bytes_le, bytes_le_total, positions, precedes, rank_le,
    ranks_of, sort_positions, sorting_is_stable, stable_order, stable_order_is_stable, Rank,
    SortKey,
};
use crate::panel::{at_side, DockPosition};
use crate::text::{
    before, cut_at_the_first_stop, line_for_offset, line_number, list_contains, lowercase,
    strip_suffix, text_before, texts, trim, trimmed, without_suffix,
};
use crate::entries::{
    copy_bytes, is_note, is_note_extension, is_note_path, note_of, notes_in, text_in, title_of,
    EntryView, NoteEntry, NoteView, PathView, RelativePath,
};

verus! {

// ---------------------------------------------------------------------------
// Links
// ---------------------------------------------------------------------------

/// A link as the contracts speak of it.
pub ghost struct BacklinkView {
    pub source_abs_path: Seq<u8>,
    pub source_title: Seq<char>,
    pub source_relative: Seq<char>,
    pub line: u32,
}

/// A single `[[wiki link]]` to some note, discovered in a note of the vault. It
/// is a backlink of every note that it points at but the one it stands in.
pub struct Backlink {
    /// Absolute path of the note containing the link, used to open it.
    pub source_abs_path: Vec<u8>,
    /// File name of the linking note without its extension, shown as the title.
    pub source_title: String,
    /// Worktree-relative path of the linking note, shown as the subtitle.
    pub source_relative: String,
    /// 1-based line number of the link within the source note.
    pub line: u32,
}

impl View for Backlink {
    type V = BacklinkView;

    open spec fn view(&self) -> BacklinkView {
        BacklinkView {
            source_abs_path: self.source_abs_path@,
            source_title: self.source_title@,
            source_relative: self.source_relative@,
            line: self.line,
        }
    }
}

impl Clone for Backlink {
    fn clone(&self) -> (copy: Self)
        ensures
            copy@ == self@,
    {
        Backlink {
            source_abs_path: copy_bytes(&self.source_abs_path),
            source_title: self.source_title.clone(),
            source_relative: self.source_relative.clone(),
            line: self.line,
        }
    }
}

/// The links of a list as the contracts speak of them.
pub open spec fn link_views(links: Seq<Backlink>) -> Seq<BacklinkView> {
    links.map_values(|link: Backlink| link@)
}

// ---------------------------------------------------------------------------
// The index
// ---------------------------------------------------------------------------

/// Maps a normalized (trimmed, lower-case) link target to every link that
/// points at it.
pub struct LinkIndex {
    slots: StringHashMap<usize>,
    links: Vec<Vec<Backlink>>,
}

impl View for LinkIndex {
    type V = Map<Seq<char>, Seq<BacklinkView>>;

    closed spec fn view(&self) -> Map<Seq<char>, Seq<BacklinkView>> {
        Map::new(
            |key: Seq<char>| self.slots@.contains_key(key),
            |key: Seq<char>| link_views(self.links@[self.slots@[key] as int]@),
        )
    }
}

impl LinkIndex {
    /// Every key has a list of links of its own.
    pub closed spec fn wf(&self) -> bool {
        &&& forall|key: Seq<char>| #[trigger]
            self.slots@.contains_key(key) ==> self.slots@[key] < self.links@.len()
        &&& forall|a: Seq<char>, b: Seq<char>|
            self.slots@.contains_key(a) && self.slots@.contains_key(b) && a != b
                ==> #[trigger] self.slots@[a] != #[trigger] self.slots@[b]
    }

    /// An index of no links.
    pub fn new() -> (index: LinkIndex)
        ensures
            index.wf(),
            index@ == Map::<Seq<char>, Seq<BacklinkView>>::empty(),
    {
        let index = LinkIndex { slots: StringHashMap::new(), links: Vec::new() };
        assert(index@ =~= Map::<Seq<char>, Seq<BacklinkView>>::empty());
        index
    }

    /// Adds `link` behind the links under `key`.
    pub fn insert(&mut self, key: String, link: Backlink)
        requires
            old(self).wf(),
        ensures
            final(self).wf(),
            final(self)@ == old(self)@.insert(
                key@,
                links_under(old(self)@, key@).push(link@),
            ),
    {
        let ghost before = *self;
        let slot: usize = match self.slots.get(key.as_str()) {
            Some(slot) => *slot,
            None => self.links.len(),
        };
        if slot < self.links.len() {
            self.links[slot].push(link);
            proof {
                assert(link_views(self.links@[slot as int]@) =~= link_views(
                    before.links@[slot as int]@,
                ).push(link@));
                assert(self@ =~= before@.insert(
                    key@,
                    links_under(before@, key@).push(link@),
                ));
            }
        } else {
            let mut list: Vec<Backlink> = Vec::new();
            list.push(link);
            assert(link_views(list@) =~= Seq::<BacklinkView>::empty().push(link@));
            self.links.push(list);
            self.slots.insert(key, slot);
            assert(self@ =~= before@.insert(key@, links_under(before@, key@).push(link@)));
        }
    }

    /// The links under `key`, where there are any.
    pub fn get(&self, key: &str) -> (links: Option<&Vec<Backlink>>)
        requires
            self.wf(),
        ensures
            links is Some <==> self@.contains_key(key@),
            links matches Some(found) ==> link_views(found@) == self@[key@],
    {
        match self.slots.get(key) {
            Some(slot) => Some(&self.links[*slot]),
            None => None,
        }
    }
}

/// The links that an index holds under `key`.
pub open spec fn links_under(
    index: Map<Seq<char>, Seq<BacklinkView>>,
    key: Seq<char>,
) -> Seq<BacklinkView> {
    if index.contains_key(key) {
        index[key]
    } else {
        Seq::empty()
    }
}

// ---------------------------------------------------------------------------
// Building the index
// ---------------------------------------------------------------------------

/// A `[[wiki link]]` found in the text of a note: what it points at, and the
/// byte at which it begins.
pub struct WikiLink {
    pub target: String,
    pub start: usize,
}

/// The text of a note and the links in it.
pub struct NoteContent {
    pub text: String,
    pub links: Vec<WikiLink>,
}

/// A note with its content, where it could be loaded.
pub struct LoadedNote {
    pub note: NoteEntry,
    pub content: Option<NoteContent>,
}

impl LoadedNote {
    /// The lines of the links that point at a note can be numbered.
    pub open spec fn lines_fit(self) -> bool {
        self.content matches Some(content) ==> forall|i: int|
            #![trigger content.links@[i]]
            0 <= i < content.links@.len() && points_at_note(content.links@[i]) ==> line_number(
                content.text@,
                content.links@[i].start as int,
            ) <= u32::MAX
    }
}

/// A link and the key under which it is indexed.
pub struct KeyedLink {
    pub key: String,
    pub link: Backlink,
}

/// A keyed link as the contracts speak of it.
pub ghost struct KeyedLinkView {
    pub key: Seq<char>,
    pub link: BacklinkView,
}

impl View for KeyedLink {
    type V = KeyedLinkView;

    open spec fn view(&self) -> KeyedLinkView {
        KeyedLinkView { key: self.key@, link: self.link@ }
    }
}

/// The keyed links of a list as the contracts speak of them.
pub open spec fn keyed_views(links: Seq<KeyedLink>) -> Seq<KeyedLinkView> {
    links.map_values(|link: KeyedLink| link@)
}

/// The key of a link target. A target may carry a `#heading` fragment;
/// backlinks are tracked per note, so it is dropped.
pub open spec fn link_key(target: Seq<char>) -> Seq<char> {
    normalized(before(target, '#'))
}

/// Whether a link points at a note: a target of white space, or of a fragment
/// alone, points at none.
pub open spec fn points_at_note(link: WikiLink) -> bool {
    link_key(link.target@).len() > 0
}

/// The link that a `[[wiki link]]` in the text of `note` stands for.
pub open spec fn keyed_link(note: NoteView, text: Seq<char>, link: WikiLink) -> KeyedLinkView {
    KeyedLinkView {
        key: link_key(link.target@),
        link: BacklinkView {
            source_abs_path: note.abs_path,
            source_title: note.title,
            source_relative: note.relative,
            line: line_number(text, link.start as int) as u32,
        },
    }
}

/// The links to notes in a note, in order; none where it could not be loaded.
pub open spec fn links_in(loaded: LoadedNote) -> Seq<KeyedLinkView> {
    match loaded.content {
        Some(content) => content.links@.filter(
            |link: WikiLink| points_at_note(link),
        ).map_values(|link: WikiLink| keyed_link(loaded.note@, content.text@, link)),
        None => Seq::empty(),
    }
}

/// The links in some notes, in order.
pub open spec fn all_links(notes: Seq<LoadedNote>) -> Seq<KeyedLinkView> {
    notes.map_values(|loaded: LoadedNote| links_in(loaded)).flatten()
}

/// The links with the key `key`, in order.
pub open spec fn links_with_key(
    links: Seq<KeyedLinkView>,
    key: Seq<char>,
) -> Seq<BacklinkView> {
    links.filter(|link: KeyedLinkView| link.key == key).map_values(
        |link: KeyedLinkView| link.link,
    )
}

/// The links by their keys. An empty key points at no note.
pub open spec fn grouped(links: Seq<KeyedLinkView>) -> Map<Seq<char>, Seq<BacklinkView>> {
    Map::new(
        |key: Seq<char>| key.len() > 0 && links_with_key(links, key).len() > 0,
        |key: Seq<char>| links_with_key(links, key),
    )
}

proof fn lemma_grouped_push(links: Seq<KeyedLinkView>, link: KeyedLinkView)
    ensures
        link.key.len() == 0 ==> grouped(links.push(link)) == grouped(links),
        link.key.len() > 0 ==> grouped(links.push(link)) == grouped(links).insert(
            link.key,
            links_under(grouped(links), link.key).push(link.link),
        ),
{
    let get_link = |l: KeyedLinkView| l.link;
    assert forall|key: Seq<char>| #[trigger]
        links_with_key(links.push(link), key) == if key == link.key {
            links_with_key(links, key).push(link.link)
        } else {
            links_with_key(links, key)
        } by {
        let with_key = |l: KeyedLinkView| l.key == key;
        links.lemma_filter_push(link, with_key);
        links.filter(with_key).lemma_push_map_commute(get_link, link);
    }
    if link.key.len() == 0 {
        assert(grouped(links.push(link)) =~= grouped(links));
    } else {
        if !grouped(links).contains_key(link.key) {
            assert(links_with_key(links, link.key) =~= Seq::<BacklinkView>::empty());
        }
        assert(grouped(links.push(link)) =~= grouped(links).insert(
            link.key,
            links_under(grouped(links), link.key).push(link.link),
        ));
    }
}

/// Folds links into an index, each under its key and in the order in which
/// they come. Links with an empty key are dropped.
pub fn index_links(links: Vec<KeyedLink>) -> (index: LinkIndex)
    ensures
        index.wf(),
        index@ == grouped(keyed_views(links@)),
{
    let ghost all = keyed_views(links@);
    let mut index = LinkIndex::new();
    let mut i: usize = 0;
    assert(index@ =~= grouped(all.take(0)));
    while i < links.len()
        invariant
            all == keyed_views(links@),
            i <= links.len(),
            index.wf(),
            index@ == grouped(all.take(i as int)),
        decreases links.len() - i,
    {
        proof {
            assert(all.take(i + 1) =~= all.take(i as int).push(all[i as int]));
            lemma_grouped_push(all.take(i as int), all[i as int]);
        }
        if !links[i].key.as_str().is_empty() {
            index.insert(links[i].key.clone(), links[i].link.clone());
        }
        i += 1;
    }
    assert(all.take(all.len() as int) =~= all);
    index
}

/// Adds the links in a note to `links`, each with its key.
fn key_links_in(loaded: &LoadedNote, links: &mut Vec<KeyedLink>)
    requires
        loaded.lines_fit(),
    ensures
        keyed_views(final(links)@) == keyed_views(old(links)@) + links_in(*loaded),
{
    let ghost earlier = keyed_views(links@);
    match &loaded.content {
        Some(content) => {
            let ghost keep = |link: WikiLink| points_at_note(link);
            let ghost make = |link: WikiLink| keyed_link(loaded.note@, content.text@, link);
            let ghost all = content.links@;
            let mut i: usize = 0;
            assert(keyed_views(links@) =~= earlier + all.take(0).filter(keep).map_values(make));
            while i < content.links.len()
                invariant
                    loaded.lines_fit(),
                    loaded.content == Some(*content),
                    keep == (|link: WikiLink| points_at_note(link)),
                    make == (|link: WikiLink| keyed_link(loaded.note@, content.text@, link)),
                    all == content.links@,
                    i <= content.links.len(),
                    keyed_views(links@) == earlier + all.take(i as int).filter(keep).map_values(
                        make,
                    ),
                decreases content.links.len() - i,
            {
                let ghost so_far = links@;
                let ghost kept = all.take(i as int).filter(keep);
                let link = &content.links[i];
                let target = text_before(link.target.as_str(), '#');
                let key = trim(target).to_lowercase();
                proof {
                    assert(all.take(i + 1) =~= all.take(i as int).push(all[i as int]));
                    all.take(i as int).lemma_filter_push(all[i as int], keep);
                    kept.lemma_push_map_commute(make, all[i as int]);
                }
                if !key.as_str().is_empty() {
                    assert(points_at_note(loaded.content->0.links@[i as int]));
                    let line: u32 = line_for_offset(content.text.as_str(), link.start);
                    let keyed = KeyedLink {
                        key,
                        link: Backlink {
                            source_abs_path: copy_bytes(&loaded.note.abs_path),
                            source_title: loaded.note.title.clone(),
                            source_relative: loaded.note.relative.clone(),
                            line,
                        },
                    };
                    links.push(keyed);
                    proof {
                        assert(keyed@ == make(all[i as int]));
                        assert(keyed_views(links@) =~= keyed_views(so_far).push(keyed@));
                    }
                }
                i += 1;
            }
            assert(all.take(all.len() as int) =~= all);
        },
        None => {
            assert(earlier + links_in(*loaded) =~= earlier);
        },
    }
}

/// Folds the `[[wiki link]]`s of every note into a target-to-backlinks index.
/// Notes that could not be loaded are left out.
pub fn build_index(notes: &Vec<LoadedNote>) -> (index: LinkIndex)
    requires
        forall|i: int| 0 <= i < notes@.len() ==> (#[trigger] notes@[i]).lines_fit(),
    ensures
        index.wf(),
        index@ == grouped(all_links(notes@)),
{
    let ghost all = notes@.map_values(|loaded: LoadedNote| links_in(loaded));
    let mut links: Vec<KeyedLink> = Vec::new();
    let mut i: usize = 0;
    assert(keyed_views(links@) =~= all.take(0).flatten());
    while i < notes.len()
        invariant
            forall|k: int| 0 <= k < notes@.len() ==> (#[trigger] notes@[k]).lines_fit(),
            all == notes@.map_values(|loaded: LoadedNote| links_in(loaded)),
            i <= notes.len(),
            keyed_views(links@) == all.take(i as int).flatten(),
        decreases notes.len() - i,
    {
        proof {
            assert(all.take(i + 1) =~= all.take(i as int).push(all[i as int]));
            all.take(i as int).lemma_flatten_push(all[i as int]);
        }
        key_links_in(&notes[i], &mut links);
        i += 1;
    }
    assert(all.take(all.len() as int) =~= all);
    index_links(links)
}

// ---------------------------------------------------------------------------
// Looking a note up
// ---------------------------------------------------------------------------

/// `keys` without the empty ones and without repetitions, in order.
pub open spec fn distinct_keys(keys: Seq<Seq<char>>) -> Seq<Seq<char>>
    decreases keys.len(),
{
    if keys.len() == 0 {
        Seq::empty()
    } else {
        let earlier = distinct_keys(keys.drop_last());
        if keys.last().len() == 0 || earlier.contains(keys.last()) {
            earlier
        } else {
            earlier.push(keys.last())
        }
    }
}

/// A name as it is looked up: trimmed and in lower case, as link targets are.
pub open spec fn normalized(name: Seq<char>) -> Seq<char> {
    lowercase(trimmed(name))
}

/// The names by which links may refer to a note: its title, its path, and its
/// path without the extension, all normalized.
pub open spec fn names_of(path: PathView) -> Seq<Seq<char>> {
    seq![
        normalized(title_of(path)),
        normalized(path.display),
        normalized(without_suffix(path.display, "."@ + path.extension->0)),
    ]
}

/// Whether `name` is the title of a note, its path, or its path without the
/// extension.
pub open spec fn is_name_of(name: Seq<char>, path: PathView) -> bool {
    ||| name == title_of(path)
    ||| name == path.display
    ||| name == without_suffix(path.display, "."@ + path.extension->0)
}

/// The keys under which the links to a note are indexed.
pub open spec fn keys_of(path: PathView) -> Seq<Seq<char>> {
    distinct_keys(names_of(path))
}

/// `keys` without the empty ones and without repetitions, in order.
pub fn drop_repeated(keys: Vec<String>) -> (kept: Vec<String>)
    ensures
        texts(kept@) == distinct_keys(texts(keys@)),
{
    let ghost all = texts(keys@);
    let mut kept: Vec<String> = Vec::new();
    let mut i: usize = 0;
    assert(texts(kept@) =~= distinct_keys(all.take(0)));
    while i < keys.len()
        invariant
            all == texts(keys@),
            i <= keys.len(),
            texts(kept@) == distinct_keys(all.take(i as int)),
        decreases keys.len() - i,
    {
        let ghost earlier = kept@;
        let seen: bool = list_contains(&kept, &keys[i]);
        assert(all.take(i + 1).drop_last() =~= all.take(i as int));
        assert(all.take(i + 1).last() == keys@[i as int]@);
        if !keys[i].as_str().is_empty() && !seen {
            kept.push(keys[i].clone());
            assert(texts(kept@) =~= texts(earlier).push(keys@[i as int]@));
        }
        i += 1;
    }
    assert(all.take(all.len() as int) =~= all);
    kept
}

/// The title of the note at `path` and the keys under which the links to it
/// are indexed, or nothing where the path is not that of a note. Every name of
/// the note that is not blank leads to one of the keys, with or without a
/// heading, unless a target would be cut within it at `#`; a note whose path is
/// not blank has a key.
pub fn note_identity(path: &RelativePath) -> (identity: Option<(String, Vec<String>)>)
    ensures
        identity is Some <==> is_note_path(path@),
        identity matches Some(found) ==> {
            &&& found.0@ == title_of(path@)
            &&& texts(found.1@) == keys_of(path@)
            &&& trimmed(path@.display).len() > 0 ==> found.1@.len() > 0
            &&& forall|name: Seq<char>|
                is_name_of(name, path@) && trimmed(name).len() > 0 && !name.contains('#')
                    ==> texts(found.1@).contains(#[trigger] link_key(name))
            &&& forall|name: Seq<char>, heading: Seq<char>|
                is_name_of(name, path@) && trimmed(name).len() > 0 && !name.contains('#')
                    ==> texts(found.1@).contains(
                    #[trigger] link_key(name + seq!['#'] + heading),
                )
        },
{
    match &path.extension {
        Some(extension) => {
            if !path.is_note() {
                return None;
            }
            let title = path.title();
            let mut suffix = ".".to_owned();
            suffix.append(extension.as_str());
            let relative = path.display.as_str();
            let stripped = strip_suffix(relative, suffix.as_str());
            let mut names: Vec<String> = Vec::new();
            names.push(trim(title.as_str()).to_lowercase());
            names.push(trim(relative).to_lowercase());
            names.push(trim(stripped).to_lowercase());
            assert(texts(names@) =~= names_of(path@));
            proof {
                assert forall|name: Seq<char>, heading: Seq<char>|
                    is_name_of(name, path@) && trimmed(name).len() > 0 && !name.contains(
                        '#',
                    ) implies keys_of(path@).contains(#[trigger] link_key(name + seq!['#'] + heading))
                    by {
                    names_lead_to_the_note(path@, name, heading);
                }
                assert forall|name: Seq<char>|
                    is_name_of(name, path@) && trimmed(name).len() > 0 && !name.contains(
                        '#',
                    ) implies keys_of(path@).contains(#[trigger] link_key(name)) by {
                    names_lead_to_the_note(path@, name, Seq::empty());
                }
                keys_are_distinct(names_of(path@));
                assert(names_of(path@)[1] == normalized(path@.display));
                if trimmed(path@.display).len() > 0 {
                    assert(keys_of(path@).contains(normalized(path@.display)));
                }
            }
            Some((title, drop_repeated(names)))
        },
        None => None,
    }
}

// ---------------------------------------------------------------------------
// Listing the links to a note
// ---------------------------------------------------------------------------

/// Whether two links stand on the same line of the same note.
pub open spec fn same_line(a: BacklinkView, b: BacklinkView) -> bool {
    a.source_abs_path == b.source_abs_path && a.line == b.line
}

/// Whether some link stands on the line of `link`.
pub open spec fn has_line_of(links: Seq<BacklinkView>, link: BacklinkView) -> bool {
    exists|i: int| 0 <= i < links.len() && same_line(#[trigger] links[i], link)
}

/// The first link of every line, in order.
pub open spec fn distinct_links(links: Seq<BacklinkView>) -> Seq<BacklinkView>
    decreases links.len(),
{
    if links.len() == 0 {
        Seq::empty()
    } else {
        let earlier = distinct_links(links.drop_last());
        if has_line_of(earlier, links.last()) {
            earlier
        } else {
            earlier.push(links.last())
        }
    }
}

/// Links are listed by the titles of the linking notes without regard to case,
/// then by their paths, then by line.
pub open spec fn link_rank(lower_title: Seq<char>, link: BacklinkView) -> Rank {
    Rank {
        first: encode_utf8(lower_title),
        second: encode_utf8(link.source_relative),
        third: link.line as int,
    }
}

/// The ranks of `links` whose titles read `lower_titles` in lower case.
pub open spec fn link_ranks(
    links: Seq<BacklinkView>,
    lower_titles: Seq<Seq<char>>,
) -> Seq<Rank> {
    Seq::new(links.len(), |i: int| link_rank(lower_titles[i], links[i]))
}

/// The titles of the linking notes in lower case.
pub open spec fn lower_titles_of(links: Seq<BacklinkView>) -> Seq<Seq<char>> {
    links.map_values(|link: BacklinkView| lowercase(link.source_title))
}

/// `links` in the order in which the panel lists them.
pub open spec fn sorted_links(links: Seq<BacklinkView>) -> Seq<BacklinkView> {
    arranged(links, stable_order(link_ranks(links, lower_titles_of(links))))
}

/// The links that an index holds under any of `keys`, key by key.
pub open spec fn links_under_any(
    index: Map<Seq<char>, Seq<BacklinkView>>,
    keys: Seq<Seq<char>>,
) -> Seq<BacklinkView> {
    keys.map_values(|key: Seq<char>| links_under(index, key)).flatten()
}

/// Whether a link stands in some other note than the one at `own`.
pub open spec fn from_other(link: BacklinkView, own: Option<Seq<u8>>) -> bool {
    own != Some(link.source_abs_path)
}

/// The links that stand in other notes than the one at `own`, in order.
pub open spec fn links_of_others(links: Seq<BacklinkView>, own: Option<Seq<u8>>) -> Seq<
    BacklinkView,
> {
    links.filter(|link: BacklinkView| from_other(link, own))
}

/// The links that are listed for the note at `own` with these keys: those of
/// other notes, each line once, in order.
pub open spec fn backlinks_to(
    index: Map<Seq<char>, Seq<BacklinkView>>,
    keys: Seq<Seq<char>>,
    own: Option<Seq<u8>>,
) -> Seq<BacklinkView> {
    sorted_links(distinct_links(links_of_others(links_under_any(index, keys), own)))
}

fn same_bytes(a: &Vec<u8>, b: &Vec<u8>) -> (same: bool)
    ensures
        same == (a@ == b@),
{
    if a.len() != b.len() {
        return false;
    }
    let mut i: usize = 0;
    while i < a.len()
        invariant
            a.len() == b.len(),
            i <= a.len(),
            forall|j: int| 0 <= j < i ==> a@[j] == b@[j],
        decreases a.len() - i,
    {
        if a[i] != b[i] {
            return false;
        }
        i += 1;
    }
    assert(a@ =~= b@);
    true
}

/// Whether some link stands on the line of `link`.
fn has_line(links: &Vec<Backlink>, link: &Backlink) -> (found: bool)
    ensures
        found == has_line_of(link_views(links@), link@),
{
    let mut i: usize = 0;
    while i < links.len()
        invariant
            i <= links.len(),
            forall|j: int| 0 <= j < i ==> !same_line(#[trigger] link_views(links@)[j], link@),
        decreases links.len() - i,
    {
        assert(link_views(links@)[i as int] == links@[i as int]@);
        if links[i].line == link.line && same_bytes(
            &links[i].source_abs_path,
            &link.source_abs_path,
        ) {
            assert(same_line(link_views(links@)[i as int], link@));
            return true;
        }
        i += 1;
    }
    false
}

/// The bytes of a path, where there is one.
pub open spec fn bytes_in(path: Option<Vec<u8>>) -> Option<Seq<u8>> {
    match path {
        Some(bytes) => Some(bytes@),
        None => None,
    }
}

/// Whether a link stands in some other note than the one at `own`.
fn is_from_other(link: &Backlink, own: &Option<Vec<u8>>) -> (b: bool)
    ensures
        b == from_other(link@, bytes_in(*own)),
{
    match own {
        Some(path) => !same_bytes(path, &link.source_abs_path),
        None => true,
    }
}

/// Adds to `kept` those of `links` that stand in other notes than the one at
/// `own` and whose lines are not there yet.
fn add_distinct(
    links: &Vec<Backlink>,
    own: &Option<Vec<u8>>,
    kept: &mut Vec<Backlink>,
    Ghost(earlier): Ghost<Seq<BacklinkView>>,
)
    requires
        link_views(old(kept)@) == distinct_links(earlier),
    ensures
        link_views(final(kept)@) == distinct_links(
            earlier + links_of_others(link_views(links@), bytes_in(*own)),
        ),
{
    let ghost all = link_views(links@);
    let ghost keep = |link: BacklinkView| from_other(link, bytes_in(*own));
    let mut i: usize = 0;
    assert(earlier + all.take(0).filter(keep) =~= earlier);
    while i < links.len()
        invariant
            all == link_views(links@),
            keep == (|link: BacklinkView| from_other(link, bytes_in(*own))),
            i <= links.len(),
            link_views(kept@) == distinct_links(earlier + all.take(i as int).filter(keep)),
        decreases links.len() - i,
    {
        let ghost before_kept = kept@;
        let ghost so_far = all.take(i as int).filter(keep);
        let link = &links[i];
        proof {
            assert(all.take(i + 1) =~= all.take(i as int).push(link@));
            all.take(i as int).lemma_filter_push(link@, keep);
        }
        if is_from_other(link, own) {
            let seen: bool = has_line(kept, link);
            proof {
                let next = earlier + so_far.push(link@);
                assert(next.drop_last() =~= earlier + so_far);
                assert(next.last() == link@);
            }
            if !seen {
                kept.push(link.clone());
                assert(link_views(kept@) =~= link_views(before_kept).push(link@));
            }
        }
        i += 1;
    }
    assert(all.take(all.len() as int) =~= all);
}

/// The links under any of `keys` that stand in other notes than the one at
/// `own`, each line once.
fn find_links(index: &LinkIndex, keys: &Vec<String>, own: &Option<Vec<u8>>) -> (found: Vec<
    Backlink,
>)
    requires
        index.wf(),
    ensures
        link_views(found@) == distinct_links(
            links_of_others(links_under_any(index@, texts(keys@)), bytes_in(*own)),
        ),
{
    let ghost lists = texts(keys@).map_values(|key: Seq<char>| links_under(index@, key));
    let ghost keep = |link: BacklinkView| from_other(link, bytes_in(*own));
    let mut found: Vec<Backlink> = Vec::new();
    let mut i: usize = 0;
    assert(lists.take(0).flatten() =~= Seq::<BacklinkView>::empty());
    assert(lists.take(0).flatten().filter(keep) =~= Seq::<BacklinkView>::empty());
    assert(link_views(found@) =~= distinct_links(Seq::empty()));
    while i < keys.len()
        invariant
            index.wf(),
            lists == texts(keys@).map_values(|key: Seq<char>| links_under(index@, key)),
            keep == (|link: BacklinkView| from_other(link, bytes_in(*own))),
            i <= keys.len(),
            link_views(found@) == distinct_links(lists.take(i as int).flatten().filter(keep)),
        decreases keys.len() - i,
    {
        let ghost earlier = lists.take(i as int).flatten();
        let ghost next = lists[i as int];
        proof {
            assert(next == links_under(index@, keys@[i as int]@));
            assert(lists.take(i + 1) =~= lists.take(i as int).push(next));
            lists.take(i as int).lemma_flatten_push(next);
            Seq::filter_distributes_over_add(earlier, next, keep);
        }
        match index.get(keys[i].as_str()) {
            Some(links) => {
                add_distinct(links, own, &mut found, Ghost(earlier.filter(keep)));
            },
            None => {
                assert(earlier + next =~= earlier);
            },
        }
        i += 1;
    }
    assert(lists.take(lists.len() as int) =~= lists);
    found
}

/// `links` in ascending order of `lower_titles`, then of their paths, then of
/// their lines; links that agree in all three keep their order.
pub fn sort_links(links: &Vec<Backlink>, lower_titles: &Vec<String>) -> (sorted: Vec<Backlink>)
    requires
        lower_titles.len() == links.len(),
    ensures
        link_views(sorted@) == arranged(
            link_views(links@),
            stable_order(link_ranks(link_views(links@), texts(lower_titles@))),
        ),
{
    let ghost ranks = link_ranks(link_views(links@), texts(lower_titles@));
    let mut keys: Vec<SortKey> = Vec::new();
    let mut i: usize = 0;
    while i < links.len()
        invariant
            lower_titles.len() == links.len(),
            ranks == link_ranks(link_views(links@), texts(lower_titles@)),
            i <= links.len(),
            ranks_of(keys@) == ranks.take(i as int),
        decreases links.len() - i,
    {
        let ghost earlier = keys@;
        let key = SortKey {
            first: lower_titles[i].as_str().as_bytes_vec(),
            second: links[i].source_relative.as_str().as_bytes_vec(),
            third: links[i].line,
        };
        assert(key@ == ranks[i as int]);
        keys.push(key);
        assert(ranks_of(keys@) =~= ranks_of(earlier).push(ranks[i as int]));
        assert(ranks.take(i + 1) =~= ranks.take(i as int).push(ranks[i as int]));
        i += 1;
    }
    assert(ranks.take(i as int) =~= ranks);
    let order = sort_positions(&keys);
    let ghost sorted_order = stable_order(ranks);
    proof {
        stable_order_is_stable(ranks);
    }
    let mut sorted: Vec<Backlink> = Vec::new();
    let mut j: usize = 0;
    while j < order.len()
        invariant
            positions(order@) == sorted_order,
            sorted_order.len() == links.len(),
            forall|k: int|
                0 <= k < sorted_order.len() ==> 0 <= #[trigger] sorted_order[k] < links.len(),
            j <= order.len(),
            link_views(sorted@) == arranged(link_views(links@), sorted_order).take(j as int),
        decreases order.len() - j,
    {
        let ghost earlier = sorted@;
        assert(sorted_order[j as int] == order@[j as int]);
        let link = links[order[j]].clone();
        sorted.push(link);
        proof {
            let all = arranged(link_views(links@), sorted_order);
            assert(link@ == all[j as int]);
            assert(link_views(sorted@) =~= link_views(earlier).push(link@));
            assert(all.take(j + 1) =~= all.take(j as int).push(all[j as int]));
        }
        j += 1;
    }
    assert(link_views(sorted@) =~= arranged(link_views(links@), sorted_order));
    sorted
}

// ---------------------------------------------------------------------------
// The panel
// ---------------------------------------------------------------------------

/// The state of the panel as the contracts speak of it.
pub ghost struct BacklinksState {
    /// The vault-wide link index.
    pub index: Map<Seq<char>, Seq<BacklinkView>>,
    /// Title of the note in the active editor, if it is a note.
    pub active_title: Option<Seq<char>>,
    /// Where the active note is, if there is one.
    pub active_path: Option<Seq<u8>>,
    /// The keys of the active note in the index.
    pub active_keys: Seq<Seq<char>>,
    /// The links to the active note, in display order.
    pub current: Seq<BacklinkView>,
    pub position: DockPosition,
}

impl BacklinksState {
    /// What is listed is what the index holds for the active note.
    pub open spec fn wf(self) -> bool {
        &&& self.current == backlinks_to(self.index, self.active_keys, self.active_path)
        &&& self.active_title is None ==> self.active_keys.len() == 0 && self.active_path is None
    }

    /// A panel that has seen neither a link nor an active note.
    pub open spec fn initial() -> BacklinksState {
        BacklinksState {
            index: Map::empty(),
            active_title: None,
            active_path: None,
            active_keys: Seq::empty(),
            current: Seq::empty(),
            position: DockPosition::Right,
        }
    }

    /// After what is listed was computed anew.
    pub open spec fn recomputed(self) -> BacklinksState {
        BacklinksState {
            current: backlinks_to(self.index, self.active_keys, self.active_path),
            ..self
        }
    }

    /// After the links were indexed anew.
    pub open spec fn with_index(
        self,
        index: Map<Seq<char>, Seq<BacklinkView>>,
    ) -> BacklinksState {
        BacklinksState { index, ..self }.recomputed()
    }

    /// After the editor with `file` became active.
    pub open spec fn with_active(self, file: Option<FileView>) -> BacklinksState {
        if file is Some && is_note_path(file->0.path) {
            BacklinksState {
                active_title: Some(title_of(file->0.path)),
                active_path: Some(file->0.abs_path),
                active_keys: keys_of(file->0.path),
                ..self
            }.recomputed()
        } else {
            BacklinksState {
                active_title: None,
                active_path: None,
                active_keys: Seq::empty(),
                current: Seq::empty(),
                ..self
            }
        }
    }
}

/// A file in an editor as the contracts speak of it.
pub ghost struct FileView {
    pub abs_path: Seq<u8>,
    pub path: PathView,
}

/// A file in an editor: where it is, and its path in the worktree. The bytes of
/// equal absolute paths are equal.
pub struct OpenFile {
    pub abs_path: Vec<u8>,
    pub path: RelativePath,
}

impl View for OpenFile {
    type V = FileView;

    open spec fn view(&self) -> FileView {
        FileView { abs_path: self.abs_path@, path: self.path@ }
    }
}

/// The file in the active editor, where there is one.
pub open spec fn file_in(active: Option<&OpenFile>) -> Option<FileView> {
    match active {
        Some(file) => Some(file@),
        None => None,
    }
}

/// A row of the panel.
pub struct BacklinkRow {
    pub title: String,
    pub subtitle: String,
}

/// The subtitle of a row: the path of the linking note and the line.
pub open spec fn subtitle_of(link: BacklinkView) -> Seq<char> {
    link.source_relative + ":"@ + decimal(link.line as nat)
}

/// What stands below the header: a message where no link is listed, and the
/// number of rows otherwise.
pub enum BacklinksBody {
    Message(&'static str),
    Rows(usize),
}

/// The backlinks panel.
pub struct BacklinksPanel {
    index: LinkIndex,
    active_title: Option<String>,
    active_path: Option<Vec<u8>>,
    active_keys: Vec<String>,
    current: Vec<Backlink>,
    position: DockPosition,
}

impl View for BacklinksPanel {
    type V = BacklinksState;

    closed spec fn view(&self) -> BacklinksState {
        BacklinksState {
            index: self.index@,
            active_title: text_in(self.active_title),
            active_path: bytes_in(self.active_path),
            active_keys: texts(self.active_keys@),
            current: link_views(self.current@),
            position: self.position,
        }
    }
}

impl BacklinksPanel {
    /// The index is in order.
    pub closed spec fn index_wf(&self) -> bool {
        self.index.wf()
    }

    /// The index is in order, and what is listed is what it holds for the
    /// active note.
    pub open spec fn wf(&self) -> bool {
        self.index_wf() && self@.wf()
    }

    fn new() -> (panel: BacklinksPanel)
        ensures
            panel@ == BacklinksState::initial(),
            panel.wf(),
    {
        let panel = BacklinksPanel {
            index: LinkIndex::new(),
            active_title: None,
            active_path: None,
            active_keys: Vec::new(),
            current: Vec::new(),
            position: DockPosition::Right,
        };
        assert(panel@.active_keys =~= Seq::<Seq<char>>::empty());
        assert(panel@.current =~= Seq::<BacklinkView>::empty());
        proof {
            no_keys_no_backlinks(panel@.index, None);
        }
        panel
    }

    /// A panel with the file `active` in the active editor. The links come with
    /// the first index.
    pub fn load(active: Option<&OpenFile>) -> (panel: BacklinksPanel)
        ensures
            panel@ == BacklinksState::initial().with_active(file_in(active)),
            panel.wf(),
    {
        let mut panel = BacklinksPanel::new();
        let _ = panel.update_active_note(active);
        panel
    }

    /// Takes the identity of the note in the active editor and recomputes the
    /// listed links. A file that is not a note, or no file at all, clears the
    /// panel. Says whether the panel has to be drawn again.
    pub fn update_active_note(&mut self, active: Option<&OpenFile>) -> (changed: bool)
        requires
            old(self).wf(),
        ensures
            final(self).wf(),
            final(self)@ == old(self)@.with_active(file_in(active)),
            forall|i: int|
                0 <= i < final(self)@.current.len() ==> from_other(
                    #[trigger] final(self)@.current[i],
                    final(self)@.active_path,
                ),
            changed == (old(self)@.active_title is Some || (active is Some && is_note_path(
                active->0@.path,
            ))),
    {
        proof {
            no_keys_no_backlinks(self@.index, None);
            own_links_are_left_out(self@.with_active(file_in(active)));
        }
        if let Some(file) = active {
            if let Some((title, keys)) = note_identity(&file.path) {
                self.active_title = Some(title);
                self.active_path = Some(copy_bytes(&file.abs_path));
                self.active_keys = keys;
                self.recompute_current();
                return true;
            }
        }
        if self.active_title.is_some() || self.active_keys.len() > 0 {
            self.active_title = None;
            self.active_path = None;
            self.active_keys.clear();
            self.current.clear();
            assert(self@.active_keys =~= Seq::<Seq<char>>::empty());
            assert(self@.current =~= Seq::<BacklinkView>::empty());
            true
        } else {
            assert(self@.active_keys =~= Seq::<Seq<char>>::empty());
            false
        }
    }

    /// Recomputes the listed links from the index for the active note: those of
    /// other notes, each line once though it match under more than one key.
    pub fn recompute_current(&mut self)
        requires
            old(self).index_wf(),
        ensures
            final(self).index_wf(),
            final(self)@ == old(self)@.recomputed(),
    {
        let found = find_links(&self.index, &self.active_keys, &self.active_path);
        let mut lower_titles: Vec<String> = Vec::new();
        let mut i: usize = 0;
        while i < found.len()
            invariant
                i <= found.len(),
                texts(lower_titles@) == lower_titles_of(link_views(found@)).take(i as int),
            decreases found.len() - i,
        {
            let ghost earlier = lower_titles@;
            let lower = found[i].source_title.as_str().to_lowercase();
            lower_titles.push(lower);
            proof {
                let all = lower_titles_of(link_views(found@));
                assert(lower@ == all[i as int]);
                assert(texts(lower_titles@) =~= texts(earlier).push(lower@));
                assert(all.take(i + 1) =~= all.take(i as int).push(all[i as int]));
            }
            i += 1;
        }
        proof {
            let all = lower_titles_of(link_views(found@));
            assert(all.take(i as int) =~= all);
        }
        self.current = sort_links(&found, &lower_titles);
    }

    /// Takes over an index that was built from the notes of the vault, and
    /// lists the links that it holds for the active note.
    pub fn set_index(&mut self, index: LinkIndex)
        requires
            old(self).wf(),
            index.wf(),
        ensures
            final(self).wf(),
            final(self)@ == old(self)@.with_index(index@),
            forall|i: int|
                0 <= i < final(self)@.current.len() ==> from_other(
                    #[trigger] final(self)@.current[i],
                    final(self)@.active_path,
                ),
    {
        proof {
            own_links_are_left_out(self@.with_index(index@));
        }
        self.index = index;
        self.recompute_current();
    }

    /// The path of the note that holds the link in row `index`, to open it;
    /// nothing where there is no such row or no workspace to open it in.
    pub fn open_backlink(&self, index: usize, workspace_open: bool) -> (path: Option<Vec<u8>>)
        ensures
            path is Some <==> index < self@.current.len() && workspace_open,
            path matches Some(abs_path) ==> abs_path@
                == self@.current[index as int].source_abs_path,
    {
        if index >= self.current.len() || !workspace_open {
            return None;
        }
        Some(copy_bytes(&self.current[index].source_abs_path))
    }

    /// Where the panel is docked.
    pub fn position(&self) -> (position: DockPosition)
        ensures
            position == self@.position,
    {
        self.position
    }

    /// Whether the panel can be docked at `position`.
    pub fn position_is_valid(&self, position: DockPosition) -> (b: bool)
        ensures
            b == at_side(position),
    {
        position.is_side()
    }

    /// Docks the panel at `position`.
    pub fn set_position(&mut self, position: DockPosition)
        requires
            old(self).wf(),
        ensures
            final(self).wf(),
            final(self)@ == (BacklinksState { position, ..old(self)@ }),
    {
        self.position = position;
    }

    /// Row `index` of the list, where there is one.
    pub fn render_backlink(&self, index: usize) -> (row: Option<BacklinkRow>)
        ensures
            row is Some <==> index < self@.current.len(),
            row matches Some(r) ==> {
                &&& r.title@ == self@.current[index as int].source_title
                &&& r.subtitle@ == subtitle_of(self@.current[index as int])
            },
    {
        if index >= self.current.len() {
            return None;
        }
        let link = &self.current[index];
        let mut subtitle = link.source_relative.clone();
        let line = to_decimal(link.line as u128);
        subtitle.append(":");
        subtitle.append(line.as_str());
        Some(BacklinkRow { title: link.source_title.clone(), subtitle })
    }

    /// The header of the panel.
    pub fn header(&self) -> (header: String)
        ensures
            header@ == match self@.active_title {
                Some(title) => "Backlinks to "@ + title,
                None => "Backlinks"@,
            },
    {
        match &self.active_title {
            Some(title) => {
                let mut header = "Backlinks to ".to_owned();
                header.append(title.as_str());
                header
            },
            None => "Backlinks".to_owned(),
        }
    }

    /// What stands below the header.
    pub fn render(&self) -> (body: BacklinksBody)
        ensures
            match body {
                BacklinksBody::Message(message) => {
                    &&& self@.current.len() == 0
                    &&& message@ == match self@.active_title {
                        Some(_) => "No notes link here yet."@,
                        None => "Open a note to see what links to it."@,
                    }
                },
                BacklinksBody::Rows(count) => count == self@.current.len() && count > 0,
            },
    {
        if self.current.len() == 0 {
            BacklinksBody::Message(
                match &self.active_title {
                    Some(_) => "No notes link here yet.",
                    None => "Open a note to see what links to it.",
                },
            )
        } else {
            BacklinksBody::Rows(self.current.len())
        }
    }
}

// ---------------------------------------------------------------------------
// Laws
// ---------------------------------------------------------------------------

/// Without an active note nothing is listed.
pub proof fn no_keys_no_backlinks(
    index: Map<Seq<char>, Seq<BacklinkView>>,
    own: Option<Seq<u8>>,
)
    ensures
        backlinks_to(index, Seq::empty(), own) == Seq::<BacklinkView>::empty(),
{
    let lists = Seq::<Seq<char>>::empty().map_values(|key: Seq<char>| links_under(index, key));
    assert(lists =~= Seq::<Seq<BacklinkView>>::empty());
    assert(links_under_any(index, Seq::empty()) =~= Seq::<BacklinkView>::empty());
    assert(links_of_others(Seq::empty(), own) =~= Seq::<BacklinkView>::empty());
    arranged_keeps_items(
        Seq::<BacklinkView>::empty(),
        link_ranks(Seq::empty(), lower_titles_of(Seq::empty())),
    );
    assert(backlinks_to(index, Seq::empty(), own) =~= Seq::<BacklinkView>::empty());
}

/// No note is listed as linking to itself: a backlink stands in some other note
/// than the active one.
pub proof fn own_links_are_left_out(s: BacklinksState)
    requires
        s.wf(),
    ensures
        forall|i: int|
            0 <= i < s.current.len() ==> from_other(#[trigger] s.current[i], s.active_path),
{
    listed_links_are_exact(s.index, s.active_keys, s.active_path);
    assert forall|i: int| 0 <= i < s.current.len() implies from_other(
        #[trigger] s.current[i],
        s.active_path,
    ) by {
        assert(s.current.contains(s.current[i]));
    }
}

/// A link to a heading of a note is a link to the note.
pub proof fn fragment_is_dropped(target: Seq<char>, fragment: Seq<char>)
    ensures
        link_key(target + seq!['#'] + fragment) == link_key(target),
{
    lemma_before_fragment(target, fragment);
}

proof fn lemma_before_fragment(target: Seq<char>, fragment: Seq<char>)
    ensures
        before(target + seq!['#'] + fragment, '#') == before(target, '#'),
    decreases target.len(),
{
    let whole = target + seq!['#'] + fragment;
    if target.len() == 0 {
        assert(whole.first() == '#');
    } else if target.first() != '#' {
        assert(whole.drop_first() =~= target.drop_first() + seq!['#'] + fragment);
        lemma_before_fragment(target.drop_first(), fragment);
    }
}

/// The keys of a note are not empty, and none comes twice; every name of the
/// note that is not empty is among them.
pub proof fn keys_are_distinct(names: Seq<Seq<char>>)
    ensures
        distinct_keys(names).no_duplicates(),
        forall|key: Seq<char>| #[trigger]
            distinct_keys(names).contains(key) <==> key.len() > 0 && names.contains(key),
    decreases names.len(),
{
    if names.len() > 0 {
        let earlier = distinct_keys(names.drop_last());
        let kept = distinct_keys(names);
        keys_are_distinct(names.drop_last());
        assert(names =~= names.drop_last().push(names.last()));
        assert forall|key: Seq<char>| #[trigger] kept.contains(key) <==> key.len() > 0
            && names.contains(key) by {
            if kept.contains(key) {
                let i = choose|i: int| 0 <= i < kept.len() && kept[i] == key;
                if i < earlier.len() {
                    assert(earlier[i] == key);
                    assert(earlier.contains(key));
                    let k = choose|k: int|
                        0 <= k < names.drop_last().len() && names.drop_last()[k] == key;
                    assert(names[k] == key);
                } else {
                    assert(names[names.len() - 1] == key);
                }
            }
            if key.len() > 0 && names.contains(key) {
                let k = choose|k: int| 0 <= k < names.len() && names[k] == key;
                if k < names.len() - 1 {
                    assert(names.drop_last()[k] == key);
                    assert(earlier.contains(key));
                    let i = choose|i: int| 0 <= i < earlier.len() && earlier[i] == key;
                    assert(kept[i] == key);
                } else if !earlier.contains(key) {
                    assert(kept[earlier.len() as int] == key);
                } else {
                    let i = choose|i: int| 0 <= i < earlier.len() && earlier[i] == key;
                    assert(kept[i] == key);
                }
            }
        }
    }
}

/// No two of the links that are kept stand on the same line; each is one of
/// the given links; and the line of every given link is kept.
pub proof fn lines_are_distinct(links: Seq<BacklinkView>)
    ensures
        forall|i: int, j: int|
            0 <= i < j < distinct_links(links).len() ==> !same_line(
                #[trigger] distinct_links(links)[i],
                #[trigger] distinct_links(links)[j],
            ),
        forall|i: int|
            0 <= i < distinct_links(links).len() ==> links.contains(
                #[trigger] distinct_links(links)[i],
            ),
        forall|i: int|
            0 <= i < links.len() ==> has_line_of(distinct_links(links), #[trigger] links[i]),
    decreases links.len(),
{
    if links.len() > 0 {
        let shorter = links.drop_last();
        let earlier = distinct_links(shorter);
        let kept = distinct_links(links);
        lines_are_distinct(shorter);
        assert forall|i: int| 0 <= i < kept.len() implies links.contains(#[trigger] kept[i]) by {
            if i < earlier.len() {
                assert(kept[i] == earlier[i]);
                assert(shorter.contains(earlier[i]));
                let k = choose|k: int| 0 <= k < shorter.len() && shorter[k] == earlier[i];
                assert(links[k] == kept[i]);
            } else {
                assert(links[links.len() - 1] == kept[i]);
            }
        }
        assert forall|i: int| 0 <= i < links.len() implies has_line_of(
            kept,
            #[trigger] links[i],
        ) by {
            if i < shorter.len() {
                assert(shorter[i] == links[i]);
                assert(has_line_of(earlier, shorter[i]));
                let k = choose|k: int|
                    0 <= k < earlier.len() && same_line(#[trigger] earlier[k], links[i]);
                assert(same_line(kept[k], links[i]));
            } else if has_line_of(earlier, links.last()) {
                assert(kept == earlier);
            } else {
                assert(same_line(kept[earlier.len() as int], links[i]));
            }
        }
        assert forall|i: int, j: int| 0 <= i < j < kept.len() implies !same_line(
            #[trigger] kept[i],
            #[trigger] kept[j],
        ) by {
            if j < earlier.len() {
                assert(!same_line(earlier[i], earlier[j]));
            } else {
                assert(kept[i] == earlier[i]);
                assert(!same_line(earlier[i], links.last()));
            }
        }
    }
}

/// Whether an index holds `link` under one of `keys`.
pub open spec fn linked_under(
    index: Map<Seq<char>, Seq<BacklinkView>>,
    keys: Seq<Seq<char>>,
    link: BacklinkView,
) -> bool {
    exists|k: int| 0 <= k < keys.len() && links_under(index, #[trigger] keys[k]).contains(link)
}

proof fn lemma_flatten_contains<T>(lists: Seq<Seq<T>>, x: T)
    ensures
        lists.flatten().contains(x) <==> exists|k: int|
            0 <= k < lists.len() && (#[trigger] lists[k]).contains(x),
    decreases lists.len(),
{
    if lists.len() > 0 {
        let shorter = lists.drop_last();
        lemma_flatten_contains(shorter, x);
        assert(lists =~= shorter.push(lists.last()));
        shorter.lemma_flatten_push(lists.last());
        let all = shorter.flatten() + lists.last();
        if all.contains(x) {
            let i = choose|i: int| 0 <= i < all.len() && all[i] == x;
            if i < shorter.flatten().len() {
                assert(shorter.flatten()[i] == x);
                let k = choose|k: int| 0 <= k < shorter.len() && (#[trigger] shorter[k]).contains(x);
                assert(lists[k].contains(x));
            } else {
                assert(lists.last()[i - shorter.flatten().len()] == x);
                assert(lists[lists.len() - 1].contains(x));
            }
        }
        if exists|k: int| 0 <= k < lists.len() && (#[trigger] lists[k]).contains(x) {
            let k = choose|k: int| 0 <= k < lists.len() && (#[trigger] lists[k]).contains(x);
            if k < shorter.len() {
                assert(shorter[k].contains(x));
                let i = choose|i: int| 0 <= i < shorter.flatten().len() && shorter.flatten()[i] == x;
                assert(all[i] == x);
            } else {
                let i = choose|i: int| 0 <= i < lists.last().len() && lists.last()[i] == x;
                assert(all[shorter.flatten().len() + i] == x);
            }
        }
    } else {
        assert(lists.flatten() =~= Seq::<T>::empty());
    }
}

/// What is listed for a note stands in some other note and is held by the index
/// under one of its keys, and every line of another note that holds a link
/// under one of its keys is listed, once.
pub proof fn listed_links_are_exact(
    index: Map<Seq<char>, Seq<BacklinkView>>,
    keys: Seq<Seq<char>>,
    own: Option<Seq<u8>>,
)
    ensures
        forall|link: BacklinkView| #[trigger]
            backlinks_to(index, keys, own).contains(link) ==> from_other(link, own)
                && linked_under(index, keys, link),
        forall|link: BacklinkView| #[trigger]
            linked_under(index, keys, link) && from_other(link, own) ==> has_line_of(
                backlinks_to(index, keys, own),
                link,
            ),
        forall|i: int, j: int|
            0 <= i < j < backlinks_to(index, keys, own).len() ==> !same_line(
                #[trigger] backlinks_to(index, keys, own)[i],
                #[trigger] backlinks_to(index, keys, own)[j],
            ),
{
    let keep = |link: BacklinkView| from_other(link, own);
    let all = links_under_any(index, keys);
    let candidates = links_of_others(all, own);
    let lists = keys.map_values(|key: Seq<char>| links_under(index, key));
    let kept = distinct_links(candidates);
    let ranks = link_ranks(kept, lower_titles_of(kept));
    let order = stable_order(ranks);
    let listed = backlinks_to(index, keys, own);
    lines_are_distinct(candidates);
    stable_order_is_stable(ranks);
    arranged_keeps_items(kept, ranks);
    assert forall|link: BacklinkView| #[trigger] listed.contains(link) implies from_other(
        link,
        own,
    ) && linked_under(index, keys, link) by {
        let i = choose|i: int| 0 <= i < listed.len() && listed[i] == link;
        assert(listed[i] == kept[order[i]]);
        assert(candidates.contains(kept[order[i]]));
        let c = choose|c: int| 0 <= c < candidates.len() && candidates[c] == link;
        all.lemma_filter_pred(keep, c);
        all.lemma_filter_contains_rev(keep, link);
        lemma_flatten_contains(lists, link);
        let k = choose|k: int| 0 <= k < lists.len() && (#[trigger] lists[k]).contains(link);
        assert(links_under(index, keys[k]).contains(link));
    }
    assert forall|link: BacklinkView| #[trigger]
        linked_under(index, keys, link) && from_other(link, own) implies has_line_of(
        listed,
        link,
    ) by {
        let k = choose|k: int|
            0 <= k < keys.len() && links_under(index, #[trigger] keys[k]).contains(link);
        assert(lists[k].contains(link));
        lemma_flatten_contains(lists, link);
        let m = choose|m: int| 0 <= m < all.len() && all[m] == link;
        all.lemma_filter_contains(keep, m);
        let c = choose|c: int| 0 <= c < candidates.len() && candidates[c] == link;
        assert(has_line_of(kept, candidates[c]));
        let i = choose|i: int| 0 <= i < kept.len() && same_line(#[trigger] kept[i], link);
        vstd::seq_lib::to_multiset_contains(kept, kept[i]);
        vstd::seq_lib::to_multiset_contains(listed, kept[i]);
        let m = choose|m: int| 0 <= m < listed.len() && listed[m] == kept[i];
        assert(same_line(listed[m], link));
    }
    assert forall|i: int, j: int| 0 <= i < j < listed.len() implies !same_line(
        #[trigger] listed[i],
        #[trigger] listed[j],
    ) by {
        assert(order[i] != order[j]);
        if order[i] < order[j] {
            assert(!same_line(kept[order[i]], kept[order[j]]));
        } else {
            assert(!same_line(kept[order[j]], kept[order[i]]));
        }
    }
}

/// What is listed is sorted by the title of the linking note without regard to
/// case, then by its path, then by line.
pub proof fn listed_links_are_sorted(links: Seq<BacklinkView>, i: int, j: int)
    requires
        0 <= i < j < sorted_links(links).len(),
    ensures
        rank_le(
            link_rank(lowercase(sorted_links(links)[i].source_title), sorted_links(links)[i]),
            link_rank(lowercase(sorted_links(links)[j].source_title), sorted_links(links)[j]),
        ),
{
    let ranks = link_ranks(links, lower_titles_of(links));
    let order = stable_order(ranks);
    stable_order_is_stable(ranks);
    assert(precedes(ranks, order[i], order[j]));
}

/// The index holds a link under a key if and only if the key is not empty and
/// some note has that link with that key.
pub proof fn index_is_exact(links: Seq<KeyedLinkView>, key: Seq<char>, link: BacklinkView)
    ensures
        links_under(grouped(links), key).contains(link) <==> key.len() > 0 && links.contains(
            KeyedLinkView { key, link },
        ),
        !grouped(links).contains_key(Seq::empty()),
{
    let with_key = |l: KeyedLinkView| l.key == key;
    let get_link = |l: KeyedLinkView| l.link;
    let kept = links.filter(with_key);
    let found = links_with_key(links, key);
    if links_under(grouped(links), key).contains(link) {
        let i = choose|i: int| 0 <= i < found.len() && found[i] == link;
        links.lemma_filter_pred(with_key, i);
        links.lemma_filter_contains_rev(with_key, kept[i]);
        assert(kept[i] == (KeyedLinkView { key, link }));
    }
    if key.len() > 0 && links.contains(KeyedLinkView { key, link }) {
        let k = choose|k: int| 0 <= k < links.len() && links[k] == (KeyedLinkView { key, link });
        links.lemma_filter_contains(with_key, k);
        let i = choose|i: int| 0 <= i < kept.len() && kept[i] == links[k];
        assert(found[i] == link);
    }
}

/// A further note adds its links behind those of the notes before it, and
/// changes nothing else.
pub proof fn note_adds_its_links(notes: Seq<LoadedNote>, note: LoadedNote, key: Seq<char>)
    requires
        key.len() > 0,
    ensures
        links_under(grouped(all_links(notes.push(note))), key) == links_under(
            grouped(all_links(notes)),
            key,
        ) + links_with_key(links_in(note), key),
{
    let f = |loaded: LoadedNote| links_in(loaded);
    let with_key = |l: KeyedLinkView| l.key == key;
    let get_link = |l: KeyedLinkView| l.link;
    let earlier = all_links(notes);
    notes.lemma_push_map_commute(f, note);
    notes.map_values(f).lemma_flatten_push(links_in(note));
    Seq::filter_distributes_over_add(earlier, links_in(note), with_key);
    assert((earlier.filter(with_key) + links_in(note).filter(with_key)).map_values(get_link)
        =~= earlier.filter(with_key).map_values(get_link) + links_in(note).filter(
        with_key,
    ).map_values(get_link));
    assert forall|links: Seq<KeyedLinkView>| #[trigger]
        links_under(grouped(links), key) == links_with_key(links, key) by {
        if links_with_key(links, key).len() == 0 {
            assert(links_with_key(links, key) =~= Seq::<BacklinkView>::empty());
        }
    }
}

/// It makes no difference whether the index or the active note comes first.
pub proof fn index_and_active_commute(
    s: BacklinksState,
    index: Map<Seq<char>, Seq<BacklinkView>>,
    file: Option<FileView>,
)
    ensures
        s.with_index(index).with_active(file) == s.with_active(file).with_index(index),
{
    no_keys_no_backlinks(index, None);
}

/// Recomputing what is listed gives every line of another note that the index
/// holds under a key of the active note, exactly and once, and nothing else;
/// all else stays, and to recompute again changes nothing.
pub proof fn recompute_is_exact(s: BacklinksState)
    ensures
        forall|link: BacklinkView| #[trigger]
            s.recomputed().current.contains(link) ==> from_other(link, s.active_path)
                && linked_under(s.index, s.active_keys, link),
        forall|link: BacklinkView| #[trigger]
            linked_under(s.index, s.active_keys, link) && from_other(link, s.active_path)
                ==> has_line_of(s.recomputed().current, link),
        forall|i: int, j: int|
            0 <= i < j < s.recomputed().current.len() ==> !same_line(
                #[trigger] s.recomputed().current[i],
                #[trigger] s.recomputed().current[j],
            ),
        s.recomputed() == (BacklinksState { current: s.recomputed().current, ..s }),
        s.recomputed().recomputed() == s.recomputed(),
{
    listed_links_are_exact(s.index, s.active_keys, s.active_path);
}

/// Whether some note of the vault other than `file` has `link`, and the link
/// points at `file`.
pub open spec fn links_here(notes: Seq<LoadedNote>, file: FileView, link: BacklinkView) -> bool {
    exists|i: int, j: int|
        0 <= i < notes.len() && notes[i].note@.abs_path != file.abs_path && 0 <= j < links_in(
            notes[i],
        ).len() && #[trigger] links_in(notes[i])[j].link == link && keys_of(file.path).contains(
            links_in(notes[i])[j].key,
        )
}

proof fn lemma_source(loaded: LoadedNote, j: int)
    requires
        0 <= j < links_in(loaded).len(),
    ensures
        links_in(loaded)[j].link.source_abs_path == loaded.note@.abs_path,
{
}

proof fn lemma_all_links_contains(notes: Seq<LoadedNote>, keyed: KeyedLinkView)
    ensures
        all_links(notes).contains(keyed) <==> exists|i: int, j: int|
            0 <= i < notes.len() && 0 <= j < links_in(notes[i]).len() && #[trigger] links_in(
                notes[i],
            )[j] == keyed,
{
    let lists = notes.map_values(|loaded: LoadedNote| links_in(loaded));
    lemma_flatten_contains(lists, keyed);
    if all_links(notes).contains(keyed) {
        let i = choose|i: int| 0 <= i < lists.len() && (#[trigger] lists[i]).contains(keyed);
        let j = choose|j: int| 0 <= j < lists[i].len() && lists[i][j] == keyed;
        assert(links_in(notes[i])[j] == keyed);
    }
    if exists|i: int, j: int|
        0 <= i < notes.len() && 0 <= j < links_in(notes[i]).len() && #[trigger] links_in(
            notes[i],
        )[j] == keyed {
        let (i, j) = choose|i: int, j: int|
            0 <= i < notes.len() && 0 <= j < links_in(notes[i]).len() && #[trigger] links_in(
                notes[i],
            )[j] == keyed;
        assert(lists[i][j] == keyed);
        assert(lists[i].contains(keyed));
    }
}

/// The panel shows what links here: for the note `file`, whatever is listed is a
/// link of some other note of the vault to it, and every line of another note
/// with such a link is listed.
pub proof fn panel_shows_what_links_here(notes: Seq<LoadedNote>, file: FileView)
    ensures
        forall|link: BacklinkView| #[trigger]
            backlinks_to(
                grouped(all_links(notes)),
                keys_of(file.path),
                Some(file.abs_path),
            ).contains(link) ==> links_here(notes, file, link),
        forall|link: BacklinkView| #[trigger]
            links_here(notes, file, link) ==> has_line_of(
                backlinks_to(
                    grouped(all_links(notes)),
                    keys_of(file.path),
                    Some(file.abs_path),
                ),
                link,
            ),
{
    let links = all_links(notes);
    let index = grouped(links);
    let keys = keys_of(file.path);
    let own = Some(file.abs_path);
    listed_links_are_exact(index, keys, own);
    keys_are_distinct(names_of(file.path));
    assert forall|link: BacklinkView| #[trigger]
        backlinks_to(index, keys, own).contains(link) implies links_here(notes, file, link) by {
        assert(linked_under(index, keys, link));
        let k = choose|k: int|
            0 <= k < keys.len() && links_under(index, #[trigger] keys[k]).contains(link);
        let keyed = KeyedLinkView { key: keys[k], link };
        index_is_exact(links, keys[k], link);
        lemma_all_links_contains(notes, keyed);
        let (i, j) = choose|i: int, j: int|
            0 <= i < notes.len() && 0 <= j < links_in(notes[i]).len() && #[trigger] links_in(
                notes[i],
            )[j] == keyed;
        lemma_source(notes[i], j);
        assert(links_in(notes[i])[j].link == link);
        assert(keys.contains(keys[k]));
    }
    assert forall|link: BacklinkView| #[trigger] links_here(notes, file, link) implies has_line_of(
        backlinks_to(index, keys, own),
        link,
    ) by {
        let (i, j) = choose|i: int, j: int|
            0 <= i < notes.len() && notes[i].note@.abs_path != file.abs_path && 0 <= j < links_in(
                notes[i],
            ).len() && #[trigger] links_in(notes[i])[j].link == link && keys.contains(
                links_in(notes[i])[j].key,
            );
        let keyed = links_in(notes[i])[j];
        lemma_source(notes[i], j);
        lemma_all_links_contains(notes, keyed);
        assert(keys.contains(keyed.key));
        index_is_exact(links, keyed.key, link);
        assert(keyed == (KeyedLinkView { key: keyed.key, link }));
        let k = choose|k: int| 0 <= k < keys.len() && keys[k] == keyed.key;
        assert(links_under(index, keys[k]).contains(link));
        assert(linked_under(index, keys, link));
    }
}

/// A note can be referred to by its title, by its path, and by its path without
/// the extension, with or without a heading: such a target leads to a key of
/// the note. Left out are names that a target cannot spell, since it is cut at
/// `#`, and names that are empty once normalized; of a name that is not blank,
/// [`note_identity`] says the same without the latter condition.
pub proof fn names_lead_to_the_note(path: PathView, name: Seq<char>, heading: Seq<char>)
    requires
        is_name_of(name, path),
        !name.contains('#'),
        normalized(name).len() > 0,
    ensures
        keys_of(path).contains(link_key(name)),
        keys_of(path).contains(link_key(name + seq!['#'] + heading)),
{
    fragment_is_dropped(name, heading);
    assert forall|i: int| 0 <= i < name.len() implies #[trigger] name[i] != '#' by {
        assert(name.contains(name[i]));
    }
    crate::text::lemma_before_takes(name, '#', name.len() as int);
    assert(name.take(name.len() as int) =~= name);
    let names = names_of(path);
    assert(names.contains(normalized(name))) by {
        assert(names[0] == normalized(title_of(path)));
        assert(names[1] == normalized(path.display));
        assert(names[2] == normalized(without_suffix(path.display, "."@ + path.extension->0)));
    }
    keys_are_distinct(names);
}

/// The file that an entry of a worktree stands for.
pub open spec fn file_of(entry: EntryView) -> FileView {
    FileView { abs_path: entry.abs_path, path: entry.path }
}

/// Both panels agree on what counts as a note: a file of the project that is
/// active is shown as a note here, under its title, if and only if it is one
/// that the notes panel lists, under the same title.
pub proof fn panels_agree_on_notes(s: BacklinksState, entries: Seq<EntryView>, k: int)
    requires
        0 <= k < entries.len(),
        entries[k].is_file,
    ensures
        s.with_active(Some(file_of(entries[k]))).active_title is Some <==> is_note(entries[k]),
        is_note(entries[k]) ==> {
            &&& sorted_notes(notes_in(entries)).contains(note_of(entries[k]))
            &&& s.with_active(Some(file_of(entries[k]))).active_title == Some(
                note_of(entries[k]).title,
            )
        },
{
    crate::notes::index_is_exact(entries, note_of(entries[k]));
}

/// A target is indexed under what stands before its first `#`, trimmed and in
/// lower case.
pub proof fn target_is_normalized(head: Seq<char>, fragment: Seq<char>)
    requires
        !head.contains('#'),
    ensures
        link_key(head) == lowercase(trimmed(head)),
        link_key(head + seq!['#'] + fragment) == lowercase(trimmed(head)),
{
    cut_at_the_first_stop(head, '#', fragment);
}

/// The links of a note are its `[[wiki link]]`s in order, without those whose
/// keys are empty: each under its key, with where the note is, its title, its
/// path, and the line on which the link begins. A note that could not be loaded
/// has none.
pub proof fn links_tell_where_they_stand(loaded: LoadedNote, content: NoteContent)
    ensures
        loaded.content is None ==> links_in(loaded) == Seq::<KeyedLinkView>::empty(),
        loaded.content == Some(content) ==> links_in(loaded) == content.links@.filter(
            |link: WikiLink| lowercase(trimmed(before(link.target@, '#'))).len() > 0,
        ).map_values(
            |link: WikiLink|
                KeyedLinkView {
                    key: lowercase(trimmed(before(link.target@, '#'))),
                    link: BacklinkView {
                        source_abs_path: loaded.note.abs_path@,
                        source_title: loaded.note.title@,
                        source_relative: loaded.note.relative@,
                        line: line_number(content.text@, link.start as int) as u32,
                    },
                },
        ),
{
    if loaded.content == Some(content) {
        let keep = |link: WikiLink| points_at_note(link);
        let keep_too = |link: WikiLink| lowercase(trimmed(before(link.target@, '#'))).len() > 0;
        assert(keep =~= keep_too);
        assert(links_in(loaded) =~= content.links@.filter(
            |link: WikiLink| lowercase(trimmed(before(link.target@, '#'))).len() > 0,
        ).map_values(
            |link: WikiLink|
                KeyedLinkView {
                    key: lowercase(trimmed(before(link.target@, '#'))),
                    link: BacklinkView {
                        source_abs_path: loaded.note.abs_path@,
                        source_title: loaded.note.title@,
                        source_relative: loaded.note.relative@,
                        line: line_number(content.text@, link.start as int) as u32,
                    },
                },
        ));
    }
}

/// The links of a further note come behind those of the others.
pub proof fn notes_are_linked_one_by_one(notes: Seq<LoadedNote>, note: LoadedNote)
    ensures
        all_links(Seq::empty()) == Seq::<KeyedLinkView>::empty(),
        all_links(notes.push(note)) == all_links(notes) + links_in(note),
{
    let f = |loaded: LoadedNote| links_in(loaded);
    notes.lemma_push_map_commute(f, note);
    notes.map_values(f).lemma_flatten_push(links_in(note));
    assert(all_links(Seq::empty()) =~= Seq::<KeyedLinkView>::empty());
}

/// A further link is added behind the links under its key, and to no other key;
/// one with an empty key is dropped.
pub proof fn links_are_indexed_one_by_one(links: Seq<KeyedLinkView>, link: KeyedLinkView)
    ensures
        grouped(Seq::empty()) == Map::<Seq<char>, Seq<BacklinkView>>::empty(),
        link.key.len() == 0 ==> grouped(links.push(link)) == grouped(links),
        link.key.len() > 0 && grouped(links).contains_key(link.key) ==> grouped(links.push(link))
            == grouped(links).insert(link.key, grouped(links)[link.key].push(link.link)),
        link.key.len() > 0 && !grouped(links).contains_key(link.key) ==> grouped(links.push(link))
            == grouped(links).insert(link.key, seq![link.link]),
{
    lemma_grouped_push(links, link);
    assert(grouped(Seq::empty()) =~= Map::<Seq<char>, Seq<BacklinkView>>::empty());
    assert(Seq::<BacklinkView>::empty().push(link.link) =~= seq![link.link]);
}

/// A note is looked up under its title, its path and its path without the
/// extension, each trimmed and in lower case and none twice, and under nothing
/// else; the title is the file name without the extension. A further name is
/// tried last.
pub proof fn note_is_looked_up_under_three_names(
    path: PathView,
    key: Seq<char>,
    names: Seq<Seq<char>>,
)
    ensures
        keys_of(path).contains(key) <==> key.len() > 0 && (key == lowercase(
            trimmed(
                if path.file_stem is Some {
                    path.file_stem->0
                } else {
                    "untitled"@
                },
            ),
        ) || key == lowercase(trimmed(path.display)) || key == lowercase(
            trimmed(without_suffix(path.display, "."@ + path.extension->0)),
        )),
        keys_of(path).no_duplicates(),
        distinct_keys(Seq::empty()) == Seq::<Seq<char>>::empty(),
        key.len() > 0 && !names.contains(key) ==> distinct_keys(names.push(key)) == distinct_keys(
            names,
        ).push(key),
        key.len() == 0 || names.contains(key) ==> distinct_keys(names.push(key)) == distinct_keys(
            names,
        ),
{
    let three = names_of(path);
    keys_are_distinct(three);
    keys_are_distinct(names);
    assert(names.push(key).drop_last() =~= names);
    assert(three[0] == lowercase(trimmed(title_of(path))));
    assert(three[1] == lowercase(trimmed(path.display)));
    assert(three[2] == lowercase(
        trimmed(without_suffix(path.display, "."@ + path.extension->0)),
    ));
    assert(three.contains(key) <==> key == three[0] || key == three[1] || key == three[2]);
}

/// Sorted by given lower-case titles, every link comes once. Of two links the
/// title of the linking note decides, then its path, then the line, then which
/// came first before.
pub proof fn titles_paths_and_lines_decide(
    links: Seq<BacklinkView>,
    lower_titles: Seq<Seq<char>>,
)
    requires
        lower_titles.len() == links.len(),
    ensures
        ({
            let order = stable_order(link_ranks(links, lower_titles));
            let sorted = arranged(links, order);
            &&& order.len() == links.len()
            &&& sorted.len() == links.len()
            &&& forall|i: int|
                0 <= i < order.len() ==> 0 <= #[trigger] order[i] < links.len() && sorted[i]
                    == links[order[i]]
            &&& forall|i: int, j: int|
                #![trigger order[i], order[j]]
                0 <= i < j < order.len() ==> {
                    let a = encode_utf8(lower_titles[order[i]]);
                    let b = encode_utf8(lower_titles[order[j]]);
                    let p = encode_utf8(links[order[i]].source_relative);
                    let q = encode_utf8(links[order[j]].source_relative);
                    &&& order[i] != order[j]
                    &&& bytes_le(a, b)
                    &&& a == b ==> bytes_le(p, q)
                    &&& a == b && p == q ==> links[order[i]].line <= links[order[j]].line
                    &&& a == b && p == q && links[order[i]].line == links[order[j]].line
                        ==> order[i] < order[j]
                }
        }),
{
    let ranks = link_ranks(links, lower_titles);
    let order = stable_order(ranks);
    sorting_is_stable(links, ranks);
    assert forall|i: int, j: int|
        #![trigger order[i], order[j]]
        0 <= i < j < order.len() implies {
        let a = encode_utf8(lower_titles[order[i]]);
        let b = encode_utf8(lower_titles[order[j]]);
        let p = encode_utf8(links[order[i]].source_relative);
        let q = encode_utf8(links[order[j]].source_relative);
        &&& order[i] != order[j]
        &&& bytes_le(a, b)
        &&& a == b ==> bytes_le(p, q)
        &&& a == b && p == q ==> links[order[i]].line <= links[order[j]].line
        &&& a == b && p == q && links[order[i]].line == links[order[j]].line ==> order[i]
            < order[j]
    } by {
        let x = ranks[order[i]];
        let y = ranks[order[j]];
        assert(rank_le(x, y));
        bytes_le_total(x.first, y.first);
        bytes_le_total(x.second, y.second);
    }
}

/// What is listed for the note at `own` stands in some other note and is held
/// by the index under one of the keys. Whatever the index holds there and does
/// not stand in the note itself has its line listed, once: no two rows share
/// note and line. The rows are in order of the titles of the linking notes in
/// lower case, then of their paths, then of the lines.
pub proof fn listing_is_complete_and_sorted(
    index: Map<Seq<char>, Seq<BacklinkView>>,
    keys: Seq<Seq<char>>,
    own: Option<Seq<u8>>,
)
    ensures
        ({
            let listed = backlinks_to(index, keys, own);
            &&& forall|r: int|
                0 <= r < listed.len() ==> own != Some((#[trigger] listed[r]).source_abs_path)
                    && exists|k: int|
                    0 <= k < keys.len() && index.contains_key(#[trigger] keys[k])
                        && index[keys[k]].contains(listed[r])
            &&& forall|k: int, i: int|
                #![trigger index[keys[k]][i]]
                0 <= k < keys.len() && index.contains_key(keys[k]) && 0 <= i < index[keys[k]].len()
                    && own != Some(index[keys[k]][i].source_abs_path) ==> exists|r: int|
                    0 <= r < listed.len() && (#[trigger] listed[r]).source_abs_path
                        == index[keys[k]][i].source_abs_path && listed[r].line
                        == index[keys[k]][i].line
            &&& forall|q: int, r: int|
                #![trigger listed[q], listed[r]]
                0 <= q < r < listed.len() ==> {
                    let a = encode_utf8(lowercase(listed[q].source_title));
                    let b = encode_utf8(lowercase(listed[r].source_title));
                    let c = encode_utf8(listed[q].source_relative);
                    let d = encode_utf8(listed[r].source_relative);
                    &&& listed[q].source_abs_path != listed[r].source_abs_path || listed[q].line
                        != listed[r].line
                    &&& bytes_le(a, b)
                    &&& a == b ==> bytes_le(c, d)
                    &&& a == b && c == d ==> listed[q].line <= listed[r].line
                }
        }),
{
    let listed = backlinks_to(index, keys, own);
    let kept = distinct_links(links_of_others(links_under_any(index, keys), own));
    let order = stable_order(link_ranks(kept, lower_titles_of(kept)));
    listed_links_are_exact(index, keys, own);
    titles_paths_and_lines_decide(kept, lower_titles_of(kept));
    assert forall|r: int| 0 <= r < listed.len() implies own != Some(
        (#[trigger] listed[r]).source_abs_path,
    ) && exists|k: int|
        0 <= k < keys.len() && index.contains_key(#[trigger] keys[k]) && index[keys[k]].contains(
            listed[r],
        ) by {
        assert(listed.contains(listed[r]));
        let k = choose|k: int|
            0 <= k < keys.len() && links_under(index, #[trigger] keys[k]).contains(listed[r]);
        assert(index.contains_key(keys[k]));
    }
    assert forall|k: int, i: int|
        #![trigger index[keys[k]][i]]
        0 <= k < keys.len() && index.contains_key(keys[k]) && 0 <= i < index[keys[k]].len() && own
            != Some(index[keys[k]][i].source_abs_path) implies exists|r: int|
        0 <= r < listed.len() && (#[trigger] listed[r]).source_abs_path
            == index[keys[k]][i].source_abs_path && listed[r].line == index[keys[k]][i].line by {
        let link = index[keys[k]][i];
        assert(links_under(index, keys[k]).contains(link));
        assert(linked_under(index, keys, link));
        assert(from_other(link, own));
        assert(has_line_of(listed, link));
        let r = choose|r: int| 0 <= r < listed.len() && same_line(#[trigger] listed[r], link);
        assert(listed[r].line == link.line);
    }
    assert forall|q: int, r: int|
        #![trigger listed[q], listed[r]]
        0 <= q < r < listed.len() implies {
        let a = encode_utf8(lowercase(listed[q].source_title));
        let b = encode_utf8(lowercase(listed[r].source_title));
        let c = encode_utf8(listed[q].source_relative);
        let d = encode_utf8(listed[r].source_relative);
        &&& listed[q].source_abs_path != listed[r].source_abs_path || listed[q].line
            != listed[r].line
        &&& bytes_le(a, b)
        &&& a == b ==> bytes_le(c, d)
        &&& a == b && c == d ==> listed[q].line <= listed[r].line
    } by {
        assert(!same_line(listed[q], listed[r]));
        assert(listed[q] == kept[order[q]]);
        assert(listed[r] == kept[order[r]]);
    }
}

/// From the text of the notes to the rows: a `[[wiki link]]` in another note
/// whose target, up to the first `#`, trimmed and in lower case, is a key of the
/// file has a row with that note and the line on which the link begins.
pub proof fn every_wiki_link_has_a_row(
    notes: Seq<LoadedNote>,
    file: FileView,
    i: int,
    content: NoteContent,
    j: int,
)
    requires
        0 <= i < notes.len(),
        notes[i].content == Some(content),
        notes[i].note.abs_path@ != file.abs_path,
        0 <= j < content.links@.len(),
        keys_of(file.path).contains(lowercase(trimmed(before(content.links@[j].target@, '#')))),
    ensures
        ({
            let listed = backlinks_to(
                grouped(all_links(notes)),
                keys_of(file.path),
                Some(file.abs_path),
            );
            exists|r: int|
                0 <= r < listed.len() && (#[trigger] listed[r]).source_abs_path
                    == notes[i].note.abs_path@ && listed[r].line == line_number(
                    content.text@,
                    content.links@[j].start as int,
                ) as u32
        }),
{
    let keep = |link: WikiLink| points_at_note(link);
    let make = |link: WikiLink| keyed_link(notes[i].note@, content.text@, link);
    let kept = content.links@.filter(keep);
    let link = content.links@[j];
    let keyed = make(link);
    let listed = backlinks_to(
        grouped(all_links(notes)),
        keys_of(file.path),
        Some(file.abs_path),
    );
    keys_are_distinct(names_of(file.path));
    assert(keep(link));
    content.links@.lemma_filter_contains(keep, j);
    let m = choose|m: int| 0 <= m < kept.len() && kept[m] == link;
    assert(links_in(notes[i])[m] == keyed);
    assert(links_in(notes[i])[m].link == keyed.link);
    assert(links_here(notes, file, keyed.link));
    panel_shows_what_links_here(notes, file);
    let r = choose|r: int| 0 <= r < listed.len() && same_line(#[trigger] listed[r], keyed.link);
    assert(listed[r].line == keyed.link.line);
}

/// From the rows back to the text: every row is that of a `[[wiki link]]` in
/// another note of the vault whose target, up to the first `#`, trimmed and in
/// lower case, is a key of the file, with the title and the path of that note
/// and the line on which the link begins.
pub proof fn every_row_has_a_wiki_link(notes: Seq<LoadedNote>, file: FileView, r: int)
    requires
        0 <= r < backlinks_to(
            grouped(all_links(notes)),
            keys_of(file.path),
            Some(file.abs_path),
        ).len(),
    ensures
        ({
            let row = backlinks_to(
                grouped(all_links(notes)),
                keys_of(file.path),
                Some(file.abs_path),
            )[r];
            exists|i: int, j: int|
                #![trigger notes[i].content->0.links@[j]]
                0 <= i < notes.len() && notes[i].content is Some && 0 <= j
                    < notes[i].content->0.links@.len() && notes[i].note.abs_path@ != file.abs_path
                    && keys_of(file.path).contains(
                    lowercase(trimmed(before(notes[i].content->0.links@[j].target@, '#'))),
                ) && row.source_abs_path == notes[i].note.abs_path@ && row.source_title
                    == notes[i].note.title@ && row.source_relative == notes[i].note.relative@
                    && row.line == line_number(
                    notes[i].content->0.text@,
                    notes[i].content->0.links@[j].start as int,
                ) as u32
        }),
{
    let listed = backlinks_to(
        grouped(all_links(notes)),
        keys_of(file.path),
        Some(file.abs_path),
    );
    let row = listed[r];
    panel_shows_what_links_here(notes, file);
    assert(listed.contains(row));
    let (i, m) = choose|i: int, m: int|
        0 <= i < notes.len() && notes[i].note@.abs_path != file.abs_path && 0 <= m < links_in(
            notes[i],
        ).len() && #[trigger] links_in(notes[i])[m].link == row && keys_of(file.path).contains(
            links_in(notes[i])[m].key,
        );
    let content = notes[i].content->0;
    let keep = |link: WikiLink| points_at_note(link);
    let kept = content.links@.filter(keep);
    content.links@.lemma_filter_contains_rev(keep, kept[m]);
    let j = choose|j: int| 0 <= j < content.links@.len() && content.links@[j] == kept[m];
    assert(links_in(notes[i])[m] == keyed_link(notes[i].note@, content.text@, kept[m]));
    assert(notes[i].content->0.links@[j] == kept[m]);
}

/// A note that becomes active is shown under its title and looked up under its
/// keys; any other file, or none, clears the panel. The index and the position
/// stay.
pub proof fn active_note_is_shown(s: BacklinksState, file: FileView)
    ensures
        ({
            let after = s.with_active(Some(file));
            let is_note = file.path.extension is Some && is_note_extension(
                file.path.extension->0,
            );
            &&& is_note ==> {
                &&& after.active_title == Some(
                    if file.path.file_stem is Some {
                        file.path.file_stem->0
                    } else {
                        "untitled"@
                    },
                )
                &&& after.active_path == Some(file.abs_path)
                &&& after.active_keys == keys_of(file.path)
                &&& after.current == backlinks_to(
                    s.index,
                    keys_of(file.path),
                    Some(file.abs_path),
                )
            }
            &&& !is_note ==> after == s.with_active(None)
            &&& after.index == s.index
            &&& after.position == s.position
        }),
        s.with_active(None).active_title is None,
        s.with_active(None).active_path is None,
        s.with_active(None).active_keys.len() == 0,
        s.with_active(None).current.len() == 0,
        s.with_active(None).index == s.index,
        s.with_active(None).position == s.position,
{
}

/// A new index replaces the old one, and what it holds for the active note is
/// listed; the active note and the position stay. A new panel is on the right
/// and empty.
pub proof fn new_index_is_listed(s: BacklinksState, index: Map<Seq<char>, Seq<BacklinkView>>)
    ensures
        s.with_index(index).index == index,
        s.with_index(index).current == backlinks_to(index, s.active_keys, s.active_path),
        s.with_index(index).active_title == s.active_title,
        s.with_index(index).active_path == s.active_path,
        s.with_index(index).active_keys == s.active_keys,
        s.with_index(index).position == s.position,
        BacklinksState::initial().index == Map::<Seq<char>, Seq<BacklinkView>>::empty(),
        BacklinksState::initial().active_title is None,
        BacklinksState::initial().active_keys.len() == 0,
        BacklinksState::initial().current.len() == 0,
        BacklinksState::initial().position == DockPosition::Right,
{
}

/// What the contracts speak of is what links and files hold; a row shows the
/// path of the linking note and the line.
pub proof fn link_views_are_the_fields(
    links: Seq<Backlink>,
    keyed: Seq<KeyedLink>,
    file: OpenFile,
    link: BacklinkView,
)
    ensures
        link_views(links).len() == links.len(),
        forall|i: int|
            0 <= i < links.len() ==> (#[trigger] link_views(links)[i]).source_abs_path
                == links[i].source_abs_path@ && link_views(links)[i].source_title
                == links[i].source_title@ && link_views(links)[i].source_relative
                == links[i].source_relative@ && link_views(links)[i].line == links[i].line,
        keyed_views(keyed).len() == keyed.len(),
        forall|i: int|
            0 <= i < keyed.len() ==> (#[trigger] keyed_views(keyed)[i]).key == keyed[i].key@
                && keyed_views(keyed)[i].link == keyed[i].link@,
        file@.abs_path == file.abs_path@,
        file@.path == file.path@,
        file_in(Some(&file)) == Some(file@),
        file_in(None) is None,
        forall|index: Map<Seq<char>, Seq<BacklinkView>>, key: Seq<char>|
            #![trigger links_under(index, key)]
            (index.contains_key(key) ==> links_under(index, key) == index[key]) && (
            !index.contains_key(key) ==> links_under(index, key).len() == 0),
        forall|path: Vec<u8>| #[trigger] bytes_in(Some(path)) == Some(path@),
        bytes_in(None) is None,
        subtitle_of(link) == link.source_relative + ":"@ + decimal(link.line as nat),
{
}

} // verus!
