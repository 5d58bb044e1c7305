use vault::notes::{filter_notes, new_note_name, sort_notes, NotesBody, NotesPanel};
use vault::panel::{DockPosition, ProjectEvent};
use vault::entries::{
    collect_notes, has_note_extension, NoteEntry, RelativePath, Worktree, WorktreeEntry,
};

fn path(display: &str) -> RelativePath {
    let name = display.rsplit('/').next().unwrap();
    let (stem, extension) = match name.rfind('.') {
        Some(dot) if dot > 0 => (&name[..dot], Some(name[dot + 1..].to_string())),
        _ => (name, None),
    };
    RelativePath {
        display: display.to_string(),
        file_stem: Some(stem.to_string()),
        extension,
    }
}

fn file(display: &str) -> WorktreeEntry {
    WorktreeEntry {
        is_file: true,
        abs_path: format!("/vault/{}", display).into_bytes(),
        path: path(display),
    }
}

fn directory(display: &str) -> WorktreeEntry {
    WorktreeEntry { is_file: false, ..file(display) }
}

fn project() -> Vec<Worktree> {
    vec![
        Worktree {
            entries: vec![
                file("zebra.md"),
                directory("folder.md"),
                file("src/main.rs"),
                file("sub/Apple.MD"),
                file("README"),
            ],
        },
        Worktree { entries: vec![file("apple.markdown"), file("b/zebra.mdx")] },
    ]
}

fn shown(panel: &NotesPanel) -> Vec<(String, String, bool)> {
    panel
        .render_rows(0, usize::MAX)
        .into_iter()
        .map(|row| (row.title, row.relative, row.selected))
        .collect()
}

fn row(title: &str, relative: &str, selected: bool) -> (String, String, bool) {
    (title.to_string(), relative.to_string(), selected)
}

#[test]
fn note_extensions_are_known_in_any_case() {
    for extension in ["md", "markdown", "mdx", "mdown", "mkd", "mdwn", "MD", "MarkDown"] {
        assert!(has_note_extension(extension));
    }
    for extension in ["", "m", "mdd", "txt", "rs"] {
        assert!(!has_note_extension(extension));
    }
}

#[test]
fn notes_are_collected_in_the_order_of_the_entries() {
    let notes = collect_notes(&project());
    let found: Vec<&str> = notes.iter().map(|note| note.relative.as_str()).collect();
    assert_eq!(found, vec!["zebra.md", "sub/Apple.MD", "apple.markdown", "b/zebra.mdx"]);
    assert_eq!(notes[1].title, "Apple");
    assert_eq!(notes[1].abs_path, b"/vault/sub/Apple.MD".to_vec());
}

#[test]
fn a_note_without_a_stem_is_untitled() {
    let mut entry = file("a.md");
    entry.path.file_stem = None;
    let notes = collect_notes(&vec![Worktree { entries: vec![entry] }]);
    assert_eq!(notes[0].title, "untitled");
}

#[test]
fn the_index_is_sorted_by_title_then_path() {
    let panel = NotesPanel::load(&project(), "");
    assert_eq!(
        shown(&panel),
        vec![
            row("apple", "apple.markdown", true),
            row("Apple", "sub/Apple.MD", false),
            row("zebra", "b/zebra.mdx", false),
            row("zebra", "zebra.md", false),
        ]
    );
}

#[test]
fn sorting_follows_the_given_titles() {
    let note = |title: &str, relative: &str| NoteEntry {
        abs_path: Vec::new(),
        title: title.to_string(),
        relative: relative.to_string(),
    };
    let notes = vec![note("x", "2"), note("y", "1"), note("z", "0")];
    let lowered = vec!["b".to_string(), "a".to_string(), "a".to_string()];
    let sorted: Vec<String> =
        sort_notes(&notes, &lowered).into_iter().map(|note| note.title).collect();
    assert_eq!(sorted, vec!["z", "y", "x"]);
}

#[test]
fn the_filter_ignores_case_and_surrounding_space() {
    let mut panel = NotesPanel::load(&project(), "  APPLE ");
    assert_eq!(
        shown(&panel),
        vec![row("apple", "apple.markdown", true), row("Apple", "sub/Apple.MD", false)]
    );
    panel.update_matches("SUB/");
    assert_eq!(shown(&panel), vec![row("Apple", "sub/Apple.MD", true)]);
    panel.update_matches("   ");
    assert_eq!(shown(&panel).len(), 4);
}

#[test]
fn a_blank_filter_shows_every_note() {
    for blank in ["", " ", "\t\u{3000}\n"] {
        let mut panel = NotesPanel::load(&project(), blank);
        assert_eq!(shown(&panel).len(), 4);
        panel.update_matches("nothing like it");
        assert_eq!(shown(&panel).len(), 0);
        panel.refresh_notes(&project(), blank);
        assert_eq!(shown(&panel).len(), 4);
    }
}

#[test]
fn filtering_gives_the_matching_positions() {
    let pairs = vec![
        ("alpha".to_string(), "x/alpha.md".to_string()),
        ("beta".to_string(), "alp/beta.md".to_string()),
        ("gamma".to_string(), "gamma.md".to_string()),
    ];
    assert_eq!(filter_notes(&pairs, "alp"), vec![0, 1]);
    assert_eq!(filter_notes(&pairs, ""), vec![0, 1, 2]);
    assert_eq!(filter_notes(&pairs, "delta"), Vec::<usize>::new());
}

#[test]
fn an_empty_list_says_why() {
    let panel = NotesPanel::load(&Vec::new(), "");
    match panel.render() {
        NotesBody::Message(message) => {
            assert_eq!(message, "No notes in this vault yet. Create one with the + button.")
        }
        NotesBody::Rows(_) => panic!("there is no note"),
    }
    let panel = NotesPanel::load(&project(), "nothing like this");
    match panel.render() {
        NotesBody::Message(message) => assert_eq!(message, "No notes match your search."),
        NotesBody::Rows(_) => panic!("no note matches"),
    }
    let panel = NotesPanel::load(&project(), "");
    match panel.render() {
        NotesBody::Message(_) => panic!("there are notes"),
        NotesBody::Rows(count) => assert_eq!(count, 4),
    }
}

#[test]
fn the_selection_stays_within_the_list() {
    let mut panel = NotesPanel::load(&project(), "");
    assert_eq!(panel.select_previous(), Some(0));
    assert_eq!(panel.select_next(), Some(1));
    assert_eq!(panel.select_next(), Some(2));
    assert_eq!(panel.select_next(), Some(3));
    assert_eq!(panel.select_next(), Some(3));
    assert_eq!(panel.select_previous(), Some(2));
    panel.update_matches("zebra");
    assert_eq!(shown(&panel)[0], row("zebra", "b/zebra.mdx", true));
    let mut empty = NotesPanel::load(&Vec::new(), "");
    assert_eq!(empty.select_next(), None);
    assert_eq!(empty.select_previous(), None);
    assert_eq!(empty.confirm(true), None);
}

#[test]
fn opening_a_note_selects_it() {
    let mut panel = NotesPanel::load(&project(), "zebra");
    assert_eq!(panel.open_note(1, true), Some(b"/vault/zebra.md".to_vec()));
    assert_eq!(panel.confirm(true), Some(b"/vault/zebra.md".to_vec()));
    assert_eq!(panel.open_note(2, true), None);
    assert_eq!(panel.open_note(0, false), None);
    assert_eq!(panel.confirm(false), None);
    assert_eq!(panel.confirm(true), Some(b"/vault/zebra.md".to_vec()));
}

#[test]
fn rows_are_rendered_as_far_as_there_are_any() {
    let panel = NotesPanel::load(&project(), "");
    assert_eq!(panel.render_rows(1, 3).len(), 2);
    assert_eq!(panel.render_rows(3, 9).len(), 1);
    assert_eq!(panel.render_rows(9, 12).len(), 0);
    assert_eq!(panel.render_rows(3, 1).len(), 0);
    assert!(panel.render_note(0, 4).is_none());
    assert_eq!(panel.render_note(0, 3).unwrap().relative, "zebra.md");
}

#[test]
fn refreshing_keeps_the_filter_and_the_position() {
    let mut panel = NotesPanel::load(&project(), "");
    assert!(panel.position() == DockPosition::Left);
    panel.set_position(DockPosition::Right);
    panel.refresh_notes(&vec![Worktree { entries: vec![file("a.md"), file("b.md")] }], "b");
    assert_eq!(shown(&panel), vec![row("b", "b.md", true)]);
    assert!(panel.position() == DockPosition::Right);
    assert!(panel.position_is_valid(DockPosition::Left));
    assert!(!panel.position_is_valid(DockPosition::Bottom));
}

#[test]
fn changes_of_worktrees_change_the_notes() {
    assert!(ProjectEvent::WorktreeAdded.changes_notes());
    assert!(ProjectEvent::WorktreeRemoved.changes_notes());
    assert!(ProjectEvent::WorktreeUpdatedEntries.changes_notes());
    assert!(!ProjectEvent::Other.changes_notes());
}

#[test]
fn a_new_note_gets_the_first_free_name() {
    let taken = |names: &[&str]| -> Vec<String> { names.iter().map(|n| n.to_string()).collect() };
    assert_eq!(new_note_name(&taken(&[])), "Untitled.md");
    assert_eq!(new_note_name(&taken(&["a.md"])), "Untitled.md");
    assert_eq!(new_note_name(&taken(&["Untitled.md"])), "Untitled 2.md");
    assert_eq!(
        new_note_name(&taken(&["Untitled 3.md", "Untitled.md", "Untitled 2.md"])),
        "Untitled 4.md"
    );
    assert_eq!(new_note_name(&taken(&["Untitled 2.md"])), "Untitled.md");
    assert_eq!(new_note_name(&taken(&["Untitled.md", "Untitled 3.md"])), "Untitled 2.md");
    let many: Vec<String> = std::iter::once("Untitled.md".to_string())
        .chain((2..=12).map(|n| format!("Untitled {}.md", n)))
        .collect();
    assert_eq!(new_note_name(&many), "Untitled 13.md");
}
