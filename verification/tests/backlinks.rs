use vault::backlinks::{
    build_index, drop_repeated, index_links, note_identity, sort_links, Backlink, BacklinksBody,
    BacklinksPanel, KeyedLink, LoadedNote, NoteContent, OpenFile, WikiLink,
};
use vault::entries::{NoteEntry, RelativePath, Worktree, WorktreeEntry};
use vault::notes::NotesPanel;
use vault::panel::DockPosition;

fn path(display: &str, stem: &str, extension: &str) -> RelativePath {
    RelativePath {
        display: display.to_string(),
        file_stem: Some(stem.to_string()),
        extension: Some(extension.to_string()),
    }
}

fn file(display: &str, stem: &str, extension: &str) -> OpenFile {
    OpenFile {
        abs_path: format!("/vault/{}", display).into_bytes(),
        path: path(display, stem, extension),
    }
}

fn note(title: &str, relative: &str) -> NoteEntry {
    NoteEntry {
        abs_path: format!("/vault/{}", relative).into_bytes(),
        title: title.to_string(),
        relative: relative.to_string(),
    }
}

fn loaded(title: &str, relative: &str, text: &str, links: &[(&str, usize)]) -> LoadedNote {
    LoadedNote {
        note: note(title, relative),
        content: Some(NoteContent {
            text: text.to_string(),
            links: links
                .iter()
                .map(|(target, start)| WikiLink { target: target.to_string(), start: *start })
                .collect(),
        }),
    }
}

fn link(relative: &str, line: u32) -> Backlink {
    Backlink {
        source_abs_path: relative.as_bytes().to_vec(),
        source_title: relative.to_string(),
        source_relative: relative.to_string(),
        line,
    }
}

fn rows(panel: &BacklinksPanel) -> Vec<(String, String)> {
    let mut found = Vec::new();
    while let Some(row) = panel.render_backlink(found.len()) {
        found.push((row.title, row.subtitle));
    }
    found
}

fn pair(title: &str, subtitle: &str) -> (String, String) {
    (title.to_string(), subtitle.to_string())
}

#[test]
fn links_are_indexed_under_their_normalized_targets() {
    let index = build_index(&vec![
        loaded("B", "b.md", "x\n[[ Alpha ]] and [[ALPHA#Top]]", &[(" Alpha ", 2), ("ALPHA#Top", 18)]),
        loaded("C", "c.md", "[[beta]]", &[("beta", 0)]),
    ]);
    let found = index.get("alpha").unwrap();
    assert_eq!(found.len(), 2);
    assert_eq!(found[0].source_title, "B");
    assert_eq!(found[0].line, 2);
    assert_eq!(index.get("beta").unwrap()[0].source_abs_path, b"/vault/c.md".to_vec());
    assert!(index.get("Alpha").is_none());
    assert!(index.get(" alpha ").is_none());
}

#[test]
fn links_to_nothing_are_dropped() {
    let index = build_index(&vec![loaded("B", "b.md", "", &[("#Top", 0), ("  ", 0), ("", 0)])]);
    assert!(index.get("").is_none());
}

#[test]
fn notes_that_could_not_be_loaded_are_left_out() {
    let index = build_index(&vec![
        LoadedNote { note: note("A", "a.md"), content: None },
        loaded("B", "b.md", "[[x]]", &[("x", 0)]),
    ]);
    assert_eq!(index.get("x").unwrap().len(), 1);
}

#[test]
fn keyed_links_are_grouped_in_order() {
    let keyed = |key: &str, line: u32| KeyedLink { key: key.to_string(), link: link("n", line) };
    let index = index_links(vec![keyed("a", 1), keyed("b", 2), keyed("a", 3), keyed("", 4)]);
    let lines: Vec<u32> = index.get("a").unwrap().iter().map(|link| link.line).collect();
    assert_eq!(lines, vec![1, 3]);
    assert_eq!(index.get("b").unwrap().len(), 1);
    assert!(index.get("").is_none());
}

#[test]
fn a_note_is_known_by_title_and_path() {
    let (title, keys) = note_identity(&path("Dir/My Note.MD", "My Note", "MD")).unwrap();
    assert_eq!(title, "My Note");
    assert_eq!(keys, vec!["my note", "dir/my note.md", "dir/my note"]);
    let (_, keys) = note_identity(&path("Top.md", "Top", "md")).unwrap();
    assert_eq!(keys, vec!["top", "top.md"]);
    let mut unnamed = path("x.md", "x", "md");
    unnamed.file_stem = None;
    assert_eq!(note_identity(&unnamed).unwrap().0, "untitled");
}

#[test]
fn names_are_normalized_like_targets() {
    let (title, keys) = note_identity(&path(" Draft .md", " Draft ", "md")).unwrap();
    assert_eq!(title, " Draft ");
    assert_eq!(keys, vec!["draft", "draft .md"]);
    let mut panel = BacklinksPanel::load(Some(&file(" Draft .md", " Draft ", "md")));
    panel.set_index(build_index(&vec![loaded("B", "b.md", "[[Draft]]", &[("Draft", 0)])]));
    assert_eq!(rows(&panel), vec![pair("B", "b.md:1")]);
    let (_, keys) = note_identity(&path(" .md", " ", "md")).unwrap();
    assert_eq!(keys, vec![".md"]);
}

#[test]
fn every_note_with_a_name_has_a_key() {
    for c in '\0'..=char::MAX {
        let name = c.to_string();
        let (_, keys) = note_identity(&path(&name, &name, "md")).unwrap();
        assert_eq!(keys.is_empty(), c.is_whitespace(), "{:?}", c);
    }
}

#[test]
fn other_files_are_no_notes() {
    assert!(note_identity(&path("main.rs", "main", "rs")).is_none());
    let mut bare = path("README", "README", "md");
    bare.extension = None;
    assert!(note_identity(&bare).is_none());
}

#[test]
fn keys_are_kept_once_and_never_empty() {
    let keys = |names: &[&str]| -> Vec<String> { names.iter().map(|n| n.to_string()).collect() };
    assert_eq!(drop_repeated(keys(&["a", "", "b", "a", ""])), keys(&["a", "b"]));
    assert_eq!(drop_repeated(keys(&[])), keys(&[]));
}

#[test]
fn links_sort_by_title_path_and_line() {
    let links = vec![link("b", 2), link("a", 9), link("b", 1)];
    let lowered = vec!["t".to_string(), "u".to_string(), "t".to_string()];
    let sorted: Vec<(String, u32)> = sort_links(&links, &lowered)
        .into_iter()
        .map(|link| (link.source_relative, link.line))
        .collect();
    assert_eq!(
        sorted,
        vec![("b".to_string(), 1), ("b".to_string(), 2), ("a".to_string(), 9)]
    );
}

#[test]
fn the_panel_lists_what_links_to_the_active_note() {
    let mut panel = BacklinksPanel::load(Some(&file("Alpha.md", "Alpha", "md")));
    assert_eq!(rows(&panel), Vec::new());
    panel.set_index(build_index(&vec![
        loaded("zeta", "zeta.md", "[[Alpha]]", &[("Alpha", 0)]),
        loaded("Beta", "beta.md", "a\nb\n[[alpha.md]] [[Alpha]]", &[("alpha.md", 4), ("Alpha", 17)]),
        loaded("gamma", "gamma.md", "[[Other]]", &[("Other", 0)]),
    ]));
    assert_eq!(rows(&panel), vec![pair("Beta", "beta.md:3"), pair("zeta", "zeta.md:1")]);
    assert_eq!(panel.header(), "Backlinks to Alpha");
    match panel.render() {
        BacklinksBody::Rows(count) => assert_eq!(count, 2),
        BacklinksBody::Message(_) => panic!("there are links"),
    }
    assert_eq!(panel.open_backlink(0, true), Some(b"/vault/beta.md".to_vec()));
    assert_eq!(panel.open_backlink(0, false), None);
    assert_eq!(panel.open_backlink(2, true), None);
}

#[test]
fn both_panels_agree_on_what_is_a_note() {
    for extension in ["md", "MarkDown", "mdx", "mdown", "mkd", "mdwn", "txt", "m", "md2"] {
        let active = file(&format!("a.{}", extension), "a", extension);
        let notes = NotesPanel::load(
            &vec![Worktree {
                entries: vec![WorktreeEntry {
                    is_file: true,
                    abs_path: active.abs_path.clone(),
                    path: path(&format!("a.{}", extension), "a", extension),
                }],
            }],
            "",
        );
        let listed: Vec<String> =
            notes.render_rows(0, 1).into_iter().map(|row| row.title).collect();
        let header = BacklinksPanel::load(Some(&active)).header();
        if ["txt", "m", "md2"].contains(&extension) {
            assert_eq!(listed, Vec::<String>::new());
            assert_eq!(header, "Backlinks");
        } else {
            assert_eq!(listed, vec!["a".to_string()]);
            assert_eq!(header, "Backlinks to a");
        }
    }
}

#[test]
fn every_name_leads_to_the_note() {
    for target in ["My Note", "dir/my note.md", "Dir/My Note", " my note #Top", "DIR/MY NOTE#a#b"] {
        let mut panel = BacklinksPanel::load(Some(&file("Dir/My Note.md", "My Note", "md")));
        panel.set_index(build_index(&vec![loaded("B", "b.md", "", &[(target, 0)])]));
        assert_eq!(rows(&panel), vec![pair("B", "b.md:1")]);
    }
    let mut panel = BacklinksPanel::load(Some(&file("Dir/My Note.md", "My Note", "md")));
    panel.set_index(build_index(&vec![loaded("B", "b.md", "", &[("dir", 0), ("note", 0)])]));
    assert_eq!(rows(&panel), Vec::new());
}

#[test]
fn a_note_is_no_backlink_of_itself() {
    let notes = vec![
        loaded("Alpha", "Alpha.md", "[[Alpha]] [[Beta]]", &[("Alpha", 0), ("Beta", 10)]),
        loaded("Beta", "Beta.md", "\n[[alpha.md]]", &[("alpha.md", 1)]),
        loaded("Alpha", "old/Alpha.md", "[[Alpha]]", &[("Alpha", 0)]),
    ];
    let mut panel = BacklinksPanel::load(Some(&file("Alpha.md", "Alpha", "md")));
    panel.set_index(build_index(&notes));
    assert_eq!(rows(&panel), vec![pair("Alpha", "old/Alpha.md:1"), pair("Beta", "Beta.md:2")]);
    assert!(panel.update_active_note(Some(&file("Beta.md", "Beta", "md"))));
    assert_eq!(rows(&panel), vec![pair("Alpha", "Alpha.md:1")]);
}

#[test]
fn recomputing_changes_nothing() {
    let mut panel = BacklinksPanel::load(Some(&file("Alpha.md", "Alpha", "md")));
    panel.set_index(build_index(&vec![loaded(
        "B",
        "b.md",
        "[[Alpha]] [[alpha.md]]",
        &[("Alpha", 0), ("alpha.md", 10)],
    )]));
    let listed = rows(&panel);
    panel.recompute_current();
    assert_eq!(rows(&panel), listed);
    assert_eq!(listed, vec![pair("B", "b.md:1")]);
}

#[test]
fn index_and_active_note_come_in_any_order() {
    let notes = vec![loaded("B", "b.md", "[[Alpha]]", &[("Alpha", 0)])];
    let active = file("Alpha.md", "Alpha", "md");
    let mut first = BacklinksPanel::load(Some(&active));
    first.set_index(build_index(&notes));
    let mut second = BacklinksPanel::load(None);
    second.set_index(build_index(&notes));
    assert_eq!(rows(&second), Vec::new());
    assert!(second.update_active_note(Some(&active)));
    assert_eq!(rows(&first), rows(&second));
    assert_eq!(rows(&first), vec![pair("B", "b.md:1")]);
}

#[test]
fn a_file_that_is_no_note_clears_the_panel() {
    let mut panel = BacklinksPanel::load(Some(&file("Alpha.md", "Alpha", "md")));
    panel.set_index(build_index(&vec![loaded("B", "b.md", "[[Alpha]]", &[("Alpha", 0)])]));
    assert!(panel.update_active_note(Some(&file("main.rs", "main", "rs"))));
    assert_eq!(rows(&panel), Vec::new());
    assert_eq!(panel.header(), "Backlinks");
    match panel.render() {
        BacklinksBody::Message(message) => {
            assert_eq!(message, "Open a note to see what links to it.")
        }
        BacklinksBody::Rows(_) => panic!("the panel is clear"),
    }
    assert!(!panel.update_active_note(None));
    assert!(panel.update_active_note(Some(&file("Lone.md", "Lone", "md"))));
    match panel.render() {
        BacklinksBody::Message(message) => assert_eq!(message, "No notes link here yet."),
        BacklinksBody::Rows(_) => panic!("nothing links here"),
    }
}

#[test]
fn the_backlinks_panel_is_docked_at_a_side() {
    let mut panel = BacklinksPanel::load(None);
    assert!(panel.position() == DockPosition::Right);
    assert!(panel.position_is_valid(DockPosition::Left));
    assert!(!panel.position_is_valid(DockPosition::Bottom));
    panel.set_position(DockPosition::Left);
    assert!(panel.position() == DockPosition::Left);
}
