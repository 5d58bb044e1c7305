use vault::numerals::{to_decimal, to_hex_id};
use vault::order::{sort_positions, SortKey};
use vault::text::{
    chars_of, contains, eq_ignore_ascii_case, line_for_offset, list_contains, same_text,
    strip_suffix, text_before, trim,
};

#[test]
fn chars_come_in_order() {
    assert_eq!(chars_of("a\u{e9}b"), vec!['a', '\u{e9}', 'b']);
    assert_eq!(chars_of(""), Vec::<char>::new());
}

#[test]
fn texts_are_compared_by_characters() {
    assert!(same_text("json", "json"));
    assert!(!same_text("json", "jso"));
    assert!(!same_text("json", "jsoN"));
    assert!(list_contains(&vec!["a".to_string(), "b".to_string()], &"b".to_string()));
    assert!(!list_contains(&vec!["a".to_string()], &"b".to_string()));
}

#[test]
fn trimming_takes_white_space_off_both_ends() {
    assert_eq!(trim("  a b\t\n"), "a b");
    assert_eq!(trim("\u{3000}x\u{a0}"), "x");
    assert_eq!(trim("   "), "");
    assert_eq!(trim(""), "");
    assert_eq!(trim("plain"), "plain");
}

#[test]
fn trimming_twice_is_trimming_once() {
    for s in ["  a ", "\ta\tb\t", "", " "] {
        assert_eq!(trim(trim(s)), trim(s));
    }
}

#[test]
fn trimming_agrees_with_the_standard_library() {
    for s in ["  a ", "\u{2003}\u{e9}\u{2003}", "\u{feff}a", "a\u{85}", "\r\n"] {
        assert_eq!(trim(s), s.trim());
    }
}

#[test]
fn white_space_is_what_unicode_lists() {
    for c in '\0'..=char::MAX {
        let listed = matches!(
            c,
            '\u{9}'..='\u{d}'
                | ' '
                | '\u{85}'
                | '\u{a0}'
                | '\u{1680}'
                | '\u{2000}'..='\u{200a}'
                | '\u{2028}'
                | '\u{2029}'
                | '\u{202f}'
                | '\u{205f}'
                | '\u{3000}'
        );
        assert_eq!(trim(&c.to_string()).is_empty(), listed, "{:?}", c);
    }
}

#[test]
fn substrings_are_found() {
    assert!(contains("projects/notes", "ts/no"));
    assert!(contains("abc", ""));
    assert!(contains("", ""));
    assert!(contains("abc", "abc"));
    assert!(!contains("abc", "abcd"));
    assert!(!contains("abc", "ac"));
    assert!(contains("aab", "ab"));
    assert!(contains("caf\u{e9}s", "\u{e9}s"));
}

#[test]
fn a_fragment_is_cut_off() {
    assert_eq!(text_before("Note#Section", '#'), "Note");
    assert_eq!(text_before("#Section", '#'), "");
    assert_eq!(text_before("Note", '#'), "Note");
    assert_eq!(text_before("a#b#c", '#'), "a");
}

#[test]
fn a_suffix_is_cut_off_once() {
    assert_eq!(strip_suffix("dir/a.md", ".md"), "dir/a");
    assert_eq!(strip_suffix("a.md.md", ".md"), "a.md");
    assert_eq!(strip_suffix("a.MD", ".md"), "a.MD");
    assert_eq!(strip_suffix("md", ".md"), "md");
}

#[test]
fn ascii_case_is_ignored() {
    assert!(eq_ignore_ascii_case("md", "MD"));
    assert!(eq_ignore_ascii_case("Az", "aZ"));
    assert!(!eq_ignore_ascii_case("md", "mdx"));
    assert!(!eq_ignore_ascii_case("\u{e9}", "\u{c9}"));
    assert!(!eq_ignore_ascii_case("[", "{"));
    assert!(!eq_ignore_ascii_case("@", "`"));
}

#[test]
fn lines_are_numbered_from_one() {
    let text = "one\ntwo\nthr\u{e9}e";
    assert_eq!(line_for_offset(text, 0), 1);
    assert_eq!(line_for_offset(text, 3), 1);
    assert_eq!(line_for_offset(text, 4), 2);
    assert_eq!(line_for_offset(text, 8), 3);
    assert_eq!(line_for_offset(text, 1000), 3);
    assert_eq!(line_for_offset("", 5), 1);
    assert_eq!(line_for_offset("\n\n", 1), 2);
}

#[test]
fn numbers_are_written_in_decimal() {
    assert_eq!(to_decimal(0), "0");
    assert_eq!(to_decimal(7), "7");
    assert_eq!(to_decimal(10), "10");
    assert_eq!(to_decimal(4095), "4095");
    assert_eq!(to_decimal(u128::MAX), u128::MAX.to_string());
}

#[test]
fn ids_are_written_in_hexadecimal() {
    for n in [0u32, 1, 0xa, 0x10de, 0xffff, 0x12345, u32::MAX] {
        assert_eq!(to_hex_id(n), format!("{:#06x}", n));
    }
    assert_eq!(to_hex_id(0x10de), "0x10de");
    assert_eq!(to_hex_id(0xde), "0x00de");
}

fn key(first: &str, second: &str, third: u32) -> SortKey {
    SortKey {
        first: first.as_bytes().to_vec(),
        second: second.as_bytes().to_vec(),
        third,
    }
}

#[test]
fn keys_sort_by_their_parts_in_turn() {
    let keys = vec![
        key("b", "x", 1),
        key("a", "y", 1),
        key("a", "x", 2),
        key("a", "x", 1),
        key("ab", "", 0),
    ];
    assert_eq!(sort_positions(&keys), vec![3, 2, 1, 4, 0]);
}

#[test]
fn equal_keys_keep_their_order() {
    let keys = vec![key("b", "", 0), key("a", "", 0), key("b", "", 0), key("a", "", 0)];
    assert_eq!(sort_positions(&keys), vec![1, 3, 0, 2]);
    assert_eq!(sort_positions(&Vec::new()), Vec::<usize>::new());
}

#[test]
fn sorting_agrees_with_the_standard_library() {
    let mut seed: u32 = 12345;
    let mut keys = Vec::new();
    for _ in 0..200 {
        seed = seed.wrapping_mul(1664525).wrapping_add(1013904223);
        let first = [(seed >> 24) as u8 % 4, (seed >> 16) as u8 % 3];
        keys.push(SortKey {
            first: first[..(seed >> 8) as usize % 3].to_vec(),
            second: vec![(seed >> 4) as u8 % 2],
            third: seed % 2,
        });
    }
    let mut expected: Vec<usize> = (0..keys.len()).collect();
    expected.sort_by(|a, b| {
        let (a, b) = (&keys[*a], &keys[*b]);
        (&a.first, &a.second, a.third).cmp(&(&b.first, &b.second, b.third))
    });
    assert_eq!(sort_positions(&keys), expected);
}
