use flosskeeper::backup::{backup_raw_tsv, parse_tsv_rows, stash_path_override};
use flosskeeper::inventory::{adjust_u32, is_owned, InventoryEntry};
use flosskeeper::reports::{csv_escape, short_note};
use flosskeeper::split::{split_fields, split_lines, splitn_fields};
use flosskeeper::catalog::smart_code_key;
use flosskeeper::text::{chars_of, string_of, trimmed};

fn lines_of(s: &str) -> Vec<String> {
    split_lines(&chars_of(s)).iter().map(|l| string_of(l)).collect()
}

#[test]
fn lines_follow_str_lines() {
    for s in ["", "a", "a\n", "a\r\nb", "a\n\nb\n", "x\r", "\n", "a\rb\r\n"] {
        let expected: Vec<String> = s.lines().map(|l| l.to_string()).collect();
        assert_eq!(lines_of(s), expected, "input {:?}", s);
    }
}

#[test]
fn fields_follow_str_split() {
    for s in ["", "a", "a\tb", "\t", "a\t\tb\t"] {
        let got: Vec<String> = split_fields(&chars_of(s), '\t').iter().map(|l| string_of(l)).collect();
        let expected: Vec<String> = s.split('\t').map(|l| l.to_string()).collect();
        assert_eq!(got, expected);
        let got: Vec<String> = splitn_fields(&chars_of(s), '\t', 2).iter().map(|l| string_of(l)).collect();
        let expected: Vec<String> = s.splitn(2, '\t').map(|l| l.to_string()).collect();
        assert_eq!(got, expected);
    }
}

#[test]
fn trimming_matches_str_trim() {
    for s in ["", "  a b  ", "\u{3000}x\u{a0}", "\t\n", "abc"] {
        assert_eq!(string_of(&trimmed(&chars_of(s))), s.trim());
    }
}

#[test]
fn lowercase_is_unicode_lowercase() {
    let (_, _, text) = smart_code_key("ÉCRU B5200");
    assert_eq!(text, "écru b5200");
}

#[test]
fn adjust_u32_saturates() {
    assert_eq!(adjust_u32(3, 2), 5);
    assert_eq!(adjust_u32(5, -10), 0);
    assert_eq!(adjust_u32(5, -5), 0);
    assert_eq!(adjust_u32(u32::MAX, 1), u32::MAX);
    assert_eq!(adjust_u32(0, i32::MIN), 0);
    assert_eq!(adjust_u32(10, -1), 9);
    assert_eq!(adjust_u32(adjust_u32(7, 3), -3), 7);
}

#[test]
fn inventory_entry_basics() {
    let e = InventoryEntry { bobbins: 2, skeins: 3, notes: "  ".to_string() };
    assert_eq!(e.total_units(), 5);
    assert!(!e.is_empty());
    assert!(is_owned(&e));
    let blank = InventoryEntry { bobbins: 0, skeins: 0, notes: " \t ".to_string() };
    assert!(blank.is_empty());
    assert!(!is_owned(&blank));
    let noted = InventoryEntry { bobbins: 0, skeins: 0, notes: "x".to_string() };
    assert!(!noted.is_empty());
    let d = InventoryEntry::default();
    assert!(d.is_empty());
}

#[test]
fn csv_escape_quotes_when_needed() {
    assert_eq!(csv_escape("plain"), "plain");
    assert_eq!(csv_escape("a,b"), "\"a,b\"");
    assert_eq!(csv_escape("say \"hi\""), "\"say \"\"hi\"\"\"");
    assert_eq!(csv_escape("two\nlines"), "\"two\nlines\"");
    assert_eq!(csv_escape("cr\r"), "\"cr\r\"");
    assert_eq!(csv_escape(""), "");
}

#[test]
fn short_note_cuts_at_32_characters() {
    assert_eq!(short_note("  short  "), "short");
    let long = "abcdefghijklmnopqrstuvwxyz0123456789";
    assert_eq!(short_note(long), "abcdefghijklmnopqrstuvwxyz012345…");
    let exact = "abcdefghijklmnopqrstuvwxyz012345";
    assert_eq!(short_note(exact), exact);
}

#[test]
fn tsv_rows_pair_headers_with_fields() {
    let rows = parse_tsv_rows(" code \t bobbins\n310\t2\n\n  \n666\n1\t2\t3\n");
    let plain: Vec<Vec<(String, String)>> = rows;
    assert_eq!(plain.len(), 3);
    assert_eq!(plain[0], vec![("code".to_string(), "310".to_string()), ("bobbins".to_string(), "2".to_string())]);
    assert_eq!(plain[1], vec![("code".to_string(), "666".to_string()), ("bobbins".to_string(), String::new())]);
    assert_eq!(plain[2], vec![("code".to_string(), "1".to_string()), ("bobbins".to_string(), "2".to_string())]);
    assert!(parse_tsv_rows("").is_empty());
    assert!(parse_tsv_rows("only header").is_empty());
}

#[test]
fn backup_checks_app_then_raw_tsv() {
    assert_eq!(backup_raw_tsv(Some("FlossKeeper"), Some("310\t1\t0\t\n")), Ok("310\t1\t0\t\n".to_string()));
    let refused = Err("This does not look like a FlossKeeper backup.".to_string());
    assert_eq!(backup_raw_tsv(Some("Other"), Some("x")), refused);
    assert_eq!(backup_raw_tsv(None, Some("x")), refused);
    assert_eq!(backup_raw_tsv(Some("FlossKeeper"), None), Err("Backup is missing raw_tsv data.".to_string()));
}

#[test]
fn stash_path_is_trimmed_or_absent() {
    assert_eq!(stash_path_override("  /home/a/stash.tsv \n"), Some("/home/a/stash.tsv".to_string()));
    assert_eq!(stash_path_override(" \n\t"), None);
    assert_eq!(stash_path_override(""), None);
}
