use devlog::config::Daily;
use devlog::date::Date;
use devlog::markdown::{
    collect_entries_in_range, edit_log, entry_exists, exports_dir_name, is_markdown_name,
    parse_entry_header, parse_file_entries, remove_entry, write_daily_entry, write_entry,
    write_export, write_year_header, year_file_name,
};

fn day(year: i32, month: u32, day: u32) -> Date {
    Date::from_ymd(year, month, day).unwrap()
}

fn daily(overwrite_existing: bool) -> Daily {
    Daily { output_dir: "./DevLog".to_string(), overwrite_existing }
}

fn text(bytes: &[u8]) -> String {
    String::from_utf8(bytes.to_vec()).unwrap()
}

fn count(hay: &str, needle: &str) -> usize {
    hay.matches(needle).count()
}

#[test]
fn entry_with_commits_is_rendered_in_order() {
    let mut out = Vec::new();
    let commits = vec!["fix: parser edge case".to_string(), "test: add regression".to_string()];
    write_entry(&mut out, day(2025, 6, 2), "Today I fixed the parser", &commits);
    assert_eq!(
        text(&out),
        "## [[2025-06-02]]\n\n🛠️ **Summary**\nToday I fixed the parser\n\n📦 **Commits**\n- fix: parser edge case\n- test: add regression\n\n"
    );
}

#[test]
fn entry_without_commits_has_placeholder() {
    let mut out = b"x".to_vec();
    write_entry(&mut out, day(2025, 1, 9), "", &[]);
    assert_eq!(
        text(&out),
        "x## [[2025-01-09]]\n\n🛠️ **Summary**\n\n\n🛑 **Commits**  \nNo commits for this day.\n\n"
    );
}

#[test]
fn year_header_is_front_matter_and_title() {
    let mut out = Vec::new();
    write_year_header(&mut out, day(2025, 6, 2));
    assert_eq!(text(&out), "---\ntype: devlog\nyear: 2025\n---\n\n# Dev Log – 2025\n\n");
    let mut early = Vec::new();
    write_year_header(&mut early, day(325, 6, 2));
    assert_eq!(text(&early), "---\ntype: devlog\nyear: 325\n---\n\n# Dev Log – 325\n\n");
}

#[test]
fn first_write_creates_document_with_one_entry() {
    let commits = vec!["fix: parser edge case".to_string(), "test: add regression".to_string()];
    let written =
        write_daily_entry(&daily(false), day(2025, 6, 2), "Today I fixed the parser", &commits, None);
    assert!(!written.skipped);
    assert_eq!(text(&written.file_name), "DevLog-2025.md");
    let doc = text(&written.contents);
    assert_eq!(count(&doc, "## [[2025-06-02]]"), 1);
    assert!(doc.contains("\nToday I fixed the parser\n"));
    let first = doc.find("- fix: parser edge case\n").unwrap();
    let second = doc.find("- test: add regression\n").unwrap();
    assert!(first < second);
    assert_eq!(count(&doc, "\n- "), 2);
    assert!(doc.starts_with("---\ntype: devlog\nyear: 2025\n---\n\n# Dev Log – 2025\n\n## [["));
}

#[test]
fn second_write_without_overwrite_is_skipped() {
    let first = write_daily_entry(&daily(false), day(2025, 6, 2), "one", &[], None);
    let again = write_daily_entry(
        &daily(false),
        day(2025, 6, 2),
        "two",
        &["c".to_string()],
        Some(&first.contents),
    );
    assert!(again.skipped);
    assert_eq!(again.contents, first.contents);
}

#[test]
fn overwrite_replaces_only_that_entry() {
    let first = write_daily_entry(&daily(false), day(2025, 6, 1), "first day", &[], None);
    let second = write_daily_entry(
        &daily(false),
        day(2025, 6, 2),
        "old summary",
        &[],
        Some(&first.contents),
    );
    let third = write_daily_entry(
        &daily(true),
        day(2025, 6, 2),
        "new summary",
        &[],
        Some(&second.contents),
    );
    assert!(!third.skipped);
    let doc = text(&third.contents);
    let mut block = Vec::new();
    write_entry(&mut block, day(2025, 6, 1), "first day", &[]);
    assert!(doc.contains(&text(&block)));
    assert_eq!(count(&doc, "new summary"), 1);
    assert_eq!(count(&doc, "old summary"), 0);
    assert_eq!(count(&doc, "## [[2025-06-02]]"), 1);
}

#[test]
fn overwrite_in_the_middle_keeps_neighbours() {
    let a = write_daily_entry(&daily(false), day(2025, 6, 1), "a", &[], None);
    let b = write_daily_entry(&daily(false), day(2025, 6, 2), "b", &[], Some(&a.contents));
    let c = write_daily_entry(&daily(false), day(2025, 6, 3), "c", &[], Some(&b.contents));
    let d = write_daily_entry(&daily(true), day(2025, 6, 2), "b2", &[], Some(&c.contents));
    let mut e1 = Vec::new();
    write_entry(&mut e1, day(2025, 6, 1), "a", &[]);
    let mut e2 = Vec::new();
    write_entry(&mut e2, day(2025, 6, 2), "b2", &[]);
    let mut e3 = Vec::new();
    write_entry(&mut e3, day(2025, 6, 3), "c", &[]);
    let mut expected = Vec::new();
    write_year_header(&mut expected, day(2025, 6, 1));
    expected.extend_from_slice(&e1);
    expected.extend_from_slice(&e3);
    expected.extend_from_slice(&e2);
    assert_eq!(text(&d.contents), text(&expected));
}

#[test]
fn three_writes_give_one_header_and_single_blank_lines() {
    let a = write_daily_entry(&daily(false), day(2025, 6, 1), "a", &[], None);
    let b = write_daily_entry(&daily(false), day(2025, 6, 2), "b", &[], Some(&a.contents));
    let c = write_daily_entry(&daily(false), day(2025, 6, 3), "c", &[], Some(&b.contents));
    let doc = text(&c.contents);
    assert_eq!(count(&doc, "type: devlog"), 1);
    assert!(doc.find("type: devlog").unwrap() < doc.find("## [[").unwrap());
    assert_eq!(count(&doc, "\n\n\n"), 0);
    assert_eq!(count(&doc, "\n\n## [["), 3);
}

#[test]
fn existing_text_without_line_break_is_closed_first() {
    let edited = edit_log(Some(b"notes"), day(2025, 6, 2), b"BLOCK\n", false);
    assert!(!edited.skipped);
    assert_eq!(text(&edited.contents), "notes\nBLOCK\n");
    let clean = edit_log(Some(b"notes\n"), day(2025, 6, 2), b"BLOCK\n", false);
    assert_eq!(text(&clean.contents), "notes\nBLOCK\n");
    let empty = edit_log(Some(b""), day(2025, 6, 2), b"BLOCK\n", false);
    assert_eq!(text(&empty.contents), "BLOCK\n");
}

#[test]
fn legacy_heading_counts_as_existing() {
    let doc = b"preamble\n[[2025-06-02]]\nold text\n";
    assert!(entry_exists(doc, day(2025, 6, 2)));
    assert!(!entry_exists(doc, day(2025, 6, 3)));
    let edited = edit_log(Some(doc), day(2025, 6, 2), b"BLOCK\n", false);
    assert!(edited.skipped);
    assert_eq!(edited.contents, doc.to_vec());
}

#[test]
fn remove_entry_cuts_up_to_next_heading() {
    let doc = b"head\n## [[2025-06-01]]\none\n\n## [[2025-06-02]]\ntwo\n\n[[2025-06-03]]\nthree\n";
    assert_eq!(
        text(&remove_entry(doc, day(2025, 6, 1))),
        "head\n## [[2025-06-02]]\ntwo\n\n[[2025-06-03]]\nthree\n"
    );
    assert_eq!(
        text(&remove_entry(doc, day(2025, 6, 2))),
        "head\n## [[2025-06-01]]\none\n\n\n[[2025-06-03]]\nthree\n"
    );
    assert_eq!(
        text(&remove_entry(doc, day(2025, 6, 3))),
        "head\n## [[2025-06-01]]\none\n\n## [[2025-06-02]]\ntwo\n\n"
    );
    assert_eq!(text(&remove_entry(doc, day(2025, 6, 4))), text(doc));
    assert_eq!(text(&remove_entry(b"x## [[2025-06-04]] y", day(2025, 6, 4))), "x\n");
    assert_eq!(text(&remove_entry(b"## [[2025-06-04]] y", day(2025, 6, 4))), "");
}

#[test]
fn malformed_document_is_kept_as_preamble() {
    let edited = edit_log(Some(b"no headings here\n"), day(2025, 6, 2), b"BLOCK\n", true);
    assert_eq!(text(&edited.contents), "no headings here\nBLOCK\n");
}

#[test]
fn heading_line_is_read_strictly() {
    assert_eq!(parse_entry_header(b"## [[2025-06-02]]"), Some(day(2025, 6, 2)));
    assert_eq!(parse_entry_header(b"## [[2024-02-29]]"), Some(day(2024, 2, 29)));
    assert_eq!(parse_entry_header(b"## [[2025-02-29]]"), None);
    assert_eq!(parse_entry_header(b"## [[2025-6-2]]"), None);
    assert_eq!(parse_entry_header(b"## [[2025-06-02]] "), None);
    assert_eq!(parse_entry_header(b" ## [[2025-06-02]]"), None);
    assert_eq!(parse_entry_header(b"[[2025-06-02]]"), None);
    assert_eq!(parse_entry_header(b"## [[2025-13-02]]"), None);
    assert_eq!(parse_entry_header(b"## [[2025-00-02]]"), None);
    assert_eq!(parse_entry_header(b"## [[+025-06-02]]"), None);
    assert_eq!(parse_entry_header(b"## [[]]"), None);
    assert_eq!(parse_entry_header(b""), None);
}

#[test]
fn range_filter_returns_entries_in_range_in_order() {
    let doc = b"---\nyear: 2025\n---\n\n## [[2025-01-01]]\na\n\n## [[2025-01-15]]\nb\n\n## [[2025-02-01]]\nc\n";
    let found = collect_entries_in_range(&[doc.to_vec()], day(2025, 1, 1), day(2025, 1, 31));
    assert_eq!(found.len(), 2);
    assert_eq!(found[0].date, day(2025, 1, 1));
    assert_eq!(text(&found[0].text), "## [[2025-01-01]]\na\n\n");
    assert_eq!(found[1].date, day(2025, 1, 15));
    assert_eq!(text(&found[1].text), "## [[2025-01-15]]\nb\n\n");
}

#[test]
fn entries_keep_their_bytes_and_line_ends() {
    let doc = b"pre\r\n## [[2025-01-02]]\r\nline\r\n## [[2025-01-01]]\nlast";
    let found = parse_file_entries(doc, day(2025, 1, 1), day(2025, 12, 31));
    assert_eq!(found.len(), 2);
    assert_eq!(text(&found[0].text), "## [[2025-01-02]]\r\nline\r\n");
    assert_eq!(text(&found[1].text), "## [[2025-01-01]]\nlast");
    assert!(parse_file_entries(b"nothing\nhere\n", day(1, 1, 1), day(9999, 12, 31)).is_empty());
    assert!(parse_file_entries(b"", day(1, 1, 1), day(9999, 12, 31)).is_empty());
}

#[test]
fn collected_entries_are_sorted_across_files_and_stable() {
    let one = b"## [[2025-03-02]]\nB\n## [[2025-03-01]]\nA1\n".to_vec();
    let two = b"## [[2025-03-01]]\nA2\n## [[2025-02-28]]\nZ\n".to_vec();
    let found = collect_entries_in_range(&[one, two], day(2025, 1, 1), day(2025, 12, 31));
    let got: Vec<String> = found.iter().map(|e| text(&e.text)).collect();
    assert_eq!(
        got,
        vec![
            "## [[2025-02-28]]\nZ\n".to_string(),
            "## [[2025-03-01]]\nA1\n".to_string(),
            "## [[2025-03-01]]\nA2\n".to_string(),
            "## [[2025-03-02]]\nB\n".to_string(),
        ]
    );
}

#[test]
fn export_has_banner_and_blocks() {
    let doc = b"## [[2025-01-01]]\na\n## [[2025-01-15]]\nb\n".to_vec();
    let found = collect_entries_in_range(&[doc], day(2025, 1, 1), day(2025, 1, 31));
    let export = write_export(day(2025, 1, 1), day(2025, 1, 31), &found);
    assert_eq!(text(&export.file_name), "DevLog-2025.md");
    assert_eq!(
        text(&export.contents),
        "# Dev Log Export\n\nRange: 2025-01-01 to 2025-01-31\n\n---\n\n## [[2025-01-01]]\na\n\n\n## [[2025-01-15]]\nb\n\n\n"
    );
    let none = write_export(day(2024, 12, 30), day(2025, 1, 5), &[]);
    assert_eq!(text(&none.contents), "# Dev Log Export\n\nRange: 2024-12-30 to 2025-01-05\n\n---\n\n");
}

#[test]
fn repeated_writes_for_one_day_add_one_entry() {
    let mut doc = write_daily_entry(&daily(false), day(2025, 6, 1), "a", &[], None).contents;
    let first = write_daily_entry(&daily(false), day(2025, 6, 2), "b", &[], Some(&doc));
    assert!(!first.skipped);
    doc = first.contents;
    for summary in ["c", "d", "e"] {
        let again = write_daily_entry(&daily(false), day(2025, 6, 2), summary, &[], Some(&doc));
        assert!(again.skipped);
        assert_eq!(again.contents, doc);
        doc = again.contents;
    }
    assert_eq!(count(&text(&doc), "## [[2025-06-02]]"), 1);
    assert_eq!(count(&text(&doc), "## [[2025-06-01]]"), 1);
}

#[test]
fn written_entries_are_read_back() {
    let commits = vec!["fix [#12] parser".to_string(), "docs: [wip]".to_string()];
    let a = write_daily_entry(&daily(false), day(2025, 6, 3), "third [sic]", &commits, None);
    let b = write_daily_entry(&daily(false), day(2025, 6, 1), "first", &[], Some(&a.contents));
    let c = write_daily_entry(&daily(true), day(2025, 6, 2), "second", &commits, Some(&b.contents));
    let found = parse_file_entries(&c.contents, day(2025, 1, 1), day(2025, 12, 31));
    let mut e1 = Vec::new();
    write_entry(&mut e1, day(2025, 6, 3), "third [sic]", &commits);
    let mut e2 = Vec::new();
    write_entry(&mut e2, day(2025, 6, 1), "first", &[]);
    let mut e3 = Vec::new();
    write_entry(&mut e3, day(2025, 6, 2), "second", &commits);
    assert_eq!(found.len(), 3);
    assert_eq!((found[0].date, text(&found[0].text)), (day(2025, 6, 3), text(&e1)));
    assert_eq!((found[1].date, text(&found[1].text)), (day(2025, 6, 1), text(&e2)));
    assert_eq!((found[2].date, text(&found[2].text)), (day(2025, 6, 2), text(&e3)));
    let sorted = collect_entries_in_range(&[c.contents.clone()], day(2025, 6, 2), day(2025, 6, 3));
    assert_eq!(sorted.len(), 2);
    assert_eq!(sorted[0].date, day(2025, 6, 2));
    assert_eq!(sorted[1].date, day(2025, 6, 3));
}

#[test]
fn summary_that_quotes_a_heading_ends_the_cut_early() {
    let a = write_daily_entry(&daily(false), day(2025, 6, 1), "see ## [[x", &[], None);
    let b = write_daily_entry(&daily(true), day(2025, 6, 1), "new", &[], Some(&a.contents));
    let doc = text(&b.contents);
    assert!(doc.contains("## [[x\n"));
    assert_eq!(count(&doc, "## [[2025-06-01]]"), 1);
}

#[test]
fn overwrite_of_a_day_without_entry_appends() {
    let a = write_daily_entry(&daily(false), day(2025, 6, 1), "a", &[], None);
    let plain = write_daily_entry(&daily(false), day(2025, 6, 2), "b", &[], Some(&a.contents));
    let forced = write_daily_entry(&daily(true), day(2025, 6, 2), "b", &[], Some(&a.contents));
    assert!(!forced.skipped);
    assert_eq!(forced.contents, plain.contents);
}

#[test]
fn log_names() {
    assert_eq!(text(&year_file_name(day(2025, 6, 2))), "DevLog-2025.md");
    assert_eq!(text(&year_file_name(day(325, 6, 2))), "DevLog-325.md");
    assert_eq!(text(&year_file_name(day(0, 6, 2))), "DevLog-0.md");
    assert_eq!(exports_dir_name(), "exports");
    assert!(is_markdown_name(b"DevLog-2025.md"));
    assert!(is_markdown_name(b"a.md"));
    assert!(is_markdown_name(b"..md"));
    assert!(!is_markdown_name(b".md"));
    assert!(!is_markdown_name(b"md"));
    assert!(!is_markdown_name(b"notes.MD"));
    assert!(!is_markdown_name(b"notes.md.bak"));
    assert!(!is_markdown_name(b""));
}
