use devlog::config::{Config, Daily, Drive, Export, General, Git, Llm};
use devlog::date::Date;
use devlog::export::{
    export_range, pandoc_arguments, pdf_name, plan, run, wants_pdf, ExportErrorKind,
    ExportOutcome, ExportPlan,
};
use devlog::git::{commit_subjects, log_command, RepoPathRequired};
use devlog::llm::{
    default_summary, endpoint, prompt, summarize, summarize_if_enabled, timeout_seconds,
    SummaryStep,
};
use devlog::text::{find, find_at, str_eq, str_is_blank, trim};
use devlog::upload::{copy_arguments, destination, drive_file_name, parse_year};

fn day(year: i32, month: u32, day: u32) -> Date {
    Date::from_ymd(year, month, day).unwrap()
}

fn config() -> Config {
    Config {
        general: General::default(),
        daily: Daily::default(),
        git: Git::default(),
        llm: Llm::default(),
        export: Export::default(),
        drive: Drive::default(),
    }
}

fn strings(items: &[&str]) -> Vec<String> {
    items.iter().map(|s| s.to_string()).collect()
}

fn text(bytes: &[u8]) -> String {
    String::from_utf8(bytes.to_vec()).unwrap()
}

#[test]
fn dates_are_calendar_days_with_four_digit_years() {
    assert!(Date::from_ymd(2024, 2, 29).is_some());
    assert!(Date::from_ymd(2025, 2, 29).is_none());
    assert!(Date::from_ymd(1900, 2, 29).is_none());
    assert!(Date::from_ymd(2000, 2, 29).is_some());
    assert!(Date::from_ymd(2025, 4, 31).is_none());
    assert!(Date::from_ymd(2025, 0, 1).is_none());
    assert!(Date::from_ymd(2025, 13, 1).is_none());
    assert!(Date::from_ymd(2025, 1, 0).is_none());
    assert!(Date::from_ymd(0, 1, 1).is_some());
    assert!(Date::from_ymd(9999, 12, 31).is_some());
    assert!(Date::from_ymd(10000, 1, 1).is_none());
    assert!(Date::from_ymd(-1, 1, 1).is_none());
    assert_eq!(day(2025, 6, 2), Date { year: 2025, month: 6, day: 2 });
}

#[test]
fn date_text_round_trips() {
    assert_eq!(text(&day(2025, 6, 2).to_text()), "2025-06-02");
    assert_eq!(text(&day(7, 12, 31).to_text()), "0007-12-31");
    assert_eq!(text(&day(0, 1, 1).to_text()), "0000-01-01");
    assert_eq!(Date::parse(b"2025-06-02"), Some(day(2025, 6, 2)));
    assert_eq!(Date::parse(b"0007-12-31"), Some(day(7, 12, 31)));
    assert_eq!(Date::parse(b"0000-01-01"), Some(day(0, 1, 1)));
    assert_eq!(Date::parse(b"9999-12-31"), Some(day(9999, 12, 31)));
    assert_eq!(Date::parse(b"2025-00-10"), None);
    assert_eq!(Date::parse(b"2025-10-00"), None);
    assert_eq!(Date::parse(b"2025-10-32"), None);
    assert_eq!(Date::parse(b"2025-02-30"), None);
    assert_eq!(Date::parse(b"2025-6-02"), None);
    assert_eq!(Date::parse(b"2025/06/02"), None);
    assert_eq!(Date::parse(b"2025-06-0x"), None);
    assert_eq!(Date::parse(b" 025-06-02"), None);
    assert_eq!(Date::parse(b"2025-06-021"), None);
    for d in [day(1, 1, 1), day(1999, 12, 31), day(2024, 2, 29), day(9999, 12, 31)] {
        assert_eq!(Date::parse(&d.to_text()), Some(d));
    }
}

#[test]
fn dates_are_ordered_by_year_month_day() {
    assert!(day(2025, 1, 31).le(&day(2025, 2, 1)));
    assert!(day(2024, 12, 31).le(&day(2025, 1, 1)));
    assert!(day(2025, 1, 1).le(&day(2025, 1, 1)));
    assert!(!day(2025, 1, 2).le(&day(2025, 1, 1)));
    assert!(!day(2025, 2, 1).le(&day(2025, 1, 31)));
}

#[test]
fn days_are_counted_back_over_months_and_years() {
    assert_eq!(day(2025, 3, 3).minus_days(6), Some(day(2025, 2, 25)));
    assert_eq!(day(2024, 3, 3).minus_days(6), Some(day(2024, 2, 26)));
    assert_eq!(day(2025, 1, 3).minus_days(6), Some(day(2024, 12, 28)));
    assert_eq!(day(2025, 1, 3).minus_days(0), Some(day(2025, 1, 3)));
    assert_eq!(day(2025, 1, 3).minus_days(366), Some(day(2024, 1, 3)));
    assert_eq!(day(0, 1, 3).minus_days(6), None);
    assert_eq!(day(0, 1, 7).minus_days(6), Some(day(0, 1, 1)));
    assert_eq!(day(2025, 6, 17).first_of_month(), day(2025, 6, 1));
}

#[test]
fn export_range_follows_frequency() {
    let (start, end) = export_range("weekly", day(2025, 3, 3)).unwrap();
    assert_eq!((start, end), (day(2025, 2, 25), day(2025, 3, 3)));
    let (start, end) = export_range("monthly", day(2025, 3, 17)).unwrap();
    assert_eq!((start, end), (day(2025, 3, 1), day(2025, 3, 17)));
    let bad = export_range("yearly", day(2025, 3, 17)).unwrap_err();
    assert_eq!(bad.kind, ExportErrorKind::UnsupportedFrequency);
    assert_eq!(bad.detail, "yearly");
    let early = export_range("weekly", day(0, 1, 2)).unwrap_err();
    assert_eq!(early.kind, ExportErrorKind::StartOutOfCalendar);
}

#[test]
fn export_plan_and_outcome() {
    let mut c = config();
    assert_eq!(plan(&c, day(2025, 3, 17)).unwrap(), ExportPlan::Disabled);
    c.export.enabled = true;
    assert_eq!(
        plan(&c, day(2025, 3, 17)).unwrap(),
        ExportPlan::Collect { start: day(2025, 3, 1), end: day(2025, 3, 17) }
    );
    c.export.frequency = None;
    assert_eq!(
        plan(&c, day(2025, 3, 17)).unwrap(),
        ExportPlan::Collect { start: day(2025, 3, 1), end: day(2025, 3, 17) }
    );
    c.export.frequency = Some("weekly".to_string());
    assert_eq!(
        plan(&c, day(2025, 3, 17)).unwrap(),
        ExportPlan::Collect { start: day(2025, 3, 11), end: day(2025, 3, 17) }
    );
    c.export.frequency = Some("never".to_string());
    assert_eq!(plan(&c, day(2025, 3, 17)).unwrap_err().kind, ExportErrorKind::UnsupportedFrequency);

    assert!(!wants_pdf(&c));
    let files = vec![b"## [[2025-03-02]]\nx\n".to_vec()];
    assert!(matches!(
        run(&c, day(2025, 3, 3), day(2025, 3, 17), &files),
        ExportOutcome::Nothing
    ));
    c.export.format = Some("pdf".to_string());
    assert!(wants_pdf(&c));
    match run(&c, day(2025, 3, 1), day(2025, 3, 17), &files) {
        ExportOutcome::Written { file, pdf } => {
            assert!(pdf);
            assert_eq!(text(&file.file_name), "DevLog-2025.md");
            assert_eq!(
                text(&file.contents),
                "# Dev Log Export\n\nRange: 2025-03-01 to 2025-03-17\n\n---\n\n## [[2025-03-02]]\nx\n\n\n"
            );
        }
        ExportOutcome::Nothing => panic!("an entry lies in the range"),
    }
    c.export.format = None;
    assert!(!wants_pdf(&c));
    assert_eq!(text(&pdf_name(day(2025, 3, 17))), "DevLog-2025.pdf");
    assert_eq!(pandoc_arguments("a/DevLog-2025.md", "a/DevLog-2025.pdf"), vec![
        "a/DevLog-2025.md",
        "-o",
        "a/DevLog-2025.pdf"
    ]);
}

#[test]
fn git_log_arguments() {
    let mut git = Git { repo_path: Some("/work/repo".to_string()), author: None };
    let args: Vec<String> =
        log_command(&git, day(2025, 6, 2)).unwrap().iter().map(|a| text(a)).collect();
    assert_eq!(
        args,
        vec![
            "-C",
            "/work/repo",
            "log",
            "--all",
            "--since=2025-06-02T00:00:00",
            "--until=2025-06-02T23:59:59",
            "--pretty=%s"
        ]
    );
    git.author = Some("Ada".to_string());
    let args: Vec<String> =
        log_command(&git, day(2025, 6, 2)).unwrap().iter().map(|a| text(a)).collect();
    assert_eq!(args[6], "--author=Ada");
    assert_eq!(args[7], "--pretty=%s");
    assert_eq!(args.len(), 8);
    git.repo_path = None;
    assert_eq!(log_command(&git, day(2025, 6, 2)), Err(RepoPathRequired));
}

#[test]
fn commit_subjects_are_trimmed_lines() {
    assert_eq!(
        commit_subjects("fix: parser edge case\n  test: add regression  \r\n\n \t\nlast"),
        vec!["fix: parser edge case", "test: add regression", "last"]
    );
    assert_eq!(commit_subjects(""), Vec::<String>::new());
    assert_eq!(commit_subjects("\n\n"), Vec::<String>::new());
    assert_eq!(commit_subjects("one\n"), vec!["one"]);
    assert_eq!(commit_subjects("\u{a0}ünï cödé \u{3000}\nb"), vec!["ünï cödé", "b"]);
    assert_eq!(commit_subjects("a  b"), vec!["a  b"]);
}

#[test]
fn default_summary_joins_subjects() {
    assert_eq!(default_summary(&[]), "No commits for this day.");
    assert_eq!(default_summary(&strings(&["a"])), "Worked on: a");
    assert_eq!(default_summary(&strings(&["a", "b", "c"])), "Worked on: a; b; c");
}

#[test]
fn prompt_lists_the_subjects() {
    let mut llm = Llm::default();
    assert_eq!(
        prompt(&llm, &strings(&["a", "b"])),
        "Summarize the following git commit titles into one concise sentence. Avoid buzzwords. Do not invent work. Use at most one emoji if appropriate.\n\na\nb"
    );
    llm.use_emoji = false;
    assert_eq!(
        prompt(&llm, &strings(&["a"])),
        "Summarize the following git commit titles into one concise sentence. Avoid buzzwords. Do not invent work. Use at most one emoji.\n\na"
    );
    assert_eq!(endpoint(), "http://localhost:11434/api/generate");
    assert_eq!(timeout_seconds(), 10);
}

#[test]
fn model_is_asked_only_when_enabled_and_there_are_commits() {
    let mut llm = Llm::default();
    match summarize_if_enabled(&llm, &strings(&["a", "b"])) {
        SummaryStep::Done(text) => assert_eq!(text, "Worked on: a; b"),
        SummaryStep::Ask { .. } => panic!("the model is switched off"),
    }
    llm.enabled = true;
    match summarize_if_enabled(&llm, &[]) {
        SummaryStep::Done(text) => assert_eq!(text, "No commits for this day."),
        SummaryStep::Ask { .. } => panic!("there are no commits"),
    }
    match summarize_if_enabled(&llm, &strings(&["a"])) {
        SummaryStep::Ask { model, prompt } => {
            assert_eq!(model, "llama3");
            assert!(prompt.ends_with("if appropriate.\n\na"));
        }
        SummaryStep::Done(_) => panic!("the model is to be asked"),
    }
}

#[test]
fn reply_is_trimmed_and_failure_falls_back() {
    let commits = strings(&["a", "b"]);
    assert_eq!(summarize(&commits, Some("  Fixed the parser. \n")), "Fixed the parser.");
    assert_eq!(summarize(&commits, Some("x")), "x");
    assert_eq!(summarize(&commits, Some(" \n ")), "Worked on: a; b");
    assert_eq!(summarize(&commits, Some("")), "Worked on: a; b");
    assert_eq!(summarize(&commits, None), "Worked on: a; b");
}

#[test]
fn text_primitives() {
    assert_eq!(find(b"abcabc", b"bc"), Some(1));
    assert_eq!(find(b"abcabc", b"cb"), None);
    assert_eq!(find(b"abc", b""), Some(0));
    assert_eq!(find(b"", b""), Some(0));
    assert_eq!(find(b"ab", b"abc"), None);
    assert_eq!(find_at(b"abcabc", b"bc", 2), Some(4));
    assert_eq!(find_at(b"abcabc", b"bc", 5), None);
    assert_eq!(find_at(b"abc", b"", 3), Some(3));
    assert_eq!(find_at(b"abc", b"", 4), None);
    assert_eq!(trim("  a b\t\n"), "a b");
    assert_eq!(trim("\u{2003}é\u{a0}"), "é");
    assert_eq!(trim(" \n"), "");
    assert_eq!(trim(""), "");
    assert_eq!(trim("x"), "x");
    assert!(str_is_blank(""));
    assert!(str_is_blank(" \t\r\n\u{85}\u{1680}\u{2028}\u{205f}"));
    assert!(!str_is_blank(" . "));
    assert!(!str_is_blank("\u{200b}"));
    assert!(str_eq("é", "é"));
    assert!(!str_eq("e", "é"));
    assert!(!str_eq("a", "ab"));
}

#[test]
fn upload_names_and_arguments() {
    let drive = Drive::default();
    assert_eq!(destination(&drive), "gdrive:DevLog");
    assert_eq!(parse_year(b"2025"), Some(2025));
    assert_eq!(parse_year(b"+2025"), Some(2025));
    assert_eq!(parse_year(b"-12"), Some(-12));
    assert_eq!(parse_year(b"0002025"), Some(2025));
    assert_eq!(parse_year(b"2147483647"), Some(2147483647));
    assert_eq!(parse_year(b"2147483648"), None);
    assert_eq!(parse_year(b"-2147483648"), Some(-2147483648));
    assert_eq!(parse_year(b"-2147483649"), None);
    assert_eq!(parse_year(b"99999999999999999999999"), None);
    assert_eq!(parse_year(b""), None);
    assert_eq!(parse_year(b"-"), None);
    assert_eq!(parse_year(b"+"), None);
    assert_eq!(parse_year(b"DevLog-2025"), None);
    assert_eq!(parse_year(b"20 25"), None);
    assert_eq!(parse_year(b"--5"), None);
    assert_eq!(text(&drive_file_name("2024", 2025)), "DevLog-2024.md");
    assert_eq!(text(&drive_file_name("DevLog-2024", 2025)), "DevLog-2025.md");
    assert_eq!(text(&drive_file_name("-7", 2025)), "DevLog--7.md");
    assert_eq!(text(&drive_file_name("x", -2147483648)), "DevLog--2147483648.md");
    assert_eq!(copy_arguments("/tmp/DevLog-2025.md", "gdrive:DevLog"), vec![
        "copy",
        "/tmp/DevLog-2025.md",
        "gdrive:DevLog",
        "--progress"
    ]);
}
