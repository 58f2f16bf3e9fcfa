use devlog::config::{
    default_drive_folder, default_drive_remote, default_export_format, default_export_frequency,
    default_model, default_output_dir, default_use_emoji, default_working_days,
    resolve_candidate_paths, timezone_verdict, validate_export, validate_output_dir,
    validate_repo_path, validate_working_days, Config, ConfigErrorKind, Daily, Drive, Export,
    General, Git, Llm, Probe,
};
use devlog::daily::{ensure_working_day, weekday_to_str};
use devlog::date::Weekday;

fn good() -> Config {
    Config {
        general: General { timezone: Some("Asia/Amman".to_string()), ..General::default() },
        daily: Daily::default(),
        git: Git { repo_path: Some("/tmp/repo".to_string()), author: None },
        llm: Llm::default(),
        export: Export::default(),
        drive: Drive::default(),
    }
}

fn probe() -> Probe {
    Probe { repo_exists: true, tz: None }
}

fn kind_of(config: &Config, probe: &Probe) -> Option<(ConfigErrorKind, String)> {
    match config.validate(probe) {
        Ok(()) => None,
        Err(e) => Some((e.kind, e.detail)),
    }
}

#[test]
fn defaults_are_as_documented() {
    assert_eq!(default_working_days(), vec!["Mon", "Tue", "Wed", "Thu", "Fri"]);
    assert_eq!(default_output_dir(), "./DevLog");
    assert_eq!(default_model(), "llama3");
    assert!(default_use_emoji());
    assert_eq!(default_drive_remote(), "gdrive");
    assert_eq!(default_drive_folder(), "DevLog");
    assert_eq!(default_export_frequency(), "monthly");
    assert_eq!(default_export_format(), "md");
    let general = General::default();
    assert_eq!(general.timezone, None);
    assert_eq!(general.working_days.len(), 5);
    let daily = Daily::default();
    assert_eq!(daily.output_dir, "./DevLog");
    assert!(!daily.overwrite_existing);
    let git = Git::default();
    assert!(git.repo_path.is_none() && git.author.is_none());
    let llm = Llm::default();
    assert!(!llm.enabled && llm.use_emoji);
    assert_eq!(llm.model, "llama3");
    let export = Export::default();
    assert!(!export.enabled);
    assert_eq!(export.frequency.as_deref(), Some("monthly"));
    assert_eq!(export.format.as_deref(), Some("md"));
    let drive = Drive::default();
    assert!(!drive.enabled);
    assert_eq!(drive.remote, "gdrive");
    assert_eq!(drive.folder, "DevLog");
}

#[test]
fn valid_settings_pass() {
    assert_eq!(kind_of(&good(), &probe()), None);
}

#[test]
fn repo_path_must_not_be_blank() {
    let mut c = good();
    c.git.repo_path = None;
    assert_eq!(kind_of(&c, &probe()), Some((ConfigErrorKind::MissingRepoPath, String::new())));
    c.git.repo_path = Some(" \t\u{a0}\n".to_string());
    assert_eq!(kind_of(&c, &probe()), Some((ConfigErrorKind::MissingRepoPath, String::new())));
    c.git.repo_path = Some(String::new());
    c.general.working_days = vec!["Funday".to_string()];
    assert_eq!(kind_of(&c, &probe()), Some((ConfigErrorKind::MissingRepoPath, String::new())));
}

#[test]
fn first_invalid_working_day_is_reported() {
    let mut c = good();
    c.general.working_days =
        vec!["Mon".to_string(), "mon".to_string(), "Sun".to_string(), "Noday".to_string()];
    assert_eq!(
        kind_of(&c, &probe()),
        Some((ConfigErrorKind::InvalidWorkingDay, "mon".to_string()))
    );
    let all = ["Mon", "Tue", "Wed", "Thu", "Fri", "Sat", "Sun"].map(|d| d.to_string());
    assert!(validate_working_days(&all).is_ok());
    assert!(validate_working_days(&[]).is_ok());
    assert_eq!(
        validate_working_days(&["Monday".to_string()]).unwrap_err().detail,
        "Monday"
    );
}

#[test]
fn output_dir_must_not_be_blank() {
    let mut c = good();
    c.daily.output_dir = "   ".to_string();
    assert_eq!(kind_of(&c, &probe()), Some((ConfigErrorKind::EmptyOutputDir, String::new())));
    assert!(validate_output_dir("x").is_ok());
    assert!(validate_output_dir(" x ").is_ok());
    assert_eq!(validate_output_dir("").unwrap_err().kind, ConfigErrorKind::EmptyOutputDir);
}

#[test]
fn repo_path_must_exist() {
    let c = good();
    let p = Probe { repo_exists: false, tz: None };
    assert_eq!(
        kind_of(&c, &p),
        Some((ConfigErrorKind::RepoPathNotFound, "/tmp/repo".to_string()))
    );
    assert!(validate_repo_path(&None, false).is_ok());
    assert!(validate_repo_path(&Some("a".to_string()), true).is_ok());
}

#[test]
fn model_is_required_only_when_enabled() {
    let mut c = good();
    c.llm.model = " ".to_string();
    assert_eq!(kind_of(&c, &probe()), None);
    c.llm.enabled = true;
    assert_eq!(kind_of(&c, &probe()), Some((ConfigErrorKind::EmptyModel, String::new())));
}

#[test]
fn export_is_checked_only_when_enabled() {
    let mut c = good();
    c.export.frequency = Some("daily".to_string());
    assert_eq!(kind_of(&c, &probe()), None);
    c.export.enabled = true;
    assert_eq!(
        kind_of(&c, &probe()),
        Some((ConfigErrorKind::InvalidExportFrequency, "daily".to_string()))
    );
    c.export.frequency = Some("weekly".to_string());
    c.export.format = Some("docx".to_string());
    assert_eq!(
        kind_of(&c, &probe()),
        Some((ConfigErrorKind::InvalidExportFormat, "docx".to_string()))
    );
    c.export.format = Some("pdf".to_string());
    assert_eq!(kind_of(&c, &probe()), None);
    let unset = Export { enabled: true, frequency: None, format: None };
    assert!(validate_export(&unset).is_ok());
    let both = Export {
        enabled: true,
        frequency: Some("yearly".to_string()),
        format: Some("txt".to_string()),
    };
    assert_eq!(validate_export(&both).unwrap_err().kind, ConfigErrorKind::InvalidExportFrequency);
}

#[test]
fn timezone_comes_from_settings_then_environment() {
    let mut c = good();
    assert_eq!(c.timezone(Some("Europe/Paris")).unwrap(), "Asia/Amman");
    c.general.timezone = None;
    assert_eq!(c.timezone(Some("Europe/Paris")).unwrap(), "Europe/Paris");
    let missing = c.timezone(None).unwrap_err();
    assert_eq!(missing.kind, ConfigErrorKind::MissingTimezone);
    let unknown = c.timezone(Some("Mars/Phobos")).unwrap_err();
    assert_eq!(unknown.kind, ConfigErrorKind::InvalidTimezone);
    assert_eq!(unknown.detail, "Mars/Phobos");
    c.general.timezone = Some("Nowhere".to_string());
    assert_eq!(c.timezone(Some("Europe/Paris")).unwrap_err().detail, "Nowhere");
    assert_eq!(
        kind_of(&c, &probe()),
        Some((ConfigErrorKind::InvalidTimezone, "Nowhere".to_string()))
    );
    c.general.timezone = None;
    assert_eq!(kind_of(&c, &probe()), Some((ConfigErrorKind::MissingTimezone, String::new())));
    let p = Probe { repo_exists: true, tz: Some("UTC".to_string()) };
    assert_eq!(kind_of(&c, &p), None);
}

#[test]
fn timezone_verdict_follows_what_is_known() {
    assert_eq!(timezone_verdict(Some("X"), true).unwrap(), "X");
    assert_eq!(timezone_verdict(Some("X"), false).unwrap_err().kind, ConfigErrorKind::InvalidTimezone);
    assert_eq!(timezone_verdict(None, true).unwrap_err().kind, ConfigErrorKind::MissingTimezone);
}

#[test]
fn candidate_paths_are_in_order() {
    let all = resolve_candidate_paths(Some("my.toml".to_string()), Some("/home/u/.config".to_string()));
    assert_eq!(
        all,
        vec![
            vec!["my.toml".to_string()],
            vec!["devlog.toml".to_string()],
            vec!["/home/u/.config".to_string(), "devlog".to_string(), "devlog.toml".to_string()],
        ]
    );
    assert_eq!(resolve_candidate_paths(None, None), vec![vec!["devlog.toml".to_string()]]);
}

#[test]
fn working_day_is_looked_up_by_name() {
    let c = good();
    assert!(ensure_working_day(&c, Weekday::Mon).is_ok());
    assert!(ensure_working_day(&c, Weekday::Fri).is_ok());
    assert_eq!(ensure_working_day(&c, Weekday::Sat).unwrap_err().day, "Sat");
    assert_eq!(ensure_working_day(&c, Weekday::Sun).unwrap_err().day, "Sun");
    let names: Vec<String> = [
        Weekday::Mon,
        Weekday::Tue,
        Weekday::Wed,
        Weekday::Thu,
        Weekday::Fri,
        Weekday::Sat,
        Weekday::Sun,
    ]
    .into_iter()
    .map(weekday_to_str)
    .collect();
    assert_eq!(names, vec!["Mon", "Tue", "Wed", "Thu", "Fri", "Sat", "Sun"]);
}
