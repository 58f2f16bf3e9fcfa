//! The settings of a run, their defaults and their validation.

use crate::text::{is_blank, str_eq, str_is_blank};
use vstd::prelude::*;
use vstd::string::StringExecFns;

verus! {

/// Whether chrono-tz knows a time zone of this name.
pub uninterp spec fn is_timezone_name(name: Seq<char>) -> bool;

/// What is wrong with the settings.
#[derive(Clone, Copy, Debug, PartialEq, Eq, Structural)]
pub enum ConfigErrorKind {
    /// `git.repo_path` is missing or blank.
    MissingRepoPath,
    /// `general.working_days` holds something that is no day.
    InvalidWorkingDay,
    /// `daily.output_dir` is blank.
    EmptyOutputDir,
    /// There is nothing at `git.repo_path`.
    RepoPathNotFound,
    /// `llm.model` is blank though `llm.enabled` is set.
    EmptyModel,
    /// `export.frequency` is neither `weekly` nor `monthly`.
    InvalidExportFrequency,
    /// `export.format` is neither `md` nor `pdf`.
    InvalidExportFormat,
    /// Neither `general.timezone` nor the environment names a time zone.
    MissingTimezone,
    /// The time zone named is unknown.
    InvalidTimezone,
}

/// A fault of the settings: its kind, and the value at fault where there
/// is one.
#[derive(Debug)]
pub struct ConfigError {
    pub kind: ConfigErrorKind,
    pub detail: String,
}

/// What a fault of kind `kind` says of the value `detail`.
pub open spec fn fault_message(kind: ConfigErrorKind, detail: Seq<char>) -> Seq<char> {
    match kind {
        ConfigErrorKind::MissingRepoPath => "git.repo_path is required and cannot be empty"@,
        ConfigErrorKind::InvalidWorkingDay => "general.working_days contains invalid value: "@
            + detail,
        ConfigErrorKind::EmptyOutputDir => "daily.output_dir cannot be empty"@,
        ConfigErrorKind::RepoPathNotFound => "git.repo_path does not exist: "@ + detail,
        ConfigErrorKind::EmptyModel => "llm.model cannot be empty when llm.enabled = true"@,
        ConfigErrorKind::InvalidExportFrequency => "export.frequency must be 'weekly' or 'monthly', got "@
            + detail,
        ConfigErrorKind::InvalidExportFormat => "export.format must be 'md' or 'pdf', got "@
            + detail,
        ConfigErrorKind::MissingTimezone => "general.timezone is required. Set it to an IANA timezone like 'Asia/Amman' or set the TZ environment variable."@,
        ConfigErrorKind::InvalidTimezone => "invalid timezone: "@ + detail
            + " (use an IANA identifier like 'Asia/Amman')"@,
    }
}

impl ConfigError {
    /// The fault in words.
    pub fn message(&self) -> (r: String)
        ensures
            r@ == fault_message(self.kind, self.detail@),
    {
        match self.kind {
            ConfigErrorKind::MissingRepoPath => {
                "git.repo_path is required and cannot be empty".to_owned()
            },
            ConfigErrorKind::InvalidWorkingDay => {
                let mut out = "general.working_days contains invalid value: ".to_owned();
                out.append(self.detail.as_str());
                out
            },
            ConfigErrorKind::EmptyOutputDir => "daily.output_dir cannot be empty".to_owned(),
            ConfigErrorKind::RepoPathNotFound => {
                let mut out = "git.repo_path does not exist: ".to_owned();
                out.append(self.detail.as_str());
                out
            },
            ConfigErrorKind::EmptyModel => {
                "llm.model cannot be empty when llm.enabled = true".to_owned()
            },
            ConfigErrorKind::InvalidExportFrequency => {
                let mut out = "export.frequency must be 'weekly' or 'monthly', got ".to_owned();
                out.append(self.detail.as_str());
                out
            },
            ConfigErrorKind::InvalidExportFormat => {
                let mut out = "export.format must be 'md' or 'pdf', got ".to_owned();
                out.append(self.detail.as_str());
                out
            },
            ConfigErrorKind::MissingTimezone => {
                "general.timezone is required. Set it to an IANA timezone like 'Asia/Amman' or set the TZ environment variable.".to_owned()
            },
            ConfigErrorKind::InvalidTimezone => {
                let mut out = "invalid timezone: ".to_owned();
                out.append(self.detail.as_str());
                out.append(" (use an IANA identifier like 'Asia/Amman')");
                out
            },
        }
    }
}

/// What the machine says of the settings; the caller reads it before they
/// are validated.
#[derive(Debug)]
pub struct Probe {
    /// Whether there is a file or directory at `git.repo_path`.
    pub repo_exists: bool,
    /// The variable `TZ` of the environment.
    pub tz: Option<String>,
}

/// A result of validation as kind and value at fault.
pub open spec fn fault_of<T>(r: Result<T, ConfigError>) -> Option<(ConfigErrorKind, Seq<char>)> {
    match r {
        Ok(_) => None,
        Err(e) => Some((e.kind, e.detail@)),
    }
}

/// A text or a fault, as characters.
pub open spec fn outcome_of(r: Result<String, ConfigError>) -> Result<
    Seq<char>,
    (ConfigErrorKind, Seq<char>),
> {
    match r {
        Ok(s) => Ok(s@),
        Err(e) => Err((e.kind, e.detail@)),
    }
}

/// The characters of a text that may be missing.
pub open spec fn opt_text(s: Option<String>) -> Option<Seq<char>> {
    match s {
        Some(s) => Some(s@),
        None => None,
    }
}

/// All settings, section by section.
#[derive(Debug)]
pub struct Config {
    pub general: General,
    pub daily: Daily,
    pub git: Git,
    pub llm: Llm,
    pub export: Export,
    pub drive: Drive,
}

/// General settings.
#[derive(Debug)]
pub struct General {
    /// IANA name of the time zone in which a day begins and ends.
    pub timezone: Option<String>,
    /// Days on which an entry is written, as `Mon` to `Sun`.
    pub working_days: Vec<String>,
}

/// Settings of the daily entry.
#[derive(Debug)]
pub struct Daily {
    /// Directory that holds the year logs.
    pub output_dir: String,
    /// Whether a second run on one day replaces that day's entry.
    pub overwrite_existing: bool,
}

/// Where the commits come from.
#[derive(Debug)]
pub struct Git {
    /// Path of the repository; a leading `~` stands for the home directory.
    pub repo_path: Option<String>,
    /// Only commits of this author are listed, where one is set.
    pub author: Option<String>,
}

/// Settings of the language model that writes the summary.
#[derive(Debug)]
pub struct Llm {
    pub enabled: bool,
    pub model: String,
    pub use_emoji: bool,
}

/// Settings of the export.
#[derive(Debug)]
pub struct Export {
    pub enabled: bool,
    /// `weekly` or `monthly`.
    pub frequency: Option<String>,
    /// `md` or `pdf`.
    pub format: Option<String>,
}

/// Settings of the upload to a remote drive.
#[derive(Debug)]
pub struct Drive {
    pub enabled: bool,
    pub remote: String,
    pub folder: String,
}

/// The working days where none are set: Monday to Friday.
pub fn default_working_days() -> (r: Vec<String>)
    ensures
        r@.len() == 5,
        r@[0]@ == "Mon"@,
        r@[1]@ == "Tue"@,
        r@[2]@ == "Wed"@,
        r@[3]@ == "Thu"@,
        r@[4]@ == "Fri"@,
{
    let mut days: Vec<String> = Vec::new();
    days.push("Mon".to_owned());
    days.push("Tue".to_owned());
    days.push("Wed".to_owned());
    days.push("Thu".to_owned());
    days.push("Fri".to_owned());
    days
}

/// The output directory where none is set.
pub fn default_output_dir() -> (r: String)
    ensures
        r@ == "./DevLog"@,
{
    "./DevLog".to_owned()
}

/// The model where none is set.
pub fn default_model() -> (r: String)
    ensures
        r@ == "llama3"@,
{
    "llama3".to_owned()
}

/// Whether the model may use an emoji, where that is not set.
pub fn default_use_emoji() -> (r: bool)
    ensures
        r,
{
    true
}

/// The remote where none is set.
pub fn default_drive_remote() -> (r: String)
    ensures
        r@ == "gdrive"@,
{
    "gdrive".to_owned()
}

/// The folder on the remote where none is set.
pub fn default_drive_folder() -> (r: String)
    ensures
        r@ == "DevLog"@,
{
    "DevLog".to_owned()
}

/// The frequency of exports where none is set.
pub fn default_export_frequency() -> (r: String)
    ensures
        r@ == "monthly"@,
{
    "monthly".to_owned()
}

/// The format of exports where none is set.
pub fn default_export_format() -> (r: String)
    ensures
        r@ == "md"@,
{
    "md".to_owned()
}

impl Default for General {
    fn default() -> (r: General)
        ensures
            r.timezone is None,
            r.working_days@.len() == 5,
            r.working_days@[0]@ == "Mon"@,
            r.working_days@[1]@ == "Tue"@,
            r.working_days@[2]@ == "Wed"@,
            r.working_days@[3]@ == "Thu"@,
            r.working_days@[4]@ == "Fri"@,
            working_days_fault(r.working_days@) is None,
    {
        let days = default_working_days();
        proof {
            assert(first_bad_day(days@, 5) is None);
            assert(first_bad_day(days@, 4) is None);
            assert(first_bad_day(days@, 3) is None);
            assert(first_bad_day(days@, 2) is None);
            assert(first_bad_day(days@, 1) is None);
        }
        General { timezone: None, working_days: days }
    }
}

impl Default for Daily {
    fn default() -> (r: Daily)
        ensures
            r.output_dir@ == "./DevLog"@,
            !r.overwrite_existing,
    {
        Daily { output_dir: default_output_dir(), overwrite_existing: false }
    }
}

impl Default for Git {
    fn default() -> (r: Git)
        ensures
            r.repo_path is None,
            r.author is None,
    {
        Git { repo_path: None, author: None }
    }
}

impl Default for Llm {
    fn default() -> (r: Llm)
        ensures
            !r.enabled,
            r.model@ == "llama3"@,
            r.use_emoji,
    {
        Llm { enabled: false, model: default_model(), use_emoji: default_use_emoji() }
    }
}

impl Default for Export {
    fn default() -> (r: Export)
        ensures
            !r.enabled,
            opt_text(r.frequency) == Some("monthly"@),
            opt_text(r.format) == Some("md"@),
    {
        Export {
            enabled: false,
            frequency: Some(default_export_frequency()),
            format: Some(default_export_format()),
        }
    }
}

impl Default for Drive {
    fn default() -> (r: Drive)
        ensures
            !r.enabled,
            r.remote@ == "gdrive"@,
            r.folder@ == "DevLog"@,
    {
        Drive { enabled: false, remote: default_drive_remote(), folder: default_drive_folder() }
    }
}

/// Where the settings are looked for, in this order, each path as its
/// components: the file named by the caller, `devlog.toml` in the working
/// directory, and `devlog/devlog.toml` below the user's configuration
/// directory.
pub fn resolve_candidate_paths(explicit: Option<String>, config_dir: Option<String>) -> (r: Vec<
    Vec<String>,
>)
    ensures
        r@.len() == (if explicit is Some { 1int } else { 0int }) + 1 + (if config_dir is Some {
            1int
        } else {
            0int
        }),
        explicit matches Some(path) ==> r@[0]@.len() == 1 && r@[0]@[0]@ == path@,
        ({
            let at = if explicit is Some { 1int } else { 0int };
            &&& r@[at]@.len() == 1
            &&& r@[at]@[0]@ == "devlog.toml"@
            &&& config_dir matches Some(dir) ==> {
                &&& r@[at + 1]@.len() == 3
                &&& r@[at + 1]@[0]@ == dir@
                &&& r@[at + 1]@[1]@ == "devlog"@
                &&& r@[at + 1]@[2]@ == "devlog.toml"@
            }
        }),
{
    let mut paths: Vec<Vec<String>> = Vec::new();
    match explicit {
        Some(path) => {
            let mut one: Vec<String> = Vec::new();
            one.push(path);
            paths.push(one);
        },
        None => {},
    }
    let mut local: Vec<String> = Vec::new();
    local.push("devlog.toml".to_owned());
    paths.push(local);
    match config_dir {
        Some(dir) => {
            let mut user: Vec<String> = Vec::new();
            user.push(dir);
            user.push("devlog".to_owned());
            user.push("devlog.toml".to_owned());
            paths.push(user);
        },
        None => {},
    }
    paths
}

/// `s` is one of `Mon` to `Sun`.
pub open spec fn is_day_name(s: Seq<char>) -> bool {
    s == "Mon"@ || s == "Tue"@ || s == "Wed"@ || s == "Thu"@ || s == "Fri"@ || s == "Sat"@ || s
        == "Sun"@
}

/// The first of `days`, from offset `from` on, that is no day.
pub open spec fn first_bad_day(days: Seq<String>, from: int) -> Option<Seq<char>>
    decreases days.len() - from,
{
    if from < 0 || from >= days.len() {
        None
    } else if !is_day_name(days[from]@) {
        Some(days[from]@)
    } else {
        first_bad_day(days, from + 1)
    }
}

/// The fault of the working days: the first that is no day.
pub open spec fn working_days_fault(days: Seq<String>) -> Option<(ConfigErrorKind, Seq<char>)> {
    match first_bad_day(days, 0) {
        Some(day) => Some((ConfigErrorKind::InvalidWorkingDay, day)),
        None => None,
    }
}

/// The fault of the output directory: that it is blank.
pub open spec fn output_dir_fault(dir: Seq<char>) -> Option<(ConfigErrorKind, Seq<char>)> {
    if is_blank(dir) {
        Some((ConfigErrorKind::EmptyOutputDir, Seq::empty()))
    } else {
        None
    }
}

/// The fault of the repository path: that it is set and nothing is there.
pub open spec fn repo_path_fault(repo: Option<String>, exists: bool) -> Option<
    (ConfigErrorKind, Seq<char>),
> {
    match repo {
        Some(path) => if exists {
            None
        } else {
            Some((ConfigErrorKind::RepoPathNotFound, path@))
        },
        None => None,
    }
}

/// The frequency set, or the default.
pub open spec fn export_frequency(export: Export) -> Seq<char> {
    match export.frequency {
        Some(f) => f@,
        None => "monthly"@,
    }
}

/// The format set, or the default.
pub open spec fn export_format(export: Export) -> Seq<char> {
    match export.format {
        Some(f) => f@,
        None => "md"@,
    }
}

/// The fault of the export settings: the frequency first, then the format.
pub open spec fn export_fault(export: Export) -> Option<(ConfigErrorKind, Seq<char>)> {
    let frequency = export_frequency(export);
    let format = export_format(export);
    if !(frequency == "weekly"@ || frequency == "monthly"@) {
        Some((ConfigErrorKind::InvalidExportFrequency, frequency))
    } else if !(format == "md"@ || format == "pdf"@) {
        Some((ConfigErrorKind::InvalidExportFormat, format))
    } else {
        None
    }
}

/// The time zone to use: the one set, or else the one of the environment.
pub open spec fn timezone_choice(set: Option<Seq<char>>, env: Option<Seq<char>>) -> Option<
    Seq<char>,
> {
    match set {
        Some(name) => Some(name),
        None => env,
    }
}

/// The outcome for a choice of time zone, where `known` says whether the
/// zone chosen is known.
pub open spec fn timezone_outcome(choice: Option<Seq<char>>, known: bool) -> Result<
    Seq<char>,
    (ConfigErrorKind, Seq<char>),
> {
    match choice {
        None => Err((ConfigErrorKind::MissingTimezone, Seq::empty())),
        Some(name) => if known {
            Ok(name)
        } else {
            Err((ConfigErrorKind::InvalidTimezone, name))
        },
    }
}

/// The outcome for the time zone that the settings and the environment
/// name.
pub open spec fn timezone_result(set: Option<Seq<char>>, env: Option<Seq<char>>) -> Result<
    Seq<char>,
    (ConfigErrorKind, Seq<char>),
> {
    let choice = timezone_choice(set, env);
    timezone_outcome(choice, choice is Some && is_timezone_name(choice.unwrap()))
}

/// The first fault of the settings, in the order in which they are
/// checked, or none.
pub open spec fn config_fault(config: Config, probe: Probe) -> Option<(ConfigErrorKind, Seq<char>)> {
    if config.git.repo_path is None || is_blank(config.git.repo_path.unwrap()@) {
        Some((ConfigErrorKind::MissingRepoPath, Seq::empty()))
    } else if working_days_fault(config.general.working_days@) is Some {
        working_days_fault(config.general.working_days@)
    } else if output_dir_fault(config.daily.output_dir@) is Some {
        output_dir_fault(config.daily.output_dir@)
    } else if repo_path_fault(config.git.repo_path, probe.repo_exists) is Some {
        repo_path_fault(config.git.repo_path, probe.repo_exists)
    } else if config.llm.enabled && is_blank(config.llm.model@) {
        Some((ConfigErrorKind::EmptyModel, Seq::empty()))
    } else if config.export.enabled && export_fault(config.export) is Some {
        export_fault(config.export)
    } else {
        match timezone_result(opt_text(config.general.timezone), opt_text(probe.tz)) {
            Ok(_) => None,
            Err(fault) => Some(fault),
        }
    }
}

/// A fault that names no value.
fn fault(kind: ConfigErrorKind) -> (r: ConfigError)
    ensures
        r.kind == kind,
        r.detail@ == Seq::<char>::empty(),
{
    ConfigError { kind, detail: String::new() }
}

/// A fault that names the value `detail`.
fn fault_with(kind: ConfigErrorKind, detail: &str) -> (r: ConfigError)
    ensures
        r.kind == kind,
        r.detail@ == detail@,
{
    ConfigError { kind, detail: detail.to_owned() }
}

/// Whether `day` is one of `Mon` to `Sun`.
pub fn is_working_day_name(day: &str) -> (r: bool)
    ensures
        r == is_day_name(day@),
{
    str_eq(day, "Mon") || str_eq(day, "Tue") || str_eq(day, "Wed") || str_eq(day, "Thu") || str_eq(
        day,
        "Fri",
    ) || str_eq(day, "Sat") || str_eq(day, "Sun")
}

/// Every working day is one of `Mon` to `Sun`; the first that is not is
/// the fault.
pub fn validate_working_days(days: &[String]) -> (r: Result<(), ConfigError>)
    ensures
        fault_of(r) == working_days_fault(days@),
{
    let mut i: usize = 0;
    while i < days.len()
        invariant
            i <= days.len(),
            first_bad_day(days@, 0) == first_bad_day(days@, i as int),
        decreases days.len() - i,
    {
        if !is_working_day_name(days[i].as_str()) {
            return Err(fault_with(ConfigErrorKind::InvalidWorkingDay, days[i].as_str()));
        }
        i += 1;
    }
    Ok(())
}

/// The output directory is not blank.
pub fn validate_output_dir(dir: &str) -> (r: Result<(), ConfigError>)
    ensures
        fault_of(r) == output_dir_fault(dir@),
{
    if str_is_blank(dir) {
        return Err(fault(ConfigErrorKind::EmptyOutputDir));
    }
    Ok(())
}

/// Where a repository path is set, there is something at it.
pub fn validate_repo_path(repo: &Option<String>, exists: bool) -> (r: Result<(), ConfigError>)
    ensures
        fault_of(r) == repo_path_fault(*repo, exists),
{
    match repo {
        Some(path) => {
            if !exists {
                return Err(fault_with(ConfigErrorKind::RepoPathNotFound, path.as_str()));
            }
            Ok(())
        },
        None => Ok(()),
    }
}

/// The frequency is `weekly` or `monthly` and the format `md` or `pdf`,
/// each after its default.
pub fn validate_export(export: &Export) -> (r: Result<(), ConfigError>)
    ensures
        fault_of(r) == export_fault(*export),
{
    let frequency = match &export.frequency {
        Some(f) => f.as_str(),
        None => "monthly",
    };
    let format = match &export.format {
        Some(f) => f.as_str(),
        None => "md",
    };
    if !(str_eq(frequency, "weekly") || str_eq(frequency, "monthly")) {
        return Err(fault_with(ConfigErrorKind::InvalidExportFrequency, frequency));
    }
    if !(str_eq(format, "md") || str_eq(format, "pdf")) {
        return Err(fault_with(ConfigErrorKind::InvalidExportFormat, format));
    }
    Ok(())
}

/// The name of the time zone chosen, given whether chrono-tz knows it.
pub fn timezone_verdict(choice: Option<&str>, known: bool) -> (r: Result<String, ConfigError>)
    ensures
        outcome_of(r) == timezone_outcome(text_of(choice), known),
{
    match choice {
        None => Err(fault(ConfigErrorKind::MissingTimezone)),
        Some(name) => {
            if known {
                Ok(name.to_owned())
            } else {
                Err(fault_with(ConfigErrorKind::InvalidTimezone, name))
            }
        },
    }
}

/// The characters of a text that may be missing.
pub open spec fn text_of(s: Option<&str>) -> Option<Seq<char>> {
    match s {
        Some(s) => Some(s@),
        None => None,
    }
}

/// `FromStr` of `chrono_tz::Tz`: whether the name is in the table of time
/// zones that chrono-tz was built with.
#[verifier::external_body]
fn known_timezone(name: &str) -> (r: bool)
    ensures
        r == is_timezone_name(name@),
{
    name.parse::<chrono_tz::Tz>().is_ok()
}

impl Config {
    /// The name of the time zone to use: the one set, or else the one of
    /// the environment, which is `tz_env`; it must be one that chrono-tz
    /// knows.
    pub fn timezone(&self, tz_env: Option<&str>) -> (r: Result<String, ConfigError>)
        ensures
            outcome_of(r) == timezone_result(opt_text(self.general.timezone), text_of(tz_env)),
    {
        let choice = match &self.general.timezone {
            Some(name) => Some(name.as_str()),
            None => tz_env,
        };
        let known = match choice {
            Some(name) => known_timezone(name),
            None => false,
        };
        timezone_verdict(choice, known)
    }

    /// Checks the settings in a fixed order and reports the first fault.
    pub fn validate(&self, probe: &Probe) -> (r: Result<(), ConfigError>)
        ensures
            fault_of(r) == config_fault(*self, *probe),
    {
        let blank = match &self.git.repo_path {
            Some(path) => str_is_blank(path.as_str()),
            None => true,
        };
        if blank {
            return Err(fault(ConfigErrorKind::MissingRepoPath));
        }
        match validate_working_days(self.general.working_days.as_slice()) {
            Err(e) => {
                return Err(e);
            },
            Ok(_) => {},
        }
        match validate_output_dir(self.daily.output_dir.as_str()) {
            Err(e) => {
                return Err(e);
            },
            Ok(_) => {},
        }
        match validate_repo_path(&self.git.repo_path, probe.repo_exists) {
            Err(e) => {
                return Err(e);
            },
            Ok(_) => {},
        }
        if self.llm.enabled && str_is_blank(self.llm.model.as_str()) {
            return Err(fault(ConfigErrorKind::EmptyModel));
        }
        if self.export.enabled {
            match validate_export(&self.export) {
                Err(e) => {
                    return Err(e);
                },
                Ok(_) => {},
            }
        }
        let tz_env = match &probe.tz {
            Some(name) => Some(name.as_str()),
            None => None,
        };
        match self.timezone(tz_env) {
            Err(e) => Err(e),
            Ok(_) => Ok(()),
        }
    }
}

} // verus!
