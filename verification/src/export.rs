//! The export run: which range of days it covers and what it writes.

use crate::config::{export_format, export_frequency, Config};
use crate::date::{days_before, Date};
use crate::markdown::{
    collect_entries_in_range, entry_views, export_text, file_views, gathered, log_file_name,
    sorted_by_date, write_export, ExportFile,
};
use crate::text::{decimal, push_decimal, push_str, str_eq, utf8};
use vstd::prelude::*;
use vstd::string::StringExecFns;

verus! {

/// Why no range could be chosen.
#[derive(Clone, Copy, Debug, PartialEq, Eq, Structural)]
pub enum ExportErrorKind {
    /// The frequency is neither `weekly` nor `monthly`.
    UnsupportedFrequency,
    /// The week before today begins before the year 0000.
    StartOutOfCalendar,
}

/// A fault of the export: its kind, and the frequency at fault where there
/// is one.
#[derive(Debug)]
pub struct ExportError {
    pub kind: ExportErrorKind,
    pub detail: String,
}

/// What a fault of kind `kind` says of the frequency `detail`.
pub open spec fn fault_message(kind: ExportErrorKind, detail: Seq<char>) -> Seq<char> {
    match kind {
        ExportErrorKind::UnsupportedFrequency => "Unsupported export.frequency: "@ + detail,
        ExportErrorKind::StartOutOfCalendar => "the week before today begins before the year 0000"@,
    }
}

impl ExportError {
    /// The fault in words.
    pub fn message(&self) -> (r: String)
        ensures
            r@ == fault_message(self.kind, self.detail@),
    {
        match self.kind {
            ExportErrorKind::UnsupportedFrequency => {
                let mut out = "Unsupported export.frequency: ".to_owned();
                out.append(self.detail.as_str());
                out
            },
            ExportErrorKind::StartOutOfCalendar => {
                "the week before today begins before the year 0000".to_owned()
            },
        }
    }
}

/// What the export run does first.
#[derive(Clone, Copy, Debug, PartialEq, Eq, Structural)]
pub enum ExportPlan {
    /// Nothing: exports are switched off.
    Disabled,
    /// Collect the entries from `start` to `end`, both included.
    Collect { start: Date, end: Date },
}

/// What the export run leaves.
#[derive(Debug)]
pub enum ExportOutcome {
    /// No entry lies in the range: no file is written.
    Nothing,
    /// The export to write, and whether a PDF is to be made of it.
    Written { file: ExportFile, pdf: bool },
}

/// The first day of an export that ends today: six days back for `weekly`,
/// so that the range holds seven days, and the first of the month for
/// `monthly`.
pub open spec fn range_start(frequency: Seq<char>, today: Date) -> Result<Date, ExportErrorKind> {
    if frequency == "weekly"@ {
        let (year, month, day) = days_before(
            (today.year as int, today.month as int, today.day as int),
            6,
        );
        if year >= 0 {
            Ok(Date { year: year as i32, month: month as u32, day: day as u32 })
        } else {
            Err(ExportErrorKind::StartOutOfCalendar)
        }
    } else if frequency == "monthly"@ {
        Ok(Date { year: today.year, month: today.month, day: 1 })
    } else {
        Err(ExportErrorKind::UnsupportedFrequency)
    }
}

/// The value that a fault names: the frequency where that is at fault.
pub open spec fn fault_detail(kind: ExportErrorKind, frequency: Seq<char>) -> Seq<char> {
    match kind {
        ExportErrorKind::UnsupportedFrequency => frequency,
        ExportErrorKind::StartOutOfCalendar => Seq::empty(),
    }
}

/// The range of an export that ends today.
pub fn export_range(frequency: &str, today: Date) -> (r: Result<(Date, Date), ExportError>)
    requires
        today.wf(),
    ensures
        match r {
            Ok((start, end)) => range_start(frequency@, today) == Ok::<Date, ExportErrorKind>(start)
                && end == today && start.wf() && start.on_or_before(end),
            Err(e) => range_start(frequency@, today) == Err::<Date, ExportErrorKind>(e.kind)
                && e.detail@ == fault_detail(e.kind, frequency@),
        },
{
    if str_eq(frequency, "weekly") {
        match today.minus_days(6) {
            Some(start) => Ok((start, today)),
            None => Err(
                ExportError { kind: ExportErrorKind::StartOutOfCalendar, detail: String::new() },
            ),
        }
    } else if str_eq(frequency, "monthly") {
        Ok((today.first_of_month(), today))
    } else {
        Err(
            ExportError {
                kind: ExportErrorKind::UnsupportedFrequency,
                detail: frequency.to_owned(),
            },
        )
    }
}

/// What the export run does first: nothing where exports are switched
/// off, and else the range to collect, by the frequency set or `monthly`.
pub fn plan(config: &Config, today: Date) -> (r: Result<ExportPlan, ExportError>)
    requires
        today.wf(),
    ensures
        !config.export.enabled ==> r == Ok::<ExportPlan, ExportError>(ExportPlan::Disabled),
        config.export.enabled ==> match r {
            Ok(p) => p matches ExportPlan::Collect { start, end } && range_start(
                export_frequency(config.export),
                today,
            ) == Ok::<Date, ExportErrorKind>(start) && end == today && start.wf()
                && start.on_or_before(end),
            Err(e) => range_start(export_frequency(config.export), today) == Err::<
                Date,
                ExportErrorKind,
            >(e.kind) && e.detail@ == fault_detail(e.kind, export_frequency(config.export)),
        },
{
    if !config.export.enabled {
        return Ok(ExportPlan::Disabled);
    }
    let frequency = match &config.export.frequency {
        Some(f) => f.as_str(),
        None => "monthly",
    };
    match export_range(frequency, today) {
        Ok((start, end)) => Ok(ExportPlan::Collect { start, end }),
        Err(e) => Err(e),
    }
}

/// Whether the settings ask for a PDF of the export.
pub fn wants_pdf(config: &Config) -> (r: bool)
    ensures
        r == (export_format(config.export) == "pdf"@),
{
    let format = match &config.export.format {
        Some(f) => f.as_str(),
        None => "md",
    };
    str_eq(format, "pdf")
}

/// The export of the entries of `files` from `start` to `end`, in the
/// order of their dates, or nothing where no entry lies in the range.
pub fn run(config: &Config, start: Date, end: Date, files: &[Vec<u8>]) -> (r: ExportOutcome)
    requires
        start.wf(),
        end.wf(),
    ensures
        ({
            let entries = sorted_by_date(gathered(file_views(files@), start, end));
            match r {
                ExportOutcome::Nothing => entries.len() == 0,
                ExportOutcome::Written { file, pdf } => {
                    &&& entries.len() > 0
                    &&& file.file_name@ == log_file_name(end.year as nat)
                    &&& file.contents@ == export_text(start, end, entries)
                    &&& pdf == (export_format(config.export) == "pdf"@)
                },
            }
        }),
{
    let entries = collect_entries_in_range(files, start, end);
    assert(entry_views(entries@).len() == entries@.len());
    if entries.len() == 0 {
        return ExportOutcome::Nothing;
    }
    let file = write_export(start, end, entries.as_slice());
    ExportOutcome::Written { file, pdf: wants_pdf(config) }
}

/// Name of the PDF made of the export of `year`: the export's own name
/// with the extension `pdf`.
pub open spec fn pdf_file_name(year: nat) -> Seq<u8> {
    utf8("DevLog-"@) + decimal(year) + utf8(".pdf"@)
}

/// Name of the PDF made of the export of the range that ends on `end`.
pub fn pdf_name(end: Date) -> (r: Vec<u8>)
    requires
        end.wf(),
    ensures
        r@ == pdf_file_name(end.year as nat),
{
    let mut out: Vec<u8> = Vec::new();
    push_str(&mut out, "DevLog-");
    push_decimal(&mut out, end.year as u32);
    push_str(&mut out, ".pdf");
    out
}

/// The arguments with which pandoc turns the export at `markdown_path`
/// into the PDF at `pdf_path`.
pub fn pandoc_arguments(markdown_path: &str, pdf_path: &str) -> (r: Vec<String>)
    ensures
        r@.len() == 3,
        r@[0]@ == markdown_path@,
        r@[1]@ == "-o"@,
        r@[2]@ == pdf_path@,
{
    let mut args: Vec<String> = Vec::new();
    args.push(markdown_path.to_owned());
    args.push("-o".to_owned());
    args.push(pdf_path.to_owned());
    args
}

} // verus!
