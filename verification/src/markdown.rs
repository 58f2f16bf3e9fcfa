//! The year log: rendering one day's entry, editing it into the document,
//! reading the dated entries back and writing an export of a range of them.

use crate::config::Daily;
use crate::date::{parse_iso, Date};
use crate::text::{
    contains, decimal, find, find_at, find_first, find_from, lemma_find_from, matches_at,
    occurs_at, push_bytes, push_decimal, push_range, push_str, utf8,
};
use vstd::prelude::*;
use vstd::utf8::is_ascii_chars_encode_utf8;

verus! {

/// The heading that opens the entry of `date`: `## [[YYYY-MM-DD]]`.
pub open spec fn marker(date: Date) -> Seq<u8> {
    utf8("## [["@) + date.text() + utf8("]]"@)
}

/// The heading of older documents: `[[YYYY-MM-DD]]`.
pub open spec fn legacy_marker(date: Date) -> Seq<u8> {
    utf8("[["@) + date.text() + utf8("]]"@)
}

/// The texts of `items`, in order.
pub open spec fn texts(items: Seq<String>) -> Seq<Seq<char>> {
    items.map_values(|s: String| s@)
}

/// One list item per commit subject, in order.
pub open spec fn commit_lines(commits: Seq<Seq<char>>) -> Seq<u8>
    decreases commits.len(),
{
    if commits.len() == 0 {
        Seq::empty()
    } else {
        commit_lines(commits.drop_last()) + utf8("- "@) + utf8(commits.last()) + utf8("\n"@)
    }
}

/// The commit section: the list, or a placeholder where there is none.
pub open spec fn commit_section(commits: Seq<Seq<char>>) -> Seq<u8> {
    if commits.len() == 0 {
        utf8("🛑 **Commits**  \nNo commits for this day."@) + utf8("\n\n"@)
    } else {
        utf8("📦 **Commits**\n"@) + commit_lines(commits) + utf8("\n"@)
    }
}

/// The block of one day: heading, summary, commits, and a closing blank
/// line.
pub open spec fn entry_text(date: Date, summary: Seq<char>, commits: Seq<Seq<char>>) -> Seq<u8> {
    marker(date) + utf8("\n\n"@) + utf8("🛠️ **Summary**\n"@) + utf8(summary) + utf8("\n\n"@)
        + commit_section(commits)
}

/// Appends one list item per commit subject to `out`.
fn push_commit_lines(out: &mut Vec<u8>, commits: &[String])
    ensures
        final(out)@ == old(out)@ + commit_lines(texts(commits@)),
{
    let ghost all = texts(commits@);
    let mut i: usize = 0;
    assert(commit_lines(all.take(0)) =~= Seq::<u8>::empty());
    assert(out@ =~= old(out)@ + commit_lines(all.take(0)));
    while i < commits.len()
        invariant
            i <= commits.len(),
            all == texts(commits@),
            out@ == old(out)@ + commit_lines(all.take(i as int)),
        decreases commits.len() - i,
    {
        let ghost before = out@;
        let ghost listed = commit_lines(all.take(i as int));
        push_str(out, "- ");
        push_str(out, commits[i].as_str());
        push_str(out, "\n");
        proof {
            let line = utf8("- "@) + utf8(commits@[i as int]@) + utf8("\n"@);
            assert(all.take(i + 1).drop_last() == all.take(i as int));
            assert(all.take(i + 1).last() == commits@[i as int]@);
            assert(commit_lines(all.take(i + 1)) =~= listed + line);
            assert(out@ =~= before + line);
            assert(before + line =~= old(out)@ + (listed + line));
        }
        i += 1;
    }
    assert(all.take(i as int) == all);
}

/// Appends the commit section to `out`.
fn push_commit_section(out: &mut Vec<u8>, commits: &[String])
    ensures
        final(out)@ == old(out)@ + commit_section(texts(commits@)),
{
    let mut section: Vec<u8> = Vec::new();
    if commits.len() == 0 {
        push_str(&mut section, "🛑 **Commits**  \nNo commits for this day.");
        push_str(&mut section, "\n\n");
    } else {
        push_str(&mut section, "📦 **Commits**\n");
        push_commit_lines(&mut section, commits);
        push_str(&mut section, "\n");
    }
    assert(section@ =~= commit_section(texts(commits@)));
    push_bytes(out, section.as_slice());
}

/// Appends the block of one day to `out`.
pub fn write_entry(out: &mut Vec<u8>, date: Date, summary: &str, commits: &[String])
    requires
        date.wf(),
    ensures
        final(out)@ == old(out)@ + entry_text(date, summary@, texts(commits@)),
{
    let mut block = marker_bytes(date);
    push_str(&mut block, "\n\n");
    push_str(&mut block, "🛠️ **Summary**\n");
    push_str(&mut block, summary);
    push_str(&mut block, "\n\n");
    push_commit_section(&mut block, commits);
    push_bytes(out, block.as_slice());
}

/// The front matter that opens the log of `year`, and its title.
pub open spec fn year_header(year: nat) -> Seq<u8> {
    utf8("---\ntype: devlog\nyear: "@) + decimal(year) + utf8("\n---\n\n# Dev Log – "@) + decimal(
        year,
    ) + utf8("\n\n"@)
}

/// Appends the front matter of the log of the year of `date`.
pub fn write_year_header(out: &mut Vec<u8>, date: Date)
    requires
        date.wf(),
    ensures
        final(out)@ == old(out)@ + year_header(date.year as nat),
{
    let year: u32 = date.year as u32;
    push_str(out, "---\ntype: devlog\nyear: ");
    push_decimal(out, year);
    push_str(out, "\n---\n\n# Dev Log – ");
    push_decimal(out, year);
    push_str(out, "\n\n");
}

/// Name of the file that holds the log of `year`: `DevLog-YYYY.md`.
pub open spec fn log_file_name(year: nat) -> Seq<u8> {
    utf8("DevLog-"@) + decimal(year) + utf8(".md"@)
}

/// Name of the file that holds the log of the year of `date`.
pub fn year_file_name(date: Date) -> (r: Vec<u8>)
    requires
        date.wf(),
    ensures
        r@ == log_file_name(date.year as nat),
{
    let mut out: Vec<u8> = Vec::new();
    push_str(&mut out, "DevLog-");
    push_decimal(&mut out, date.year as u32);
    push_str(&mut out, ".md");
    out
}

/// Offset of the entry of `date`: its heading, or else its older heading.
pub open spec fn entry_start(doc: Seq<u8>, date: Date) -> Option<int> {
    match find_first(doc, marker(date)) {
        Some(at) => Some(at),
        None => find_first(doc, legacy_marker(date)),
    }
}

/// Offset just behind the heading of the entry of `date`.
pub open spec fn heading_end(doc: Seq<u8>, date: Date) -> int {
    match find_first(doc, marker(date)) {
        Some(at) => at + marker(date).len(),
        None => find_first(doc, legacy_marker(date)).unwrap() + legacy_marker(date).len(),
    }
}

/// Offset of the first heading of any entry at or behind `from`: that of
/// `## [[`, or that of the line break before a line that begins with `[[`,
/// whichever comes first.
pub open spec fn next_heading(doc: Seq<u8>, from: int) -> Option<int> {
    match (find_from(doc, utf8("## [["@), from), find_from(doc, utf8("\n[["@), from)) {
        (Some(a), Some(b)) => Some(if a <= b { a } else { b }),
        (Some(a), None) => Some(a),
        (None, Some(b)) => Some(b),
        (None, None) => None,
    }
}

/// `doc`, closed by a line break unless it is empty or has one.
pub open spec fn closed_line(doc: Seq<u8>) -> Seq<u8> {
    if doc.len() == 0 || doc.last() == 10 {
        doc
    } else {
        doc.push(10u8)
    }
}

/// `doc` without the entry of `date`: cut from its heading up to the next
/// heading, or to the end where it is the last.
pub open spec fn without_entry(doc: Seq<u8>, date: Date) -> Seq<u8> {
    match entry_start(doc, date) {
        None => doc,
        Some(start) => match next_heading(doc, heading_end(doc, date)) {
            Some(end) => doc.subrange(0, start) + doc.subrange(end, doc.len() as int),
            None => closed_line(doc.subrange(0, start)),
        },
    }
}

/// Whether `doc` holds an entry of `date`, under either heading.
pub open spec fn has_entry(doc: Seq<u8>, date: Date) -> bool {
    contains(doc, legacy_marker(date))
}

/// The heading of `date` as bytes.
pub fn marker_bytes(date: Date) -> (r: Vec<u8>)
    requires
        date.wf(),
    ensures
        r@ == marker(date),
{
    let mut out: Vec<u8> = Vec::new();
    push_str(&mut out, "## [[");
    let day = date.to_text();
    push_bytes(&mut out, day.as_slice());
    push_str(&mut out, "]]");
    out
}

/// The older heading of `date` as bytes.
pub fn legacy_marker_bytes(date: Date) -> (r: Vec<u8>)
    requires
        date.wf(),
    ensures
        r@ == legacy_marker(date),
{
    let mut out: Vec<u8> = Vec::new();
    push_str(&mut out, "[[");
    let day = date.to_text();
    push_bytes(&mut out, day.as_slice());
    push_str(&mut out, "]]");
    out
}

/// Whether `contents` holds an entry of `date`, under either heading.
pub fn entry_exists(contents: &[u8], date: Date) -> (r: bool)
    requires
        date.wf(),
    ensures
        r == has_entry(contents@, date),
{
    let needle = legacy_marker_bytes(date);
    proof {
        lemma_find_from(contents@, needle@, 0);
    }
    find(contents, needle.as_slice()).is_some()
}

/// Appends a line break to `out` unless it is empty or ends in one.
pub fn close_line(out: &mut Vec<u8>)
    ensures
        final(out)@ == closed_line(old(out)@),
{
    if out.len() > 0 && out[out.len() - 1] != 10 {
        out.push(10);
    }
}

/// `contents` without the entry of `date`.
pub fn remove_entry(contents: &[u8], date: Date) -> (r: Vec<u8>)
    requires
        date.wf(),
    ensures
        r@ == without_entry(contents@, date),
{
    let new_format = marker_bytes(date);
    let old_format = legacy_marker_bytes(date);
    let mut out: Vec<u8> = Vec::new();
    proof {
        lemma_find_from(contents@, new_format@, 0);
        lemma_find_from(contents@, old_format@, 0);
    }
    let found = match find(contents, new_format.as_slice()) {
        Some(at) => Some((at, at + new_format.len())),
        None => match find(contents, old_format.as_slice()) {
            Some(at) => Some((at, at + old_format.len())),
            None => None,
        },
    };
    match found {
        None => {
            push_range(&mut out, contents, 0, contents.len());
            assert(contents@.subrange(0, contents@.len() as int) == contents@);
        },
        Some((start, search_start)) => {
            proof {
                lemma_find_from(contents@, utf8("## [["@), search_start as int);
                lemma_find_from(contents@, utf8("\n[["@), search_start as int);
            }
            let next_new = find_at(contents, "## [[".as_bytes(), search_start);
            let next_old = find_at(contents, "\n[[".as_bytes(), search_start);
            let next = match (next_new, next_old) {
                (Some(a), Some(b)) => Some(if a <= b { a } else { b }),
                (Some(a), None) => Some(a),
                (None, Some(b)) => Some(b),
                (None, None) => None,
            };
            push_range(&mut out, contents, 0, start);
            match next {
                Some(end) => {
                    push_range(&mut out, contents, end, contents.len());
                },
                None => {
                    close_line(&mut out);
                },
            }
        },
    }
    out
}

/// What a write leaves of a year log.
#[derive(Debug)]
pub struct EditedLog {
    /// The document after the write.
    pub contents: Vec<u8>,
    /// Whether the document was left as it stood.
    pub skipped: bool,
}

/// What a daily write leaves: the log's file name and the edited log.
#[derive(Debug)]
pub struct DailyWrite {
    pub file_name: Vec<u8>,
    pub contents: Vec<u8>,
    pub skipped: bool,
}

/// The bytes of a document that may not exist yet.
pub open spec fn document(existing: Option<&[u8]>) -> Option<Seq<u8>> {
    match existing {
        Some(bytes) => Some(bytes@),
        None => None,
    }
}

/// A write is skipped where the entry is there and may not be replaced.
pub open spec fn skips(existing: Option<Seq<u8>>, date: Date, overwrite: bool) -> bool {
    match existing {
        Some(doc) => !overwrite && has_entry(doc, date),
        None => false,
    }
}

/// The document after a write of `block` as the entry of `date`: a new
/// document opens with its front matter; an existing one keeps its bytes,
/// loses the entry of `date` where that is replaced, and gets the block at
/// its end, on a line of its own.
pub open spec fn edited(existing: Option<Seq<u8>>, date: Date, block: Seq<u8>, overwrite: bool) -> Seq<
    u8,
> {
    match existing {
        None => year_header(date.year as nat) + block,
        Some(doc) => if skips(existing, date, overwrite) {
            doc
        } else if overwrite {
            closed_line(without_entry(doc, date)) + block
        } else {
            closed_line(doc) + block
        },
    }
}

/// Writes `block` as the entry of `date` into the document `existing`,
/// which is `None` where there is no such file yet.
pub fn edit_log(existing: Option<&[u8]>, date: Date, block: &[u8], overwrite: bool) -> (r:
    EditedLog)
    requires
        date.wf(),
    ensures
        r.skipped == skips(document(existing), date, overwrite),
        r.contents@ == edited(document(existing), date, block@, overwrite),
{
    let mut out: Vec<u8> = Vec::new();
    match existing {
        None => {
            write_year_header(&mut out, date);
            push_bytes(&mut out, block);
            EditedLog { contents: out, skipped: false }
        },
        Some(doc) => {
            if !overwrite && entry_exists(doc, date) {
                push_bytes(&mut out, doc);
                return EditedLog { contents: out, skipped: true };
            }
            if overwrite {
                out = remove_entry(doc, date);
            } else {
                push_bytes(&mut out, doc);
            }
            close_line(&mut out);
            push_bytes(&mut out, block);
            EditedLog { contents: out, skipped: false }
        },
    }
}

/// Writes the entry of `date` into the year log `existing`, which is `None`
/// where there is no such file yet. The entry is replaced only where the
/// settings allow it.
pub fn write_daily_entry(
    config: &Daily,
    date: Date,
    summary: &str,
    commits: &[String],
    existing: Option<&[u8]>,
) -> (r: DailyWrite)
    requires
        date.wf(),
    ensures
        r.file_name@ == log_file_name(date.year as nat),
        r.skipped == skips(document(existing), date, config.overwrite_existing),
        r.contents@ == edited(
            document(existing),
            date,
            entry_text(date, summary@, texts(commits@)),
            config.overwrite_existing,
        ),
{
    let mut block: Vec<u8> = Vec::new();
    write_entry(&mut block, date, summary, commits);
    let log = edit_log(existing, date, block.as_slice(), config.overwrite_existing);
    DailyWrite { file_name: year_file_name(date), contents: log.contents, skipped: log.skipped }
}

/// One dated entry as it stands in a log: its date and its bytes, heading
/// included.
#[derive(Debug)]
pub struct Entry {
    pub date: Date,
    pub text: Vec<u8>,
}

impl View for Entry {
    type V = (Date, Seq<u8>);

    open spec fn view(&self) -> (Date, Seq<u8>) {
        (self.date, self.text@)
    }
}

/// The entries of `items` as dates and bytes.
pub open spec fn entry_views(items: Seq<Entry>) -> Seq<(Date, Seq<u8>)> {
    items.map_values(|e: Entry| e@)
}

/// The date of the heading that `line` is, if it is one: `## [[`, a date
/// and `]]`, with nothing before or behind.
pub open spec fn header_date(line: Seq<u8>) -> Option<Date> {
    let open = utf8("## [["@);
    let close = utf8("]]"@);
    if line.len() >= open.len() + close.len() && occurs_at(line, open, 0) && occurs_at(
        line,
        close,
        line.len() - close.len(),
    ) {
        parse_iso(line.subrange(open.len() as int, line.len() - close.len()))
    } else {
        None
    }
}

/// Reads a heading line.
pub fn parse_entry_header(line: &[u8]) -> (r: Option<Date>)
    ensures
        r == header_date(line@),
        r matches Some(d) ==> d.wf(),
{
    let open = "## [[".as_bytes();
    let close = "]]".as_bytes();
    if line.len() < open.len() || line.len() - open.len() < close.len() {
        return None;
    }
    if !matches_at(line, open, 0) || !matches_at(line, close, line.len() - close.len()) {
        return None;
    }
    Date::parse(vstd::slice::slice_subrange(line, open.len(), line.len() - close.len()))
}

/// `date` lies between `start` and `end`, both included.
pub open spec fn in_range(date: Date, start: Date, end: Date) -> bool {
    start.on_or_before(date) && date.on_or_before(end)
}

/// Whether `date` lies between `start` and `end`, both included.
pub fn is_in_range(date: Date, start: Date, end: Date) -> (r: bool)
    ensures
        r == in_range(date, start, end),
{
    start.le(&date) && date.le(&end)
}

/// Offset of the line break that ends the line at `from`, or the length of
/// `doc` where the line runs to the end.
pub open spec fn line_end(doc: Seq<u8>, from: int) -> int
    decreases doc.len() - from,
{
    if from < 0 || from >= doc.len() {
        doc.len() as int
    } else if doc[from] == 10 {
        from
    } else {
        line_end(doc, from + 1)
    }
}

/// The line at `from` without its line break, nor the carriage return
/// before the break.
pub open spec fn line_at(doc: Seq<u8>, from: int) -> Seq<u8> {
    let end = line_end(doc, from);
    if end < doc.len() && from < end && doc[end - 1] == 13 {
        doc.subrange(from, end - 1)
    } else {
        doc.subrange(from, end)
    }
}

/// Offset of the line behind the line at `from`.
pub open spec fn next_line(doc: Seq<u8>, from: int) -> int {
    let end = line_end(doc, from);
    if end < doc.len() {
        end + 1
    } else {
        end
    }
}

/// The entry under way, closed at offset `at`.
pub open spec fn closed_entry(doc: Seq<u8>, open: Option<(Date, int)>, at: int) -> Seq<
    (Date, Seq<u8>),
> {
    match open {
        Some((date, start)) => seq![(date, doc.subrange(start, at))],
        None => Seq::empty(),
    }
}

/// The entries of `doc` from the line at `from` on, where `open` is the
/// entry under way: its date and the offset of its heading. A heading line
/// closes the entry under way and opens the next; the end closes the last.
pub open spec fn entries_from(doc: Seq<u8>, from: int, open: Option<(Date, int)>) -> Seq<
    (Date, Seq<u8>),
>
    decreases doc.len() - from,
{
    if from < 0 || from >= doc.len() {
        closed_entry(doc, open, doc.len() as int)
    } else {
        proof {
            lemma_line_end(doc, from);
        }
        match header_date(line_at(doc, from)) {
            Some(date) => closed_entry(doc, open, from) + entries_from(
                doc,
                next_line(doc, from),
                Some((date, from)),
            ),
            None => entries_from(doc, next_line(doc, from), open),
        }
    }
}

/// The dated entries of `doc`, in the order in which they stand: each runs
/// from its heading line up to the next heading line or the end, byte for
/// byte. What stands before the first heading belongs to no entry.
pub open spec fn entries(doc: Seq<u8>) -> Seq<(Date, Seq<u8>)> {
    entries_from(doc, 0, None)
}

/// The entries of `doc` whose date lies between `start` and `end`.
pub open spec fn entries_in_range(doc: Seq<u8>, start: Date, end: Date) -> Seq<(Date, Seq<u8>)> {
    entries(doc).filter(|e: (Date, Seq<u8>)| in_range(e.0, start, end))
}

/// The line at `from` ends at `line_end`, behind `from` or at it.
pub proof fn lemma_line_end(doc: Seq<u8>, from: int)
    requires
        0 <= from <= doc.len(),
    ensures
        from <= line_end(doc, from) <= doc.len(),
        line_end(doc, from) < doc.len() ==> doc[line_end(doc, from)] == 10,
        forall|i: int| from <= i < line_end(doc, from) ==> doc[i] != 10,
    decreases doc.len() - from,
{
    if from < doc.len() && doc[from] != 10 {
        lemma_line_end(doc, from + 1);
    }
}

/// Offset of the line break that ends the line at `from`.
pub fn find_line_end(doc: &[u8], from: usize) -> (r: usize)
    requires
        from <= doc.len(),
    ensures
        r == line_end(doc@, from as int),
        from <= r <= doc.len(),
{
    let mut at: usize = from;
    while at < doc.len() && doc[at] != 10
        invariant
            from <= at <= doc.len(),
            line_end(doc@, from as int) == line_end(doc@, at as int),
        decreases doc.len() - at,
    {
        at += 1;
    }
    at
}

/// The entries of `contents` whose date lies between `start` and `end`, in
/// the order in which they stand.
pub fn parse_file_entries(contents: &[u8], start: Date, end: Date) -> (r: Vec<Entry>)
    ensures
        entry_views(r@) == entries_in_range(contents@, start, end),
{
    let ghost doc = contents@;
    let ghost pred = |e: (Date, Seq<u8>)| in_range(e.0, start, end);
    let ghost mut done: Seq<(Date, Seq<u8>)> = Seq::empty();
    let mut results: Vec<Entry> = Vec::new();
    let mut open: Option<(Date, usize)> = None;
    let mut pos: usize = 0;
    assert(entry_views(results@) == done.filter(pred));
    while pos < contents.len()
        invariant
            doc == contents@,
            pred == |e: (Date, Seq<u8>)| in_range(e.0, start, end),
            pos <= contents.len(),
            open matches Some((_, at)) ==> at <= pos,
            entries(doc) == done + entries_from(doc, pos as int, ghost_open(open)),
            entry_views(results@) == done.filter(pred),
        decreases contents.len() - pos,
    {
        let end_of_line = find_line_end(contents, pos);
        let end_of_text = if end_of_line < contents.len() && pos < end_of_line
            && contents[end_of_line - 1] == 13 {
            end_of_line - 1
        } else {
            end_of_line
        };
        let next = if end_of_line < contents.len() {
            end_of_line + 1
        } else {
            end_of_line
        };
        let line = vstd::slice::slice_subrange(contents, pos, end_of_text);
        assert(line@ == line_at(doc, pos as int));
        assert(next == next_line(doc, pos as int));
        match parse_entry_header(line) {
            Some(date) => {
                proof {
                    let closed = closed_entry(doc, ghost_open(open), pos as int);
                    Seq::filter_distributes_over_add(done, closed, pred);
                    lemma_filter_closed(doc, ghost_open(open), pos as int, start, end);
                    assert(done + (closed + entries_from(doc, next as int, Some((date, pos as int))))
                        == (done + closed) + entries_from(
                        doc,
                        next as int,
                        Some((date, pos as int)),
                    ));
                    done = done + closed;
                }
                flush_entry(&mut results, contents, open, pos, start, end);
                open = Some((date, pos));
            },
            None => {},
        }
        pos = next;
    }
    proof {
        let closed = closed_entry(doc, ghost_open(open), doc.len() as int);
        Seq::filter_distributes_over_add(done, closed, pred);
        lemma_filter_closed(doc, ghost_open(open), doc.len() as int, start, end);
    }
    flush_entry(&mut results, contents, open, contents.len(), start, end);
    results
}

/// The entry under way of the scan, with its offset as a number.
pub open spec fn ghost_open(open: Option<(Date, usize)>) -> Option<(Date, int)> {
    match open {
        Some((date, at)) => Some((date, at as int)),
        None => None,
    }
}

/// The entry under way, closed at `at`, as far as it lies in the range.
pub open spec fn closed_in_range(
    doc: Seq<u8>,
    open: Option<(Date, int)>,
    at: int,
    start: Date,
    end: Date,
) -> Seq<(Date, Seq<u8>)> {
    match open {
        Some((date, from)) => if in_range(date, start, end) {
            seq![(date, doc.subrange(from, at))]
        } else {
            Seq::empty()
        },
        None => Seq::empty(),
    }
}

/// The range filter on the entry under way, closed.
proof fn lemma_filter_closed(
    doc: Seq<u8>,
    open: Option<(Date, int)>,
    at: int,
    start: Date,
    end: Date,
)
    ensures
        closed_entry(doc, open, at).filter(|e: (Date, Seq<u8>)| in_range(e.0, start, end))
            == closed_in_range(doc, open, at, start, end),
{
    let pred = |e: (Date, Seq<u8>)| in_range(e.0, start, end);
    reveal(Seq::filter);
    match open {
        Some((date, from)) => {
            let one = seq![(date, doc.subrange(from, at))];
            assert(one.drop_last() == Seq::<(Date, Seq<u8>)>::empty());
            assert(one.drop_last().filter(pred) == Seq::<(Date, Seq<u8>)>::empty());
            assert(one.filter(pred) == closed_in_range(doc, open, at, start, end));
        },
        None => {},
    }
}

/// Closes the entry under way at `at` and keeps it where its date lies in
/// the range.
fn flush_entry(
    results: &mut Vec<Entry>,
    contents: &[u8],
    open: Option<(Date, usize)>,
    at: usize,
    start: Date,
    end: Date,
)
    requires
        at <= contents.len(),
        open matches Some((_, from)) ==> from <= at,
    ensures
        entry_views(final(results)@) == entry_views(old(results)@) + closed_in_range(
            contents@,
            ghost_open(open),
            at as int,
            start,
            end,
        ),
{
    match open {
        Some((date, from)) => {
            if is_in_range(date, start, end) {
                let mut text: Vec<u8> = Vec::new();
                push_range(&mut text, contents, from, at);
                results.push(Entry { date, text });
                assert(entry_views(results@) == entry_views(old(results)@) + seq![
                    (date, contents@.subrange(from as int, at as int)),
                ]);
            } else {
                assert(entry_views(results@) == entry_views(old(results)@) + Seq::<
                    (Date, Seq<u8>),
                >::empty());
            }
        },
        None => {
            assert(entry_views(results@) == entry_views(old(results)@) + Seq::<
                (Date, Seq<u8>),
            >::empty());
        },
    }
}

/// `sorted` with `e` put behind every entry of its date or of an earlier
/// one.
pub open spec fn inserted(sorted: Seq<(Date, Seq<u8>)>, e: (Date, Seq<u8>)) -> Seq<
    (Date, Seq<u8>),
>
    decreases sorted.len(),
{
    if sorted.len() == 0 || sorted.last().0.on_or_before(e.0) {
        sorted.push(e)
    } else {
        inserted(sorted.drop_last(), e).push(sorted.last())
    }
}

/// `items` in the order of their dates; entries of one date keep the order
/// in which they stood.
pub open spec fn sorted_by_date(items: Seq<(Date, Seq<u8>)>) -> Seq<(Date, Seq<u8>)>
    decreases items.len(),
{
    if items.len() == 0 {
        items
    } else {
        inserted(sorted_by_date(items.drop_last()), items.last())
    }
}

/// The bytes of each of `files`.
pub open spec fn file_views(files: Seq<Vec<u8>>) -> Seq<Seq<u8>> {
    files.map_values(|f: Vec<u8>| f@)
}

/// The entries in the range of all `files`, file by file.
pub open spec fn gathered(files: Seq<Seq<u8>>, start: Date, end: Date) -> Seq<(Date, Seq<u8>)>
    decreases files.len(),
{
    if files.len() == 0 {
        Seq::empty()
    } else {
        gathered(files.drop_last(), start, end) + entries_in_range(files.last(), start, end)
    }
}

/// Where `e` goes into `sorted`: behind the entries before offset `at`,
/// before those from `at` on, all of which are of a later date.
proof fn lemma_inserted_at(sorted: Seq<(Date, Seq<u8>)>, e: (Date, Seq<u8>), at: int)
    requires
        0 <= at <= sorted.len(),
        at > 0 ==> sorted[at - 1].0.on_or_before(e.0),
        forall|i: int| at <= i < sorted.len() ==> !sorted[i].0.on_or_before(e.0),
    ensures
        inserted(sorted, e) == sorted.insert(at, e),
    decreases sorted.len() - at,
{
    if at == sorted.len() {
        assert(sorted.insert(at, e) == sorted.push(e));
    } else {
        lemma_inserted_at(sorted.drop_last(), e, at);
        assert(sorted.drop_last().insert(at, e).push(sorted.last()) == sorted.insert(at, e));
    }
}

/// Puts `e` into `out` behind every entry of its date or of an earlier one.
fn insert_by_date(out: &mut Vec<Entry>, e: Entry)
    ensures
        entry_views(final(out)@) == inserted(entry_views(old(out)@), e@),
{
    let mut at: usize = out.len();
    while at > 0 && !out[at - 1].date.le(&e.date)
        invariant
            at <= out.len(),
            out@ == old(out)@,
            forall|i: int| at <= i < out.len() ==> !out@[i].date.on_or_before(e.date),
        decreases at,
    {
        at -= 1;
    }
    proof {
        lemma_inserted_at(entry_views(out@), e@, at as int);
    }
    out.insert(at, e);
    assert(entry_views(out@) == entry_views(old(out)@).insert(at as int, e@));
}

/// Orders `entries` by date; entries of one date keep their order.
pub fn sort_by_date(entries: Vec<Entry>) -> (r: Vec<Entry>)
    ensures
        entry_views(r@) == sorted_by_date(entry_views(entries@)),
{
    let ghost all = entry_views(entries@);
    let mut entries = entries;
    let mut reversed: Vec<Entry> = Vec::new();
    while entries.len() > 0
        invariant
            entries.len() <= all.len(),
            entry_views(entries@) == all.take(entries.len() as int),
            reversed.len() == all.len() - entries.len(),
            forall|j: int| 0 <= j < reversed.len() ==> reversed@[j]@ == all[all.len() - 1 - j],
        decreases entries.len(),
    {
        let e = entries.pop().unwrap();
        assert(e@ == all.take(entries.len() + 1)[entries.len() as int]);
        reversed.push(e);
        assert(entry_views(entries@) == all.take(entries.len() as int));
    }
    let mut out: Vec<Entry> = Vec::new();
    assert(all.take(0) == Seq::<(Date, Seq<u8>)>::empty());
    while reversed.len() > 0
        invariant
            reversed.len() <= all.len(),
            forall|j: int| 0 <= j < reversed.len() ==> reversed@[j]@ == all[all.len() - 1 - j],
            entry_views(out@) == sorted_by_date(all.take(all.len() - reversed.len())),
        decreases reversed.len(),
    {
        let ghost done = all.len() - reversed.len();
        let e = reversed.pop().unwrap();
        assert(e@ == all[done]);
        insert_by_date(&mut out, e);
        assert(all.take(done + 1).drop_last() == all.take(done));
    }
    assert(all.take(all.len() as int) == all);
    out
}

/// The entries of all `files` whose date lies between `start` and `end`, in
/// the order of their dates; entries of one date stand in the order of
/// their files.
pub fn collect_entries_in_range(files: &[Vec<u8>], start: Date, end: Date) -> (r: Vec<Entry>)
    ensures
        entry_views(r@) == sorted_by_date(gathered(file_views(files@), start, end)),
{
    let mut found: Vec<Entry> = Vec::new();
    let mut i: usize = 0;
    while i < files.len()
        invariant
            i <= files.len(),
            entry_views(found@) == gathered(file_views(files@).take(i as int), start, end),
        decreases files.len() - i,
    {
        let mut more = parse_file_entries(files[i].as_slice(), start, end);
        let ghost before = entry_views(found@);
        let ghost added = entry_views(more@);
        found.append(&mut more);
        proof {
            let views = file_views(files@);
            assert(views.take(i + 1).drop_last() == views.take(i as int));
            assert(views.take(i + 1).last() == files@[i as int]@);
            assert(entry_views(found@) == before + added);
        }
        i += 1;
    }
    assert(file_views(files@).take(i as int) == file_views(files@));
    sort_by_date(found)
}

/// Whether a file of this name is a log: its extension is `md`, which is
/// to say that it ends in `.md` behind at least one more byte.
pub open spec fn is_log_name(name: Seq<u8>) -> bool {
    let suffix = utf8(".md"@);
    name.len() > suffix.len() && occurs_at(name, suffix, name.len() - suffix.len())
}

/// Whether the walk over the output directory reads the file of this name.
pub fn is_markdown_name(name: &[u8]) -> (r: bool)
    ensures
        r == is_log_name(name@),
{
    let suffix = ".md".as_bytes();
    name.len() > suffix.len() && matches_at(name, suffix, name.len() - suffix.len())
}

/// Name of the directory, below the output directory, that holds exports.
pub fn exports_dir_name() -> (r: &'static str)
    ensures
        r@ == "exports"@,
{
    "exports"
}

/// Each entry's bytes, a blank line behind each.
pub open spec fn export_body(entries: Seq<(Date, Seq<u8>)>) -> Seq<u8>
    decreases entries.len(),
{
    if entries.len() == 0 {
        Seq::empty()
    } else {
        export_body(entries.drop_last()) + entries.last().1 + utf8("\n\n"@)
    }
}

/// The export of `entries`: a banner that states the range, a rule, and
/// the entries in the order given.
pub open spec fn export_text(start: Date, end: Date, entries: Seq<(Date, Seq<u8>)>) -> Seq<u8> {
    utf8("# Dev Log Export\n\nRange: "@) + start.text() + utf8(" to "@) + end.text() + utf8(
        "\n\n---\n\n"@,
    ) + export_body(entries)
}

/// An export: the name of its file below the exports directory, and its
/// bytes, which replace whatever that file held.
#[derive(Debug)]
pub struct ExportFile {
    pub file_name: Vec<u8>,
    pub contents: Vec<u8>,
}

/// The export of `entries` for the range from `start` to `end`. The file
/// is named by the year in which the range ends.
pub fn write_export(start: Date, end: Date, entries: &[Entry]) -> (r: ExportFile)
    requires
        start.wf(),
        end.wf(),
    ensures
        r.file_name@ == log_file_name(end.year as nat),
        r.contents@ == export_text(start, end, entry_views(entries@)),
{
    let mut out: Vec<u8> = Vec::new();
    push_str(&mut out, "# Dev Log Export\n\nRange: ");
    let from = start.to_text();
    push_bytes(&mut out, from.as_slice());
    push_str(&mut out, " to ");
    let to = end.to_text();
    push_bytes(&mut out, to.as_slice());
    push_str(&mut out, "\n\n---\n\n");
    let ghost banner = out@;
    let mut i: usize = 0;
    while i < entries.len()
        invariant
            i <= entries.len(),
            out@ == banner + export_body(entry_views(entries@).take(i as int)),
        decreases entries.len() - i,
    {
        push_bytes(&mut out, entries[i].text.as_slice());
        push_str(&mut out, "\n\n");
        proof {
            let all = entry_views(entries@);
            assert(all.take(i + 1).drop_last() == all.take(i as int));
            assert(all.take(i + 1).last() == entries@[i as int]@);
        }
        i += 1;
    }
    assert(entry_views(entries@).take(i as int) == entry_views(entries@));
    ExportFile { file_name: year_file_name(end), contents: out }
}

/// The bytes of the brackets of a heading and of the line break.
pub proof fn lemma_fixed_bytes()
    ensures
        utf8("## [["@) == seq![35u8, 35u8, 32u8, 91u8, 91u8],
        utf8("[["@) == seq![91u8, 91u8],
        utf8("]]"@) == seq![93u8, 93u8],
        utf8("\n"@) == seq![10u8],
        utf8("\n\n"@) == seq![10u8, 10u8],
{
    reveal_strlit("## [[");
    reveal_strlit("[[");
    reveal_strlit("]]");
    reveal_strlit("\n");
    reveal_strlit("\n\n");
    is_ascii_chars_encode_utf8("## [["@);
    is_ascii_chars_encode_utf8("[["@);
    is_ascii_chars_encode_utf8("]]"@);
    is_ascii_chars_encode_utf8("\n"@);
    is_ascii_chars_encode_utf8("\n\n"@);
    assert(utf8("## [["@) =~= seq![35u8, 35u8, 32u8, 91u8, 91u8]);
    assert(utf8("[["@) =~= seq![91u8, 91u8]);
    assert(utf8("]]"@) =~= seq![93u8, 93u8]);
    assert(utf8("\n"@) =~= seq![10u8]);
    assert(utf8("\n\n"@) =~= seq![10u8, 10u8]);
}

/// A line ends at the first line break behind its start.
pub proof fn lemma_line_end_is(doc: Seq<u8>, from: int, end: int)
    requires
        0 <= from <= end <= doc.len(),
        forall|i: int| from <= i < end ==> doc[i] != 10,
        end < doc.len() ==> doc[end] == 10,
    ensures
        line_end(doc, from) == end,
    decreases end - from,
{
    if from < end {
        lemma_line_end_is(doc, from + 1, end);
    }
}

} // verus!
