//! What holds of the log editor over one write and over several, and of
//! the order in which the collector returns what it found.

use crate::date::Date;
use crate::markdown::{
    closed_line, commit_lines, commit_section, edited, entry_start, entry_text, has_entry,
    heading_end, inserted, legacy_marker, lemma_fixed_bytes, marker, next_heading, skips,
    sorted_by_date, without_entry, year_header,
};
use crate::text::{
    contains, decimal, find_first, lemma_contains_within, lemma_decimal_digits, lemma_find_from,
    lemma_occurs_within, lemma_utf8_last_byte, occurs_at, utf8,
};
use vstd::prelude::*;
use vstd::utf8::is_ascii_chars_encode_utf8;

verus! {

/// A heading holds the older heading of its date.
pub proof fn lemma_marker_holds_legacy(date: Date)
    ensures
        contains(marker(date), legacy_marker(date)),
{
    lemma_fixed_bytes();
    let m = marker(date);
    let l = legacy_marker(date);
    assert(m.subrange(3, 3 + l.len() as int) =~= l);
    assert(occurs_at(m, l, 3));
}

/// The entry of a day holds the heading of that day, in both forms.
pub proof fn lemma_entry_holds_marker(date: Date, summary: Seq<char>, commits: Seq<Seq<char>>)
    ensures
        occurs_at(entry_text(date, summary, commits), marker(date), 0),
        contains(entry_text(date, summary, commits), legacy_marker(date)),
{
    let block = entry_text(date, summary, commits);
    let m = marker(date);
    let rest = utf8("\n\n"@) + utf8("🛠️ **Summary**\n"@) + utf8(summary) + utf8("\n\n"@)
        + commit_section(commits);
    assert(block =~= Seq::<u8>::empty() + m + rest);
    assert(block.subrange(0, m.len() as int) =~= m);
    lemma_marker_holds_legacy(date);
    lemma_contains_within(Seq::empty(), m, rest, legacy_marker(date));
}

/// A write for a day leaves a document that holds an entry of that day.
pub proof fn lemma_written_has_entry(
    existing: Option<Seq<u8>>,
    date: Date,
    summary: Seq<char>,
    commits: Seq<Seq<char>>,
    overwrite: bool,
)
    ensures
        has_entry(edited(existing, date, entry_text(date, summary, commits), overwrite), date),
{
    let block = entry_text(date, summary, commits);
    lemma_entry_holds_marker(date, summary, commits);
    match existing {
        None => {
            lemma_contains_within(
                year_header(date.year as nat),
                block,
                Seq::empty(),
                legacy_marker(date),
            );
            assert(year_header(date.year as nat) + block + Seq::<u8>::empty() =~= year_header(
                date.year as nat,
            ) + block);
        },
        Some(doc) => {
            if !skips(existing, date, overwrite) {
                let kept = if overwrite {
                    closed_line(without_entry(doc, date))
                } else {
                    closed_line(doc)
                };
                lemma_contains_within(kept, block, Seq::empty(), legacy_marker(date));
                assert(kept + block + Seq::<u8>::empty() =~= kept + block);
            }
        },
    }
}

/// Idempotence. After a write for a day, a second write for that day with
/// no leave to replace is skipped, whatever it would write, and leaves the
/// document byte for byte as the first write left it.
pub proof fn law_second_write_is_skipped(
    existing: Option<Seq<u8>>,
    date: Date,
    first: (Seq<char>, Seq<Seq<char>>),
    second: (Seq<char>, Seq<Seq<char>>),
)
    ensures
        ({
            let once = edited(existing, date, entry_text(date, first.0, first.1), false);
            &&& skips(Some(once), date, false)
            &&& edited(Some(once), date, entry_text(date, second.0, second.1), false) == once
        }),
{
    lemma_written_has_entry(existing, date, first.0, first.1, false);
}

/// The document after one write for `date` per element of `entries`, each
/// a summary and its commits, none with leave to replace.
pub open spec fn written_in_turn(
    existing: Option<Seq<u8>>,
    date: Date,
    entries: Seq<(Seq<char>, Seq<Seq<char>>)>,
) -> Option<Seq<u8>>
    decreases entries.len(),
{
    if entries.len() == 0 {
        existing
    } else {
        Some(
            edited(
                written_in_turn(existing, date, entries.drop_last()),
                date,
                entry_text(date, entries.last().0, entries.last().1),
                false,
            ),
        )
    }
}

/// No duplicates. However many writes for one day follow one another with
/// no leave to replace, the document is what the first of them left: the
/// day's entry is added at most once, and never where the document held
/// it before.
pub proof fn law_entry_is_never_duplicated(
    existing: Option<Seq<u8>>,
    date: Date,
    entries: Seq<(Seq<char>, Seq<Seq<char>>)>,
)
    requires
        entries.len() >= 1,
    ensures
        written_in_turn(existing, date, entries) == Some(
            edited(existing, date, entry_text(date, entries[0].0, entries[0].1), false),
        ),
        existing matches Some(doc) ==> has_entry(doc, date) ==> written_in_turn(
            existing,
            date,
            entries,
        ) == existing,
    decreases entries.len(),
{
    if entries.len() == 1 {
        assert(entries.drop_last().len() == 0);
        assert(written_in_turn(existing, date, entries.drop_last()) == existing);
    } else {
        law_entry_is_never_duplicated(existing, date, entries.drop_last());
        assert(entries.drop_last()[0] == entries[0]);
        law_second_write_is_skipped(existing, date, entries[0], entries.last());
    }
}

/// Overwrite, for an entry that another follows. Where the entry of `date`
/// is `old`, between `before` and `after`, and `after` begins with the
/// next heading, replacing it keeps `before` and `after` byte for byte
/// and in their order, and puts the new block at the end.
pub proof fn law_overwrite_keeps_the_rest(
    before: Seq<u8>,
    old: Seq<u8>,
    after: Seq<u8>,
    date: Date,
    block: Seq<u8>,
)
    requires
        entry_start(before + old + after, date) == Some(before.len() as int),
        next_heading(before + old + after, heading_end(before + old + after, date)) == Some(
            (before.len() + old.len()) as int,
        ),
    ensures
        edited(Some(before + old + after), date, block, true) == closed_line(before + after)
            + block,
{
    let doc = before + old + after;
    assert(doc.subrange(0, before.len() as int) =~= before);
    assert(doc.subrange((before.len() + old.len()) as int, doc.len() as int) =~= after);
}

/// Overwrite, for the last entry. Where the entry of `date` is `old`,
/// behind `before`, and no heading follows, replacing it keeps `before`
/// byte for byte and puts the new block behind it.
pub proof fn law_overwrite_last_keeps_the_rest(
    before: Seq<u8>,
    old: Seq<u8>,
    date: Date,
    block: Seq<u8>,
)
    requires
        entry_start(before + old, date) == Some(before.len() as int),
        next_heading(before + old, heading_end(before + old, date)) is None,
    ensures
        edited(Some(before + old), date, block, true) == closed_line(before) + block,
{
    let doc = before + old;
    assert(doc.subrange(0, before.len() as int) =~= before);
    assert(closed_line(closed_line(before)) == closed_line(before));
}

/// A write that replaces touches nothing where the day has no entry yet.
pub proof fn law_overwrite_without_entry_appends(doc: Seq<u8>, date: Date, block: Seq<u8>)
    requires
        !has_entry(doc, date),
    ensures
        edited(Some(doc), date, block, true) == edited(Some(doc), date, block, false),
        edited(Some(doc), date, block, true) == closed_line(doc) + block,
{
    lemma_find_from(doc, marker(date), 0);
    lemma_find_from(doc, legacy_marker(date), 0);
    if find_first(doc, marker(date)) is Some {
        let at = find_first(doc, marker(date)).unwrap();
        lemma_marker_holds_legacy(date);
        let inner = choose|k: int| occurs_at(marker(date), legacy_marker(date), k);
        lemma_occurs_within(doc, marker(date), at, legacy_marker(date), inner);
    }
}

/// The text ends in exactly one blank line.
pub open spec fn one_blank_line_at_end(doc: Seq<u8>) -> bool {
    &&& doc.len() >= 3
    &&& doc[doc.len() - 1] == 10
    &&& doc[doc.len() - 2] == 10
    &&& doc[doc.len() - 3] != 10
}

/// No commit subject ends in a line break.
pub open spec fn subjects_end_within_line(commits: Seq<Seq<char>>) -> bool {
    forall|i: int|
        0 <= i < commits.len() ==> (#[trigger] commits[i]).len() == 0 || commits[i].last() != '\n'
}

/// The front matter of a new document ends in exactly one blank line.
pub proof fn lemma_header_ends_in_blank_line(year: nat)
    ensures
        one_blank_line_at_end(year_header(year)),
{
    lemma_fixed_bytes();
    lemma_decimal_digits(year);
    let head = utf8("---\ntype: devlog\nyear: "@) + decimal(year) + utf8(
        "\n---\n\n# Dev Log – "@,
    ) + decimal(year);
    assert(year_header(year) == head + utf8("\n\n"@));
    assert(head.last() == decimal(year).last());
}

/// An entry begins with its heading and, where no commit subject ends in a
/// line break, ends in exactly one blank line.
pub proof fn lemma_entry_shape(date: Date, summary: Seq<char>, commits: Seq<Seq<char>>)
    requires
        subjects_end_within_line(commits),
    ensures
        entry_text(date, summary, commits)[0] == 35,
        one_blank_line_at_end(entry_text(date, summary, commits)),
{
    lemma_fixed_bytes();
    lemma_entry_holds_marker(date, summary, commits);
    let block = entry_text(date, summary, commits);
    let head = marker(date) + utf8("\n\n"@) + utf8("🛠️ **Summary**\n"@) + utf8(summary) + utf8(
        "\n\n"@,
    );
    assert(block[0] == marker(date)[0]) by {
        assert(block.subrange(0, marker(date).len() as int)[0] == block[0]);
    }
    if commits.len() == 0 {
        let words = utf8("🛑 **Commits**  \nNo commits for this day."@);
        reveal_strlit("🛑 **Commits**  \nNo commits for this day.");
        lemma_utf8_last_byte("🛑 **Commits**  \nNo commits for this day."@);
        assert(block =~= (head + words) + utf8("\n\n"@));
        assert((head + words).last() == words.last());
    } else {
        let title = utf8("📦 **Commits**\n"@);
        let subject = commits.last();
        let line = utf8("- "@) + utf8(subject);
        reveal_strlit("- ");
        is_ascii_chars_encode_utf8("- "@);
        assert(line.len() >= 2);
        assert(line.last() != 10) by {
            if subject.len() == 0 {
                assert(utf8(subject) =~= Seq::<u8>::empty());
                assert(line =~= utf8("- "@));
                assert(utf8("- "@)[1] == 32);
            } else {
                lemma_utf8_last_byte(subject);
                assert(subject == commits[commits.len() - 1]);
                if subject.last() as u32 == 10 {
                    vstd::utf8::char_u32_cast(subject.last(), 10u32);
                    vstd::utf8::char_u32_cast('\n', 10u32);
                }
                assert(line.last() == utf8(subject).last());
            }
        }
        let list_head = head + title + commit_lines(commits.drop_last()) + line;
        assert(commit_lines(commits) == commit_lines(commits.drop_last()) + utf8("- "@) + utf8(
            subject,
        ) + utf8("\n"@));
        assert(block =~= list_head + utf8("\n"@) + utf8("\n"@));
        assert(list_head.last() == line.last());
    }
}

/// Spacing. A document that ends in exactly one blank line gets a new
/// entry directly behind it: the write puts nothing between them, so that
/// one blank line, no more and no less, stands before the new heading;
/// and the document again ends in exactly one blank line.
pub proof fn law_one_blank_line_between_entries(
    doc: Seq<u8>,
    date: Date,
    summary: Seq<char>,
    commits: Seq<Seq<char>>,
)
    requires
        one_blank_line_at_end(doc),
        !has_entry(doc, date),
        subjects_end_within_line(commits),
    ensures
        ({
            let block = entry_text(date, summary, commits);
            let after = edited(Some(doc), date, block, false);
            &&& after == doc + block
            &&& after[doc.len() as int] == 35
            &&& one_blank_line_at_end(after)
        }),
{
    lemma_entry_shape(date, summary, commits);
}

/// A new document ends in exactly one blank line after its first entry.
pub proof fn law_new_document_ends_in_blank_line(
    date: Date,
    summary: Seq<char>,
    commits: Seq<Seq<char>>,
)
    requires
        subjects_end_within_line(commits),
    ensures
        one_blank_line_at_end(edited(None, date, entry_text(date, summary, commits), false)),
        one_blank_line_at_end(year_header(date.year as nat)),
{
    lemma_entry_shape(date, summary, commits);
    lemma_header_ends_in_blank_line(date.year as nat);
}

/// One header. Three entries written one after the other into a document
/// that did not exist, each for a day that the document does not hold yet,
/// leave the front matter of the first day's year once, at the start, and
/// the three entries behind it in the order of the writes.
pub proof fn law_header_is_written_once(
    first: (Date, Seq<char>, Seq<Seq<char>>),
    second: (Date, Seq<char>, Seq<Seq<char>>),
    third: (Date, Seq<char>, Seq<Seq<char>>),
)
    requires
        !has_entry(edited(None, first.0, entry_text(first.0, first.1, first.2), false), second.0),
        !has_entry(
            edited(
                Some(edited(None, first.0, entry_text(first.0, first.1, first.2), false)),
                second.0,
                entry_text(second.0, second.1, second.2),
                false,
            ),
            third.0,
        ),
    ensures
        ({
            let one = edited(None, first.0, entry_text(first.0, first.1, first.2), false);
            let two = edited(Some(one), second.0, entry_text(second.0, second.1, second.2), false);
            let three = edited(Some(two), third.0, entry_text(third.0, third.1, third.2), false);
            three == year_header(first.0.year as nat) + entry_text(first.0, first.1, first.2)
                + entry_text(second.0, second.1, second.2) + entry_text(
                third.0,
                third.1,
                third.2,
            )
        }),
{
    lemma_entry_ends_in_line_break(first.0, first.1, first.2);
    lemma_entry_ends_in_line_break(second.0, second.1, second.2);
}

/// An entry ends in a line break.
pub proof fn lemma_entry_ends_in_line_break(
    date: Date,
    summary: Seq<char>,
    commits: Seq<Seq<char>>,
)
    ensures
        entry_text(date, summary, commits).len() > 0,
        entry_text(date, summary, commits).last() == 10,
        forall|doc: Seq<u8>|
            closed_line(#[trigger] (doc + entry_text(date, summary, commits))) == doc + entry_text(
                date,
                summary,
                commits,
            ),
{
    lemma_fixed_bytes();
    let block = entry_text(date, summary, commits);
    let head = marker(date) + utf8("\n\n"@) + utf8("🛠️ **Summary**\n"@) + utf8(summary) + utf8(
        "\n\n"@,
    );
    if commits.len() == 0 {
        let words = utf8("🛑 **Commits**  \nNo commits for this day."@);
        assert(block =~= (head + words) + utf8("\n\n"@));
    } else {
        let list = head + utf8("📦 **Commits**\n"@) + commit_lines(commits);
        assert(block =~= list + utf8("\n"@));
    }
    assert forall|doc: Seq<u8>|
        closed_line(#[trigger] (doc + block)) == doc + block by {
        assert((doc + block).last() == block.last());
    }
}

/// Every entry stands before all entries of a later day.
pub open spec fn in_date_order(items: Seq<(Date, Seq<u8>)>) -> bool {
    forall|i: int, j: int|
        0 <= i < j < items.len() ==> (#[trigger] items[i]).0.on_or_before((#[trigger] items[j]).0)
}

/// What `inserted` does to entries in date order: they stay in date order,
/// with the new entry among them.
proof fn lemma_inserted(sorted: Seq<(Date, Seq<u8>)>, e: (Date, Seq<u8>))
    requires
        in_date_order(sorted),
    ensures
        in_date_order(inserted(sorted, e)),
        inserted(sorted, e).len() == sorted.len() + 1,
        inserted(sorted, e).to_multiset() == sorted.to_multiset().insert(e),
        forall|k: int|
            0 <= k < inserted(sorted, e).len() ==> #[trigger] inserted(sorted, e)[k] == e || (
            exists|m: int| 0 <= m < sorted.len() && sorted[m] == inserted(sorted, e)[k]),
    decreases sorted.len(),
{
    let out = inserted(sorted, e);
    if sorted.len() == 0 || sorted.last().0.on_or_before(e.0) {
        vstd::seq_lib::to_multiset_build(sorted, e);
        assert forall|i: int, j: int| 0 <= i < j < out.len() implies (#[trigger] out[i]).0.on_or_before(
            (#[trigger] out[j]).0,
        ) by {
            if j == sorted.len() {
                assert(out[i] == sorted[i]);
                assert(sorted[i].0.on_or_before(sorted.last().0) || i == sorted.len() - 1);
            } else {
                assert(out[i] == sorted[i] && out[j] == sorted[j]);
            }
        }
        assert forall|k: int| 0 <= k < out.len() implies #[trigger] out[k] == e || (exists|m: int|
            0 <= m < sorted.len() && sorted[m] == out[k]) by {
            if k < sorted.len() {
                assert(sorted[k] == out[k]);
            }
        }
    } else {
        let rest = sorted.drop_last();
        let last = sorted.last();
        assert forall|i: int, j: int| 0 <= i < j < rest.len() implies (#[trigger] rest[i]).0.on_or_before(
            (#[trigger] rest[j]).0,
        ) by {
            assert(rest[i] == sorted[i] && rest[j] == sorted[j]);
        }
        lemma_inserted(rest, e);
        let inner = inserted(rest, e);
        vstd::seq_lib::to_multiset_build(inner, last);
        vstd::seq_lib::to_multiset_build(rest, last);
        assert(rest.push(last) == sorted);
        assert(rest.to_multiset().insert(e).insert(last) =~= rest.to_multiset().insert(
            last,
        ).insert(e));
        assert forall|i: int, j: int| 0 <= i < j < out.len() implies (#[trigger] out[i]).0.on_or_before(
            (#[trigger] out[j]).0,
        ) by {
            if j == inner.len() {
                assert(out[i] == inner[i]);
                if inner[i] != e {
                    let m = choose|m: int| 0 <= m < rest.len() && rest[m] == inner[i];
                    assert(sorted[m] == rest[m]);
                    assert(sorted[m].0.on_or_before(sorted[sorted.len() - 1].0));
                }
            } else {
                assert(out[i] == inner[i] && out[j] == inner[j]);
            }
        }
        assert forall|k: int| 0 <= k < out.len() implies #[trigger] out[k] == e || (exists|m: int|
            0 <= m < sorted.len() && sorted[m] == out[k]) by {
            if k < inner.len() {
                assert(out[k] == inner[k]);
                if inner[k] != e {
                    let m = choose|m: int| 0 <= m < rest.len() && rest[m] == inner[k];
                    assert(sorted[m] == rest[m]);
                }
            } else {
                assert(out[k] == sorted[sorted.len() - 1]);
            }
        }
    }
}

/// Order. What the collector returns stands in the order of the dates and
/// holds each entry found as often as it was found.
pub proof fn law_sorted_by_date(items: Seq<(Date, Seq<u8>)>)
    ensures
        in_date_order(sorted_by_date(items)),
        sorted_by_date(items).len() == items.len(),
        sorted_by_date(items).to_multiset() == items.to_multiset(),
    decreases items.len(),
{
    if items.len() > 0 {
        law_sorted_by_date(items.drop_last());
        lemma_inserted(sorted_by_date(items.drop_last()), items.last());
        vstd::seq_lib::to_multiset_build(items.drop_last(), items.last());
        assert(items.drop_last().push(items.last()) == items);
    }
}

/// Stability. The entries of one day stand in what the collector returns
/// in the order in which they were found.
pub proof fn law_sort_keeps_order_within_a_day(items: Seq<(Date, Seq<u8>)>, date: Date)
    ensures
        sorted_by_date(items).filter(|e: (Date, Seq<u8>)| e.0 == date) == items.filter(
            |e: (Date, Seq<u8>)| e.0 == date,
        ),
    decreases items.len(),
{
    let of_day = |e: (Date, Seq<u8>)| e.0 == date;
    if items.len() > 0 {
        law_sort_keeps_order_within_a_day(items.drop_last(), date);
        lemma_inserted_of_day(sorted_by_date(items.drop_last()), items.last(), date);
        lemma_filter_push(items.drop_last(), items.last(), of_day);
        assert(items.drop_last().push(items.last()) == items);
    }
}

/// Filtering a sequence with one more element.
proof fn lemma_filter_push<A>(s: Seq<A>, a: A, pred: spec_fn(A) -> bool)
    ensures
        s.push(a).filter(pred) == (if pred(a) {
            s.filter(pred).push(a)
        } else {
            s.filter(pred)
        }),
{
    reveal(Seq::filter);
    assert(s.push(a).drop_last() == s);
}

/// What `inserted` does to the entries of one day: the new entry stands
/// behind them where it is of that day.
proof fn lemma_inserted_of_day(sorted: Seq<(Date, Seq<u8>)>, e: (Date, Seq<u8>), date: Date)
    ensures
        inserted(sorted, e).filter(|x: (Date, Seq<u8>)| x.0 == date) == (if e.0 == date {
            sorted.filter(|x: (Date, Seq<u8>)| x.0 == date).push(e)
        } else {
            sorted.filter(|x: (Date, Seq<u8>)| x.0 == date)
        }),
    decreases sorted.len(),
{
    let of_day = |x: (Date, Seq<u8>)| x.0 == date;
    if sorted.len() == 0 || sorted.last().0.on_or_before(e.0) {
        lemma_filter_push(sorted, e, of_day);
    } else {
        let rest = sorted.drop_last();
        let last = sorted.last();
        lemma_inserted_of_day(rest, e, date);
        lemma_filter_push(inserted(rest, e), last, of_day);
        lemma_filter_push(rest, last, of_day);
        assert(rest.push(last) == sorted);
    }
}

} // verus!
