//! Logs as the editor builds them: a head and dated blocks. Where the
//! headings of such a log stand, what a replacing write leaves of it, and
//! what the collector reads back from it.

use crate::date::{lemma_parse_text, Date};
use crate::laws::{law_overwrite_without_entry_appends, lemma_marker_holds_legacy};
use crate::markdown::{
    closed_entry, closed_line, commit_lines, commit_section, edited, entries, entries_from,
    entry_start, entry_text, has_entry, header_date, heading_end, legacy_marker, lemma_fixed_bytes,
    lemma_line_end, lemma_line_end_is, line_at, line_end, marker, next_heading, next_line, skips,
    without_entry, year_header,
};
use crate::text::{
    decimal, find_from, lemma_decimal_digits, lemma_find_from, lemma_find_from_is,
    lemma_occurs_within, occurs_at, utf8,
};
use vstd::prelude::*;
use vstd::utf8::{
    encode_scalar, encode_utf8, has_width_1_encoding, last_continuation_byte,
    leading_byte_width_1, leading_byte_width_2, leading_byte_width_3, leading_byte_width_4,
    second_last_continuation_byte, third_last_continuation_byte,
};

verus! {

/// No byte is an opening square bracket.
pub open spec fn bracket_free(s: Seq<u8>) -> bool {
    forall|i: int| 0 <= i < s.len() ==> #[trigger] s[i] != 91
}

/// No two opening square brackets stand side by side.
pub open spec fn pairless(s: Seq<u8>) -> bool {
    forall|i: int| 0 <= i && i + 1 < s.len() ==> !(#[trigger] s[i] == 91 && s[i + 1] == 91)
}

/// No character is an opening square bracket.
pub open spec fn bare(s: Seq<char>) -> bool {
    forall|i: int| 0 <= i < s.len() ==> #[trigger] s[i] != '['
}

/// No two opening square brackets stand side by side: the text holds no
/// `[[`.
pub open spec fn plain(s: Seq<char>) -> bool {
    forall|i: int| 0 <= i && i + 1 < s.len() ==> !(#[trigger] s[i] == '[' && s[i + 1] == '[')
}

/// None of the texts holds `[[`.
pub open spec fn all_plain(items: Seq<Seq<char>>) -> bool {
    forall|i: int| 0 <= i < items.len() ==> plain(#[trigger] items[i])
}

/// A byte of a character's encoding that is ASCII is the character.
pub proof fn lemma_scalar_ascii_bytes(c: char)
    ensures
        forall|i: int|
            0 <= i < encode_scalar(c as u32).len() && (#[trigger] encode_scalar(c as u32)[i]) < 128
                ==> encode_scalar(c as u32)[i] == c as u32,
{
    let v = c as u32;
    if has_width_1_encoding(v) {
        assert(leading_byte_width_1(v) == v) by (bit_vector)
            requires
                v <= 0x7F,
        ;
    } else {
        assert(leading_byte_width_2(v) >= 128) by (bit_vector);
        assert(leading_byte_width_3(v) >= 128) by (bit_vector);
        assert(leading_byte_width_4(v) >= 128) by (bit_vector);
        assert(last_continuation_byte(v) >= 128) by (bit_vector);
        assert(second_last_continuation_byte(v) >= 128) by (bit_vector);
        assert(third_last_continuation_byte(v) >= 128) by (bit_vector);
    }
}

/// A character is an opening square bracket where a byte of it is one.
proof fn lemma_bracket_byte(c: char, i: int)
    requires
        0 <= i < encode_scalar(c as u32).len(),
        encode_scalar(c as u32)[i] == 91,
    ensures
        c == '[',
        encode_scalar(c as u32).len() == 1,
{
    lemma_scalar_ascii_bytes(c);
    vstd::utf8::char_u32_cast(c, 91u32);
    vstd::utf8::char_u32_cast('[', 91u32);
}

/// A text without an opening square bracket has none among its bytes.
pub proof fn lemma_bare_text_is_bracket_free(s: Seq<char>)
    requires
        bare(s),
    ensures
        bracket_free(utf8(s)),
    decreases s.len(),
{
    if s.len() > 0 {
        let first = encode_scalar(s[0] as u32);
        let rest = s.drop_first();
        assert(bare(rest)) by {
            assert forall|i: int| 0 <= i < rest.len() implies #[trigger] rest[i] != '[' by {
                assert(rest[i] == s[i + 1]);
            }
        }
        lemma_bare_text_is_bracket_free(rest);
        assert(utf8(s) == first + encode_utf8(rest));
        assert forall|i: int| 0 <= i < utf8(s).len() implies #[trigger] utf8(s)[i] != 91 by {
            if i < first.len() {
                assert(utf8(s)[i] == first[i]);
                if first[i] == 91 {
                    lemma_bracket_byte(s[0], i);
                }
            } else {
                assert(utf8(s)[i] == encode_utf8(rest)[i - first.len()]);
            }
        }
    }
}

/// The first byte of a text is an opening square bracket only where its
/// first character is one.
proof fn lemma_first_byte(s: Seq<char>)
    requires
        s.len() > 0,
    ensures
        utf8(s).len() > 0,
        utf8(s)[0] == 91 ==> s[0] == '[',
{
    let first = encode_scalar(s[0] as u32);
    crate::text::lemma_scalar_last_byte(s[0]);
    assert(utf8(s) == first + encode_utf8(s.drop_first()));
    assert(utf8(s)[0] == first[0]);
    if first[0] == 91 {
        lemma_bracket_byte(s[0], 0);
    }
}

/// A text that holds no `[[` holds none among its bytes.
pub proof fn lemma_plain_text_is_pairless(s: Seq<char>)
    requires
        plain(s),
    ensures
        pairless(utf8(s)),
    decreases s.len(),
{
    if s.len() > 0 {
        let first = encode_scalar(s[0] as u32);
        let rest = s.drop_first();
        assert(plain(rest)) by {
            assert forall|i: int| 0 <= i && i + 1 < rest.len() implies !(#[trigger] rest[i] == '['
                && rest[i + 1] == '[') by {
                assert(rest[i] == s[i + 1] && rest[i + 1] == s[i + 2]);
            }
        }
        lemma_plain_text_is_pairless(rest);
        crate::text::lemma_scalar_last_byte(s[0]);
        let tail = encode_utf8(rest);
        assert(utf8(s) == first + tail);
        assert forall|i: int| 0 <= i && i + 1 < utf8(s).len() implies !(#[trigger] utf8(s)[i] == 91
            && utf8(s)[i + 1] == 91) by {
            if utf8(s)[i] == 91 && utf8(s)[i + 1] == 91 {
                if i >= first.len() {
                    assert(utf8(s)[i] == tail[i - first.len()]);
                    assert(utf8(s)[i + 1] == tail[i - first.len() + 1]);
                } else {
                    assert(utf8(s)[i] == first[i]);
                    lemma_bracket_byte(s[0], i);
                    assert(utf8(s)[i + 1] == tail[0]);
                    lemma_first_byte(rest);
                    assert(rest[0] == s[1]);
                }
            }
        }
    }
}

/// A text without an opening square bracket holds no `[[`.
pub proof fn lemma_bracket_free_is_pairless(a: Seq<u8>)
    requires
        bracket_free(a),
    ensures
        pairless(a),
{
}

/// Joining texts without an opening square bracket gives such a text.
pub proof fn lemma_bracket_free_concat(a: Seq<u8>, b: Seq<u8>)
    requires
        bracket_free(a),
        bracket_free(b),
    ensures
        bracket_free(a + b),
{
    assert forall|i: int| 0 <= i < (a + b).len() implies #[trigger] (a + b)[i] != 91 by {
        if i < a.len() {
            assert((a + b)[i] == a[i]);
        } else {
            assert((a + b)[i] == b[i - a.len()]);
        }
    }
}

/// Joining texts that hold no `[[` gives such a text, unless the first
/// ends and the second begins with an opening square bracket.
pub proof fn lemma_pairless_concat(a: Seq<u8>, b: Seq<u8>)
    requires
        pairless(a),
        pairless(b),
        a.len() == 0 || b.len() == 0 || a.last() != 91 || b[0] != 91,
    ensures
        pairless(a + b),
{
    assert forall|i: int| 0 <= i && i + 1 < (a + b).len() implies !(#[trigger] (a + b)[i] == 91 && (
    a + b)[i + 1] == 91) by {
        if i + 1 < a.len() {
            assert((a + b)[i] == a[i] && (a + b)[i + 1] == a[i + 1]);
        } else if i >= a.len() {
            assert((a + b)[i] == b[i - a.len()] && (a + b)[i + 1] == b[i - a.len() + 1]);
        } else {
            assert((a + b)[i] == a[i] && (a + b)[i + 1] == b[0]);
        }
    }
}

/// The bytes of a heading: `## [[`, ten of digits and hyphens, `]]`.
pub proof fn lemma_marker_bytes(date: Date)
    requires
        date.wf(),
    ensures
        marker(date).len() == 17,
        marker(date)[0] == 35,
        marker(date)[1] == 35,
        marker(date)[2] == 32,
        marker(date)[3] == 91,
        marker(date)[4] == 91,
        marker(date)[15] == 93,
        marker(date)[16] == 93,
        forall|i: int| 5 <= i < 15 ==> 45 <= #[trigger] marker(date)[i] <= 57,
        marker(date).subrange(5, 15) == date.text(),
{
    lemma_fixed_bytes();
    lemma_parse_text(date);
    let m = marker(date);
    let t = date.text();
    assert(m.len() == 17);
    assert(m.subrange(5, 15) =~= t);
    assert forall|i: int| 5 <= i < 15 implies 45 <= #[trigger] m[i] <= 57 by {
        assert(m[i] == t[i - 5]);
    }
}

/// What follows the heading in the entry of a day.
pub open spec fn entry_tail(summary: Seq<char>, commits: Seq<Seq<char>>) -> Seq<u8> {
    utf8("\n\n"@) + utf8("🛠️ **Summary**\n"@) + utf8(summary) + utf8("\n\n"@) + commit_section(
        commits,
    )
}

/// An entry is its heading and its tail.
pub proof fn lemma_entry_is_block(date: Date, summary: Seq<char>, commits: Seq<Seq<char>>)
    ensures
        entry_text(date, summary, commits) == marker(date) + entry_tail(summary, commits),
{
    assert(entry_text(date, summary, commits) =~= marker(date) + entry_tail(summary, commits));
}

/// The fixed words of an entry hold no opening square bracket.
proof fn lemma_fixed_words_are_bare()
    ensures
        bracket_free(utf8("\n\n"@)),
        bracket_free(utf8("\n"@)),
        bracket_free(utf8("- "@)),
        bracket_free(utf8("🛠️ **Summary**\n"@)),
        bracket_free(utf8("🛑 **Commits**  \nNo commits for this day."@)),
        bracket_free(utf8("📦 **Commits**\n"@)),
{
    reveal_strlit("\n\n");
    reveal_strlit("\n");
    reveal_strlit("- ");
    reveal_strlit("🛠️ **Summary**\n");
    reveal_strlit("🛑 **Commits**  \nNo commits for this day.");
    reveal_strlit("📦 **Commits**\n");
    lemma_bare_text_is_bracket_free("\n\n"@);
    lemma_bare_text_is_bracket_free("\n"@);
    lemma_bare_text_is_bracket_free("- "@);
    lemma_bare_text_is_bracket_free("🛠️ **Summary**\n"@);
    lemma_bare_text_is_bracket_free("🛑 **Commits**  \nNo commits for this day."@);
    lemma_bare_text_is_bracket_free("📦 **Commits**\n"@);
}

/// A text that holds no `[[`, between two texts without an opening square
/// bracket, gives a text that holds no `[[`.
proof fn lemma_pairless_between(a: Seq<u8>, b: Seq<u8>, c: Seq<u8>)
    requires
        bracket_free(a),
        pairless(b),
        bracket_free(c),
    ensures
        pairless(a + b + c),
{
    lemma_bracket_free_is_pairless(a);
    lemma_bracket_free_is_pairless(c);
    lemma_pairless_concat(a, b);
    lemma_pairless_concat(a + b, c);
}

/// The list of commits holds no `[[` where no subject does, and ends in a
/// line break where there is a commit.
proof fn lemma_commit_lines_are_plain(commits: Seq<Seq<char>>)
    requires
        all_plain(commits),
    ensures
        pairless(commit_lines(commits)),
        commits.len() > 0 ==> commit_lines(commits).len() > 0 && commit_lines(commits).last()
            == 10,
    decreases commits.len(),
{
    if commits.len() > 0 {
        lemma_fixed_words_are_bare();
        lemma_fixed_bytes();
        let rest = commits.drop_last();
        assert(all_plain(rest)) by {
            assert forall|i: int| 0 <= i < rest.len() implies plain(#[trigger] rest[i]) by {
                assert(rest[i] == commits[i]);
            }
        }
        lemma_commit_lines_are_plain(rest);
        assert(plain(commits[commits.len() - 1]));
        lemma_plain_text_is_pairless(commits.last());
        let line = utf8("- "@) + utf8(commits.last()) + utf8("\n"@);
        lemma_pairless_between(utf8("- "@), utf8(commits.last()), utf8("\n"@));
        reveal_strlit("- ");
        vstd::utf8::is_ascii_chars_encode_utf8("- "@);
        assert(line[0] == utf8("- "@)[0]);
        assert(line.last() == 10);
        lemma_pairless_concat(commit_lines(rest), line);
        assert(commit_lines(commits) =~= commit_lines(rest) + line);
    }
}

/// The tail of an entry begins and ends with a line break, and holds no
/// `[[` where neither the summary nor a commit subject does.
pub proof fn lemma_entry_tail(summary: Seq<char>, commits: Seq<Seq<char>>)
    requires
        plain(summary),
        all_plain(commits),
    ensures
        pairless(entry_tail(summary, commits)),
        entry_tail(summary, commits).len() >= 2,
        entry_tail(summary, commits)[0] == 10,
        entry_tail(summary, commits).last() == 10,
{
    lemma_fixed_words_are_bare();
    lemma_fixed_bytes();
    lemma_plain_text_is_pairless(summary);
    lemma_commit_lines_are_plain(commits);
    let a = utf8("\n\n"@);
    let b = utf8("🛠️ **Summary**\n"@);
    let c = utf8(summary);
    let section = commit_section(commits);
    if commits.len() == 0 {
        lemma_bracket_free_concat(utf8("🛑 **Commits**  \nNo commits for this day."@), a);
        lemma_bracket_free_is_pairless(section);
    } else {
        lemma_pairless_between(utf8("📦 **Commits**\n"@), commit_lines(commits), utf8("\n"@));
    }
    assert(section.len() > 0 && section.last() == 10);
    lemma_bracket_free_concat(a, b);
    lemma_pairless_between(a + b, c, a);
    let front = a + b + c + a;
    assert(front.last() == a.last());
    lemma_pairless_concat(front, section);
    let tail = entry_tail(summary, commits);
    assert(tail =~= front + section);
    assert(tail[0] == a[0]);
    assert(tail.last() == section.last());
}

/// A block of a log: the heading of its day, then its tail.
pub open spec fn block(b: (Date, Seq<u8>)) -> Seq<u8> {
    marker(b.0) + b.1
}

/// The blocks one behind the other.
pub open spec fn blocks_text(blocks: Seq<(Date, Seq<u8>)>) -> Seq<u8>
    decreases blocks.len(),
{
    if blocks.len() == 0 {
        Seq::empty()
    } else {
        blocks_text(blocks.drop_last()) + block(blocks.last())
    }
}

/// The log that begins with `head` and goes on with `blocks`.
pub open spec fn log_of(head: Seq<u8>, blocks: Seq<(Date, Seq<u8>)>) -> Seq<u8> {
    head + blocks_text(blocks)
}

/// Offset of the block `i` in the log.
pub open spec fn block_start(head: Seq<u8>, blocks: Seq<(Date, Seq<u8>)>, i: int) -> int {
    (head.len() + blocks_text(blocks.take(i)).len()) as int
}

/// The only `[[` of the log are those of its headings: there is none in
/// the head and none in a tail, and every day is a day of the calendar.
pub open spec fn tidy(head: Seq<u8>, blocks: Seq<(Date, Seq<u8>)>) -> bool {
    &&& pairless(head)
    &&& forall|i: int|
        0 <= i < blocks.len() ==> (#[trigger] blocks[i]).0.wf() && pairless(blocks[i].1)
}

/// No two blocks are of one day.
pub open spec fn days_differ(blocks: Seq<(Date, Seq<u8>)>) -> bool {
    forall|i: int, j: int|
        0 <= i < j < blocks.len() ==> (#[trigger] blocks[i]).0 != (#[trigger] blocks[j]).0
}

/// Blocks behind blocks.
pub proof fn lemma_blocks_text_concat(a: Seq<(Date, Seq<u8>)>, b: Seq<(Date, Seq<u8>)>)
    ensures
        blocks_text(a + b) == blocks_text(a) + blocks_text(b),
    decreases b.len(),
{
    if b.len() == 0 {
        assert(a + b == a);
        assert(blocks_text(a) + blocks_text(b) =~= blocks_text(a));
    } else {
        lemma_blocks_text_concat(a, b.drop_last());
        assert((a + b).drop_last() == a + b.drop_last());
        assert((a + b).last() == b.last());
        assert(blocks_text(a + b) =~= blocks_text(a) + blocks_text(b));
    }
}

/// One block alone.
proof fn lemma_blocks_text_one(b: (Date, Seq<u8>))
    ensures
        blocks_text(seq![b]) == block(b),
{
    let one = seq![b];
    assert(one.drop_last() =~= Seq::<(Date, Seq<u8>)>::empty());
    assert(blocks_text(one.drop_last()) =~= Seq::<u8>::empty());
    assert(one.last() == b);
    assert(Seq::<u8>::empty() + block(b) =~= block(b));
}

/// The blocks in three parts: those before block `i`, that block, and
/// those behind it.
proof fn lemma_blocks_split(blocks: Seq<(Date, Seq<u8>)>, i: int)
    requires
        0 <= i < blocks.len(),
    ensures
        blocks_text(blocks) == blocks_text(blocks.take(i)) + block(blocks[i]) + blocks_text(
            blocks.skip(i + 1),
        ),
        blocks_text(blocks.take(i + 1)) == blocks_text(blocks.take(i)) + block(blocks[i]),
{
    let before = blocks.take(i);
    let one = seq![blocks[i]];
    let after = blocks.skip(i + 1);
    assert(blocks =~= before + one + after);
    assert(blocks.take(i + 1) =~= before + one);
    lemma_blocks_text_concat(before, one);
    lemma_blocks_text_concat(before + one, after);
    lemma_blocks_text_one(blocks[i]);
}

/// The log in three parts: what stands before block `i`, that block, and
/// what stands behind it.
pub proof fn lemma_log_split(head: Seq<u8>, blocks: Seq<(Date, Seq<u8>)>, i: int)
    requires
        0 <= i < blocks.len(),
    ensures
        log_of(head, blocks) == log_of(head, blocks.take(i)) + block(blocks[i]) + blocks_text(
            blocks.skip(i + 1),
        ),
        block_start(head, blocks, i) == log_of(head, blocks.take(i)).len(),
        block_start(head, blocks, i + 1) == block_start(head, blocks, i) + block(blocks[i]).len(),
        block_start(head, blocks, blocks.len() as int) == log_of(head, blocks).len(),
        occurs_at(log_of(head, blocks), block(blocks[i]), block_start(head, blocks, i)),
{
    lemma_blocks_split(blocks, i);
    let a = blocks_text(blocks.take(i));
    let b = block(blocks[i]);
    let c = blocks_text(blocks.skip(i + 1));
    assert(blocks.take(blocks.len() as int) =~= blocks);
    lemma_concat_parts(head, a, b, c);
}

/// Four texts one behind the other hold the third where the first two end.
proof fn lemma_concat_parts(head: Seq<u8>, a: Seq<u8>, b: Seq<u8>, c: Seq<u8>)
    ensures
        head + (a + b + c) == (head + a) + b + c,
        occurs_at(head + (a + b + c), b, (head.len() + a.len()) as int),
        (head + (a + b + c)).subrange(0, (head.len() + a.len()) as int) == head + a,
        (head + (a + b + c)).subrange(
            (head.len() + a.len() + b.len()) as int,
            (head + (a + b + c)).len() as int,
        ) == c,
{
    let whole = head + (a + b + c);
    let at = (head.len() + a.len()) as int;
    assert(whole =~= (head + a) + b + c);
    assert(whole.subrange(at, at + b.len()) =~= b);
    assert(whole.subrange(0, at) =~= head + a);
    assert(whole.subrange(at + b.len(), whole.len() as int) =~= c);
}

/// The blocks stand one behind the other, each at least a heading long.
pub proof fn lemma_block_starts_grow(head: Seq<u8>, blocks: Seq<(Date, Seq<u8>)>, i: int, j: int)
    requires
        tidy(head, blocks),
        0 <= i <= j <= blocks.len(),
    ensures
        block_start(head, blocks, i) + 17 * (j - i) <= block_start(head, blocks, j),
    decreases j - i,
{
    if i < j {
        lemma_block_starts_grow(head, blocks, i, j - 1);
        lemma_log_split(head, blocks, j - 1);
        lemma_marker_bytes(blocks[j - 1].0);
    }
}

/// Where two opening square brackets stand side by side in a text that
/// ends with a block, and not both before that block, they are those of
/// the block's heading.
proof fn lemma_double_bracket(doc: Seq<u8>, b: (Date, Seq<u8>), q: int)
    requires
        b.0.wf(),
        pairless(b.1),
        0 <= q,
        q + 1 < (doc + block(b)).len(),
        (doc + block(b))[q] == 91,
        (doc + block(b))[q + 1] == 91,
        q + 1 >= doc.len(),
    ensures
        q == doc.len() + 3,
{
    lemma_marker_bytes(b.0);
    let m = marker(b.0);
    let whole = doc + block(b);
    let k = q + 1 - doc.len();
    assert(whole[q + 1] == block(b)[k]);
    if k < 17 {
        assert(block(b)[k] == m[k]);
        if k == 3 {
            assert(whole[q] == block(b)[2]);
            assert(block(b)[2] == m[2]);
        }
    } else {
        assert(block(b)[k] == b.1[k - 17]);
        assert(whole[q] == block(b)[k - 1]);
        if k == 17 {
            assert(block(b)[16] == m[16]);
        } else {
            assert(block(b)[k - 1] == b.1[k - 18]);
        }
    }
}

/// A text that ends with a block has `## [[` where the block begins, and
/// else only where the text before the block has it.
proof fn lemma_open_in_append(doc: Seq<u8>, b: (Date, Seq<u8>), p: int)
    requires
        b.0.wf(),
        pairless(b.1),
        occurs_at(doc + block(b), utf8("## [["@), p),
    ensures
        p == doc.len() || occurs_at(doc, utf8("## [["@), p),
{
    lemma_fixed_bytes();
    let open = utf8("## [["@);
    let whole = doc + block(b);
    let found = whole.subrange(p, p + 5);
    assert(found[3] == whole[p + 3] && found[4] == whole[p + 4]);
    if p + 5 <= doc.len() {
        assert(doc.subrange(p, p + 5) =~= found);
    } else {
        lemma_double_bracket(doc, b, p + 3);
    }
}

/// A text that ends with a block has a line break before `[[` only where
/// the text before the block has it.
proof fn lemma_legacy_open_in_append(doc: Seq<u8>, b: (Date, Seq<u8>), p: int)
    requires
        b.0.wf(),
        pairless(b.1),
        occurs_at(doc + block(b), utf8("\n[["@), p),
    ensures
        occurs_at(doc, utf8("\n[["@), p),
{
    reveal_strlit("\n[[");
    vstd::utf8::is_ascii_chars_encode_utf8("\n[["@);
    let needle = utf8("\n[["@);
    assert(needle =~= seq![10u8, 91u8, 91u8]);
    let whole = doc + block(b);
    let found = whole.subrange(p, p + 3);
    assert(found[0] == whole[p] && found[1] == whole[p + 1] && found[2] == whole[p + 2]);
    if p + 3 <= doc.len() {
        assert(doc.subrange(p, p + 3) =~= found);
    } else {
        lemma_double_bracket(doc, b, p + 1);
        lemma_marker_bytes(b.0);
        assert(whole[p] == block(b)[2]);
        assert(block(b)[2] == marker(b.0)[2]);
    }
}

/// A text that ends with a block has `[[` in the block's heading, and
/// else only where the text before the block has it.
proof fn lemma_brackets_in_append(doc: Seq<u8>, b: (Date, Seq<u8>), p: int)
    requires
        b.0.wf(),
        pairless(b.1),
        occurs_at(doc + block(b), utf8("[["@), p),
    ensures
        p == doc.len() + 3 || occurs_at(doc, utf8("[["@), p),
{
    lemma_fixed_bytes();
    let whole = doc + block(b);
    let found = whole.subrange(p, p + 2);
    assert(found[0] == whole[p] && found[1] == whole[p + 1]);
    if p + 2 <= doc.len() {
        assert(doc.subrange(p, p + 2) =~= found);
    } else {
        lemma_double_bracket(doc, b, p);
    }
}

/// What holds `[[` stands nowhere in a text that holds none.
proof fn lemma_no_brackets_in_head(head: Seq<u8>, needle: Seq<u8>, k: int, p: int)
    requires
        pairless(head),
        0 <= k,
        k + 1 < needle.len(),
        needle[k] == 91,
        needle[k + 1] == 91,
    ensures
        !occurs_at(head, needle, p),
{
    if occurs_at(head, needle, p) {
        assert(head.subrange(p, p + needle.len())[k] == head[p + k]);
        assert(head.subrange(p, p + needle.len())[k + 1] == head[p + k + 1]);
    }
}

/// Headings. In a tidy log, `## [[` stands where a block begins and
/// nowhere else, `[[` stands in those headings and nowhere else, and no
/// line begins with `[[`.
pub proof fn lemma_headings(head: Seq<u8>, blocks: Seq<(Date, Seq<u8>)>, p: int)
    requires
        tidy(head, blocks),
    ensures
        occurs_at(log_of(head, blocks), utf8("## [["@), p) ==> exists|i: int|
            0 <= i < blocks.len() && p == #[trigger] block_start(head, blocks, i),
        occurs_at(log_of(head, blocks), utf8("[["@), p) ==> exists|i: int|
            0 <= i < blocks.len() && p == #[trigger] block_start(head, blocks, i) + 3,
        !occurs_at(log_of(head, blocks), utf8("\n[["@), p),
    decreases blocks.len(),
{
    lemma_fixed_bytes();
    reveal_strlit("\n[[");
    vstd::utf8::is_ascii_chars_encode_utf8("\n[["@);
    assert(utf8("\n[["@) =~= seq![10u8, 91u8, 91u8]);
    let log = log_of(head, blocks);
    if blocks.len() == 0 {
        assert(log =~= head);
        lemma_no_brackets_in_head(head, utf8("## [["@), 3, p);
        lemma_no_brackets_in_head(head, utf8("[["@), 0, p);
        lemma_no_brackets_in_head(head, utf8("\n[["@), 1, p);
    } else {
        let n = blocks.len() as int;
        let rest = blocks.drop_last();
        let last = blocks.last();
        let doc = log_of(head, rest);
        assert(blocks[n - 1] == last);
        assert(tidy(head, rest)) by {
            assert forall|i: int| 0 <= i < rest.len() implies (#[trigger] rest[i]).0.wf()
                && pairless(rest[i].1) by {
                assert(rest[i] == blocks[i]);
            }
        }
        assert(log =~= doc + block(last));
        lemma_headings(head, rest, p);
        assert(rest == blocks.take(n - 1));
        assert(block_start(head, blocks, n - 1) == doc.len());
        assert forall|i: int| 0 <= i < rest.len() implies block_start(head, rest, i)
            == block_start(head, blocks, i) by {
            assert(rest.take(i) == blocks.take(i));
        }
        if occurs_at(log, utf8("## [["@), p) {
            lemma_open_in_append(doc, last, p);
            if p != doc.len() {
                let i = choose|i: int| 0 <= i < rest.len() && p == block_start(head, rest, i);
                assert(p == block_start(head, blocks, i));
            }
        }
        if occurs_at(log, utf8("[["@), p) {
            lemma_brackets_in_append(doc, last, p);
            if p != doc.len() + 3 {
                let i = choose|i: int| 0 <= i < rest.len() && p == block_start(head, rest, i) + 3;
                assert(p == block_start(head, blocks, i) + 3);
            }
        }
        if occurs_at(log, utf8("\n[["@), p) {
            lemma_legacy_open_in_append(doc, last, p);
        }
    }
}

/// A date's text names one day.
proof fn lemma_text_names_one_day(a: Date, b: Date)
    requires
        a.wf(),
        b.wf(),
        a.text() == b.text(),
    ensures
        a == b,
{
    lemma_parse_text(a);
    lemma_parse_text(b);
}

/// The parts of a heading around ten bytes of text.
proof fn lemma_heading_parts(t: Seq<u8>)
    requires
        t.len() == 10,
    ensures
        (utf8("[["@) + t + utf8("]]"@)).len() == 14,
        (utf8("[["@) + t + utf8("]]"@)).subrange(2, 12) == t,
        (utf8("## [["@) + t + utf8("]]"@)).subrange(3, 17) == utf8("[["@) + t + utf8("]]"@),
        (utf8("[["@) + t + utf8("]]"@)).subrange(0, 2) == utf8("[["@),
        (utf8("## [["@) + t + utf8("]]"@)).subrange(0, 5) == utf8("## [["@),
{
    lemma_fixed_bytes();
    let long = utf8("## [["@) + t + utf8("]]"@);
    let short = utf8("[["@) + t + utf8("]]"@);
    assert(short.subrange(2, 12) =~= t);
    assert(long.subrange(3, 17) =~= short);
    assert(short.subrange(0, 2) =~= utf8("[["@));
    assert(long.subrange(0, 5) =~= utf8("## [["@));
}

/// The older heading holds the date's text between its brackets.
proof fn lemma_legacy_bytes(date: Date)
    requires
        date.wf(),
    ensures
        legacy_marker(date).len() == 14,
        legacy_marker(date).subrange(2, 12) == date.text(),
        marker(date).subrange(3, 17) == legacy_marker(date),
        legacy_marker(date).subrange(0, 2) == utf8("[["@),
        marker(date).subrange(0, 5) == utf8("## [["@),
{
    lemma_parse_text(date);
    lemma_heading_parts(date.text());
}

/// A heading names one day.
pub proof fn lemma_marker_names_one_day(a: Date, b: Date)
    requires
        a.wf(),
        b.wf(),
        marker(a) == marker(b) || legacy_marker(a) == legacy_marker(b),
    ensures
        a == b,
{
    lemma_marker_bytes(a);
    lemma_marker_bytes(b);
    lemma_legacy_bytes(a);
    lemma_legacy_bytes(b);
    lemma_text_names_one_day(a, b);
}

/// The heading of block `i` stands where the block begins.
proof fn lemma_marker_at_start(head: Seq<u8>, blocks: Seq<(Date, Seq<u8>)>, i: int)
    requires
        0 <= i < blocks.len(),
    ensures
        occurs_at(log_of(head, blocks), marker(blocks[i].0), block_start(head, blocks, i)),
{
    lemma_log_split(head, blocks, i);
    let b = block(blocks[i]);
    let m = marker(blocks[i].0);
    assert(b.subrange(0, m.len() as int) =~= m);
    lemma_occurs_within(log_of(head, blocks), b, block_start(head, blocks, i), m, 0);
}

/// Where the heading of a day stands in a tidy log, a block of that day
/// begins.
proof fn lemma_marker_occurrence(head: Seq<u8>, blocks: Seq<(Date, Seq<u8>)>, day: Date, p: int)
    requires
        tidy(head, blocks),
        day.wf(),
        occurs_at(log_of(head, blocks), marker(day), p),
    ensures
        exists|i: int|
            0 <= i < blocks.len() && p == block_start(head, blocks, i) && (#[trigger] blocks[i]).0
                == day,
{
    let log = log_of(head, blocks);
    let m = marker(day);
    let open = utf8("## [["@);
    lemma_marker_bytes(day);
    lemma_legacy_bytes(day);
    lemma_occurs_within(log, m, p, open, 0);
    lemma_headings(head, blocks, p);
    let i = choose|i: int| 0 <= i < blocks.len() && p == block_start(head, blocks, i);
    lemma_marker_at_start(head, blocks, i);
    lemma_marker_bytes(blocks[i].0);
    lemma_marker_names_one_day(day, blocks[i].0);
}

/// Where the older heading of a day stands in a tidy log, it stands in the
/// heading of a block of that day.
proof fn lemma_legacy_occurrence(head: Seq<u8>, blocks: Seq<(Date, Seq<u8>)>, day: Date, p: int)
    requires
        tidy(head, blocks),
        day.wf(),
        occurs_at(log_of(head, blocks), legacy_marker(day), p),
    ensures
        exists|i: int| 0 <= i < blocks.len() && (#[trigger] blocks[i]).0 == day,
{
    let log = log_of(head, blocks);
    let l = legacy_marker(day);
    let brackets = utf8("[["@);
    lemma_legacy_bytes(day);
    lemma_occurs_within(log, l, p, brackets, 0);
    lemma_headings(head, blocks, p);
    let i = choose|i: int| 0 <= i < blocks.len() && p == block_start(head, blocks, i) + 3;
    lemma_marker_at_start(head, blocks, i);
    lemma_marker_bytes(blocks[i].0);
    lemma_legacy_bytes(blocks[i].0);
    let m = marker(blocks[i].0);
    let li = legacy_marker(blocks[i].0);
    lemma_occurs_within(log, m, block_start(head, blocks, i), li, 3);
    lemma_marker_names_one_day(day, blocks[i].0);
}

/// A tidy log holds an entry of a day exactly where one of its blocks is
/// of that day.
pub proof fn lemma_has_entry(head: Seq<u8>, blocks: Seq<(Date, Seq<u8>)>, day: Date)
    requires
        tidy(head, blocks),
        day.wf(),
    ensures
        has_entry(log_of(head, blocks), day) <==> exists|i: int|
            0 <= i < blocks.len() && (#[trigger] blocks[i]).0 == day,
{
    let log = log_of(head, blocks);
    if has_entry(log, day) {
        let p = choose|p: int| occurs_at(log, legacy_marker(day), p);
        lemma_legacy_occurrence(head, blocks, day, p);
    }
    if exists|i: int| 0 <= i < blocks.len() && (#[trigger] blocks[i]).0 == day {
        let i = choose|i: int| 0 <= i < blocks.len() && (#[trigger] blocks[i]).0 == day;
        lemma_marker_at_start(head, blocks, i);
        lemma_marker_holds_legacy(day);
        let k = choose|k: int| occurs_at(marker(day), legacy_marker(day), k);
        lemma_occurs_within(log, marker(day), block_start(head, blocks, i), legacy_marker(day), k);
    }
}

/// In a tidy log whose blocks are of different days, the entry of the day
/// of block `k` begins where that block begins.
pub proof fn lemma_entry_start(head: Seq<u8>, blocks: Seq<(Date, Seq<u8>)>, k: int)
    requires
        tidy(head, blocks),
        days_differ(blocks),
        0 <= k < blocks.len(),
    ensures
        entry_start(log_of(head, blocks), blocks[k].0) == Some(block_start(head, blocks, k)),
        heading_end(log_of(head, blocks), blocks[k].0) == block_start(head, blocks, k) + 17,
{
    let log = log_of(head, blocks);
    let day = blocks[k].0;
    let at = block_start(head, blocks, k);
    lemma_marker_at_start(head, blocks, k);
    lemma_marker_bytes(day);
    assert forall|j: int| 0 <= j < at implies !occurs_at(log, marker(day), j) by {
        if occurs_at(log, marker(day), j) {
            lemma_marker_occurrence(head, blocks, day, j);
            let i = choose|i: int|
                0 <= i < blocks.len() && j == block_start(head, blocks, i) && (
                #[trigger] blocks[i]).0 == day;
            assert(i == k);
        }
    }
    lemma_find_from_is(log, marker(day), 0, at);
}

/// No line of a tidy log begins with `[[`.
proof fn lemma_no_line_bracket(head: Seq<u8>, blocks: Seq<(Date, Seq<u8>)>, from: int)
    requires
        tidy(head, blocks),
        0 <= from,
    ensures
        find_from(log_of(head, blocks), utf8("\n[["@), from) is None,
{
    let log = log_of(head, blocks);
    lemma_find_from(log, utf8("\n[["@), from);
    if find_from(log, utf8("\n[["@), from) is Some {
        lemma_headings(head, blocks, find_from(log, utf8("\n[["@), from).unwrap());
    }
}

/// `## [[` behind the heading of block `k` stands in a later block.
proof fn lemma_open_behind(head: Seq<u8>, blocks: Seq<(Date, Seq<u8>)>, k: int, j: int)
    requires
        tidy(head, blocks),
        0 <= k < blocks.len(),
        block_start(head, blocks, k) + 17 <= j,
        occurs_at(log_of(head, blocks), utf8("## [["@), j),
    ensures
        k + 1 < blocks.len(),
        block_start(head, blocks, k + 1) <= j,
{
    lemma_headings(head, blocks, j);
    let i = choose|i: int| 0 <= i < blocks.len() && j == block_start(head, blocks, i);
    if i <= k {
        lemma_block_starts_grow(head, blocks, i, k);
    } else {
        lemma_block_starts_grow(head, blocks, k + 1, i);
    }
}

/// `## [[` stands where block `i` begins.
proof fn lemma_open_at_start(head: Seq<u8>, blocks: Seq<(Date, Seq<u8>)>, i: int)
    requires
        tidy(head, blocks),
        0 <= i < blocks.len(),
    ensures
        occurs_at(log_of(head, blocks), utf8("## [["@), block_start(head, blocks, i)),
{
    lemma_marker_at_start(head, blocks, i);
    lemma_legacy_bytes(blocks[i].0);
    lemma_occurs_within(
        log_of(head, blocks),
        marker(blocks[i].0),
        block_start(head, blocks, i),
        utf8("## [["@),
        0,
    );
}

/// In a tidy log, the first heading behind the heading of block `k` is
/// that of the next block, and there is none behind the last block's.
pub proof fn lemma_next_heading(head: Seq<u8>, blocks: Seq<(Date, Seq<u8>)>, k: int)
    requires
        tidy(head, blocks),
        0 <= k < blocks.len(),
    ensures
        next_heading(log_of(head, blocks), block_start(head, blocks, k) + 17) == (if k + 1
            < blocks.len() {
            Some(block_start(head, blocks, k + 1))
        } else {
            None
        }),
{
    let log = log_of(head, blocks);
    let open = utf8("## [["@);
    let from = block_start(head, blocks, k) + 17;
    lemma_no_line_bracket(head, blocks, from);
    assert forall|j: int| from <= j && occurs_at(log, open, j) implies k + 1 < blocks.len()
        && block_start(head, blocks, k + 1) <= j by {
        lemma_open_behind(head, blocks, k, j);
    }
    if k + 1 < blocks.len() {
        let next = block_start(head, blocks, k + 1);
        lemma_block_starts_grow(head, blocks, k, k + 1);
        lemma_open_at_start(head, blocks, k + 1);
        lemma_find_from_is(log, open, from, next);
    } else {
        lemma_find_from(log, open, from);
    }
}

/// Overwrite. In a tidy log whose blocks are of different days, a write
/// that replaces the entry of the day of block `k` leaves the head and
/// every other block byte for byte and in their order, and puts the new
/// block at the end.
pub proof fn law_overwrite_replaces_one_block(
    head: Seq<u8>,
    blocks: Seq<(Date, Seq<u8>)>,
    k: int,
    new_block: Seq<u8>,
)
    requires
        tidy(head, blocks),
        days_differ(blocks),
        0 <= k < blocks.len(),
    ensures
        without_entry(log_of(head, blocks), blocks[k].0) == (if k + 1 < blocks.len() {
            log_of(head, blocks.remove(k))
        } else {
            closed_line(log_of(head, blocks.remove(k)))
        }),
        edited(Some(log_of(head, blocks)), blocks[k].0, new_block, true) == closed_line(
            log_of(head, blocks.remove(k)),
        ) + new_block,
{
    let log = log_of(head, blocks);
    let before = blocks.take(k);
    let after = blocks.skip(k + 1);
    lemma_entry_start(head, blocks, k);
    lemma_next_heading(head, blocks, k);
    lemma_blocks_split(blocks, k);
    lemma_log_split(head, blocks, k);
    lemma_concat_parts(head, blocks_text(before), block(blocks[k]), blocks_text(after));
    assert(blocks.remove(k) =~= before + after);
    lemma_blocks_text_concat(before, after);
    assert(log_of(head, blocks.remove(k)) =~= log_of(head, before) + blocks_text(after));
    if k + 1 == blocks.len() {
        assert(after.len() == 0);
        assert(log_of(head, blocks.remove(k)) =~= log_of(head, before));
    }
    let kept = log_of(head, blocks.remove(k));
    assert(closed_line(closed_line(kept)) == closed_line(kept));
}

/// The head is empty or ends in a line break, and the tail of every block
/// begins and ends with one: every heading has a line of its own.
pub open spec fn lined(head: Seq<u8>, blocks: Seq<(Date, Seq<u8>)>) -> bool {
    &&& head.len() == 0 || head.last() == 10
    &&& forall|i: int|
        0 <= i < blocks.len() ==> (#[trigger] blocks[i]).1.len() > 0 && blocks[i].1[0] == 10
            && blocks[i].1.last() == 10
}

/// The blocks as the collector returns them: each with its day and its
/// bytes, heading included.
pub open spec fn block_entries(blocks: Seq<(Date, Seq<u8>)>) -> Seq<(Date, Seq<u8>)> {
    blocks.map_values(|b: (Date, Seq<u8>)| (b.0, block(b)))
}

/// Lines that do not begin with `## [[` are no headings: the scan goes
/// over them and keeps the entry under way.
proof fn lemma_scan_skips_other_lines(doc: Seq<u8>, from: int, to: int, open: Option<(Date, int)>)
    requires
        0 <= from <= to <= doc.len(),
        forall|p: int| from <= p && p + 5 <= to ==> !occurs_at(doc, utf8("## [["@), p),
        to == doc.len() || (from < to ==> doc[to - 1] == 10),
    ensures
        entries_from(doc, from, open) == entries_from(doc, to, open),
    decreases to - from,
{
    if from < to {
        lemma_line_end(doc, from);
        lemma_fixed_bytes();
        let end = line_end(doc, from);
        let next = next_line(doc, from);
        assert(next <= to) by {
            if to < doc.len() && end > to - 1 {
                assert(doc[to - 1] != 10);
            }
        }
        let line = line_at(doc, from);
        if header_date(line) is Some {
            assert(occurs_at(doc, line, from));
            lemma_occurs_within(doc, line, from, utf8("## [["@), 0);
        }
        lemma_scan_skips_other_lines(doc, next, to, open);
    }
}

/// Lines without `[[` are no headings: the scan goes over them and keeps
/// the entry under way.
proof fn lemma_scan_skips_plain_lines(doc: Seq<u8>, from: int, to: int, open: Option<(Date, int)>)
    requires
        0 <= from <= to <= doc.len(),
        forall|i: int| from <= i && i + 1 < to ==> !(#[trigger] doc[i] == 91 && doc[i + 1] == 91),
        from < to ==> doc[to - 1] == 10,
    ensures
        entries_from(doc, from, open) == entries_from(doc, to, open),
{
    lemma_fixed_bytes();
    assert forall|p: int| from <= p && p + 5 <= to implies !occurs_at(doc, utf8("## [["@), p) by {
        if occurs_at(doc, utf8("## [["@), p) {
            let found = doc.subrange(p, p + 5);
            assert(found[3] == doc[p + 3] && found[4] == doc[p + 4]);
        }
    }
    lemma_scan_skips_other_lines(doc, from, to, open);
}

/// No heading, no entry. A document in which `## [[` stands nowhere holds
/// no entry for the collector.
pub proof fn law_no_heading_no_entry(doc: Seq<u8>)
    requires
        !crate::text::contains(doc, utf8("## [["@)),
    ensures
        entries(doc) == Seq::<(Date, Seq<u8>)>::empty(),
{
    lemma_scan_skips_other_lines(doc, 0, doc.len() as int, None);
}

/// A heading is read as the heading of its day.
pub proof fn lemma_heading_is_read(date: Date)
    requires
        date.wf(),
    ensures
        header_date(marker(date)) == Some(date),
{
    lemma_marker_bytes(date);
    lemma_legacy_bytes(date);
    lemma_fixed_bytes();
    lemma_parse_text(date);
    let m = marker(date);
    assert(m.subrange(15, 17) =~= utf8("]]"@));
    assert(m.subrange(0, 5) == utf8("## [["@));
}

/// A text without line breaks that stands before a line break, at the
/// start of a line or not, is the line from there on.
proof fn lemma_line_of(doc: Seq<u8>, at: int, m: Seq<u8>)
    requires
        occurs_at(doc, m, at),
        m.len() > 0,
        forall|i: int| 0 <= i < m.len() ==> m[i] != 10,
        m.last() != 13,
        at + m.len() < doc.len(),
        doc[at + m.len()] == 10,
    ensures
        line_at(doc, at) == m,
        next_line(doc, at) == at + m.len() + 1,
{
    let found = doc.subrange(at, at + m.len());
    assert forall|i: int| at <= i < at + m.len() implies doc[i] != 10 by {
        assert(found[i - at] == doc[i]);
    }
    lemma_line_end_is(doc, at, at + m.len());
    assert(found[m.len() - 1] == doc[at + m.len() - 1]);
}

/// The line at the start of a block is the block's heading.
proof fn lemma_heading_line(doc: Seq<u8>, at: int, date: Date)
    requires
        date.wf(),
        occurs_at(doc, marker(date), at),
        at + 17 < doc.len(),
        doc[at + 17] == 10,
    ensures
        line_at(doc, at) == marker(date),
        next_line(doc, at) == at + 18,
{
    lemma_marker_bytes(date);
    lemma_line_of(doc, at, marker(date));
}

/// The bytes of block `i` in the log: its heading, then its tail up to
/// the start of the next block.
proof fn lemma_block_bytes(head: Seq<u8>, blocks: Seq<(Date, Seq<u8>)>, i: int)
    requires
        tidy(head, blocks),
        0 <= i < blocks.len(),
    ensures
        occurs_at(log_of(head, blocks), marker(blocks[i].0), block_start(head, blocks, i)),
        block_start(head, blocks, i + 1) == block_start(head, blocks, i) + 17 + blocks[i].1.len(),
        block_start(head, blocks, i + 1) <= log_of(head, blocks).len(),
        log_of(head, blocks).subrange(
            block_start(head, blocks, i),
            block_start(head, blocks, i + 1),
        ) == block(blocks[i]),
        forall|k: int|
            0 <= k < blocks[i].1.len() ==> log_of(head, blocks)[block_start(head, blocks, i) + 17
                + k] == #[trigger] blocks[i].1[k],
{
    let doc = log_of(head, blocks);
    let at = block_start(head, blocks, i);
    let tail = blocks[i].1;
    let whole = block(blocks[i]);
    lemma_log_split(head, blocks, i);
    lemma_marker_at_start(head, blocks, i);
    lemma_marker_bytes(blocks[i].0);
    lemma_block_starts_grow(head, blocks, i + 1, blocks.len() as int);
    assert forall|k: int| 0 <= k < tail.len() implies doc[at + 17 + k] == #[trigger] tail[k] by {
        assert(doc.subrange(at, at + whole.len())[17 + k] == doc[at + 17 + k]);
        assert(whole[17 + k] == tail[k]);
    }
}

/// The scan over one block: it closes the entry under way where the block
/// begins, and is under way with the block's entry where the block ends.
proof fn lemma_scan_block(
    doc: Seq<u8>,
    at: int,
    date: Date,
    tail: Seq<u8>,
    open: Option<(Date, int)>,
)
    requires
        date.wf(),
        occurs_at(doc, marker(date), at),
        at + 17 + tail.len() <= doc.len(),
        tail.len() > 0,
        tail[0] == 10,
        tail.last() == 10,
        pairless(tail),
        forall|k: int| 0 <= k < tail.len() ==> doc[at + 17 + k] == #[trigger] tail[k],
    ensures
        entries_from(doc, at, open) == closed_entry(doc, open, at) + entries_from(
            doc,
            at + 17 + tail.len(),
            Some((date, at)),
        ),
{
    let next = at + 17 + tail.len();
    assert(doc[at + 17] == tail[0]);
    lemma_heading_line(doc, at, date);
    lemma_heading_is_read(date);
    assert forall|q: int| at + 18 <= q && q + 1 < next implies !(#[trigger] doc[q] == 91 && doc[q
        + 1] == 91) by {
        assert(doc[at + 17 + (q - at - 17)] == tail[q - at - 17]);
        assert(doc[at + 17 + (q - at - 16)] == tail[q - at - 16]);
    }
    assert(doc[at + 17 + (tail.len() - 1)] == tail[tail.len() - 1]);
    lemma_scan_skips_plain_lines(doc, at + 18, next, Some((date, at)));
}

/// The blocks from `i` on as entries: block `i`, then those behind it.
proof fn lemma_block_entries_from(blocks: Seq<(Date, Seq<u8>)>, i: int)
    requires
        0 <= i < blocks.len(),
    ensures
        block_entries(blocks.skip(i)) == seq![(blocks[i].0, block(blocks[i]))] + block_entries(
            blocks.skip(i + 1),
        ),
{
    assert(block_entries(blocks.skip(i)) =~= seq![(blocks[i].0, block(blocks[i]))]
        + block_entries(blocks.skip(i + 1)));
}

/// Entries closed one after the other.
proof fn lemma_entries_chain(
    closed: Seq<(Date, Seq<u8>)>,
    one: Seq<(Date, Seq<u8>)>,
    rest: Seq<(Date, Seq<u8>)>,
)
    ensures
        closed + (one + rest) == closed + one + rest,
{
    assert(closed + (one + rest) =~= closed + one + rest);
}

/// From the start of block `i` on, the scan closes the entry under way
/// and returns the blocks from `i` on, each as one entry.
proof fn lemma_scan_reads_blocks(
    head: Seq<u8>,
    blocks: Seq<(Date, Seq<u8>)>,
    i: int,
    open: Option<(Date, int)>,
)
    requires
        tidy(head, blocks),
        lined(head, blocks),
        0 <= i <= blocks.len(),
    ensures
        entries_from(log_of(head, blocks), block_start(head, blocks, i), open) == closed_entry(
            log_of(head, blocks),
            open,
            block_start(head, blocks, i),
        ) + block_entries(blocks.skip(i)),
    decreases blocks.len() - i,
{
    let doc = log_of(head, blocks);
    let at = block_start(head, blocks, i);
    if i == blocks.len() {
        assert(blocks.take(i) =~= blocks);
        assert(at == doc.len());
        assert(block_entries(blocks.skip(i)) =~= Seq::<(Date, Seq<u8>)>::empty());
        assert(closed_entry(doc, open, at) + Seq::<(Date, Seq<u8>)>::empty() =~= closed_entry(
            doc,
            open,
            at,
        ));
    } else {
        let date = blocks[i].0;
        let next = block_start(head, blocks, i + 1);
        let one = seq![(date, block(blocks[i]))];
        lemma_block_bytes(head, blocks, i);
        lemma_scan_block(doc, at, date, blocks[i].1, open);
        lemma_scan_reads_blocks(head, blocks, i + 1, Some((date, at)));
        assert(closed_entry(doc, Some((date, at)), next) == one);
        lemma_block_entries_from(blocks, i);
        lemma_entries_chain(closed_entry(doc, open, at), one, block_entries(blocks.skip(i + 1)));
    }
}

/// Reading back. From a tidy log in which every heading has a line of its
/// own, the collector reads the blocks, each as one entry with its day and
/// its bytes, in their order, and nothing else.
pub proof fn law_collector_reads_the_blocks(head: Seq<u8>, blocks: Seq<(Date, Seq<u8>)>)
    requires
        tidy(head, blocks),
        lined(head, blocks),
    ensures
        entries(log_of(head, blocks)) == block_entries(blocks),
{
    let doc = log_of(head, blocks);
    assert(blocks.take(0) =~= Seq::<(Date, Seq<u8>)>::empty());
    assert(block_start(head, blocks, 0) == head.len());
    assert forall|i: int| 0 <= i && i + 1 < head.len() implies !(#[trigger] doc[i] == 91 && doc[i
        + 1] == 91) by {
        assert(doc[i] == head[i] && doc[i + 1] == head[i + 1]);
    }
    if head.len() > 0 {
        assert(doc[head.len() - 1] == head.last());
    }
    lemma_scan_skips_plain_lines(doc, 0, head.len() as int, None);
    lemma_scan_reads_blocks(head, blocks, 0, None);
    assert(blocks.skip(0) =~= blocks);
    assert(closed_entry(doc, None, head.len() as int) + block_entries(blocks) =~= block_entries(
        blocks,
    ));
}

/// A day's entry as it is handed to the editor: the day, the summary and
/// the commit subjects.
pub open spec fn plain_entry(e: (Date, Seq<char>, Seq<Seq<char>>)) -> bool {
    e.0.wf() && plain(e.1) && all_plain(e.2)
}

/// The block that the entry of a day is.
pub open spec fn entry_block(e: (Date, Seq<char>, Seq<Seq<char>>)) -> (Date, Seq<u8>) {
    (e.0, entry_tail(e.1, e.2))
}

/// The blocks that the entries are.
pub open spec fn entry_blocks(entries: Seq<(Date, Seq<char>, Seq<Seq<char>>)>) -> Seq<
    (Date, Seq<u8>),
> {
    entries.map_values(|e: (Date, Seq<char>, Seq<Seq<char>>)| entry_block(e))
}

/// No two entries are of one day.
pub open spec fn entry_days_differ(entries: Seq<(Date, Seq<char>, Seq<Seq<char>>)>) -> bool {
    forall|i: int, j: int|
        0 <= i < j < entries.len() ==> (#[trigger] entries[i]).0 != (#[trigger] entries[j]).0
}

/// The front matter holds no opening square bracket and ends in a line
/// break.
pub proof fn lemma_year_header_is_plain(year: nat)
    ensures
        bracket_free(year_header(year)),
        pairless(year_header(year)),
        year_header(year).len() > 0,
        year_header(year).last() == 10,
{
    reveal_strlit("---\ntype: devlog\nyear: ");
    reveal_strlit("\n---\n\n# Dev Log – ");
    reveal_strlit("\n\n");
    lemma_bare_text_is_bracket_free("---\ntype: devlog\nyear: "@);
    lemma_bare_text_is_bracket_free("\n---\n\n# Dev Log – "@);
    lemma_bare_text_is_bracket_free("\n\n"@);
    lemma_fixed_bytes();
    lemma_decimal_digits(year);
    let a = utf8("---\ntype: devlog\nyear: "@);
    let b = decimal(year);
    let c = utf8("\n---\n\n# Dev Log – "@);
    let d = utf8("\n\n"@);
    assert(bracket_free(b));
    lemma_bracket_free_concat(a, b);
    lemma_bracket_free_concat(a + b, c);
    lemma_bracket_free_concat(a + b + c, b);
    lemma_bracket_free_concat(a + b + c + b, d);
    assert(year_header(year).last() == d.last());
}

/// A log that is tidy and lined stays so with one more plain entry.
pub proof fn lemma_push_entry(
    head: Seq<u8>,
    blocks: Seq<(Date, Seq<u8>)>,
    e: (Date, Seq<char>, Seq<Seq<char>>),
)
    requires
        tidy(head, blocks),
        lined(head, blocks),
        plain_entry(e),
    ensures
        tidy(head, blocks.push(entry_block(e))),
        lined(head, blocks.push(entry_block(e))),
        log_of(head, blocks.push(entry_block(e))) == log_of(head, blocks) + entry_text(
            e.0,
            e.1,
            e.2,
        ),
{
    let more = blocks.push(entry_block(e));
    lemma_entry_tail(e.1, e.2);
    lemma_entry_is_block(e.0, e.1, e.2);
    assert forall|i: int| 0 <= i < more.len() implies (#[trigger] more[i]).0.wf() && pairless(
        more[i].1,
    ) && more[i].1.len() > 0 && more[i].1[0] == 10 && more[i].1.last() == 10 by {
        if i < blocks.len() {
            assert(more[i] == blocks[i]);
        }
    }
    assert(more.drop_last() =~= blocks);
    assert(log_of(head, more) =~= log_of(head, blocks) + entry_text(e.0, e.1, e.2));
}

/// A lined log is empty or ends in a line break.
pub proof fn lemma_lined_log_is_closed(head: Seq<u8>, blocks: Seq<(Date, Seq<u8>)>)
    requires
        lined(head, blocks),
    ensures
        closed_line(log_of(head, blocks)) == log_of(head, blocks),
{
    let log = log_of(head, blocks);
    if blocks.len() == 0 {
        assert(log =~= head);
    } else {
        let last = blocks[blocks.len() - 1];
        assert(blocks.last() == last);
        assert(log.last() == last.1.last());
    }
}

/// A new day. A write of a plain entry into a tidy, lined log that has no
/// block of its day adds the entry as one more block, with or without
/// leave to replace, and touches nothing else.
pub proof fn law_new_day_is_appended(
    head: Seq<u8>,
    blocks: Seq<(Date, Seq<u8>)>,
    e: (Date, Seq<char>, Seq<Seq<char>>),
    overwrite: bool,
)
    requires
        tidy(head, blocks),
        lined(head, blocks),
        plain_entry(e),
        forall|i: int| 0 <= i < blocks.len() ==> (#[trigger] blocks[i]).0 != e.0,
    ensures
        !skips(Some(log_of(head, blocks)), e.0, overwrite),
        edited(Some(log_of(head, blocks)), e.0, entry_text(e.0, e.1, e.2), overwrite) == log_of(
            head,
            blocks.push(entry_block(e)),
        ),
{
    let log = log_of(head, blocks);
    lemma_has_entry(head, blocks, e.0);
    lemma_lined_log_is_closed(head, blocks);
    lemma_push_entry(head, blocks, e);
    law_overwrite_without_entry_appends(log, e.0, entry_text(e.0, e.1, e.2));
}

/// The log after one write per entry, none with leave to replace, into
/// the document `existing`.
pub open spec fn written(existing: Option<Seq<u8>>, entries: Seq<(Date, Seq<char>, Seq<Seq<char>>)>) -> Option<
    Seq<u8>,
>
    decreases entries.len(),
{
    if entries.len() == 0 {
        existing
    } else {
        Some(
            edited(
                written(existing, entries.drop_last()),
                entries.last().0,
                entry_text(entries.last().0, entries.last().1, entries.last().2),
                false,
            ),
        )
    }
}

/// One header. Plain entries of different days, written one after the
/// other into a document that did not exist, leave the front matter of
/// the first day's year once, at the start, and behind it the entries in
/// the order of the writes, each once.
pub proof fn law_written_log(entries: Seq<(Date, Seq<char>, Seq<Seq<char>>)>)
    requires
        entries.len() >= 1,
        entry_days_differ(entries),
        forall|i: int| 0 <= i < entries.len() ==> plain_entry(#[trigger] entries[i]),
    ensures
        written(None, entries) == Some(
            log_of(year_header(entries[0].0.year as nat), entry_blocks(entries)),
        ),
        tidy(year_header(entries[0].0.year as nat), entry_blocks(entries)),
        lined(year_header(entries[0].0.year as nat), entry_blocks(entries)),
        days_differ(entry_blocks(entries)),
    decreases entries.len(),
{
    let head = year_header(entries[0].0.year as nat);
    let last = entries.last();
    let before = entries.drop_last();
    assert(entries[entries.len() - 1] == last);
    assert(plain_entry(last));
    lemma_year_header_is_plain(entries[0].0.year as nat);
    assert(entry_blocks(entries) =~= entry_blocks(before).push(entry_block(last)));
    assert forall|i: int, j: int| 0 <= i < j < entries.len() implies (#[trigger] entry_blocks(
        entries,
    )[i]).0 != (#[trigger] entry_blocks(entries)[j]).0 by {
        assert(entries[i].0 != entries[j].0);
    }
    if entries.len() == 1 {
        assert(before.len() == 0);
        assert(written(None, before) == None::<Seq<u8>>);
        let none = Seq::<(Date, Seq<u8>)>::empty();
        assert(entry_blocks(before) =~= none);
        assert(tidy(head, none) && lined(head, none));
        lemma_push_entry(head, none, last);
        assert(log_of(head, none) =~= head);
    } else {
        assert(before[0] == entries[0]);
        assert(entry_days_differ(before)) by {
            assert forall|i: int, j: int| 0 <= i < j < before.len() implies (
            #[trigger] before[i]).0 != (#[trigger] before[j]).0 by {
                assert(before[i] == entries[i] && before[j] == entries[j]);
            }
        }
        assert forall|i: int| 0 <= i < before.len() implies plain_entry(#[trigger] before[i]) by {
            assert(before[i] == entries[i]);
        }
        law_written_log(before);
        let blocks = entry_blocks(before);
        assert forall|i: int| 0 <= i < blocks.len() implies (#[trigger] blocks[i]).0 != last.0 by {
            assert(blocks[i].0 == entries[i].0);
            assert(entries[i].0 != entries[entries.len() - 1].0);
        }
        law_new_day_is_appended(head, blocks, last, false);
        lemma_push_entry(head, blocks, last);
    }
}

/// Written, then read. The collector reads from such a log the entries
/// that were written, each with its day and the bytes of its block, in
/// the order of the writes.
pub proof fn law_written_entries_are_read_back(entries: Seq<(Date, Seq<char>, Seq<Seq<char>>)>)
    requires
        entries.len() >= 1,
        entry_days_differ(entries),
        forall|i: int| 0 <= i < entries.len() ==> plain_entry(#[trigger] entries[i]),
    ensures
        written(None, entries) is Some,
        crate::markdown::entries(written(None, entries).unwrap()) == entries.map_values(
            |e: (Date, Seq<char>, Seq<Seq<char>>)| (e.0, entry_text(e.0, e.1, e.2)),
        ),
{
    let head = year_header(entries[0].0.year as nat);
    law_written_log(entries);
    law_collector_reads_the_blocks(head, entry_blocks(entries));
    let read = block_entries(entry_blocks(entries));
    let wrote = entries.map_values(
        |e: (Date, Seq<char>, Seq<Seq<char>>)| (e.0, entry_text(e.0, e.1, e.2)),
    );
    assert(read =~= wrote) by {
        assert forall|i: int| 0 <= i < entries.len() implies read[i] == wrote[i] by {
            lemma_entry_is_block(entries[i].0, entries[i].1, entries[i].2);
        }
    }
}

/// A log without one of its blocks is tidy and lined as it was.
proof fn lemma_remove_block(head: Seq<u8>, blocks: Seq<(Date, Seq<u8>)>, k: int)
    requires
        tidy(head, blocks),
        lined(head, blocks),
        0 <= k < blocks.len(),
    ensures
        tidy(head, blocks.remove(k)),
        lined(head, blocks.remove(k)),
{
    let kept = blocks.remove(k);
    assert forall|i: int| 0 <= i < kept.len() implies (#[trigger] kept[i]).0.wf() && pairless(
        kept[i].1,
    ) && kept[i].1.len() > 0 && kept[i].1[0] == 10 && kept[i].1.last() == 10 by {
        if i < k {
            assert(kept[i] == blocks[i]);
        } else {
            assert(kept[i] == blocks[i + 1]);
        }
    }
}

/// The blocks of entries of which one is taken out and one put behind.
proof fn lemma_entry_blocks_replaced(
    entries: Seq<(Date, Seq<char>, Seq<Seq<char>>)>,
    k: int,
    new: (Date, Seq<char>, Seq<Seq<char>>),
)
    requires
        0 <= k < entries.len(),
    ensures
        entry_blocks(entries.remove(k).push(new)) == entry_blocks(entries).remove(k).push(
            entry_block(new),
        ),
        entry_blocks(entries)[k].0 == entries[k].0,
{
    assert(entry_blocks(entries.remove(k).push(new)) =~= entry_blocks(entries).remove(k).push(
        entry_block(new),
    ));
}

/// Overwrite among written entries. In a log of plain entries of
/// different days, a write that replaces the entry of day `k` by another
/// plain entry of that day leaves every other entry byte for byte and in
/// its place among the others, and puts the new entry at the end.
pub proof fn law_overwrite_among_written(
    entries: Seq<(Date, Seq<char>, Seq<Seq<char>>)>,
    k: int,
    summary: Seq<char>,
    commits: Seq<Seq<char>>,
)
    requires
        entries.len() >= 1,
        0 <= k < entries.len(),
        entry_days_differ(entries),
        forall|i: int| 0 <= i < entries.len() ==> plain_entry(#[trigger] entries[i]),
        plain(summary),
        all_plain(commits),
    ensures
        edited(
            written(None, entries),
            entries[k].0,
            entry_text(entries[k].0, summary, commits),
            true,
        ) == log_of(
            year_header(entries[0].0.year as nat),
            entry_blocks(entries.remove(k).push((entries[k].0, summary, commits))),
        ),
{
    let head = year_header(entries[0].0.year as nat);
    let blocks = entry_blocks(entries);
    let new = (entries[k].0, summary, commits);
    let block = entry_text(new.0, new.1, new.2);
    law_written_log(entries);
    lemma_entry_blocks_replaced(entries, k, new);
    law_overwrite_replaces_one_block(head, blocks, k, block);
    lemma_remove_block(head, blocks, k);
    lemma_lined_log_is_closed(head, blocks.remove(k));
    lemma_push_entry(head, blocks.remove(k), new);
}

/// The blocks of a log after a write of `e`: the entry of its day goes to
/// the end where it is replaced, the blocks stay as they are where the
/// write is skipped, and a new day's entry is added at the end.
pub open spec fn after_write(
    blocks: Seq<(Date, Seq<u8>)>,
    e: (Date, Seq<char>, Seq<Seq<char>>),
    overwrite: bool,
) -> Seq<(Date, Seq<u8>)> {
    if exists|i: int| 0 <= i < blocks.len() && (#[trigger] blocks[i]).0 == e.0 {
        let k = choose|i: int| 0 <= i < blocks.len() && (#[trigger] blocks[i]).0 == e.0;
        if overwrite {
            blocks.remove(k).push(entry_block(e))
        } else {
            blocks
        }
    } else {
        blocks.push(entry_block(e))
    }
}

/// Blocks of different days stay so without one of them and with one of
/// another day behind them.
proof fn lemma_days_differ_replaced(blocks: Seq<(Date, Seq<u8>)>, k: int, b: (Date, Seq<u8>))
    requires
        days_differ(blocks),
        0 <= k < blocks.len(),
        b.0 == blocks[k].0,
    ensures
        days_differ(blocks.remove(k).push(b)),
{
    let kept = blocks.remove(k);
    let out = kept.push(b);
    assert forall|i: int, j: int| 0 <= i < j < out.len() implies (#[trigger] out[i]).0 != (
    #[trigger] out[j]).0 by {
        let oi = if i < k {
            i
        } else {
            i + 1
        };
        assert(out[i] == blocks[oi]);
        if j < kept.len() {
            let oj = if j < k {
                j
            } else {
                j + 1
            };
            assert(out[j] == blocks[oj]);
        } else {
            assert(out[j].0 == blocks[k].0);
        }
    }
}

/// One day, one entry. A write of a plain entry into a tidy, lined log
/// whose blocks are of different days leaves such a log again: the head
/// as it was, and the blocks that `after_write` gives, no two of one day.
pub proof fn law_write_keeps_days_apart(
    head: Seq<u8>,
    blocks: Seq<(Date, Seq<u8>)>,
    e: (Date, Seq<char>, Seq<Seq<char>>),
    overwrite: bool,
)
    requires
        tidy(head, blocks),
        lined(head, blocks),
        days_differ(blocks),
        plain_entry(e),
    ensures
        edited(Some(log_of(head, blocks)), e.0, entry_text(e.0, e.1, e.2), overwrite) == log_of(
            head,
            after_write(blocks, e, overwrite),
        ),
        tidy(head, after_write(blocks, e, overwrite)),
        lined(head, after_write(blocks, e, overwrite)),
        days_differ(after_write(blocks, e, overwrite)),
{
    let log = log_of(head, blocks);
    let block = entry_text(e.0, e.1, e.2);
    lemma_has_entry(head, blocks, e.0);
    if exists|i: int| 0 <= i < blocks.len() && (#[trigger] blocks[i]).0 == e.0 {
        let k = choose|i: int| 0 <= i < blocks.len() && (#[trigger] blocks[i]).0 == e.0;
        if overwrite {
            law_overwrite_replaces_one_block(head, blocks, k, block);
            lemma_remove_block(head, blocks, k);
            lemma_lined_log_is_closed(head, blocks.remove(k));
            lemma_push_entry(head, blocks.remove(k), e);
            lemma_days_differ_replaced(blocks, k, entry_block(e));
        }
    } else {
        law_new_day_is_appended(head, blocks, e, overwrite);
        lemma_push_entry(head, blocks, e);
        let more = blocks.push(entry_block(e));
        assert forall|i: int, j: int| 0 <= i < j < more.len() implies (#[trigger] more[i]).0 != (
        #[trigger] more[j]).0 by {
            assert(more[i] == blocks[i]);
            if j < blocks.len() {
                assert(more[j] == blocks[j]);
            }
        }
    }
}

} // verus!
