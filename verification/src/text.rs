//! Byte-level text primitives: substring search and comparison over
//! sequences of bytes, which is how every document is held.

use vstd::prelude::*;
use vstd::utf8::{
    encode_scalar, encode_utf8, encode_utf8_decode_utf8, has_width_1_encoding,
    last_continuation_byte, leading_byte_width_1,
};

verus! {

/// The bytes that hold the characters `s`: their UTF-8 encoding.
pub open spec fn utf8(s: Seq<char>) -> Seq<u8> {
    encode_utf8(s)
}

/// Appends `src` to `out`.
pub fn push_bytes(out: &mut Vec<u8>, src: &[u8])
    ensures
        final(out)@ == old(out)@ + src@,
{
    out.extend_from_slice(src);
    assert(out@ =~= old(out)@ + src@);
}

/// Appends the bytes of `s` to `out`.
pub fn push_str(out: &mut Vec<u8>, s: &str)
    ensures
        final(out)@ == old(out)@ + utf8(s@),
{
    push_bytes(out, s.as_bytes());
}

/// Appends the bytes of `src` from offset `from` up to `to`.
pub fn push_range(out: &mut Vec<u8>, src: &[u8], from: usize, to: usize)
    requires
        from <= to <= src.len(),
    ensures
        final(out)@ == old(out)@ + src@.subrange(from as int, to as int),
{
    let mut i: usize = from;
    while i < to
        invariant
            from <= i <= to <= src.len(),
            out@ == old(out)@ + src@.subrange(from as int, i as int),
        decreases to - i,
    {
        out.push(src[i]);
        assert(src@.subrange(from as int, i + 1) == src@.subrange(from as int, i as int).push(
            src@[i as int],
        ));
        i += 1;
    }
}

/// `n` in decimal digits, without padding.
pub open spec fn decimal(n: nat) -> Seq<u8>
    decreases n,
{
    if n < 10 {
        seq![(48 + n) as u8]
    } else {
        decimal(n / 10) + seq![(48 + n % 10) as u8]
    }
}

/// Appends `n` in decimal digits.
pub fn push_decimal(out: &mut Vec<u8>, n: u32)
    ensures
        final(out)@ == old(out)@ + decimal(n as nat),
    decreases n,
{
    if n >= 10 {
        push_decimal(out, n / 10);
    }
    let last: u8 = (n % 10) as u8;
    out.push(48 + last);
    assert(out@ == old(out)@ + decimal(n as nat));
}

/// The last byte of a character's encoding is the character itself where
/// that is ASCII, and no ASCII byte otherwise.
pub proof fn lemma_scalar_last_byte(c: char)
    ensures
        encode_scalar(c as u32).len() >= 1,
        (c as u32) < 128 ==> encode_scalar(c as u32).last() == c as u32,
        (c as u32) >= 128 ==> encode_scalar(c as u32).last() >= 128,
{
    let v = c as u32;
    if has_width_1_encoding(v) {
        assert(leading_byte_width_1(v) == v) by (bit_vector)
            requires
                v <= 0x7F,
        ;
    } else {
        assert(last_continuation_byte(v) >= 128) by (bit_vector);
    }
}

/// The last byte of a text is its last character where that is ASCII, and
/// no ASCII byte otherwise.
pub proof fn lemma_utf8_last_byte(s: Seq<char>)
    requires
        s.len() > 0,
    ensures
        utf8(s).len() > 0,
        (s.last() as u32) < 128 ==> utf8(s).last() == s.last() as u32,
        (s.last() as u32) >= 128 ==> utf8(s).last() >= 128,
    decreases s.len(),
{
    lemma_scalar_last_byte(s[0]);
    let rest = s.drop_first();
    assert(utf8(s) == encode_scalar(s[0] as u32) + encode_utf8(rest));
    if s.len() == 1 {
        assert(rest.len() == 0);
        assert(encode_utf8(rest) =~= Seq::<u8>::empty());
        assert(utf8(s) =~= encode_scalar(s[0] as u32));
    } else {
        lemma_utf8_last_byte(rest);
        assert(rest.last() == s.last());
        assert(utf8(s).last() == encode_utf8(rest).last());
    }
}

/// Whether `a` and `b` hold the same bytes.
pub fn bytes_eq(a: &[u8], b: &[u8]) -> (r: bool)
    ensures
        r == (a@ == b@),
{
    assert(a@.subrange(0, a@.len() as int) == a@);
    a.len() == b.len() && matches_at(a, b, 0)
}

/// Whether `a` and `b` hold the same characters.
pub fn str_eq(a: &str, b: &str) -> (r: bool)
    ensures
        r == (a@ == b@),
{
    proof {
        encode_utf8_decode_utf8(a@);
        encode_utf8_decode_utf8(b@);
    }
    bytes_eq(a.as_bytes(), b.as_bytes())
}

/// The characters that `str::trim` removes: those with the Unicode property
/// `White_Space`.
pub open spec fn is_space(c: char) -> bool {
    let n = c as u32;
    (9 <= n <= 13) || n == 0x20 || n == 0x85 || n == 0xA0 || n == 0x1680 || (0x2000 <= n <= 0x200A)
        || n == 0x2028 || n == 0x2029 || n == 0x202F || n == 0x205F || n == 0x3000
}

/// Nothing but white space, or nothing at all.
pub open spec fn is_blank(s: Seq<char>) -> bool {
    forall|i: int| 0 <= i < s.len() ==> is_space(#[trigger] s[i])
}

/// Whether `c` is white space.
pub fn char_is_space(c: char) -> (r: bool)
    ensures
        r == is_space(c),
{
    let n: u32 = c as u32;
    (9 <= n && n <= 13) || n == 0x20 || n == 0x85 || n == 0xA0 || n == 0x1680 || (0x2000 <= n && n
        <= 0x200A) || n == 0x2028 || n == 0x2029 || n == 0x202F || n == 0x205F || n == 0x3000
}

/// Whether `s` holds nothing but white space.
pub fn str_is_blank(s: &str) -> (r: bool)
    ensures
        r == is_blank(s@),
{
    let mut blank = true;
    for c in it: s.chars()
        invariant
            it.seq() == s@,
            blank == is_blank(s@.take(it.index() as int)),
    {
        proof {
            let k = it.index() as int;
            assert(s@.take(k + 1) == s@.take(k).push(c));
            assert(is_blank(s@.take(k + 1)) == (is_blank(s@.take(k)) && is_space(c))) by {
                if is_blank(s@.take(k)) && is_space(c) {
                    assert forall|i: int| 0 <= i < k + 1 implies is_space(
                        #[trigger] s@.take(k + 1)[i],
                    ) by {
                        if i < k {
                            assert(s@.take(k + 1)[i] == s@.take(k)[i]);
                        }
                    }
                }
                if is_blank(s@.take(k + 1)) {
                    assert(s@.take(k + 1)[k] == c);
                    assert forall|i: int| 0 <= i < k implies is_space(#[trigger] s@.take(k)[i]) by {
                        assert(s@.take(k + 1)[i] == s@.take(k)[i]);
                    }
                }
            }
        }
        if !char_is_space(c) {
            blank = false;
        }
    }
    assert(s@.take(s@.len() as int) == s@);
    blank
}

/// Offset of the first character at or behind `from` that is no white
/// space, or the length of `s` where there is none.
pub open spec fn text_start(s: Seq<char>, from: int) -> int
    decreases s.len() - from,
{
    if from < 0 || from >= s.len() {
        s.len() as int
    } else if !is_space(s[from]) {
        from
    } else {
        text_start(s, from + 1)
    }
}

/// Offset behind the last character before `to` that is no white space,
/// or 0 where there is none.
pub open spec fn text_end(s: Seq<char>, to: int) -> int
    decreases to,
{
    if to <= 0 || to > s.len() {
        0
    } else if !is_space(s[to - 1]) {
        to
    } else {
        text_end(s, to - 1)
    }
}

/// The characters of `s` from offset `from` up to `to`, without the white
/// space at either end.
pub open spec fn trimmed_range(s: Seq<char>, from: int, to: int) -> Seq<char> {
    let part = s.subrange(from, to);
    let start = text_start(part, 0);
    let end = text_end(part, part.len() as int);
    if start < end {
        part.subrange(start, end)
    } else {
        Seq::empty()
    }
}

/// `s` without the white space at either end.
pub open spec fn trimmed(s: Seq<char>) -> Seq<char> {
    trimmed_range(s, 0, s.len() as int)
}

/// A text has no more characters than bytes.
pub proof fn lemma_utf8_len(s: Seq<char>)
    ensures
        s.len() <= utf8(s).len(),
    decreases s.len(),
{
    if s.len() > 0 {
        lemma_scalar_last_byte(s[0]);
        lemma_utf8_len(s.drop_first());
        assert(utf8(s) == encode_scalar(s[0] as u32) + encode_utf8(s.drop_first()));
    }
}

/// Where the text of a part begins and ends, found in one pass: `first`
/// is the offset of the first character that is no white space, if one was
/// `seen`, and `end` the offset behind the last.
pub open spec fn scanned(part: Seq<char>, seen: bool, first: int, end: int) -> bool {
    if seen {
        &&& 0 <= first < end <= part.len()
        &&& text_start(part, 0) == first
        &&& text_end(part, part.len() as int) == end
    } else {
        &&& text_start(part, 0) == part.len()
        &&& text_end(part, part.len() as int) == 0
    }
}

/// `text_start` skips white space only.
pub proof fn lemma_text_start(s: Seq<char>, from: int)
    requires
        0 <= from <= s.len(),
    ensures
        from <= text_start(s, from) <= s.len(),
        forall|i: int| from <= i < text_start(s, from) ==> is_space(#[trigger] s[i]),
        text_start(s, from) < s.len() ==> !is_space(s[text_start(s, from)]),
    decreases s.len() - from,
{
    if from < s.len() && is_space(s[from]) {
        lemma_text_start(s, from + 1);
    }
}

/// Where a part's text begins does not change when a character is added
/// behind a character that is no white space; where there was none yet,
/// it begins at the new character if that is no white space.
pub proof fn lemma_scan_step(part: Seq<char>, c: char, seen: bool, first: int, end: int)
    requires
        scanned(part, seen, first, end),
    ensures
        is_space(c) ==> scanned(part.push(c), seen, first, end),
        !is_space(c) ==> scanned(
            part.push(c),
            true,
            if seen {
                first
            } else {
                part.len() as int
            },
            part.len() as int + 1,
        ),
{
    let more = part.push(c);
    lemma_text_start_push(part, c, 0);
    assert(more[more.len() - 1] == c);
    if is_space(c) {
        lemma_text_end_same(part, more, part.len() as int);
    }
}

/// Where the text begins after one more character.
proof fn lemma_text_start_push(part: Seq<char>, c: char, from: int)
    requires
        0 <= from <= part.len(),
    ensures
        text_start(part, from) < part.len() ==> text_start(part.push(c), from) == text_start(
            part,
            from,
        ),
        text_start(part, from) == part.len() ==> text_start(part.push(c), from) == (if is_space(
            c,
        ) {
            part.len() as int + 1
        } else {
            part.len() as int
        }),
    decreases part.len() - from,
{
    let more = part.push(c);
    if from < part.len() {
        assert(more[from] == part[from]);
        if is_space(part[from]) {
            lemma_text_start_push(part, c, from + 1);
        }
    } else {
        assert(more[from] == c);
        assert(text_start(more, from + 1) == more.len());
    }
}

/// Texts that agree up to `to` end their text before `to` at one offset.
proof fn lemma_text_end_same(a: Seq<char>, b: Seq<char>, to: int)
    requires
        0 <= to <= a.len() <= b.len(),
        forall|i: int| 0 <= i < to ==> a[i] == b[i],
    ensures
        text_end(a, to) == text_end(b, to),
    decreases to,
{
    if to > 0 && is_space(a[to - 1]) {
        lemma_text_end_same(a, b, to - 1);
    }
}

/// `s` without the white space at either end.
pub fn trim(s: &str) -> (r: &str)
    ensures
        r@ == trimmed(s@),
{
    proof {
        lemma_utf8_len(s@);
    }
    let limit: usize = s.as_bytes().len();
    let mut seen = false;
    let mut first: usize = 0;
    let mut end: usize = 0;
    let mut i: usize = 0;
    assert(s@.take(0).len() == 0);
    for c in it: s.chars()
        invariant
            it.seq() == s@,
            i == it.index(),
            s@.len() <= limit,
            scanned(s@.take(i as int), seen, first as int, end as int),
    {
        proof {
            lemma_scan_step(s@.take(i as int), c, seen, first as int, end as int);
            assert(s@.take(i + 1) == s@.take(i as int).push(c));
        }
        if !char_is_space(c) {
            if !seen {
                first = i;
                seen = true;
            }
            end = i + 1;
        }
        i += 1;
    }
    assert(s@.take(i as int) == s@);
    assert(s@.subrange(0, s@.len() as int) == s@);
    if seen {
        s.substring_char(first, end)
    } else {
        s.substring_char(0, 0)
    }
}

/// `needle` stands in `hay` at offset `at`.
pub open spec fn occurs_at(hay: Seq<u8>, needle: Seq<u8>, at: int) -> bool {
    &&& 0 <= at
    &&& at + needle.len() <= hay.len()
    &&& hay.subrange(at, at + needle.len()) == needle
}

/// `needle` stands somewhere in `hay`.
pub open spec fn contains(hay: Seq<u8>, needle: Seq<u8>) -> bool {
    exists|at: int| occurs_at(hay, needle, at)
}

/// The least offset at or after `from` at which `needle` stands in `hay`.
pub open spec fn find_from(hay: Seq<u8>, needle: Seq<u8>, from: int) -> Option<int>
    decreases hay.len() + 1 - from,
{
    if from < 0 || from + needle.len() > hay.len() {
        None
    } else if occurs_at(hay, needle, from) {
        Some(from)
    } else {
        find_from(hay, needle, from + 1)
    }
}

/// The least offset at which `needle` stands in `hay`.
pub open spec fn find_first(hay: Seq<u8>, needle: Seq<u8>) -> Option<int> {
    find_from(hay, needle, 0)
}

/// `find_from` returns an occurrence, and no occurrence lies between `from`
/// and what it returns.
pub proof fn lemma_find_from(hay: Seq<u8>, needle: Seq<u8>, from: int)
    requires
        0 <= from,
    ensures
        match find_from(hay, needle, from) {
            Some(at) => from <= at && occurs_at(hay, needle, at) && forall|j: int|
                from <= j < at ==> !occurs_at(hay, needle, j),
            None => forall|j: int| from <= j ==> !occurs_at(hay, needle, j),
        },
    decreases hay.len() + 1 - from,
{
    if from + needle.len() > hay.len() {
    } else if occurs_at(hay, needle, from) {
    } else {
        lemma_find_from(hay, needle, from + 1);
    }
}

/// Whether `needle` stands in `hay` at offset `at`.
pub fn matches_at(hay: &[u8], needle: &[u8], at: usize) -> (r: bool)
    ensures
        r == occurs_at(hay@, needle@, at as int),
{
    if needle.len() > hay.len() || at > hay.len() - needle.len() {
        return false;
    }
    let mut k: usize = 0;
    while k < needle.len()
        invariant
            k <= needle.len(),
            at + needle.len() <= hay.len(),
            forall|j: int| 0 <= j < k ==> hay@[at + j] == needle@[j],
        decreases needle.len() - k,
    {
        if hay[at + k] != needle[k] {
            proof {
                let sub = hay@.subrange(at as int, at + needle@.len());
                assert(sub[k as int] == hay@[at + k]);
            }
            return false;
        }
        k += 1;
    }
    assert(hay@.subrange(at as int, at + needle@.len()) =~= needle@);
    true
}

/// The least offset at or after `from` at which `needle` stands in `hay`.
pub fn find_at(hay: &[u8], needle: &[u8], from: usize) -> (r: Option<usize>)
    ensures
        match r {
            Some(at) => find_from(hay@, needle@, from as int) == Some(at as int),
            None => find_from(hay@, needle@, from as int) is None,
        },
        r matches Some(at) ==> from <= at && at + needle.len() <= hay.len(),
{
    if needle.len() > hay.len() || from > hay.len() - needle.len() {
        return None;
    }
    let last: usize = hay.len() - needle.len();
    let mut at: usize = from;
    loop
        invariant
            from <= at <= last,
            last == hay.len() - needle.len(),
            find_from(hay@, needle@, from as int) == find_from(hay@, needle@, at as int),
        decreases last - at,
    {
        if matches_at(hay, needle, at) {
            return Some(at);
        }
        if at == last {
            assert(find_from(hay@, needle@, at + 1) is None);
            return None;
        }
        at += 1;
    }
}

/// The least offset at which `needle` stands in `hay`.
pub fn find(hay: &[u8], needle: &[u8]) -> (r: Option<usize>)
    ensures
        match r {
            Some(at) => find_first(hay@, needle@) == Some(at as int),
            None => find_first(hay@, needle@) is None,
        },
        r matches Some(at) ==> at + needle.len() <= hay.len(),
{
    find_at(hay, needle, 0)
}

/// What stands in a part of a text stands in the text.
pub proof fn lemma_contains_within(before: Seq<u8>, part: Seq<u8>, after: Seq<u8>, needle: Seq<u8>)
    requires
        contains(part, needle),
    ensures
        contains(before + part + after, needle),
{
    let at = choose|at: int| occurs_at(part, needle, at);
    let whole = before + part + after;
    assert(whole.subrange(before.len() + at, before.len() + at + needle.len()) == part.subrange(
        at,
        at + needle.len(),
    ));
    assert(occurs_at(whole, needle, before.len() + at));
}

/// What stands in a part of a text stands in the text, as far behind the
/// start of the part as it stands in the part.
pub proof fn lemma_occurs_within(hay: Seq<u8>, part: Seq<u8>, at: int, needle: Seq<u8>, k: int)
    requires
        occurs_at(hay, part, at),
        occurs_at(part, needle, k),
    ensures
        occurs_at(hay, needle, at + k),
{
    let inner = hay.subrange(at, at + part.len());
    assert(hay.subrange(at + k, at + k + needle.len()) =~= inner.subrange(k, k + needle.len()));
}

/// Decimal digits are digits.
pub proof fn lemma_decimal_digits(n: nat)
    ensures
        decimal(n).len() >= 1,
        forall|i: int|
            0 <= i < decimal(n).len() ==> 48 <= #[trigger] decimal(n)[i]
                <= 57,
    decreases n,
{
    if n >= 10 {
        lemma_decimal_digits(n / 10);
    }
}

/// The first occurrence at or behind `from` is the one before which there
/// is none.
pub proof fn lemma_find_from_is(hay: Seq<u8>, needle: Seq<u8>, from: int, at: int)
    requires
        0 <= from <= at,
        occurs_at(hay, needle, at),
        forall|j: int| from <= j < at ==> !occurs_at(hay, needle, j),
    ensures
        find_from(hay, needle, from) == Some(at),
{
    lemma_find_from(hay, needle, from);
}

} // verus!
