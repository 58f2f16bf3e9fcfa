//! The upload to a remote drive: where the file goes, under which name,
//! and the arguments for `rclone`.

use crate::config::Drive;
use crate::text::{decimal, push_decimal, push_str, utf8};
use vstd::prelude::*;
use vstd::string::StringExecFns;

verus! {

/// The destination on the drive: remote, colon, folder.
pub open spec fn destination_text(remote: Seq<char>, folder: Seq<char>) -> Seq<char> {
    remote + ":"@ + folder
}

/// The destination on the drive that the settings name.
pub fn destination(config: &Drive) -> (r: String)
    ensures
        r@ == destination_text(config.remote@, config.folder@),
{
    let mut out = config.remote.clone();
    out.append(":");
    out.append(config.folder.as_str());
    out
}

/// Every byte is a decimal digit.
pub open spec fn all_digits(s: Seq<u8>) -> bool {
    forall|i: int| 0 <= i < s.len() ==> 48 <= #[trigger] s[i] <= 57
}

/// The number that the decimal digits `s` spell.
pub open spec fn digits_value(s: Seq<u8>) -> int
    decreases s.len(),
{
    if s.len() == 0 {
        0
    } else {
        digits_value(s.drop_last()) * 10 + (s.last() - 48)
    }
}

/// The year that a file stem spells, as a 32-bit number in decimal: an
/// optional sign, then digits and nothing else.
pub open spec fn year_of_stem(stem: Seq<u8>) -> Option<int> {
    let signed = stem.len() > 0 && (stem[0] == 45 || stem[0] == 43);
    let digits = if signed {
        stem.subrange(1, stem.len() as int)
    } else {
        stem
    };
    let value = if signed && stem[0] == 45 {
        -digits_value(digits)
    } else {
        digits_value(digits)
    };
    if digits.len() > 0 && all_digits(digits) && -0x8000_0000 <= value <= 0x7fff_ffff {
        Some(value)
    } else {
        None
    }
}

/// `year` in decimal, with a minus sign where it is negative.
pub open spec fn signed_decimal(year: int) -> Seq<u8> {
    if year < 0 {
        seq![45u8] + decimal((-year) as nat)
    } else {
        decimal(year as nat)
    }
}

/// The name under which a file goes to the drive: `DevLog-YYYY.md`.
pub open spec fn drive_name(year: int) -> Seq<u8> {
    utf8("DevLog-"@) + signed_decimal(year) + utf8(".md"@)
}

/// More digits make no smaller number.
proof fn lemma_digits_grow(s: Seq<u8>, k: int)
    requires
        all_digits(s),
        0 <= k <= s.len(),
    ensures
        0 <= digits_value(s.take(k)) <= digits_value(s),
    decreases s.len() - k,
{
    if k == 0 {
        assert(s.take(0).len() == 0);
        lemma_digits_nonnegative(s);
    } else if k < s.len() {
        lemma_digits_grow(s, k + 1);
        assert(s.take(k + 1).drop_last() == s.take(k));
        lemma_digits_nonnegative(s.take(k));
    } else {
        assert(s.take(k) == s);
        lemma_digits_nonnegative(s);
    }
}

/// Digits spell no negative number.
proof fn lemma_digits_nonnegative(s: Seq<u8>)
    requires
        all_digits(s),
    ensures
        0 <= digits_value(s),
    decreases s.len(),
{
    if s.len() > 0 {
        lemma_digits_nonnegative(s.drop_last());
    }
}

/// The year that a file stem spells, if it spells one.
pub fn parse_year(stem: &[u8]) -> (r: Option<i32>)
    ensures
        match r {
            Some(year) => year_of_stem(stem@) == Some(year as int),
            None => year_of_stem(stem@) is None,
        },
{
    let signed = stem.len() > 0 && (stem[0] == 45 || stem[0] == 43);
    let negative = signed && stem[0] == 45;
    let from: usize = if signed {
        1
    } else {
        0
    };
    let ghost digits = stem@.subrange(from as int, stem@.len() as int);
    assert(stem@.subrange(0, stem@.len() as int) == stem@);
    if from == stem.len() {
        return None;
    }
    let mut value: i64 = 0;
    let mut i: usize = from;
    assert(digits.take(0).len() == 0);
    while i < stem.len()
        invariant
            from <= i <= stem.len(),
            signed == (stem@.len() > 0 && (stem@[0] == 45 || stem@[0] == 43)),
            from == (if signed { 1int } else { 0int }),
            stem@.subrange(0, stem@.len() as int) == stem@,
            digits == stem@.subrange(from as int, stem@.len() as int),
            all_digits(digits.take(i - from)),
            value == digits_value(digits.take(i - from)),
            0 <= value <= 0x8000_0000,
        decreases stem.len() - i,
    {
        let b = stem[i];
        if b < 48 || b > 57 {
            assert(digits[i - from] == b);
            return None;
        }
        proof {
            let now = digits.take(i - from + 1);
            assert(now.drop_last() == digits.take(i - from));
            assert(now.last() == b);
            assert forall|k: int| 0 <= k < now.len() implies 48 <= #[trigger] now[k] <= 57 by {
                if k < now.len() - 1 {
                    assert(now[k] == digits.take(i - from)[k]);
                }
            }
        }
        value = value * 10 + (b - 48) as i64;
        if value > 0x8000_0000 {
            proof {
                if all_digits(digits) {
                    lemma_digits_grow(digits, i - from + 1);
                }
            }
            return None;
        }
        i += 1;
    }
    assert(digits.take(i - from) == digits);
    let year: i64 = if negative {
        -value
    } else {
        value
    };
    if year > 0x7fff_ffff {
        return None;
    }
    Some(year as i32)
}

/// The name under which a file goes to the drive: by the year that its
/// stem spells, or else by `this_year`.
pub fn drive_file_name(stem: &str, this_year: i32) -> (r: Vec<u8>)
    ensures
        r@ == drive_name(
            match year_of_stem(utf8(stem@)) {
                Some(year) => year,
                None => this_year as int,
            },
        ),
{
    let year = match parse_year(stem.as_bytes()) {
        Some(year) => year,
        None => this_year,
    };
    let mut out: Vec<u8> = Vec::new();
    push_str(&mut out, "DevLog-");
    if year < 0 {
        out.push(45);
        let size: i64 = -(year as i64);
        push_decimal(&mut out, size as u32);
    } else {
        push_decimal(&mut out, year as u32);
    }
    push_str(&mut out, ".md");
    out
}

/// The arguments with which `rclone` copies the file at `path` to
/// `destination`.
pub fn copy_arguments(path: &str, destination: &str) -> (r: Vec<String>)
    ensures
        r@.len() == 4,
        r@[0]@ == "copy"@,
        r@[1]@ == path@,
        r@[2]@ == destination@,
        r@[3]@ == "--progress"@,
{
    let mut args: Vec<String> = Vec::new();
    args.push("copy".to_owned());
    args.push(path.to_owned());
    args.push(destination.to_owned());
    args.push("--progress".to_owned());
    args
}

} // verus!
