//! The commits of a day: the arguments for `git log`, and the commit
//! subjects in what it prints.

use crate::config::Git;
use crate::date::Date;
use crate::text::{
    char_is_space, lemma_scan_step, lemma_utf8_len, push_bytes, push_str, scanned,
    trimmed_range, utf8,
};
use vstd::prelude::*;

verus! {

/// The settings name no repository.
#[derive(Clone, Copy, Debug, PartialEq, Eq, Structural)]
pub struct RepoPathRequired;

/// `--since=` or `--until=` with a time of day on `date`.
pub open spec fn bound_argument(name: Seq<char>, date: Date, time: Seq<char>) -> Seq<u8> {
    utf8(name) + date.text() + utf8(time)
}

/// The arguments for `git` that list the subjects of the commits of
/// `date` in the repository at `repo`, on every branch, by `author` where
/// one is given.
pub open spec fn log_arguments(repo: Seq<char>, author: Option<Seq<char>>, date: Date) -> Seq<
    Seq<u8>,
> {
    seq![
        utf8("-C"@),
        utf8(repo),
        utf8("log"@),
        utf8("--all"@),
        bound_argument("--since="@, date, "T00:00:00"@),
        bound_argument("--until="@, date, "T23:59:59"@),
    ] + (match author {
        Some(name) => seq![utf8("--author="@) + utf8(name)],
        None => Seq::empty(),
    }) + seq![utf8("--pretty=%s"@)]
}

/// The bytes of each of `items`.
pub open spec fn argument_views(items: Seq<Vec<u8>>) -> Seq<Seq<u8>> {
    items.map_values(|a: Vec<u8>| a@)
}

/// The bytes of `s`.
fn literal(s: &str) -> (r: Vec<u8>)
    ensures
        r@ == utf8(s@),
{
    let mut out: Vec<u8> = Vec::new();
    push_str(&mut out, s);
    out
}

/// `name`, then `date`, then `time`.
fn bound(name: &str, date: Date, time: &str) -> (r: Vec<u8>)
    requires
        date.wf(),
    ensures
        r@ == bound_argument(name@, date, time@),
{
    let mut out: Vec<u8> = Vec::new();
    push_str(&mut out, name);
    let day = date.to_text();
    push_bytes(&mut out, day.as_slice());
    push_str(&mut out, time);
    out
}

/// The arguments for `git` that list the subjects of the commits of
/// `date`, or a fault where the settings name no repository.
pub fn log_command(config: &Git, date: Date) -> (r: Result<Vec<Vec<u8>>, RepoPathRequired>)
    requires
        date.wf(),
    ensures
        match r {
            Ok(args) => config.repo_path is Some && argument_views(args@) == log_arguments(
                config.repo_path.unwrap()@,
                match config.author {
                    Some(name) => Some(name@),
                    None => None,
                },
                date,
            ),
            Err(_) => config.repo_path is None,
        },
{
    let repo = match &config.repo_path {
        Some(path) => path.as_str(),
        None => {
            return Err(RepoPathRequired);
        },
    };
    let mut args: Vec<Vec<u8>> = Vec::new();
    args.push(literal("-C"));
    args.push(literal(repo));
    args.push(literal("log"));
    args.push(literal("--all"));
    args.push(bound("--since=", date, "T00:00:00"));
    args.push(bound("--until=", date, "T23:59:59"));
    match &config.author {
        Some(name) => {
            let mut author = literal("--author=");
            push_str(&mut author, name.as_str());
            args.push(author);
        },
        None => {},
    }
    args.push(literal("--pretty=%s"));
    assert(argument_views(args@) =~= log_arguments(
        config.repo_path.unwrap()@,
        match config.author {
            Some(name) => Some(name@),
            None => None,
        },
        date,
    ));
    Ok(args)
}

/// Offset of the line break that ends the line at `from`, or the length of
/// `s` where the line runs to the end.
pub open spec fn line_stop(s: Seq<char>, from: int) -> int
    decreases s.len() - from,
{
    if from < 0 || from >= s.len() {
        s.len() as int
    } else if s[from] == '\n' {
        from
    } else {
        line_stop(s, from + 1)
    }
}

/// The commit subjects in the lines of `s` from offset `from` on: each
/// line without the white space around it, and no line that is empty then.
pub open spec fn subjects_from(s: Seq<char>, from: int) -> Seq<Seq<char>>
    decreases s.len() + 1 - from,
{
    if from < 0 || from >= s.len() {
        Seq::empty()
    } else {
        proof {
            lemma_line_stop(s, from);
        }
        let stop = line_stop(s, from);
        let subject = trimmed_range(s, from, stop);
        if subject.len() > 0 {
            seq![subject] + subjects_from(s, stop + 1)
        } else {
            subjects_from(s, stop + 1)
        }
    }
}

/// The commit subjects that `git log` printed as `s`, in its order.
pub open spec fn subjects(s: Seq<char>) -> Seq<Seq<char>> {
    subjects_from(s, 0)
}

/// A line stops behind its start, at a line break or at the end, and holds
/// no line break.
pub proof fn lemma_line_stop(s: Seq<char>, from: int)
    requires
        0 <= from <= s.len(),
    ensures
        from <= line_stop(s, from) <= s.len(),
        line_stop(s, from) < s.len() ==> s[line_stop(s, from)] == '\n',
        forall|i: int| from <= i < line_stop(s, from) ==> s[i] != '\n',
    decreases s.len() - from,
{
    if from < s.len() && s[from] != '\n' {
        lemma_line_stop(s, from + 1);
    }
}

/// A line stops at the first line break behind its start.
proof fn lemma_line_stops_at(s: Seq<char>, from: int, stop: int)
    requires
        0 <= from <= stop <= s.len(),
        forall|i: int| from <= i < stop ==> s[i] != '\n',
        stop < s.len() ==> s[stop] == '\n',
    ensures
        line_stop(s, from) == stop,
    decreases stop - from,
{
    if from < stop {
        lemma_line_stops_at(s, from + 1, stop);
    }
}

/// The characters of each of `items`.
pub open spec fn subject_views(items: Seq<String>) -> Seq<Seq<char>> {
    items.map_values(|a: String| a@)
}

/// The line from `start` up to `stop`, scanned as `seen`, `first` and
/// `end` say, adds its text to the subjects if it has any.
proof fn lemma_flush(s: Seq<char>, start: int, stop: int, seen: bool, first: int, end: int)
    requires
        0 <= start <= stop <= s.len(),
        start < s.len(),
        forall|i: int| start <= i < stop ==> s[i] != '\n',
        stop < s.len() ==> s[stop] == '\n',
        scanned(s.subrange(start, stop), seen, first, end),
    ensures
        subjects_from(s, start) == (if seen {
            seq![s.subrange(start + first, start + end)]
        } else {
            Seq::<Seq<char>>::empty()
        }) + subjects_from(s, stop + 1),
{
    lemma_line_stops_at(s, start, stop);
    let part = s.subrange(start, stop);
    if seen {
        assert(part.subrange(first, end) =~= s.subrange(start + first, start + end));
    } else {
        crate::text::lemma_text_start(part, 0);
    }
    assert(Seq::<Seq<char>>::empty() + subjects_from(s, stop + 1) =~= subjects_from(s, stop + 1));
}

/// The commit subjects in what `git log` printed: each line without the
/// white space around it, in the order printed, and no empty line.
pub fn commit_subjects(stdout: &str) -> (r: Vec<String>)
    ensures
        subject_views(r@) == subjects(stdout@),
{
    proof {
        lemma_utf8_len(stdout@);
    }
    let ghost s = stdout@;
    let limit: usize = stdout.as_bytes().len();
    let mut out: Vec<String> = Vec::new();
    let mut start: usize = 0;
    let mut seen = false;
    let mut first: usize = 0;
    let mut end: usize = 0;
    let mut i: usize = 0;
    assert(s.subrange(0, 0).len() == 0);
    assert(subject_views(out@) =~= Seq::<Seq<char>>::empty());
    for c in it: stdout.chars()
        invariant
            it.seq() == s,
            s == stdout@,
            i == it.index(),
            s.len() <= limit,
            start <= i,
            forall|k: int| start <= k < i ==> s[k] != '\n',
            scanned(s.subrange(start as int, i as int), seen, first as int, end as int),
            subjects(s) == subject_views(out@) + subjects_from(s, start as int),
    {
        if c == '\n' {
            proof {
                lemma_flush(s, start as int, i as int, seen, first as int, end as int);
            }
            if seen {
                let ghost before = subject_views(out@);
                out.push(stdout.substring_char(start + first, start + end).to_owned());
                assert(subject_views(out@) =~= before + seq![
                    s.subrange(start + first, start + end),
                ]);
            }
            start = i + 1;
            seen = false;
            assert(s.subrange(start as int, i + 1).len() == 0);
        } else {
            proof {
                let part = s.subrange(start as int, i as int);
                lemma_scan_step(part, c, seen, first as int, end as int);
                assert(s.subrange(start as int, i + 1) == part.push(c));
            }
            if !char_is_space(c) {
                if !seen {
                    first = i - start;
                    seen = true;
                }
                end = i - start + 1;
            }
        }
        i += 1;
    }
    if start < i {
        proof {
            lemma_flush(s, start as int, i as int, seen, first as int, end as int);
        }
        if seen {
            let ghost before = subject_views(out@);
            out.push(stdout.substring_char(start + first, start + end).to_owned());
            assert(subject_views(out@) =~= before + seq![s.subrange(start + first, start + end)]);
        }
    }
    out
}

} // verus!
