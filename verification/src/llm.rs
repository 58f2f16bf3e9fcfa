//! The summary of a day: the request to the language model, and the
//! summary that stands where the model gives none.

use crate::config::Llm;
use crate::text::{is_blank, str_is_blank, trim, trimmed};
use vstd::prelude::*;
use vstd::string::StringExecFns;

verus! {

/// `items`, with `separator` between each two.
pub open spec fn joined(items: Seq<String>, separator: Seq<char>) -> Seq<char>
    decreases items.len(),
{
    if items.len() == 0 {
        Seq::empty()
    } else if items.len() == 1 {
        items[0]@
    } else {
        joined(items.drop_last(), separator) + separator + items.last()@
    }
}

/// The summary made of the commit subjects alone.
pub open spec fn plain_summary(commits: Seq<String>) -> Seq<char> {
    if commits.len() == 0 {
        "No commits for this day."@
    } else {
        "Worked on: "@ + joined(commits, "; "@)
    }
}

/// The request put to the model: the instruction, then the commit
/// subjects, one to a line.
pub open spec fn prompt_text(use_emoji: bool, commits: Seq<String>) -> Seq<char> {
    "Summarize the following git commit titles into one concise sentence. Avoid buzzwords. Do not invent work. Use at most one emoji"@
        + (if use_emoji {
        " if appropriate"@
    } else {
        Seq::<char>::empty()
    }) + ".\n\n"@ + joined(commits, "\n"@)
}

/// Appends `items` to `out`, with `separator` between each two.
pub fn push_joined(out: &mut String, items: &[String], separator: &str)
    ensures
        final(out)@ == old(out)@ + joined(items@, separator@),
{
    let mut i: usize = 0;
    assert(items@.take(0).len() == 0);
    while i < items.len()
        invariant
            i <= items.len(),
            out@ == old(out)@ + joined(items@.take(i as int), separator@),
        decreases items.len() - i,
    {
        if i > 0 {
            out.append(separator);
        }
        out.append(items[i].as_str());
        proof {
            let now = items@.take(i + 1);
            assert(now.drop_last() == items@.take(i as int));
            assert(now.last() == items@[i as int]);
            if i == 0 {
                assert(joined(items@.take(0), separator@) == Seq::<char>::empty());
            }
        }
        i += 1;
    }
    assert(items@.take(i as int) == items@);
}

/// The summary made of the commit subjects alone: a fixed sentence where
/// there are none, and else `Worked on: ` and the subjects with `; `
/// between them.
pub fn default_summary(commits: &[String]) -> (r: String)
    ensures
        r@ == plain_summary(commits@),
{
    if commits.len() == 0 {
        return "No commits for this day.".to_owned();
    }
    let mut out = "Worked on: ".to_owned();
    push_joined(&mut out, commits, "; ");
    out
}

/// The request put to the model for `commits`.
pub fn prompt(config: &Llm, commits: &[String]) -> (r: String)
    ensures
        r@ == prompt_text(config.use_emoji, commits@),
{
    let mut out =
        "Summarize the following git commit titles into one concise sentence. Avoid buzzwords. Do not invent work. Use at most one emoji".to_owned();
    if config.use_emoji {
        out.append(" if appropriate");
    }
    out.append(".\n\n");
    push_joined(&mut out, commits, "\n");
    out
}

/// How the summary of a day is found.
#[derive(Debug)]
pub enum SummaryStep {
    /// The summary is this text.
    Done(String),
    /// Ask `model` with `prompt`; what it says goes to `summarize`.
    Ask { model: String, prompt: String },
}

/// How the summary of a day is found: without the model where there are no
/// commits or the model is switched off, and by asking it otherwise.
pub fn summarize_if_enabled(config: &Llm, commits: &[String]) -> (r: SummaryStep)
    ensures
        match r {
            SummaryStep::Done(text) => (commits@.len() == 0 || !config.enabled) && text@
                == plain_summary(commits@),
            SummaryStep::Ask { model, prompt } => commits@.len() > 0 && config.enabled && model@
                == config.model@ && prompt@ == prompt_text(config.use_emoji, commits@),
        },
{
    if commits.len() == 0 {
        return SummaryStep::Done("No commits for this day.".to_owned());
    }
    if !config.enabled {
        return SummaryStep::Done(default_summary(commits));
    }
    SummaryStep::Ask { model: config.model.clone(), prompt: prompt(config, commits) }
}

/// The summary, given what the model said: its words without the white
/// space around them, and the summary made of the commit subjects where
/// it failed, which is `None`, or said nothing.
pub open spec fn summary_of_reply(commits: Seq<String>, reply: Option<Seq<char>>) -> Seq<char> {
    match reply {
        Some(text) => if is_blank(text) {
            plain_summary(commits)
        } else {
            trimmed(text)
        },
        None => plain_summary(commits),
    }
}

/// The summary of a day after the model was asked; `reply` is what it
/// said, or `None` where the request failed.
pub fn summarize(commits: &[String], reply: Option<&str>) -> (r: String)
    ensures
        r@ == summary_of_reply(
            commits@,
            match reply {
                Some(text) => Some(text@),
                None => None,
            },
        ),
{
    match reply {
        Some(text) => {
            if str_is_blank(text) {
                default_summary(commits)
            } else {
                trim(text).to_owned()
            }
        },
        None => default_summary(commits),
    }
}

/// Address of the model's service.
pub fn endpoint() -> (r: &'static str)
    ensures
        r@ == "http://localhost:11434/api/generate"@,
{
    "http://localhost:11434/api/generate"
}

/// Seconds after which a request to the model is given up.
pub fn timeout_seconds() -> (r: u64)
    ensures
        r == 10,
{
    10
}

} // verus!
