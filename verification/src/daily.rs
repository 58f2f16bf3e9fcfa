//! The daily run: whether today is a working day.

use crate::config::Config;
use crate::date::Weekday;
use crate::text::str_eq;
use vstd::prelude::*;
use vstd::string::StringExecFns;

verus! {

/// The three-letter name of a day of the week.
pub open spec fn day_name(day: Weekday) -> Seq<char> {
    match day {
        Weekday::Mon => "Mon"@,
        Weekday::Tue => "Tue"@,
        Weekday::Wed => "Wed"@,
        Weekday::Thu => "Thu"@,
        Weekday::Fri => "Fri"@,
        Weekday::Sat => "Sat"@,
        Weekday::Sun => "Sun"@,
    }
}

/// `day` is among the working `days`.
pub open spec fn is_working_day(days: Seq<String>, day: Weekday) -> bool {
    exists|i: int| 0 <= i < days.len() && (#[trigger] days[i])@ == day_name(day)
}

/// Today is no working day; `day` is today's name.
#[derive(Debug)]
pub struct NotWorkingDay {
    pub day: String,
}

impl NotWorkingDay {
    /// The fault in words.
    pub fn message(&self) -> (r: String)
        ensures
            r@ == "Today ("@ + self.day@ + ") is not a configured working day."@,
    {
        let mut out = "Today (".to_owned();
        out.append(self.day.as_str());
        out.append(") is not a configured working day.");
        out
    }
}

/// The three-letter name of `day`.
pub fn weekday_to_str(day: Weekday) -> (r: String)
    ensures
        r@ == day_name(day),
{
    match day {
        Weekday::Mon => "Mon".to_owned(),
        Weekday::Tue => "Tue".to_owned(),
        Weekday::Wed => "Wed".to_owned(),
        Weekday::Thu => "Thu".to_owned(),
        Weekday::Fri => "Fri".to_owned(),
        Weekday::Sat => "Sat".to_owned(),
        Weekday::Sun => "Sun".to_owned(),
    }
}

/// Accepts `today` where it is one of the working days of the settings.
pub fn ensure_working_day(config: &Config, today: Weekday) -> (r: Result<(), NotWorkingDay>)
    ensures
        r is Ok <==> is_working_day(config.general.working_days@, today),
        r matches Err(e) ==> e.day@ == day_name(today),
{
    let today_str = weekday_to_str(today);
    let days = &config.general.working_days;
    let mut i: usize = 0;
    while i < days.len()
        invariant
            i <= days.len(),
            days@ == config.general.working_days@,
            today_str@ == day_name(today),
            forall|j: int| 0 <= j < i ==> (#[trigger] days@[j])@ != day_name(today),
        decreases days.len() - i,
    {
        if str_eq(days[i].as_str(), today_str.as_str()) {
            assert(days@[i as int]@ == day_name(today));
            return Ok(());
        }
        i += 1;
    }
    Err(NotWorkingDay { day: today_str })
}

} // verus!
