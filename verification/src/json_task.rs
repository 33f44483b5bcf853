//! The exchange form of a task: its content and an optional due-date text,
//! the two fields a serialised task carries. Converting between this form
//! and `Task` is plain data work and is specified exactly; the actual
//! serialisation lives outside the library.

use vstd::prelude::*;
use vstd::string::StringExecFns;

use crate::dates::Date;
use crate::dates::days_in_month;
use crate::dates::parse_ymd;
use crate::dates::parse_ymd_chars;
use crate::dates::ymd_chars;
use crate::task::Task;
use crate::task::sorted_tags;

verus! {

/// A task reduced to its exchange fields: a name and an optional date text
/// in the `YYYY-MM-DD` form.
pub struct JsonTask {
    name: String,
    date: Option<String>,
}

impl JsonTask {
    /// The name field.
    pub closed spec fn name_text(self) -> Seq<char> {
        self.name@
    }

    /// The date field, if set.
    pub closed spec fn date_text(self) -> Option<Seq<char>> {
        match self.date {
            Some(d) => Some(d@),
            None => None,
        }
    }

    /// Builds the exchange form from its two fields.
    pub fn new(name: String, date: Option<String>) -> (r: JsonTask)
        ensures
            r.name_text() == name@,
            r.date_text() == (match date {
                Some(d) => Some(d@),
                None => None::<Seq<char>>,
            }),
    {
        JsonTask { name, date }
    }

    /// The exchange form of a task: the content becomes the name, the due
    /// date becomes its date text.
    pub fn from(t: &Task) -> (r: JsonTask)
        ensures
            r.name_text() == t.text(),
            t.due() is Some ==> r.date_text() == Some(
                ymd_chars(t.due().unwrap().y(), t.due().unwrap().m(), t.due().unwrap().d()),
            ),
            t.due() is None ==> r.date_text() is None,
    {
        match t.get_due() {
            Some(s) => JsonTask {
                name: t.get_content().clone(),
                date: Some(s.format_ymd()),
            },
            None => JsonTask { name: t.get_content().clone(), date: None },
        }
    }

    /// The task an exchange form denotes: a fresh task with the name as
    /// content, due on the date the date text names; a missing or malformed
    /// date text leaves the task without a due date.
    pub fn to_task(&self) -> (r: Task)
        ensures
            r.text() == self.name_text(),
            !r.done(),
            sorted_tags(r.ptags()),
            sorted_tags(r.ctags()),
            match self.date_text() {
                Some(dt) => match parse_ymd_chars(dt) {
                    Some(t) => {
                        if 1 <= t.1 <= 12 && 1 <= t.2 <= days_in_month(t.1, t.0) {
                            &&& r.due() is Some
                            &&& r.due().unwrap().y() == t.0
                            &&& r.due().unwrap().m() == t.1
                            &&& r.due().unwrap().d() == t.2
                        } else {
                            r.due() is None
                        }
                    },
                    None => r.due() is None,
                },
                None => r.due() is None,
            },
    {
        match &self.date {
            Some(s) => {
                let parsed: Option<Date> = parse_ymd(s.as_str());
                match parsed {
                    Some(d) => Task::new_with_date(self.name.clone(), d),
                    None => Task::new(self.name.clone()),
                }
            },
            None => Task::new(self.name.clone()),
        }
    }
}

} // verus!
