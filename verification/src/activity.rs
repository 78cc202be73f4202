//! Activities and the lines of an activity log.
use vstd::prelude::*;

use crate::time::{lemma_timestamp_inv, Duration, Timestamp};

verus! {

/// A tracked activity: a project, a description, when it started and, once
/// stopped, when it ended.
#[derive(Clone, Debug, PartialEq, Eq)]
pub struct Activity {
    pub start: Timestamp,
    pub end: Option<Timestamp>,
    pub project: String,
    pub description: String,
}

/// Why a line of the log does not hold an activity.
#[derive(Clone, Copy, Debug, PartialEq, Eq, Structural)]
pub enum ActivityError {
    DateTimeParseError,
    GeneralParseError,
}

/// A line of the activity log: its text as read (if it was read), its number
/// in the file, the activity it holds, and whether it has to be written anew.
#[derive(Debug, PartialEq, Eq)]
pub struct Line {
    pub plaintext: Option<String>,
    pub line_number: Option<usize>,
    pub activity: Result<Activity, ActivityError>,
    pub changed: bool,
}

/// What an operation on the log did, in the order it did it.
#[derive(Clone, Debug, PartialEq, Eq)]
pub enum Notice {
    Started(Activity),
    Stopped(Activity),
    Changed(Activity),
    Canceled(Activity),
}

/// The span of an activity, measured up to `now` while it is still running.
pub open spec fn duration_at(a: Activity, now: Timestamp) -> int {
    match a.end {
        Some(e) => e.instant() - a.start.instant(),
        None => now.instant() - a.start.instant(),
    }
}

/// Whether a line holds an activity that has not been stopped.
pub open spec fn is_running(l: Line) -> bool {
    l.activity matches Ok(a) && a.end is None
}

impl Activity {
    /// Starts an activity at `time`, or now when no time is given; `None`
    /// when no time is given and the clock cannot be read as a timestamp.
    pub fn start(project: String, description: String, time: Option<Timestamp>) -> (a: Option<Activity>)
        ensures
            time is Some ==> a is Some,
            a matches Some(a) ==> {
                &&& a.project == project
                &&& a.description == description
                &&& a.end is None
                &&& time matches Some(t) ==> a.start == t
            },
    {
        let start = match time {
            Some(t) => t,
            None => match Timestamp::now() {
                Some(t) => t,
                None => return None,
            },
        };
        Some(Activity { start, end: None, project, description })
    }

    /// Stops the activity at `time`, or now when no time is given. Returns
    /// whether it did: not when no time is given and the clock cannot be
    /// read as a timestamp, and then the activity is left as it was.
    pub fn stop(&mut self, time: Option<Timestamp>) -> (stopped: bool)
        ensures
            time is Some ==> stopped,
            stopped ==> {
                &&& final(self).start == old(self).start
                &&& final(self).project == old(self).project
                &&& final(self).description == old(self).description
                &&& final(self).end is Some
                &&& time matches Some(t) ==> final(self).end == Some(t)
            },
            !stopped ==> *final(self) == *old(self),
    {
        let end = match time {
            Some(t) => t,
            None => match Timestamp::now() {
                Some(t) => t,
                None => return false,
            },
        };
        self.end = Some(end);
        true
    }

    /// A copy of the activity.
    pub fn duplicate(&self) -> (a: Activity)
        ensures
            a == *self,
    {
        Activity {
            start: self.start,
            end: self.end,
            project: self.project.clone(),
            description: self.description.clone(),
        }
    }

    /// Whether the activity has been stopped.
    pub fn is_stopped(&self) -> (b: bool)
        ensures
            b == self.end is Some,
    {
        self.end.is_some()
    }

    /// The span of the activity, measured up to `now` while it is running.
    pub fn duration_until(&self, now: &Timestamp) -> (d: Duration)
        ensures
            d.nanos() == duration_at(*self, *now),
    {
        match &self.end {
            Some(e) => e.signed_duration_since(&self.start),
            None => now.signed_duration_since(&self.start),
        }
    }

    /// The span of the activity; one still running is measured up to now.
    /// `None` when the activity is running and the clock cannot be read as a
    /// timestamp.
    pub fn get_duration(&self) -> (d: Option<Duration>)
        ensures
            self.end is Some ==> (d matches Some(d) && d.nanos() == duration_at(*self, self.start)),
            d matches Some(d) ==> exists|now: Timestamp| now.is_valid() && d.nanos() == duration_at(*self, now),
    {
        let now = match &self.end {
            Some(_) => self.start,
            None => match Timestamp::now() {
                Some(t) => t,
                None => return None,
            },
        };
        let d = self.duration_until(&now);
        proof {
            use_type_invariant(&now);
            lemma_timestamp_inv(now);
            assert(now.is_valid() && d.nanos() == duration_at(*self, now));
        }
        Some(d)
    }
}

impl Line {
    /// The line that holds a new activity and has to be written.
    pub open spec fn spec_for_activity(activity: Activity) -> Line {
        Line { plaintext: None, line_number: None, activity: Ok(activity), changed: true }
    }

    /// A line that holds a new activity and has to be written.
    pub fn for_activity(activity: Activity) -> (l: Line)
        ensures
            l == Line::spec_for_activity(activity),
    {
        Line { plaintext: None, line_number: None, activity: Ok(activity), changed: true }
    }

    /// A copy of the line.
    pub fn duplicate(&self) -> (l: Line)
        ensures
            l == *self,
    {
        let activity = match &self.activity {
            Ok(a) => Ok(a.duplicate()),
            Err(e) => Err(*e),
        };
        let plaintext = match &self.plaintext {
            Some(t) => Some(t.clone()),
            None => None,
        };
        Line { plaintext, line_number: self.line_number, activity, changed: self.changed }
    }

    /// Marks the line as one that has to be written anew.
    pub fn set_changed(&mut self)
        ensures
            *final(self) == (Line { changed: true, ..*old(self) }),
    {
        self.changed = true;
    }
}

} // verus!
