//! Operations on the lines of an activity log: starting, changing, stopping
//! and cancelling activities. Each returns, in order, what it did.
use vstd::prelude::*;

use crate::activity::{is_running, Activity, Line, Notice};
use crate::getter::{
    get_descriptions_and_projects, lemma_most_recent_last, lemma_pairs_by_recency_unique, line_activities, pair_of,
    pair_views, pairs_by_recency, started_after,
};
use crate::time::Timestamp;

verus! {

/// The text of an optional string.
pub open spec fn opt_view(o: Option<&str>) -> Option<Seq<char>> {
    match o {
        Some(s) => Some(s@),
        None => None,
    }
}

/// The line `l` with its activity stopped at `t`, if it was running.
pub open spec fn stop_line_at(l: Line, t: Timestamp) -> Line {
    match l.activity {
        Ok(a) => if a.end is None {
            Line { activity: Ok(Activity { end: Some(t), ..a }), changed: true, ..l }
        } else {
            l
        },
        Err(_) => l,
    }
}

/// The notices of stopping the running activities of `before`, which became `after`.
pub open spec fn stop_notices(before: Seq<Line>, after: Seq<Line>) -> Seq<Notice>
    decreases before.len(),
{
    if before.len() == 0 {
        Seq::empty()
    } else {
        let i = before.len() - 1;
        stop_notices(before.drop_last(), after) + if is_running(before[i]) {
            seq![Notice::Stopped(after[i].activity->Ok_0)]
        } else {
            Seq::empty()
        }
    }
}

/// Whether `after` is `before` with every running activity stopped: at `time`
/// when it is given, else at some valid instant.
pub open spec fn all_stopped(before: Seq<Line>, after: Seq<Line>, time: Option<Timestamp>) -> bool {
    &&& after.len() == before.len()
    &&& forall|i: int|
        0 <= i < before.len() ==> exists|t: Timestamp|
            t.is_valid() && (time matches Some(x) ==> t == x) && #[trigger] after[i] == stop_line_at(before[i], t)
}

proof fn lemma_stop_notices_prefix(before: Seq<Line>, after1: Seq<Line>, after2: Seq<Line>, n: int)
    requires
        0 <= n <= before.len(),
        n <= after1.len(),
        n <= after2.len(),
        forall|j: int| 0 <= j < n ==> after1[j] == after2[j],
    ensures
        stop_notices(before.take(n), after1) == stop_notices(before.take(n), after2),
    decreases n,
{
    if n > 0 {
        assert(before.take(n).drop_last() =~= before.take(n - 1));
        lemma_stop_notices_prefix(before, after1, after2, n - 1);
    }
}

/// Whether some line of the log holds a running activity.
pub open spec fn any_running(lines: Seq<Line>) -> bool {
    exists|i: int| 0 <= i < lines.len() && is_running(#[trigger] lines[i])
}

/// Whether some line holds a running activity.
fn has_running(file_content: &Vec<Line>) -> (b: bool)
    ensures
        b == any_running(file_content@),
{
    for i in 0..file_content.len()
        invariant
            forall|j: int| 0 <= j < i ==> !is_running(#[trigger] file_content@[j]),
    {
        if let Ok(a) = &file_content[i].activity {
            if !a.is_stopped() {
                assert(is_running(file_content@[i as int]));
                return true;
            }
        }
    }
    false
}

/// The time to stop at: the one given, else now when something runs (`None`
/// when the clock cannot be read then), else any valid time, which then
/// stops nothing.
fn stop_time(file_content: &Vec<Line>, time: Option<Timestamp>) -> (t: Option<Timestamp>)
    ensures
        (time is Some || !any_running(file_content@)) ==> t is Some,
        t matches Some(x) ==> x.is_valid() && (time matches Some(y) ==> x == y),
{
    match time {
        Some(t) => {
            proof {
                use_type_invariant(&t);
                crate::time::lemma_timestamp_inv(t);
            }
            Some(t)
        },
        None => if has_running(file_content) {
            Timestamp::now()
        } else {
            Some(Timestamp::unix_epoch())
        },
    }
}

/// Stops every running activity at `time`, or now when no time is given,
/// and marks its line as changed. `None` when no time is given, an activity
/// runs and the clock cannot be read as a timestamp; the log is then left
/// as it was.
pub fn stop_all_running_activities(file_content: &mut Vec<Line>, time: Option<Timestamp>) -> (notices: Option<
    Vec<Notice>,
>)
    ensures
        (time is Some || !any_running(old(file_content)@)) ==> notices is Some,
        notices is None ==> final(file_content)@ == old(file_content)@,
        notices matches Some(n) ==> {
            &&& all_stopped(old(file_content)@, final(file_content)@, time)
            &&& n@ == stop_notices(old(file_content)@, final(file_content)@)
        },
        notices is Some ==> exists|t: Timestamp|
            t.is_valid() && (time matches Some(x) ==> t == x) && #[trigger] all_stopped_at(old(file_content)@, final(file_content)@, t),
{
    let t = match stop_time(file_content, time) {
        Some(t) => t,
        None => return None,
    };
    let notices = stop_all_at(file_content, time, t);
    Some(notices)
}

/// Stops every running activity at `at`, which is the time given if any, and
/// marks its line as changed.
fn stop_all_at(file_content: &mut Vec<Line>, time: Option<Timestamp>, at: Timestamp) -> (notices: Vec<Notice>)
    requires
        time matches Some(x) ==> x == at,
    ensures
        all_stopped(old(file_content)@, final(file_content)@, time),
        all_stopped_at(old(file_content)@, final(file_content)@, at),
        notices@ == stop_notices(old(file_content)@, final(file_content)@),
{
    let ghost before = file_content@;
    let witness = at;
    proof {
        use_type_invariant(&witness);
        crate::time::lemma_timestamp_inv(witness);
    }
    let mut notices: Vec<Notice> = Vec::new();
    let n = file_content.len();
    for i in 0..n
        invariant
            n == before.len(),
            witness.is_valid(),
            witness == at,
            time matches Some(x) ==> witness == x,
            file_content@.len() == n,
            forall|j: int|
                0 <= j < i ==> exists|t: Timestamp|
                    t.is_valid() && (time matches Some(x) ==> t == x) && #[trigger] file_content@[j]
                        == stop_line_at(before[j], t),
            forall|j: int| i <= j < n ==> #[trigger] file_content@[j] == before[j],
            forall|j: int| 0 <= j < i ==> #[trigger] file_content@[j] == stop_line_at(before[j], at),
            notices@ == stop_notices(before.take(i as int), file_content@),
    {
        let ghost prev = file_content@;
        let running: Option<Activity> = match &file_content[i].activity {
            Ok(a) => if a.is_stopped() {
                None
            } else {
                Some(a.duplicate())
            },
            Err(_) => None,
        };
        if let Some(mut activity) = running {
            let line = &mut file_content[i];
            let stopped = activity.stop(Some(at));
            assert(stopped && activity.end == Some(at));
            let end = at;
            proof {
                use_type_invariant(&end);
                crate::time::lemma_timestamp_inv(end);
            }
            let stopped = activity.duplicate();
            line.activity = Ok(activity);
            line.set_changed();
            notices.push(Notice::Stopped(stopped));
            proof {
                assert(file_content@[i as int] == stop_line_at(before[i as int], end));
                lemma_stop_notices_prefix(before, prev, file_content@, i as int);
                assert(before.take(i + 1).drop_last() =~= before.take(i as int));
                assert forall|j: int| 0 <= j < i implies exists|t: Timestamp|
                    t.is_valid() && (time matches Some(x) ==> t == x) && #[trigger] file_content@[j]
                        == stop_line_at(before[j], t) by {
                    assert(file_content@[j] == prev[j]);
                }
                assert forall|j: int| 0 <= j < i + 1 implies #[trigger] file_content@[j] == stop_line_at(before[j], at) by {
                    if j < i {
                        assert(file_content@[j] == prev[j]);
                    }
                }
            }
        } else {
            proof {
                assert(stop_line_at(before[i as int], witness) == before[i as int]);
                assert(file_content@[i as int] == stop_line_at(before[i as int], witness));
                assert(before.take(i + 1).drop_last() =~= before.take(i as int));
            }
        }
    }
    assert(before.take(n as int) =~= before);
    notices
}

/// Whether `after` is `before` with every running activity stopped at one
/// and the same instant `t`.
pub open spec fn all_stopped_at(before: Seq<Line>, after: Seq<Line>, t: Timestamp) -> bool {
    &&& after.len() == before.len()
    &&& forall|i: int| 0 <= i < before.len() ==> #[trigger] after[i] == stop_line_at(before[i], t)
}

/// Whether `line` is the line of a new activity with the given project and
/// description, started at `time` when it is given.
pub open spec fn new_activity_line(line: Line, project: Seq<char>, description: Seq<char>, time: Option<Timestamp>) -> bool {
    &&& line.activity matches Ok(a)
    &&& a.project@ == project
    &&& a.description@ == description
    &&& a.end is None
    &&& (time matches Some(t) ==> a.start == t)
    &&& line.plaintext is None
    &&& line.line_number is None
    &&& line.changed
}

/// Appends `line` to the log and tells that its activity started.
fn save_new_activity(file_content: &mut Vec<Line>, activity: Activity, notices: &mut Vec<Notice>)
    ensures
        final(file_content)@ == old(file_content)@.push(Line::spec_for_activity(activity)),
        final(notices)@ == old(notices)@.push(Notice::Started(activity)),
{
    let started = activity.duplicate();
    file_content.push(Line::for_activity(activity));
    notices.push(Notice::Started(started));
}

/// The time given, else now; `None` when no time is given and the clock
/// cannot be read as a timestamp.
fn time_or_now(time: Option<Timestamp>) -> (t: Option<Timestamp>)
    ensures
        time is Some ==> t is Some,
        t matches Some(x) ==> x.is_valid() && (time matches Some(y) ==> x == y),
{
    match time {
        Some(t) => {
            proof {
                use_type_invariant(&t);
                crate::time::lemma_timestamp_inv(t);
            }
            Some(t)
        },
        None => Timestamp::now(),
    }
}

/// Stops every running activity, then starts a new one with the given
/// project and description at `time`, or now when no time is given; both
/// happen at the same time. `None` when no time is given and the clock
/// cannot be read as a timestamp; the log is then left as it was.
pub fn start(
    file_content: &mut Vec<Line>,
    project_name: &str,
    activity_description: &str,
    time: Option<Timestamp>,
) -> (notices: Option<Vec<Notice>>)
    ensures
        time is Some ==> notices is Some,
        notices is None ==> final(file_content)@ == old(file_content)@,
        notices matches Some(n) ==> {
            &&& final(file_content)@.len() == old(file_content)@.len() + 1
            &&& all_stopped(old(file_content)@, final(file_content)@.drop_last(), time)
            &&& new_activity_line(final(file_content)@.last(), project_name@, activity_description@, time)
            &&& n@ == stop_notices(old(file_content)@, final(file_content)@).push(
                Notice::Started(final(file_content)@.last().activity->Ok_0),
            )
        },
        notices is Some ==> exists|t: Timestamp|
            t.is_valid() && (time matches Some(x) ==> t == x) && #[trigger] all_stopped_at(
                old(file_content)@,
                final(file_content)@.drop_last(),
                t,
            ) && final(file_content)@.last().activity->Ok_0.start == t,
{
    let t = match time_or_now(time) {
        Some(t) => t,
        None => return None,
    };
    let ghost before = file_content@;
    let mut notices = stop_all_at(file_content, time, t);
    let ghost stopped = file_content@;
    let activity = Activity::start(project_name.to_owned(), activity_description.to_owned(), Some(t)).unwrap();
    save_new_activity(file_content, activity, &mut notices);
    proof {
        assert(file_content@.drop_last() =~= stopped);
        lemma_stop_notices_prefix(before, stopped, file_content@, before.len() as int);
        assert(before.take(before.len() as int) =~= before);
        assert(all_stopped_at(before, file_content@.drop_last(), t));
    }
    Some(notices)
}

/// Stops every running activity at `time`, or now when no time is given;
/// as `stop_all_running_activities`.
pub fn stop(file_content: &mut Vec<Line>, time: Option<Timestamp>) -> (notices: Option<Vec<Notice>>)
    ensures
        (time is Some || !any_running(old(file_content)@)) ==> notices is Some,
        notices is None ==> final(file_content)@ == old(file_content)@,
        notices matches Some(n) ==> {
            &&& all_stopped(old(file_content)@, final(file_content)@, time)
            &&& n@ == stop_notices(old(file_content)@, final(file_content)@)
        },
        notices is Some ==> exists|t: Timestamp|
            t.is_valid() && (time matches Some(x) ==> t == x) && #[trigger] all_stopped_at(old(file_content)@, final(file_content)@, t),
{
    stop_all_running_activities(file_content, time)
}

/// The lines that do not hold a running activity, in their order.
pub open spec fn without_running(lines: Seq<Line>) -> Seq<Line>
    decreases lines.len(),
{
    if lines.len() == 0 {
        Seq::empty()
    } else {
        without_running(lines.drop_last()) + if is_running(lines.last()) {
            Seq::empty()
        } else {
            seq![lines.last()]
        }
    }
}

/// The notices of cancelling the running activities of the lines.
pub open spec fn cancel_notices(lines: Seq<Line>) -> Seq<Notice>
    decreases lines.len(),
{
    if lines.len() == 0 {
        Seq::empty()
    } else {
        cancel_notices(lines.drop_last()) + if is_running(lines.last()) {
            seq![Notice::Canceled(lines.last().activity->Ok_0)]
        } else {
            Seq::empty()
        }
    }
}

/// Removes the lines of all running activities.
pub fn cancel(file_content: Vec<Line>) -> (result: (Vec<Line>, Vec<Notice>))
    ensures
        result.0@ == without_running(file_content@),
        result.1@ == cancel_notices(file_content@),
{
    let ghost lines = file_content@;
    let mut new_file_content: Vec<Line> = Vec::new();
    let mut notices: Vec<Notice> = Vec::new();
    for line in it: file_content.into_iter()
        invariant
            it.seq() == lines,
            new_file_content@ == without_running(lines.take(it.index())),
            notices@ == cancel_notices(lines.take(it.index())),
    {
        let ghost i = it.index();
        assert(line == lines[i]);
        let running = match &line.activity {
            Ok(activity) => !activity.is_stopped(),
            Err(_) => false,
        };
        proof {
            assert(lines.take(i + 1).drop_last() =~= lines.take(i));
            assert(lines.take(i + 1).last() == lines[i]);
        }
        if running {
            match line.activity {
                Ok(activity) => notices.push(Notice::Canceled(activity)),
                Err(_) => {},
            }
        } else {
            new_file_content.push(line);
        }
    }
    assert(lines.take(lines.len() as int) =~= lines);
    (new_file_content, notices)
}

/// Whether some running activity of the lines started at `t`.
pub open spec fn running_start(lines: Seq<Line>, t: Timestamp) -> bool {
    exists|i: int| 0 <= i < lines.len() && is_running(#[trigger] lines[i]) && lines[i].activity->Ok_0.start == t
}

/// Whether `after` is the line `before` once the running activities have been
/// given the project, description and start time that are given: a running
/// activity takes each of them; a stopped activity that ended when a running
/// one started, at another time than the new start, ends at the new start time
/// instead; other lines stay as they are.
pub open spec fn changed_line(
    lines: Seq<Line>,
    before: Line,
    after: Line,
    project: Option<Seq<char>>,
    description: Option<Seq<char>>,
    time: Option<Timestamp>,
) -> bool {
    if is_running(before) {
        let a = before.activity->Ok_0;
        &&& after.activity matches Ok(b)
        &&& b.project@ == (match project {
            Some(p) => p,
            None => a.project@,
        })
        &&& b.description@ == (match description {
            Some(d) => d,
            None => a.description@,
        })
        &&& b.start == (match time {
            Some(t) => t,
            None => a.start,
        })
        &&& b.end is None
        &&& after.plaintext == before.plaintext
        &&& after.line_number == before.line_number
        &&& after.changed == (before.changed || project is Some || description is Some || time is Some)
    } else {
        match before.activity {
            Ok(a) => match a.end {
                Some(e) => if time is Some && time != Some(e) && running_start(lines, e) {
                    after == Line { activity: Ok(Activity { end: time, ..a }), changed: true, ..before }
                } else {
                    after == before
                },
                None => after == before,
            },
            Err(_) => after == before,
        }
    }
}

/// The notices of changing the running activities of `before`, which became `after`.
pub open spec fn change_notices(before: Seq<Line>, after: Seq<Line>, any: bool) -> Seq<Notice>
    decreases before.len(),
{
    if before.len() == 0 {
        Seq::empty()
    } else {
        let i = before.len() - 1;
        change_notices(before.drop_last(), after, any) + if any && is_running(before[i]) {
            seq![Notice::Changed(after[i].activity->Ok_0)]
        } else {
            Seq::empty()
        }
    }
}

proof fn lemma_change_notices_prefix(before: Seq<Line>, after1: Seq<Line>, after2: Seq<Line>, any: bool, n: int)
    requires
        0 <= n <= before.len(),
        n <= after1.len(),
        n <= after2.len(),
        forall|j: int| 0 <= j < n ==> after1[j] == after2[j],
    ensures
        change_notices(before.take(n), after1, any) == change_notices(before.take(n), after2, any),
    decreases n,
{
    if n > 0 {
        assert(before.take(n).drop_last() =~= before.take(n - 1));
        lemma_change_notices_prefix(before, after1, after2, any, n - 1);
    }
}

/// The start times of the running activities.
fn running_starts(file_content: &Vec<Line>) -> (starts: Vec<Timestamp>)
    ensures
        forall|t: Timestamp| starts@.contains(t) <==> running_start(file_content@, t),
{
    let mut starts: Vec<Timestamp> = Vec::new();
    for i in 0..file_content.len()
        invariant
            forall|t: Timestamp|
                starts@.contains(t) <==> exists|j: int|
                    0 <= j < i && is_running(#[trigger] file_content@[j]) && file_content@[j].activity->Ok_0.start == t,
    {
        let ghost old_starts = starts@;
        let mut pushed = false;
        if let Ok(activity) = &file_content[i].activity {
            if !activity.is_stopped() {
                starts.push(activity.start);
                pushed = true;
            }
        }
        proof {
            assert(pushed == is_running(file_content@[i as int]));
            if pushed {
                assert(starts@ == old_starts.push(file_content@[i as int].activity->Ok_0.start));
            } else {
                assert(starts@ == old_starts);
            }
            assert forall|t: Timestamp|
                starts@.contains(t) <==> exists|j: int|
                    0 <= j < i + 1 && is_running(#[trigger] file_content@[j]) && file_content@[j].activity->Ok_0.start
                        == t by {
                if starts@.contains(t) {
                    let x = choose|x: int| 0 <= x < starts@.len() && starts@[x] == t;
                    if x < old_starts.len() {
                        assert(old_starts[x] == t);
                        assert(old_starts.contains(t));
                    } else {
                        assert(is_running(file_content@[i as int]) && file_content@[i as int].activity->Ok_0.start == t);
                    }
                }
                if exists|j: int|
                    0 <= j < i + 1 && is_running(#[trigger] file_content@[j]) && file_content@[j].activity->Ok_0.start
                        == t {
                    let j = choose|j: int|
                        0 <= j < i + 1 && is_running(#[trigger] file_content@[j])
                            && file_content@[j].activity->Ok_0.start == t;
                    if j < i {
                        assert(old_starts.contains(t));
                        let x = choose|x: int| 0 <= x < old_starts.len() && old_starts[x] == t;
                        assert(starts@[x] == t);
                    } else {
                        assert(starts@[starts@.len() - 1] == t);
                    }
                }
            }
        }
    }
    starts
}

/// Whether `t` is among the timestamps.
fn contains_timestamp(ts: &Vec<Timestamp>, t: &Timestamp) -> (b: bool)
    ensures
        b == ts@.contains(*t),
{
    for i in 0..ts.len()
        invariant
            forall|j: int| 0 <= j < i ==> ts@[j] != *t,
    {
        if ts[i] == *t {
            return true;
        }
    }
    false
}

/// Gives every running activity the project, description and start time that
/// are given, and moves the end of an activity that ended when a running one
/// started, at another time than the new start, to the new start time.
pub fn change(
    file_content: &mut Vec<Line>,
    project_name: Option<&str>,
    activity_description: Option<&str>,
    time: Option<Timestamp>,
) -> (notices: Vec<Notice>)
    ensures
        final(file_content)@.len() == old(file_content)@.len(),
        forall|i: int|
            0 <= i < old(file_content)@.len() ==> changed_line(
                old(file_content)@,
                #[trigger] old(file_content)@[i],
                final(file_content)@[i],
                opt_view(project_name),
                opt_view(activity_description),
                time,
            ),
        notices@ == change_notices(
            old(file_content)@,
            final(file_content)@,
            project_name is Some || activity_description is Some || time is Some,
        ),
{
    let ghost before = file_content@;
    let ghost project = opt_view(project_name);
    let ghost description = opt_view(activity_description);
    let any = project_name.is_some() || activity_description.is_some() || time.is_some();
    let starts = running_starts(file_content);
    let mut notices: Vec<Notice> = Vec::new();
    let n = file_content.len();
    for i in 0..n
        invariant
            n == before.len(),
            file_content@.len() == n,
            forall|t: Timestamp| starts@.contains(t) <==> running_start(before, t),
            forall|j: int|
                0 <= j < i ==> changed_line(
                    before,
                    #[trigger] before[j],
                    file_content@[j],
                    project,
                    description,
                    time,
                ),
            forall|j: int| i <= j < n ==> #[trigger] file_content@[j] == before[j],
            notices@ == change_notices(before.take(i as int), file_content@, any),
            any == (project_name is Some || activity_description is Some || time is Some),
            project == opt_view(project_name),
            description == opt_view(activity_description),
    {
        let ghost prev = file_content@;
        let found: Option<Activity> = match &file_content[i].activity {
            Ok(a) => Some(a.duplicate()),
            Err(_) => None,
        };
        if let Some(mut activity) = found {
            if !activity.is_stopped() {
                let mut changed = false;
                if let Some(project_name) = project_name {
                    activity.project = project_name.to_owned();
                    changed = true;
                }
                if let Some(activity_description) = activity_description {
                    activity.description = activity_description.to_owned();
                    changed = true;
                }
                if let Some(time) = time {
                    activity.start = time;
                    changed = true;
                }
                let copy = activity.duplicate();
                let line = &mut file_content[i];
                line.activity = Ok(activity);
                if changed {
                    line.set_changed();
                    notices.push(Notice::Changed(copy));
                }
            } else if let Some(new_end) = time {
                let end = activity.end.unwrap();
                if end != new_end && contains_timestamp(&starts, &end) {
                    activity.end = Some(new_end);
                    let line = &mut file_content[i];
                    line.activity = Ok(activity);
                    line.set_changed();
                }
            }
        }
        proof {
            assert(changed_line(before, before[i as int], file_content@[i as int], project, description, time));
            lemma_change_notices_prefix(before, prev, file_content@, any, i as int);
            assert(before.take(i + 1).drop_last() =~= before.take(i as int));
            assert forall|j: int| 0 <= j < i + 1 implies changed_line(
                before,
                #[trigger] before[j],
                file_content@[j],
                project,
                description,
                time,
            ) by {
                if j < i {
                    assert(file_content@[j] == prev[j]);
                }
            }
        }
    }
    assert(before.take(n as int) =~= before);
    notices
}

/// Why an activity cannot be continued.
#[derive(Clone, Copy, Debug, PartialEq, Eq, Structural)]
pub enum ContinueError {
    /// No activity has been started before.
    NoActivityStarted,
    /// Fewer distinct activities than the number asked for have been logged.
    TooFewActivities(usize),
    /// No time was given and the clock could not be read as a timestamp.
    NoClock,
}

/// The position, in the distinct activities ordered by recency, of the one
/// that `number` names: 0 is the most recent, 1 the one before it, and so on
/// (at least the first).
pub open spec fn continued_index(len: int, number: int) -> int {
    if len - number - 1 >= 0 {
        len - number - 1
    } else {
        0
    }
}

/// What continuing an activity does, given the distinct descriptions and
/// projects ordered by recency.
pub open spec fn continued(
    pairs: Seq<(Seq<char>, Seq<char>)>,
    before: Seq<Line>,
    after: Seq<Line>,
    result: Result<Vec<Notice>, ContinueError>,
    project_name: Option<Seq<char>>,
    activity_description: Option<Seq<char>>,
    time: Option<Timestamp>,
    number: usize,
) -> bool {
    if pairs.len() == 0 {
        result == Err::<Vec<Notice>, ContinueError>(ContinueError::NoActivityStarted) && after == before
    } else if number > pairs.len() {
        result == Err::<Vec<Notice>, ContinueError>(ContinueError::TooFewActivities(number)) && after == before
    } else if result == Err::<Vec<Notice>, ContinueError>(ContinueError::NoClock) {
        time is None && after == before
    } else {
        let pair = pairs[continued_index(pairs.len() as int, number as int)];
        &&& result matches Ok(notices)
        &&& after.len() == before.len() + 1
        &&& all_stopped(before, after.drop_last(), time)
        &&& new_activity_line(
            after.last(),
            match project_name {
                Some(p) => p,
                None => pair.1,
            },
            match activity_description {
                Some(d) => d,
                None => pair.0,
            },
            time,
        )
        &&& notices@ == stop_notices(before, after).push(Notice::Started(after.last().activity->Ok_0))
    }
}

/// Starts again one of the activities logged before (the most recent for
/// `number` 0, the one before it for 1, and so on), with the project,
/// description and start time that are given instead of its own, after
/// stopping every running activity.
pub fn continue_last_activity(
    file_content: &mut Vec<Line>,
    project_name: Option<&str>,
    activity_description: Option<&str>,
    time: Option<Timestamp>,
    number: usize,
) -> (result: Result<Vec<Notice>, ContinueError>)
    ensures
        exists|pairs: Seq<(Seq<char>, Seq<char>)>| #[trigger] pairs_by_recency(line_activities(old(file_content)@), pairs),
        result is Ok ==> exists|t: Timestamp|
            t.is_valid() && (time matches Some(x) ==> t == x) && #[trigger] all_stopped_at(
                old(file_content)@,
                final(file_content)@.drop_last(),
                t,
            ) && final(file_content)@.last().activity->Ok_0.start == t,
        forall|pairs: Seq<(Seq<char>, Seq<char>)>|
            pairs_by_recency(line_activities(old(file_content)@), pairs) ==> #[trigger] continued(
                pairs,
                old(file_content)@,
                final(file_content)@,
                result,
                opt_view(project_name),
                opt_view(activity_description),
                time,
                number,
            ),
{
    let ghost before = file_content@;
    let ghost acts = line_activities(before);
    let descriptions_and_projects = get_descriptions_and_projects(file_content);
    let ghost pv = pair_views(descriptions_and_projects@);
    assert forall|pairs: Seq<(Seq<char>, Seq<char>)>| pairs_by_recency(acts, pairs) implies pairs == pv by {
        lemma_pairs_by_recency_unique(acts, pairs, pv);
    }
    if descriptions_and_projects.len() == 0 {
        return Err(ContinueError::NoActivityStarted);
    }
    if number > descriptions_and_projects.len() {
        return Err(ContinueError::TooFewActivities(number));
    }
    let i = descriptions_and_projects.len().saturating_sub(number).saturating_sub(1);
    assert(i == continued_index(pv.len() as int, number as int));
    let (description, project) = &descriptions_and_projects[i];
    assert(pv[i as int] == (description@, project@));
    let new_project = match project_name {
        Some(p) => p.to_owned(),
        None => project.clone(),
    };
    let new_description = match activity_description {
        Some(d) => d.to_owned(),
        None => description.clone(),
    };
    let t = match time_or_now(time) {
        Some(t) => t,
        None => return Err(ContinueError::NoClock),
    };
    let new_activity = Activity::start(new_project, new_description, Some(t)).unwrap();
    let mut notices = stop_all_at(file_content, time, t);
    let ghost stopped = file_content@;
    save_new_activity(file_content, new_activity, &mut notices);
    proof {
        assert(file_content@.drop_last() =~= stopped);
        lemma_stop_notices_prefix(before, stopped, file_content@, before.len() as int);
        assert(before.take(before.len() as int) =~= before);
        assert(all_stopped_at(before, file_content@.drop_last(), t));
    }
    Ok(notices)
}

/// After stopping, no activity is running.
pub proof fn lemma_stop_leaves_none_running(before: Seq<Line>, after: Seq<Line>, time: Option<Timestamp>)
    requires
        all_stopped(before, after, time),
    ensures
        forall|i: int| 0 <= i < after.len() ==> !is_running(#[trigger] after[i]),
{
    assert forall|i: int| 0 <= i < after.len() implies !is_running(#[trigger] after[i]) by {
        let t = choose|t: Timestamp| t.is_valid() && (time matches Some(x) ==> t == x) && after[i] == stop_line_at(before[i], t);
    }
}

/// Stopping twice is stopping once: when nothing runs, stopping changes nothing.
pub proof fn lemma_stop_idempotent(before: Seq<Line>, after: Seq<Line>, again: Seq<Line>, time1: Option<Timestamp>, time2: Option<Timestamp>)
    requires
        all_stopped(before, after, time1),
        all_stopped(after, again, time2),
    ensures
        again == after,
{
    lemma_stop_leaves_none_running(before, after, time1);
    assert forall|i: int| 0 <= i < after.len() implies again[i] == after[i] by {
        let t = choose|t: Timestamp| t.is_valid() && (time2 matches Some(x) ==> t == x) && again[i] == stop_line_at(after[i], t);
        assert(!is_running(after[i]));
    }
    assert(again =~= after);
}

/// Stopping does not touch a line without a running activity, and keeps the
/// project, description and start of a running one.
pub proof fn lemma_stop_keeps_activities(before: Seq<Line>, after: Seq<Line>, time: Option<Timestamp>, i: int)
    requires
        all_stopped(before, after, time),
        0 <= i < before.len(),
    ensures
        !is_running(before[i]) ==> after[i] == before[i],
        is_running(before[i]) ==> {
            &&& after[i].activity matches Ok(a)
            &&& a.start == before[i].activity->Ok_0.start
            &&& a.project == before[i].activity->Ok_0.project
            &&& a.description == before[i].activity->Ok_0.description
            &&& a.end is Some
            &&& after[i].changed
        },
{
    let t = choose|t: Timestamp| t.is_valid() && (time matches Some(x) ==> t == x) && after[i] == stop_line_at(before[i], t);
}

/// After starting an activity, exactly one activity runs: the new one, on the last line.
pub proof fn lemma_start_leaves_one_running(
    before: Seq<Line>,
    after: Seq<Line>,
    project: Seq<char>,
    description: Seq<char>,
    time: Option<Timestamp>,
)
    requires
        after.len() == before.len() + 1,
        all_stopped(before, after.drop_last(), time),
        new_activity_line(after.last(), project, description, time),
    ensures
        is_running(after.last()),
        forall|i: int| 0 <= i < after.len() - 1 ==> !is_running(#[trigger] after[i]),
{
    lemma_stop_leaves_none_running(before, after.drop_last(), time);
    assert forall|i: int| 0 <= i < after.len() - 1 implies !is_running(#[trigger] after[i]) by {
        assert(after[i] == after.drop_last()[i]);
    }
}

/// Cancelling leaves no running activity.
pub proof fn lemma_cancel_leaves_none_running(lines: Seq<Line>)
    ensures
        forall|i: int| 0 <= i < without_running(lines).len() ==> !is_running(#[trigger] without_running(lines)[i]),
    decreases lines.len(),
{
    if lines.len() > 0 {
        lemma_cancel_leaves_none_running(lines.drop_last());
        let front = without_running(lines.drop_last());
        assert forall|i: int| 0 <= i < without_running(lines).len() implies !is_running(#[trigger] without_running(lines)[i]) by {
            if i < front.len() {
                assert(without_running(lines)[i] == front[i]);
            }
        }
    }
}

/// Cancelling twice is cancelling once.
pub proof fn lemma_cancel_idempotent(lines: Seq<Line>)
    ensures
        without_running(without_running(lines)) == without_running(lines),
        cancel_notices(without_running(lines)) == Seq::<Notice>::empty(),
{
    lemma_cancel_leaves_none_running(lines);
    lemma_without_running_fixed(without_running(lines));
}

proof fn lemma_without_running_fixed(lines: Seq<Line>)
    requires
        forall|i: int| 0 <= i < lines.len() ==> !is_running(#[trigger] lines[i]),
    ensures
        without_running(lines) == lines,
        cancel_notices(lines) == Seq::<Notice>::empty(),
    decreases lines.len(),
{
    if lines.len() > 0 {
        let front = lines.drop_last();
        assert forall|i: int| 0 <= i < front.len() implies !is_running(#[trigger] front[i]) by {
            assert(front[i] == lines[i]);
        }
        lemma_without_running_fixed(front);
        assert(!is_running(lines[lines.len() - 1]));
        assert(lines =~= front.push(lines.last()));
    }
}

/// A change without a project, description or time keeps every activity's
/// texts and times, marks no line and tells nothing.
pub proof fn lemma_empty_change(before: Seq<Line>, after: Seq<Line>, notices: Seq<Notice>)
    requires
        after.len() == before.len(),
        forall|i: int| 0 <= i < before.len() ==> changed_line(before, #[trigger] before[i], after[i], None, None, None),
        notices == change_notices(before, after, false),
    ensures
        forall|i: int| 0 <= i < before.len() ==> (#[trigger] after[i]).changed == before[i].changed,
        forall|i: int|
            0 <= i < before.len() && before[i].activity is Ok ==> {
                &&& (#[trigger] after[i]).activity matches Ok(b)
                &&& b.start == before[i].activity->Ok_0.start
                &&& b.end == before[i].activity->Ok_0.end
                &&& b.project@ == before[i].activity->Ok_0.project@
                &&& b.description@ == before[i].activity->Ok_0.description@
            },
        notices == Seq::<Notice>::empty(),
{
    lemma_change_notices_quiet(before, after, before.len() as int);
    assert(before.take(before.len() as int) =~= before);
}

/// Changing twice with the same project, description and time is changing once:
/// the second change leaves every line without a running activity exactly as
/// the first left it, and gives each running activity the same texts, start and
/// mark again.
pub proof fn lemma_change_idempotent(
    before: Seq<Line>,
    once: Seq<Line>,
    twice: Seq<Line>,
    project: Option<Seq<char>>,
    description: Option<Seq<char>>,
    time: Option<Timestamp>,
)
    requires
        once.len() == before.len(),
        twice.len() == once.len(),
        forall|i: int| 0 <= i < before.len() ==> changed_line(before, #[trigger] before[i], once[i], project, description, time),
        forall|i: int| 0 <= i < once.len() ==> changed_line(once, #[trigger] once[i], twice[i], project, description, time),
    ensures
        forall|i: int| 0 <= i < once.len() && !is_running(#[trigger] once[i]) ==> twice[i] == once[i],
        forall|i: int|
            0 <= i < once.len() && is_running(#[trigger] once[i]) ==> {
                &&& is_running(twice[i])
                &&& twice[i].activity->Ok_0.start == once[i].activity->Ok_0.start
                &&& twice[i].activity->Ok_0.project@ == once[i].activity->Ok_0.project@
                &&& twice[i].activity->Ok_0.description@ == once[i].activity->Ok_0.description@
                &&& twice[i].changed == once[i].changed
                &&& twice[i].plaintext == once[i].plaintext
                &&& twice[i].line_number == once[i].line_number
            },
{
    assert forall|i: int| 0 <= i < once.len() && !is_running(#[trigger] once[i]) implies twice[i] == once[i] by {
        assert(changed_line(before, before[i], once[i], project, description, time));
        assert(changed_line(once, once[i], twice[i], project, description, time));
        if let Ok(a) = once[i].activity {
            if let Some(e) = a.end {
                if time is Some && time != Some(e) && running_start(once, e) {
                    let k = choose|k: int| 0 <= k < once.len() && is_running(#[trigger] once[k]) && once[k].activity->Ok_0.start == e;
                    assert(changed_line(before, before[k], once[k], project, description, time));
                }
            }
        }
    }
    assert forall|i: int| 0 <= i < once.len() && is_running(#[trigger] once[i]) implies {
        &&& is_running(twice[i])
        &&& twice[i].activity->Ok_0.start == once[i].activity->Ok_0.start
        &&& twice[i].activity->Ok_0.project@ == once[i].activity->Ok_0.project@
        &&& twice[i].activity->Ok_0.description@ == once[i].activity->Ok_0.description@
        &&& twice[i].changed == once[i].changed
        &&& twice[i].plaintext == once[i].plaintext
        &&& twice[i].line_number == once[i].line_number
    } by {
        assert(changed_line(before, before[i], once[i], project, description, time));
        assert(changed_line(once, once[i], twice[i], project, description, time));
    }
}

proof fn lemma_change_notices_quiet(before: Seq<Line>, after: Seq<Line>, n: int)
    requires
        0 <= n <= before.len(),
    ensures
        change_notices(before.take(n), after, false) == Seq::<Notice>::empty(),
    decreases n,
{
    if n > 0 {
        assert(before.take(n).drop_last() =~= before.take(n - 1));
        lemma_change_notices_quiet(before, after, n - 1);
    }
}

/// Continuing with a number below the number of distinct activities, and
/// without overrides, starts again the distinct description and project
/// whose last start comes `number` places before the most recent one: number
/// 0 is the most recent, 1 the one last started before it, and so on. Exactly
/// `number` of the distinct activities were last started after the one
/// continued. With a number equal to the count, the least recent is continued.
pub proof fn lemma_continue_number(
    pairs: Seq<(Seq<char>, Seq<char>)>,
    before: Seq<Line>,
    after: Seq<Line>,
    result: Result<Vec<Notice>, ContinueError>,
    time: Option<Timestamp>,
    number: usize,
)
    requires
        pairs_by_recency(line_activities(before), pairs),
        number <= pairs.len(),
        pairs.len() > 0,
        continued(pairs, before, after, result, None, None, time, number),
        result is Ok,
    ensures
        number < pairs.len() ==> pair_of(after.last().activity->Ok_0) == pairs[pairs.len() - 1 - number],
        number == pairs.len() ==> pair_of(after.last().activity->Ok_0) == pairs[0],
        number < pairs.len() ==> forall|x: int|
            0 <= x < pairs.len() ==> (started_after(
                line_activities(before),
                crate::getter::last_started(line_activities(before), #[trigger] pairs[x], line_activities(before).len() as int),
                crate::getter::last_started(
                    line_activities(before),
                    pair_of(after.last().activity->Ok_0),
                    line_activities(before).len() as int,
                ),
            ) <==> x > pairs.len() - 1 - number),
{
    let acts = line_activities(before);
    let n = acts.len() as int;
    let k = pairs.len() as int;
    if number < k {
        let c = k - 1 - number;
        assert(continued_index(k, number as int) == c);
        assert forall|x: int| 0 <= x < k implies (started_after(
            acts,
            crate::getter::last_started(acts, #[trigger] pairs[x], n),
            crate::getter::last_started(acts, pairs[c], n),
        ) <==> x > c) by {
            let lx = crate::getter::last_started(acts, pairs[x], n);
            let lc = crate::getter::last_started(acts, pairs[c], n);
            if x < c {
                assert(started_after(acts, lc, lx));
            } else if x > c {
                assert(started_after(acts, lx, lc));
            }
        }
    } else {
        assert(continued_index(k, number as int) == 0);
    }
}

/// Continuing without a number or overrides starts again the activity that
/// was started most recently, with its description and project.
pub proof fn lemma_continue_most_recent(
    pairs: Seq<(Seq<char>, Seq<char>)>,
    before: Seq<Line>,
    after: Seq<Line>,
    result: Result<Vec<Notice>, ContinueError>,
    time: Option<Timestamp>,
)
    requires
        pairs_by_recency(line_activities(before), pairs),
        line_activities(before).len() > 0,
        continued(pairs, before, after, result, None, None, time, 0),
    ensures
        time is Some ==> result is Ok,
        result is Ok ==> exists|latest: int|
            0 <= latest < line_activities(before).len() && (forall|i: int|
                0 <= i < line_activities(before).len() && i != latest ==> started_after(
                    line_activities(before),
                    latest,
                    i,
                )) && pair_of(line_activities(before)[latest]) == (
                after.last().activity->Ok_0.description@,
                after.last().activity->Ok_0.project@,
            ),
{
    let acts = line_activities(before);
    lemma_most_recent_last(acts, pairs);
    let latest = crate::getter::last_started(acts, pairs.last(), acts.len() as int);
    assert(continued_index(pairs.len() as int, 0) == pairs.len() - 1);
    assert(pairs[pairs.len() - 1] == pairs.last());
    assert(forall|i: int| 0 <= i < acts.len() && i != latest ==> started_after(acts, latest, i));
}

/// Cancelling right after starting an activity removes just that activity:
/// what remains is the log with every activity stopped.
pub proof fn lemma_start_then_cancel(
    before: Seq<Line>,
    after: Seq<Line>,
    project: Seq<char>,
    description: Seq<char>,
    time: Option<Timestamp>,
)
    requires
        after.len() == before.len() + 1,
        all_stopped(before, after.drop_last(), time),
        new_activity_line(after.last(), project, description, time),
    ensures
        without_running(after) == after.drop_last(),
        cancel_notices(after) == seq![Notice::Canceled(after.last().activity->Ok_0)],
{
    lemma_start_leaves_one_running(before, after, project, description, time);
    let front = after.drop_last();
    assert forall|i: int| 0 <= i < front.len() implies !is_running(#[trigger] front[i]) by {
        assert(front[i] == after[i]);
    }
    lemma_without_running_fixed(front);
}

} // verus!
