//! The distinct activities (description and project) of a log, ordered by
//! when each was last started.
use vstd::prelude::*;

use crate::activity::{Activity, Line};
use crate::time::Timestamp;

verus! {

/// The activities of the lines that hold one, in order.
pub open spec fn line_activities(lines: Seq<Line>) -> Seq<Activity>
    decreases lines.len(),
{
    if lines.len() == 0 {
        Seq::empty()
    } else {
        line_activities(lines.drop_last()) + match lines.last().activity {
            Ok(a) => seq![a],
            Err(_) => Seq::empty(),
        }
    }
}

/// The description and project of an activity.
pub open spec fn pair_of(a: Activity) -> (Seq<char>, Seq<char>) {
    (a.description@, a.project@)
}

/// Whether activity `i` was started after activity `j`: later, or at the same
/// time but further down the log.
pub open spec fn started_after(acts: Seq<Activity>, i: int, j: int) -> bool {
    ||| acts[i].start.instant() > acts[j].start.instant()
    ||| (acts[i].start.instant() == acts[j].start.instant() && i > j)
}

/// The index of the last started of the first `k` activities with the given
/// description and project, or -1 when there is none.
pub open spec fn last_started(acts: Seq<Activity>, pair: (Seq<char>, Seq<char>), k: int) -> int
    decreases k,
{
    if k <= 0 {
        -1
    } else {
        let prev = last_started(acts, pair, k - 1);
        if pair_of(acts[k - 1]) == pair && (prev < 0 || acts[k - 1].start.instant() >= acts[prev].start.instant()) {
            k - 1
        } else {
            prev
        }
    }
}

/// Whether `pairs` lists each description and project of the activities once,
/// ordered by when they were last started, the most recent last.
pub open spec fn pairs_by_recency(acts: Seq<Activity>, pairs: Seq<(Seq<char>, Seq<char>)>) -> bool {
    &&& forall|x: int, y: int| 0 <= x < y < pairs.len() ==> pairs[x] != pairs[y]
    &&& forall|x: int| 0 <= x < pairs.len() ==> last_started(acts, #[trigger] pairs[x], acts.len() as int) >= 0
    &&& forall|i: int| 0 <= i < acts.len() ==> pairs.contains(pair_of(#[trigger] acts[i]))
    &&& forall|x: int, y: int|
        0 <= x < y < pairs.len() ==> started_after(
            acts,
            last_started(acts, #[trigger] pairs[y], acts.len() as int),
            last_started(acts, #[trigger] pairs[x], acts.len() as int),
        )
}

/// The views of a list of (description, project) strings.
pub open spec fn pair_views(v: Seq<(String, String)>) -> Seq<(Seq<char>, Seq<char>)> {
    v.map_values(|p: (String, String)| (p.0@, p.1@))
}

proof fn lemma_last_started_range(acts: Seq<Activity>, pair: (Seq<char>, Seq<char>), k: int)
    requires
        0 <= k <= acts.len(),
    ensures
        -1 <= last_started(acts, pair, k) < k,
        last_started(acts, pair, k) >= 0 ==> pair_of(acts[last_started(acts, pair, k)]) == pair,
        last_started(acts, pair, k) < 0 <==> forall|i: int| 0 <= i < k ==> pair_of(#[trigger] acts[i]) != pair,
    decreases k,
{
    if k > 0 {
        lemma_last_started_range(acts, pair, k - 1);
    }
}

/// One remembered activity: its description, project, index among the
/// activities and start.
struct Latest {
    description: String,
    project: String,
    index: usize,
    start: Timestamp,
}

/// The description and project of a remembered activity.
spec fn latest_pair(l: Latest) -> (Seq<char>, Seq<char>) {
    (l.description@, l.project@)
}

/// Whether `out` remembers, for each description and project among the
/// first `c` activities, the last started of them, once, ordered by when
/// they were started.
spec fn latest_ok(acts: Seq<Activity>, out: Seq<Latest>, c: int) -> bool {
    &&& 0 <= c <= acts.len()
    &&& forall|x: int, y: int| 0 <= x < y < out.len() ==> latest_pair(out[x]) != latest_pair(out[y])
    &&& forall|x: int|
        0 <= x < out.len() ==> {
            &&& (#[trigger] out[x]).index as int == last_started(acts, latest_pair(out[x]), c)
            &&& 0 <= out[x].index < c
            &&& out[x].start == acts[out[x].index as int].start
        }
    &&& forall|i: int| 0 <= i < c ==> out.map_values(|l: Latest| latest_pair(l)).contains(pair_of(#[trigger] acts[i]))
    &&& forall|x: int, y: int|
        0 <= x < y < out.len() ==> started_after(acts, (#[trigger] out[y]).index as int, (#[trigger] out[x]).index as int)
}

proof fn lemma_activities_len(lines: Seq<Line>)
    ensures
        line_activities(lines).len() <= lines.len(),
    decreases lines.len(),
{
    if lines.len() > 0 {
        lemma_activities_len(lines.drop_last());
    }
}

proof fn lemma_activities_prefix(lines: Seq<Line>, m: int)
    requires
        0 <= m <= lines.len(),
    ensures
        line_activities(lines.take(m)) == line_activities(lines).take(line_activities(lines.take(m)).len() as int),
        line_activities(lines.take(m)).len() <= line_activities(lines).len(),
    decreases lines.len() - m,
{
    if m < lines.len() {
        lemma_activities_prefix(lines, m + 1);
        assert(lines.take(m + 1).drop_last() =~= lines.take(m));
        let short = line_activities(lines.take(m));
        let long = line_activities(lines.take(m + 1));
        assert(long.take(short.len() as int) =~= short);
        assert(line_activities(lines).take(short.len() as int) =~= long.take(short.len() as int));
    } else {
        assert(lines.take(m) =~= lines);
        assert(line_activities(lines).take(line_activities(lines).len() as int) =~= line_activities(lines));
    }
}

/// The position of the remembered activity with the given description and project.
fn find_pair(out: &Vec<Latest>, description: &String, project: &String) -> (x: Option<usize>)
    ensures
        x matches Some(x) ==> x < out@.len() && latest_pair(out@[x as int]) == (description@, project@),
        x is None ==> forall|y: int| 0 <= y < out@.len() ==> latest_pair(#[trigger] out@[y]) != (description@, project@),
{
    for y in 0..out.len()
        invariant
            forall|z: int| 0 <= z < y ==> latest_pair(#[trigger] out@[z]) != (description@, project@),
    {
        if out[y].description == *description && out[y].project == *project {
            return Some(y);
        }
    }
    None
}

/// Inserts a remembered activity after all those started no later than it.
fn insert_latest(out: &mut Vec<Latest>, l: Latest) -> (pos: usize)
    requires
        forall|x: int, y: int|
            0 <= x < y < old(out)@.len() ==> (#[trigger] old(out)@[x]).start.instant() <= (#[trigger] old(out)@[y]).start.instant(),
    ensures
        pos <= old(out)@.len(),
        final(out)@ == old(out)@.insert(pos as int, l),
        forall|y: int| 0 <= y < pos ==> (#[trigger] old(out)@[y]).start.instant() <= l.start.instant(),
        forall|y: int| pos <= y < old(out)@.len() ==> (#[trigger] old(out)@[y]).start.instant() > l.start.instant(),
{
    let mut pos: usize = 0;
    while pos < out.len() && !l.start.is_before(&out[pos].start)
        invariant
            pos <= out@.len(),
            out@ == old(out)@,
            forall|y: int| 0 <= y < pos ==> (#[trigger] out@[y]).start.instant() <= l.start.instant(),
        decreases out@.len() - pos,
    {
        pos = pos + 1;
    }
    assert forall|y: int| pos <= y < out@.len() implies (#[trigger] out@[y]).start.instant() > l.start.instant() by {
        assert(out@[pos as int].start.instant() > l.start.instant());
        if y > pos {
            assert(out@[pos as int].start.instant() <= out@[y].start.instant());
        }
    }
    out.insert(pos, l);
    pos
}

/// Adding activity `c` changes only the last started of its own description and project.
proof fn lemma_last_started_other(acts: Seq<Activity>, q: (Seq<char>, Seq<char>), c: int)
    requires
        0 <= c < acts.len(),
        pair_of(acts[c]) != q,
    ensures
        last_started(acts, q, c + 1) == last_started(acts, q, c),
{
}

/// After activity `c` is remembered in place of an earlier one of its pair
/// (or as the first of its pair), the remembered activities are right again.
#[verifier::spinoff_prover]
#[verifier::rlimit(40)]
proof fn lemma_step_insert(
    acts: Seq<Activity>,
    before: Seq<Latest>,
    mid: Seq<Latest>,
    after: Seq<Latest>,
    fresh: Latest,
    pos: int,
    c: int,
)
    requires
        latest_ok(acts, before, c),
        c < acts.len(),
        fresh.index == c,
        fresh.start == acts[c].start,
        latest_pair(fresh) == pair_of(acts[c]),
        last_started(acts, pair_of(acts[c]), c + 1) == c,
        forall|y: int| 0 <= y < mid.len() ==> latest_pair(#[trigger] mid[y]) != latest_pair(fresh),
        forall|y: int| 0 <= y < mid.len() ==> before.contains(#[trigger] mid[y]),
        forall|y: int|
            0 <= y < before.len() && latest_pair(#[trigger] before[y]) != latest_pair(fresh) ==> mid.contains(before[y]),
        forall|x: int, y: int| 0 <= x < y < mid.len() ==> started_after(acts, (#[trigger] mid[y]).index as int, (#[trigger] mid[x]).index as int),
        0 <= pos <= mid.len(),
        after == mid.insert(pos, fresh),
        forall|y: int| 0 <= y < pos ==> (#[trigger] mid[y]).start.instant() <= fresh.start.instant(),
        forall|y: int| pos <= y < mid.len() ==> (#[trigger] mid[y]).start.instant() > fresh.start.instant(),
    ensures
        latest_ok(acts, after, c + 1),
{
    let p = latest_pair(fresh);
    assert forall|y: int| 0 <= y < mid.len() implies {
        &&& (#[trigger] mid[y]).index as int == last_started(acts, latest_pair(mid[y]), c + 1)
        &&& 0 <= mid[y].index < c + 1
        &&& mid[y].start == acts[mid[y].index as int].start
    } by {
        let z = choose|z: int| 0 <= z < before.len() && before[z] == mid[y];
        assert(before[z].index as int == last_started(acts, latest_pair(before[z]), c));
        lemma_last_started_other(acts, latest_pair(mid[y]), c);
    }
    assert forall|x: int, y: int| 0 <= x < y < after.len() implies latest_pair(after[x]) != latest_pair(after[y]) by {
        if x != pos && y != pos {
            let x0 = if x < pos { x } else { x - 1 };
            let y0 = if y < pos { y } else { y - 1 };
            assert(after[x] == mid[x0] && after[y] == mid[y0]);
            let zx = choose|z: int| 0 <= z < before.len() && before[z] == mid[x0];
            let zy = choose|z: int| 0 <= z < before.len() && before[z] == mid[y0];
            if latest_pair(mid[x0]) == latest_pair(mid[y0]) {
                assert(mid[x0].index == mid[y0].index);
                assert(started_after(acts, mid[y0].index as int, mid[x0].index as int));
            }
        }
    }
    assert forall|x: int| 0 <= x < after.len() implies {
        &&& (#[trigger] after[x]).index as int == last_started(acts, latest_pair(after[x]), c + 1)
        &&& 0 <= after[x].index < c + 1
        &&& after[x].start == acts[after[x].index as int].start
    } by {
        if x < pos {
            assert(after[x] == mid[x]);
        } else if x > pos {
            assert(after[x] == mid[x - 1]);
        }
    }
    let pairs = after.map_values(|l: Latest| latest_pair(l));
    assert forall|i: int| 0 <= i < c + 1 implies pairs.contains(pair_of(#[trigger] acts[i])) by {
        if pair_of(acts[i]) == p {
            assert(pairs[pos] == p);
        } else {
            let old_pairs = before.map_values(|l: Latest| latest_pair(l));
            assert(old_pairs.contains(pair_of(acts[i])));
            let z = choose|z: int| 0 <= z < old_pairs.len() && old_pairs[z] == pair_of(acts[i]);
            assert(latest_pair(before[z]) == pair_of(acts[i]));
            assert(mid.contains(before[z]));
            let y = choose|y: int| 0 <= y < mid.len() && mid[y] == before[z];
            if y < pos {
                assert(pairs[y] == pair_of(acts[i]));
            } else {
                assert(pairs[y + 1] == pair_of(acts[i]));
            }
        }
    }
    assert forall|x: int, y: int|
        0 <= x < y < after.len() implies started_after(acts, (#[trigger] after[y]).index as int, (#[trigger] after[x]).index as int) by {
        if x < pos && y < pos {
            assert(after[x] == mid[x] && after[y] == mid[y]);
        } else if x < pos && y == pos {
            assert(after[x] == mid[x]);
        } else if x < pos {
            assert(after[x] == mid[x] && after[y] == mid[y - 1]);
        } else if x == pos {
            assert(after[y] == mid[y - 1]);
        } else {
            assert(after[x] == mid[x - 1] && after[y] == mid[y - 1]);
        }
    }
}

/// Remembers activity `c` of `acts`, `a`, as the last started of its
/// description and project when it is.
fn remember(out: &mut Vec<Latest>, a: &Activity, c: usize, Ghost(acts): Ghost<Seq<Activity>>)
    requires
        latest_ok(acts, old(out)@, c as int),
        c < acts.len(),
        acts[c as int] == *a,
    ensures
        latest_ok(acts, final(out)@, c + 1),
{
    let ghost before = out@;
    let ghost p = pair_of(*a);
    let fresh = Latest { description: a.description.clone(), project: a.project.clone(), index: c, start: a.start };
    match find_pair(out, &a.description, &a.project) {
        Some(x) => {
            if !a.start.is_before(&out[x].start) {
                out.remove(x);
                let ghost mid = out@;
                proof {
                    assert(before[x as int].index as int == last_started(acts, p, c as int));
                    assert forall|y: int| 0 <= y < mid.len() implies latest_pair(#[trigger] mid[y]) != p by {
                        if y < x {
                            assert(mid[y] == before[y]);
                        } else {
                            assert(mid[y] == before[y + 1]);
                        }
                    }
                    assert forall|y: int| 0 <= y < mid.len() implies before.contains(#[trigger] mid[y]) by {
                        if y < x {
                            assert(mid[y] == before[y]);
                        } else {
                            assert(mid[y] == before[y + 1]);
                        }
                    }
                    assert forall|y: int|
                        0 <= y < before.len() && latest_pair(#[trigger] before[y]) != p implies mid.contains(before[y]) by {
                        if y < x {
                            assert(mid[y] == before[y]);
                        } else {
                            assert(mid[y - 1] == before[y]);
                        }
                    }
                    assert forall|u: int, v: int| 0 <= u < v < mid.len() implies started_after(acts, (#[trigger] mid[v]).index as int, (#[trigger] mid[u]).index as int) by {
                        let u0 = if u < x { u } else { u + 1 };
                        let v0 = if v < x { v } else { v + 1 };
                        assert(mid[u] == before[u0] && mid[v] == before[v0]);
                    }
                }
                let pos = insert_latest(out, fresh);
                proof {
                    lemma_step_insert(acts, before, mid, out@, fresh, pos as int, c as int);
                }
            } else {
                proof {
                    assert(before[x as int].index as int == last_started(acts, p, c as int));
                    assert forall|y: int| 0 <= y < before.len() implies
                        (#[trigger] before[y]).index as int == last_started(acts, latest_pair(before[y]), c + 1) by {
                        if latest_pair(before[y]) != p {
                            lemma_last_started_other(acts, latest_pair(before[y]), c as int);
                        } else {
                            assert(y == x);
                        }
                    }
                    let pairs = before.map_values(|l: Latest| latest_pair(l));
                    assert(pairs[x as int] == p);
                    assert(latest_ok(acts, out@, c + 1));
                }
            }
        },
        None => {
            proof {
                lemma_last_started_range(acts, p, c as int);
                if last_started(acts, p, c as int) >= 0 {
                    let i = last_started(acts, p, c as int);
                    let pairs = before.map_values(|l: Latest| latest_pair(l));
                    assert(pairs.contains(pair_of(acts[i])));
                    let z = choose|z: int| 0 <= z < pairs.len() && pairs[z] == pair_of(acts[i]);
                    assert(latest_pair(before[z]) == p);
                }
                assert forall|y: int| 0 <= y < before.len() implies before.contains(#[trigger] before[y]) by {}
            }
            let pos = insert_latest(out, fresh);
            proof {
                lemma_step_insert(acts, before, before, out@, fresh, pos as int, c as int);
            }
        },
    }
}

/// The distinct descriptions and projects of the activities of the lines,
/// ordered by when each was last started, the most recent last.
pub fn get_descriptions_and_projects(file_content: &Vec<Line>) -> (pairs: Vec<(String, String)>)
    ensures
        pairs_by_recency(line_activities(file_content@), pair_views(pairs@)),
{
    let ghost acts = line_activities(file_content@);
    let mut out: Vec<Latest> = Vec::new();
    let mut c: usize = 0;
    for li in 0..file_content.len()
        invariant
            c == line_activities(file_content@.take(li as int)).len(),
            acts == line_activities(file_content@),
            latest_ok(acts, out@, c as int),
    {
        proof {
            lemma_activities_prefix(file_content@, li as int);
            lemma_activities_prefix(file_content@, li + 1);
            assert(file_content@.take(li + 1).drop_last() =~= file_content@.take(li as int));
        }
        if let Ok(a) = &file_content[li] .activity {
            proof {
                assert(line_activities(file_content@.take(li + 1)) == line_activities(file_content@.take(li as int)).push(*a));
                let long = line_activities(file_content@.take(li + 1));
                assert(long[c as int] == *a);
                assert(acts.take(long.len() as int)[c as int] == acts[c as int]);
                assert(acts[c as int] == *a);
                lemma_activities_len(file_content@.take(li + 1));
            }
            remember(&mut out, a, c, Ghost(acts));
            c = c + 1;
        }
    }
    proof {
        lemma_activities_prefix(file_content@, file_content@.len() as int);
        assert(file_content@.take(file_content@.len() as int) =~= file_content@);
    }
    let mut pairs: Vec<(String, String)> = Vec::new();
    for x in 0..out.len()
        invariant
            latest_ok(acts, out@, acts.len() as int),
            pairs@.len() == x,
            forall|y: int| 0 <= y < x ==> (#[trigger] pairs@[y]).0@ == out@[y].description@ && pairs@[y].1@ == out@[y].project@,
    {
        pairs.push((out[x].description.clone(), out[x].project.clone()));
    }
    proof {
        let pv = pair_views(pairs@);
        assert forall|y: int| 0 <= y < pv.len() implies pv[y] == latest_pair(out@[y]) by {}
        assert(pv =~= out@.map_values(|l: Latest| latest_pair(l)));
    }
    pairs
}

/// There is only one way to list the distinct descriptions and projects by
/// recency: two lists that both do so are equal.
pub proof fn lemma_pairs_by_recency_unique(
    acts: Seq<Activity>,
    r1: Seq<(Seq<char>, Seq<char>)>,
    r2: Seq<(Seq<char>, Seq<char>)>,
)
    requires
        pairs_by_recency(acts, r1),
        pairs_by_recency(acts, r2),
    ensures
        r1 == r2,
{
    let n = acts.len() as int;
    assert forall|q: (Seq<char>, Seq<char>)| #[trigger] r1.contains(q) implies r2.contains(q) by {
        let x = choose|x: int| 0 <= x < r1.len() && r1[x] == q;
        let i = last_started(acts, r1[x], n);
        lemma_last_started_range(acts, q, n);
        assert(r2.contains(pair_of(acts[i])));
    }
    assert forall|q: (Seq<char>, Seq<char>)| #[trigger] r2.contains(q) implies r1.contains(q) by {
        let x = choose|x: int| 0 <= x < r2.len() && r2[x] == q;
        let i = last_started(acts, r2[x], n);
        lemma_last_started_range(acts, q, n);
        assert(r1.contains(pair_of(acts[i])));
    }
    assert forall|x: int| 0 <= x < r1.len() && x < r2.len() implies r1[x] == r2[x] by {
        lemma_same_prefix(acts, r1, r2, x);
    }
    if r1.len() < r2.len() {
        let q = r2[r1.len() as int];
        assert(r2.contains(q));
        let w = choose|w: int| 0 <= w < r1.len() && r1[w] == q;
        assert(r2[w] == r1[w]);
    } else if r2.len() < r1.len() {
        let q = r1[r2.len() as int];
        assert(r1.contains(q));
        let w = choose|w: int| 0 <= w < r2.len() && r2[w] == q;
        assert(r1[w] == r2[w]);
    }
    assert(r1 =~= r2);
}

proof fn lemma_same_prefix(
    acts: Seq<Activity>,
    r1: Seq<(Seq<char>, Seq<char>)>,
    r2: Seq<(Seq<char>, Seq<char>)>,
    x: int,
)
    requires
        pairs_by_recency(acts, r1),
        pairs_by_recency(acts, r2),
        forall|q: (Seq<char>, Seq<char>)| #[trigger] r1.contains(q) ==> r2.contains(q),
        forall|q: (Seq<char>, Seq<char>)| #[trigger] r2.contains(q) ==> r1.contains(q),
        0 <= x < r1.len(),
        x < r2.len(),
    ensures
        r1[x] == r2[x],
    decreases x,
{
    let n = acts.len() as int;
    if x > 0 {
        lemma_same_prefix(acts, r1, r2, x - 1);
    }
    assert forall|w: int| 0 <= w < x implies r1[w] == r2[w] by {
        if w < x {
            lemma_same_prefix(acts, r1, r2, w);
        }
    }
    let a = r1[x];
    let b = r2[x];
    if a != b {
        assert(r1.contains(a));
        let y = choose|y: int| 0 <= y < r2.len() && r2[y] == a;
        assert(r2.contains(b));
        let z = choose|z: int| 0 <= z < r1.len() && r1[z] == b;
        if y < x {
            assert(r1[y] == r2[y]);
        }
        if z < x {
            assert(r1[z] == r2[z]);
        }
        assert(started_after(acts, last_started(acts, r1[z], n), last_started(acts, r1[x], n)));
        assert(started_after(acts, last_started(acts, r2[y], n), last_started(acts, r2[x], n)));
    }
}

/// The last started of the activities with a description and project was
/// started after every other one of them.
pub proof fn lemma_last_started_is_latest(acts: Seq<Activity>, pair: (Seq<char>, Seq<char>), k: int, i: int)
    requires
        0 <= i < k <= acts.len(),
        pair_of(acts[i]) == pair,
    ensures
        last_started(acts, pair, k) == i || started_after(acts, last_started(acts, pair, k), i),
    decreases k,
{
    lemma_last_started_range(acts, pair, k - 1);
    if i < k - 1 {
        lemma_last_started_is_latest(acts, pair, k - 1, i);
    }
}

/// In the list by recency, the last entry is the description and project of
/// the activity started most recently.
pub proof fn lemma_most_recent_last(acts: Seq<Activity>, pairs: Seq<(Seq<char>, Seq<char>)>)
    requires
        pairs_by_recency(acts, pairs),
        acts.len() > 0,
    ensures
        pairs.len() > 0,
        ({
            let latest = last_started(acts, pairs.last(), acts.len() as int);
            &&& 0 <= latest < acts.len()
            &&& pair_of(acts[latest]) == pairs.last()
            &&& forall|i: int| 0 <= i < acts.len() && i != latest ==> started_after(acts, latest, i)
        }),
{
    let n = acts.len() as int;
    assert(pairs.contains(pair_of(acts[0])));
    let latest = last_started(acts, pairs.last(), n);
    lemma_last_started_range(acts, pairs.last(), n);
    assert forall|i: int| 0 <= i < acts.len() && i != latest implies started_after(acts, latest, i) by {
        assert(pairs.contains(pair_of(acts[i])));
        let x = choose|x: int| 0 <= x < pairs.len() && pairs[x] == pair_of(acts[i]);
        let li = last_started(acts, pairs[x], n);
        lemma_last_started_is_latest(acts, pairs[x], n, i);
        if x < pairs.len() - 1 {
            assert(started_after(acts, last_started(acts, pairs[pairs.len() - 1], n), last_started(acts, pairs[x], n)));
        }
    }
}

} // verus!
