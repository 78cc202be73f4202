//! Duration reports: activities grouped level by level (by date, project,
//! description, ...), each group with the total duration of its activities.
use vstd::prelude::*;

use crate::activity::{duration_at, Activity};
use crate::text::{chars_less, chars_of, lex_lt, same_text, lemma_lex_irreflexive, lemma_lex_total, lemma_lex_transitive};
use crate::time::{lemma_timestamp_inv, valid_duration, Duration, Timestamp};

verus! {

/// A way to group activities: each activity gets an identifier, and the
/// activities with equal identifiers form a group.
pub trait ReportGroup {
    /// The identifier of an activity.
    spec fn identifier(&self, activity: Activity) -> Seq<char>;

    /// Computes the identifier of an activity.
    fn return_identifier(&self, activity: &Activity) -> (id: String)
        ensures
            id@ == self.identifier(*activity),
    ;
}

/// Groups activities by the calendar date on which they started.
pub struct ReportGroupDate;

/// Groups activities by project.
pub struct ReportGroupProject;

/// Groups activities by description.
pub struct ReportGroupDescription;

impl ReportGroup for ReportGroupDate {
    open spec fn identifier(&self, activity: Activity) -> Seq<char> {
        crate::time::date_text(activity.start.seconds(), activity.start.subsec())
    }

    fn return_identifier(&self, activity: &Activity) -> (id: String) {
        activity.start.date_string()
    }
}

impl ReportGroup for ReportGroupProject {
    open spec fn identifier(&self, activity: Activity) -> Seq<char> {
        activity.project@
    }

    fn return_identifier(&self, activity: &Activity) -> (id: String) {
        activity.project.clone()
    }
}

impl ReportGroup for ReportGroupDescription {
    open spec fn identifier(&self, activity: Activity) -> Seq<char> {
        activity.description@
    }

    fn return_identifier(&self, activity: &Activity) -> (id: String) {
        activity.description.clone()
    }
}

impl<T: ReportGroup + ?Sized> ReportGroup for Box<T> {
    open spec fn identifier(&self, activity: Activity) -> Seq<char> {
        (**self).identifier(activity)
    }

    fn return_identifier(&self, activity: &Activity) -> (id: String) {
        (**self).return_identifier(activity)
    }
}

/// A way of grouping activities, named: by date, by project or by description.
#[derive(Clone, Copy, Debug, PartialEq, Eq, Structural)]
pub enum Grouping {
    Date,
    Project,
    Description,
}

impl ReportGroup for Grouping {
    open spec fn identifier(&self, activity: Activity) -> Seq<char> {
        match self {
            Grouping::Date => ReportGroupDate.identifier(activity),
            Grouping::Project => ReportGroupProject.identifier(activity),
            Grouping::Description => ReportGroupDescription.identifier(activity),
        }
    }

    fn return_identifier(&self, activity: &Activity) -> (id: String) {
        match self {
            Grouping::Date => ReportGroupDate.return_identifier(activity),
            Grouping::Project => ReportGroupProject.return_identifier(activity),
            Grouping::Description => ReportGroupDescription.return_identifier(activity),
        }
    }
}

/// The identifiers of an activity, one for each named way of grouping.
pub open spec fn grouping_path(a: Activity, kinds: Seq<Grouping>) -> Seq<Seq<char>> {
    Seq::new(kinds.len(), |g: int| kinds[g].identifier(a))
}

/// A group of a report: the total duration of its activities and, below it,
/// the groups of the next level.
#[derive(Debug)]
pub struct ReportEntry {
    pub total_duration: Duration,
    pub items: ProjectMap,
}

/// The groups of one level, by identifier, in strictly ascending order of
/// identifiers, so that no identifier occurs twice.
#[derive(Debug)]
pub struct ProjectMap {
    entries: Vec<(String, ReportEntry)>,
}

impl View for ProjectMap {
    type V = Seq<(String, ReportEntry)>;

    /// The groups, in order.
    closed spec fn view(&self) -> Seq<(String, ReportEntry)> {
        self.entries@
    }
}

impl ProjectMap {
    /// A map is larger than its groups, for definitions by recursion over levels.
    pub proof fn lemma_view_decreases(&self)
        ensures
            decreases_to!(*self => self@),
    {
        assert(decreases_to!(*self => self.entries));
        assert(decreases_to!(self.entries => self.entries@));
    }
}

impl ReportEntry {
    /// A group with no duration and no groups below it.
    pub fn new() -> (e: ReportEntry)
        ensures
            e.total_duration.nanos() == 0,
            e.items@.len() == 0,
    {
        ReportEntry { total_duration: Duration::zero(), items: ProjectMap::new() }
    }
}

impl ProjectMap {
    /// A level with no groups.
    pub fn new() -> (m: ProjectMap)
        ensures
            m@.len() == 0,
    {
        ProjectMap { entries: Vec::new() }
    }

    /// The number of groups.
    pub fn len(&self) -> (n: usize)
        ensures
            n == self@.len(),
    {
        self.entries.len()
    }

    /// Whether there are no groups.
    pub fn is_empty(&self) -> (b: bool)
        ensures
            b == (self@.len() == 0),
    {
        self.entries.len() == 0
    }

    /// The group with the given identifier.
    pub fn get(&self, identifier: &str) -> (e: Option<&ReportEntry>)
        ensures
            e is Some <==> self.keys().contains(identifier@),
            forall|x: int| 0 <= x < self@.len() && #[trigger] self@[x].0@ == identifier@ ==> e == Some(&self@[x].1),
    {
        proof {
            use_type_invariant(self);
            assert forall|x: int, y: int|
                0 <= x < self@.len() && 0 <= y < self@.len() && #[trigger] self@[x].0@ == identifier@
                    && #[trigger] self@[y].0@ == identifier@ implies x == y by {
                assert(self.keys()[x] == self@[x].0@);
                assert(self.keys()[y] == self@[y].0@);
                lemma_lex_irreflexive(identifier@);
                if x < y {
                    assert(lex_lt(self.keys()[x], self.keys()[y]));
                } else if y < x {
                    assert(lex_lt(self.keys()[y], self.keys()[x]));
                }
            }
        }
        let mut x: usize = 0;
        while x < self.entries.len()
            invariant
                x <= self@.len(),
                forall|y: int| 0 <= y < x ==> self@[y].0@ != identifier@,
                forall|a: int, b: int|
                    0 <= a < self@.len() && 0 <= b < self@.len() && #[trigger] self@[a].0@ == identifier@
                        && #[trigger] self@[b].0@ == identifier@ ==> a == b,
            decreases self@.len() - x,
        {
            if same_text(self.entries[x].0.as_str(), identifier) {
                assert(self.keys()[x as int] == identifier@);
                return Some(&self.entries[x].1);
            }
            x = x + 1;
        }
        proof {
            if self.keys().contains(identifier@) {
                let y = choose|y: int| 0 <= y < self.keys().len() && self.keys()[y] == identifier@;
                assert(self@[y].0@ == identifier@);
            }
        }
        None
    }

    /// The identifiers of the groups, in order.
    pub open spec fn keys(self) -> Seq<Seq<char>> {
        self@.map_values(|e: (String, ReportEntry)| e.0@)
    }

    #[verifier::type_invariant]
    spec fn keys_in_order(self) -> bool {
        keys_ascending(self.keys())
    }

    /// The groups, in order.
    pub fn entries(&self) -> (e: &Vec<(String, ReportEntry)>)
        ensures
            e@ == self@,
            keys_ascending(self.keys()),
    {
        proof {
            use_type_invariant(self);
        }
        &self.entries
    }
}

/// A row of the report's input: the identifiers of an activity, one per
/// level, and its duration in nanoseconds.
pub type Row = (Seq<Seq<char>>, int);

/// Whether `path` begins with `prefix`.
pub open spec fn has_prefix(path: Seq<Seq<char>>, prefix: Seq<Seq<char>>) -> bool {
    &&& prefix.len() <= path.len()
    &&& forall|j: int| 0 <= j < prefix.len() ==> #[trigger] path[j] == prefix[j]
}

/// The total duration of the first `k` rows whose identifiers begin with `prefix`.
pub open spec fn prefix_sum(rows: Seq<Row>, prefix: Seq<Seq<char>>, k: int) -> int
    decreases k,
{
    if k <= 0 {
        0
    } else {
        prefix_sum(rows, prefix, k - 1) + if has_prefix(rows[k - 1].0, prefix) {
            rows[k - 1].1
        } else {
            0
        }
    }
}

/// The number of the first `k` rows whose identifiers begin with `prefix`.
pub open spec fn prefix_count(rows: Seq<Row>, prefix: Seq<Seq<char>>, k: int) -> int
    decreases k,
{
    if k <= 0 {
        0
    } else {
        prefix_count(rows, prefix, k - 1) + if has_prefix(rows[k - 1].0, prefix) {
            1int
        } else {
            0
        }
    }
}

/// Whether the identifiers of a map's groups are in strictly ascending order.
pub open spec fn keys_ascending(keys: Seq<Seq<char>>) -> bool {
    forall|x: int, y: int| 0 <= x < y < keys.len() ==> lex_lt(#[trigger] keys[x], #[trigger] keys[y])
}

/// Whether `m` is the report, below the groups named by `prefix`, of the first
/// `k` rows, with `levels` levels of grouping: one group for each identifier
/// that these rows have at this level, in ascending order, each with the total
/// duration of its rows and, unless it is on the last level, the report of
/// its rows on the next level below it.
pub open spec fn map_matches(m: ProjectMap, rows: Seq<Row>, prefix: Seq<Seq<char>>, k: int, levels: int) -> bool
    decreases levels - prefix.len(),
{
    let keys = m.keys();
    let e = m@;
    &&& prefix.len() < levels
    &&& keys_ascending(keys)
    &&& forall|x: int| 0 <= x < e.len() ==> prefix_count(rows, #[trigger] prefix.push(keys[x]), k) > 0
    &&& forall|r: int|
        0 <= r < k && has_prefix(#[trigger] rows[r].0, prefix) ==> keys.contains(rows[r].0[prefix.len() as int])
    &&& forall|x: int|
        0 <= x < e.len() ==> (#[trigger] e[x]).1.total_duration.nanos() == prefix_sum(rows, prefix.push(keys[x]), k)
    &&& forall|x: int|
        0 <= x < e.len() ==> if prefix.len() + 1 < levels {
            map_matches((#[trigger] e[x]).1.items, rows, prefix.push(keys[x]), k, levels)
        } else {
            e[x].1.items@.len() == 0
        }
}

/// Whether every row has one identifier per level.
pub open spec fn rows_have_levels(rows: Seq<Row>, levels: int) -> bool {
    forall|r: int| 0 <= r < rows.len() ==> (#[trigger] rows[r]).0.len() == levels
}

/// Whether every running total of a group stays within the range of a duration.
pub open spec fn group_sums_fit(rows: Seq<Row>) -> bool {
    forall|prefix: Seq<Seq<char>>, k: int|
        1 <= prefix.len() && 0 <= k <= rows.len() ==> valid_duration(#[trigger] prefix_sum(rows, prefix, k))
}

proof fn lemma_prefix_push(path: Seq<Seq<char>>, prefix: Seq<Seq<char>>, key: Seq<char>)
    requires
        prefix.len() < path.len(),
    ensures
        has_prefix(path, prefix.push(key)) <==> (has_prefix(path, prefix) && path[prefix.len() as int] == key),
{
    if has_prefix(path, prefix.push(key)) {
        assert forall|j: int| 0 <= j < prefix.len() implies path[j] == prefix[j] by {
            assert(path[j] == prefix.push(key)[j]);
        }
        assert(path[prefix.len() as int] == prefix.push(key)[prefix.len() as int]);
    }
    if has_prefix(path, prefix) && path[prefix.len() as int] == key {
        assert forall|j: int| 0 <= j < prefix.len() + 1 implies path[j] == prefix.push(key)[j] by {
            if j < prefix.len() {
                assert(path[j] == prefix[j]);
            }
        }
    }
}

proof fn lemma_no_rows_zero(rows: Seq<Row>, prefix: Seq<Seq<char>>, k: int)
    requires
        0 <= k <= rows.len(),
        forall|r: int| 0 <= r < k ==> !has_prefix(#[trigger] rows[r].0, prefix),
    ensures
        prefix_sum(rows, prefix, k) == 0,
        prefix_count(rows, prefix, k) == 0,
    decreases k,
{
    if k > 0 {
        lemma_no_rows_zero(rows, prefix, k - 1);
    }
}

/// A report below `prefix` stays the report when a row without that prefix is added.
proof fn lemma_frame(m: ProjectMap, rows: Seq<Row>, prefix: Seq<Seq<char>>, k: int, levels: int)
    requires
        map_matches(m, rows, prefix, k, levels),
        0 <= k < rows.len(),
        rows_have_levels(rows, levels),
        !has_prefix(rows[k].0, prefix),
    ensures
        map_matches(m, rows, prefix, k + 1, levels),
    decreases levels - prefix.len(),
{
    let keys = m.keys();
    let e = m@;
    assert forall|x: int| 0 <= x < e.len() implies !has_prefix(rows[k].0, #[trigger] prefix.push(keys[x])) by {
        lemma_prefix_push(rows[k].0, prefix, keys[x]);
    }
    assert forall|x: int| 0 <= x < e.len() implies prefix_count(rows, #[trigger] prefix.push(keys[x]), k + 1) > 0 by {
        assert(!has_prefix(rows[k].0, prefix.push(keys[x])));
    }
    assert forall|x: int| 0 <= x < e.len() implies (#[trigger] e[x]).1.total_duration.nanos() == prefix_sum(
        rows,
        prefix.push(keys[x]),
        k + 1,
    ) by {
        assert(!has_prefix(rows[k].0, prefix.push(keys[x])));
    }
    assert forall|x: int| 0 <= x < e.len() implies if prefix.len() + 1 < levels {
        map_matches((#[trigger] e[x]).1.items, rows, prefix.push(keys[x]), k + 1, levels)
    } else {
        e[x].1.items@.len() == 0
    } by {
        if prefix.len() + 1 < levels {
            assert(!has_prefix(rows[k].0, prefix.push(keys[x])));
            lemma_frame(e[x].1.items, rows, prefix.push(keys[x]), k, levels);
        }
    }
}

/// Whether a group, named `key` below `prefix`, is right for the first `k` rows.
pub open spec fn entry_matches(
    ent: (String, ReportEntry),
    rows: Seq<Row>,
    prefix: Seq<Seq<char>>,
    k: int,
    levels: int,
) -> bool {
    &&& prefix_count(rows, prefix.push(ent.0@), k) > 0
    &&& ent.1.total_duration.nanos() == prefix_sum(rows, prefix.push(ent.0@), k)
    &&& if prefix.len() + 1 < levels {
        map_matches(ent.1.items, rows, prefix.push(ent.0@), k, levels)
    } else {
        ent.1.items@.len() == 0
    }
}

proof fn lemma_map_entries(m: ProjectMap, rows: Seq<Row>, prefix: Seq<Seq<char>>, k: int, levels: int)
    requires
        map_matches(m, rows, prefix, k, levels),
    ensures
        forall|x: int| 0 <= x < m@.len() ==> entry_matches(#[trigger] m@[x], rows, prefix, k, levels),
{
    assert forall|x: int| 0 <= x < m@.len() implies entry_matches(#[trigger] m@[x], rows, prefix, k, levels) by {
        assert(m.keys()[x] == m@[x].0@);
    }
}

proof fn lemma_entries_map(m: ProjectMap, rows: Seq<Row>, prefix: Seq<Seq<char>>, k: int, levels: int)
    requires
        prefix.len() < levels,
        keys_ascending(m.keys()),
        forall|r: int|
            0 <= r < k && has_prefix(#[trigger] rows[r].0, prefix) ==> m.keys().contains(rows[r].0[prefix.len() as int]),
        forall|x: int| 0 <= x < m@.len() ==> entry_matches(#[trigger] m@[x], rows, prefix, k, levels),
    ensures
        map_matches(m, rows, prefix, k, levels),
{
    let keys = m.keys();
    let e = m@;
    assert forall|x: int| 0 <= x < e.len() implies prefix_count(rows, #[trigger] prefix.push(keys[x]), k) > 0 by {
        assert(entry_matches(e[x], rows, prefix, k, levels));
    }
    assert forall|x: int| 0 <= x < e.len() implies (#[trigger] e[x]).1.total_duration.nanos() == prefix_sum(
        rows,
        prefix.push(keys[x]),
        k,
    ) by {
        assert(entry_matches(e[x], rows, prefix, k, levels));
    }
    assert forall|x: int| 0 <= x < e.len() implies if prefix.len() + 1 < levels {
        map_matches((#[trigger] e[x]).1.items, rows, prefix.push(keys[x]), k, levels)
    } else {
        e[x].1.items@.len() == 0
    } by {
        assert(entry_matches(e[x], rows, prefix, k, levels));
    }
}

/// A group keeps being right when a row of another group is added.
proof fn lemma_keep_entry(ent: (String, ReportEntry), rows: Seq<Row>, prefix: Seq<Seq<char>>, k: int, levels: int)
    requires
        entry_matches(ent, rows, prefix, k, levels),
        0 <= k < rows.len(),
        rows_have_levels(rows, levels),
        prefix.len() < levels,
        has_prefix(rows[k].0, prefix),
        rows[k].0[prefix.len() as int] != ent.0@,
    ensures
        entry_matches(ent, rows, prefix, k + 1, levels),
{
    lemma_prefix_push(rows[k].0, prefix, ent.0@);
    if prefix.len() + 1 < levels {
        lemma_frame(ent.1.items, rows, prefix.push(ent.0@), k, levels);
    }
}

/// The running totals of the groups of row `k` below `prefix`: the one of the
/// next level and, when they are in range, those further down.
proof fn lemma_sums_below(
    rows: Seq<Row>,
    prefix: Seq<Seq<char>>,
    new_prefix: Seq<Seq<char>>,
    k: int,
    depth: int,
    levels: int,
)
    requires
        0 <= k < rows.len(),
        depth == prefix.len(),
        depth < levels,
        rows_have_levels(rows, levels),
        has_prefix(rows[k].0, new_prefix),
        new_prefix.len() == depth + 1,
        valid_duration(prefix_sum(rows, new_prefix, k + 1)),
        depth + 1 < levels ==> forall|q: Seq<Seq<char>>|
            has_prefix(rows[k].0, q) && depth + 1 < q.len() <= levels ==> valid_duration(
                #[trigger] prefix_sum(rows, q, k + 1),
            ),
    ensures
        forall|q: Seq<Seq<char>>|
            has_prefix(rows[k].0, q) && depth < q.len() <= levels ==> valid_duration(
                #[trigger] prefix_sum(rows, q, k + 1),
            ),
{
    assert forall|q: Seq<Seq<char>>|
        has_prefix(rows[k].0, q) && depth < q.len() <= levels implies valid_duration(
            #[trigger] prefix_sum(rows, q, k + 1),
        ) by {
        if q.len() == depth + 1 {
            assert forall|j: int| 0 <= j < q.len() implies q[j] == new_prefix[j] by {
                assert(q[j] == rows[k].0[j]);
                assert(new_prefix[j] == rows[k].0[j]);
            }
            assert(q =~= new_prefix);
        }
    }
}

/// A running total of a group out of range means that not all of them fit.
proof fn lemma_sum_out_of_range(rows: Seq<Row>, prefix: Seq<Seq<char>>, k: int)
    requires
        1 <= prefix.len(),
        0 <= k <= rows.len(),
        !valid_duration(prefix_sum(rows, prefix, k)),
    ensures
        !group_sums_fit(rows),
{
}

/// Adds row `k` of `rows`, whose identifiers begin with `prefix`, to the
/// report `map` of the rows before it.
fn insert_row(
    map: &mut ProjectMap,
    path: &Vec<String>,
    dur: Duration,
    depth: usize,
    levels: usize,
    Ghost(rows): Ghost<Seq<Row>>,
    Ghost(prefix): Ghost<Seq<Seq<char>>>,
    Ghost(k): Ghost<int>,
) -> (ok: bool)
    requires
        map_matches(*old(map), rows, prefix, k, levels as int),
        0 <= k < rows.len(),
        rows_have_levels(rows, levels as int),
        depth == prefix.len(),
        path@.len() == levels,
        forall|j: int| 0 <= j < levels ==> (#[trigger] path@[j])@ == rows[k].0[j],
        dur.nanos() == rows[k].1,
        has_prefix(rows[k].0, prefix),
    ensures
        ok ==> map_matches(*final(map), rows, prefix, k + 1, levels as int),
        ok ==> forall|q: Seq<Seq<char>>|
            has_prefix(rows[k].0, q) && depth < q.len() <= levels ==> valid_duration(
                #[trigger] prefix_sum(rows, q, k + 1),
            ),
        !ok ==> !group_sums_fit(rows),
    decreases levels - depth,
{
    let ghost old_map = *map;
    let ghost keys = old_map.keys();
    let ghost row = rows[k].0;
    let key = &path[depth];
    let key_chars = chars_of(key.as_str());
    assert(key@ == row[depth as int]);
    let ghost new_prefix = prefix.push(key@);
    proof {
        lemma_prefix_push(row, prefix, key@);
    }
    let mut x: usize = 0;
    while x < map.entries.len() && chars_less(&chars_of(map.entries[x].0.as_str()), &key_chars)
        invariant
            *map == old_map,
            x <= map@.len(),
            key_chars@ == key@,
            keys == old_map.keys(),
            forall|y: int| 0 <= y < x ==> lex_lt(#[trigger] keys[y], key@),
        decreases map@.len() - x,
    {
        assert(keys[x as int] == map@[x as int].0@);
        x = x + 1;
    }
    let found = x < map.entries.len() && map.entries[x].0 == *key;
    let mut entries: Vec<(String, ReportEntry)> = Vec::new();
    std::mem::swap(&mut entries, &mut map.entries);
    assert(entries@ == old_map@);
    if found {
        let (name, mut entry) = entries.remove(x);
        assert(keys[x as int] == key@);
        proof {
            assert(prefix_sum(rows, new_prefix, k + 1) == prefix_sum(rows, new_prefix, k) + rows[k].1);
        }
        match entry.total_duration.checked_add(dur) {
            Some(total) => entry.total_duration = total,
            None => {
                proof {
                    lemma_sum_out_of_range(rows, new_prefix, k + 1);
                }
                return false;
            },
        }
        if depth + 1 < levels {
            if !insert_row(&mut entry.items, path, dur, depth + 1, levels, Ghost(rows), Ghost(new_prefix), Ghost(k)) {
                return false;
            }
        }
        proof {
            lemma_sums_below(rows, prefix, new_prefix, k, depth as int, levels as int);
        }
        entries.insert(x, (name, entry));
        proof {
            assert(entries@ =~= old_map@.update(x as int, entries@[x as int]));
            assert(entries@.map_values(|e: (String, ReportEntry)| e.0@) =~= keys);
        }
        map.entries = entries;
        proof {
            lemma_map_entries(old_map, rows, prefix, k, levels as int);
            assert(map@ =~= old_map@.update(x as int, map@[x as int]));
            assert(map.keys() =~= keys);
            assert forall|y: int| 0 <= y < map@.len() implies entry_matches(
                #[trigger] map@[y],
                rows,
                prefix,
                k + 1,
                levels as int,
            ) by {
                if y != x {
                    assert(map@[y] == old_map@[y]);
                    assert(keys[y] == old_map@[y].0@);
                    lemma_lex_total(keys[y], keys[x as int]);
                    if y < x {
                        assert(lex_lt(keys[y], keys[x as int]));
                    } else {
                        assert(lex_lt(keys[x as int], keys[y]));
                    }
                    lemma_keep_entry(old_map@[y], rows, prefix, k, levels as int);
                } else {
                    assert(map@[y].0@ == key@);
                }
            }
            assert forall|r: int|
                0 <= r < k + 1 && has_prefix(#[trigger] rows[r].0, prefix) implies map.keys().contains(
                rows[r].0[prefix.len() as int],
            ) by {
                if r == k {
                    assert(map.keys()[x as int] == key@);
                }
            }
            lemma_entries_map(*map, rows, prefix, k + 1, levels as int);
        }
    } else {
        proof {
            assert forall|r: int| 0 <= r < k implies !has_prefix(#[trigger] rows[r].0, new_prefix) by {
                lemma_prefix_push(rows[r].0, prefix, key@);
                if has_prefix(rows[r].0, new_prefix) {
                    assert(keys.contains(rows[r].0[prefix.len() as int]));
                    let y = choose|y: int| 0 <= y < keys.len() && keys[y] == key@;
                    if y < x {
                        lemma_lex_total(key@, key@);
                    } else if y > x {
                        lemma_lex_total(keys[x as int], key@);
                        lemma_lex_transitive(key@, keys[x as int], keys[y]);
                        lemma_lex_total(key@, key@);
                    }
                }
            }
            lemma_no_rows_zero(rows, new_prefix, k);
        }
        let mut entry = ReportEntry::new();
        assert(prefix_sum(rows, new_prefix, k + 1) == rows[k].1);
        match entry.total_duration.checked_add(dur) {
            Some(total) => entry.total_duration = total,
            None => {
                proof {
                    lemma_sum_out_of_range(rows, new_prefix, k + 1);
                }
                return false;
            },
        }
        if depth + 1 < levels {
            if !insert_row(&mut entry.items, path, dur, depth + 1, levels, Ghost(rows), Ghost(new_prefix), Ghost(k)) {
                return false;
            }
        }
        proof {
            lemma_sums_below(rows, prefix, new_prefix, k, depth as int, levels as int);
        }
        entries.insert(x, (key.clone(), entry));
        proof {
            let nkeys = entries@.map_values(|e: (String, ReportEntry)| e.0@);
            assert(nkeys =~= keys.insert(x as int, key@));
            if x < keys.len() {
                lemma_lex_total(keys[x as int], key@);
                assert(lex_lt(key@, keys[x as int]));
            }
            assert forall|a: int, b: int| 0 <= a < b < nkeys.len() implies lex_lt(#[trigger] nkeys[a], #[trigger] nkeys[b]) by {
                if b < x {
                    assert(nkeys[a] == keys[a] && nkeys[b] == keys[b]);
                } else if b == x {
                    assert(nkeys[a] == keys[a]);
                } else if a == x {
                    assert(nkeys[b] == keys[b - 1]);
                    if b - 1 > x {
                        lemma_lex_transitive(key@, keys[x as int], keys[b - 1]);
                    }
                } else if a < x {
                    assert(nkeys[a] == keys[a] && nkeys[b] == keys[b - 1]);
                    lemma_lex_transitive(keys[a], key@, keys[x as int]);
                    if b - 1 > x {
                        lemma_lex_transitive(keys[a], keys[x as int], keys[b - 1]);
                    }
                } else {
                    assert(nkeys[a] == keys[a - 1] && nkeys[b] == keys[b - 1]);
                }
            }
        }
        map.entries = entries;
        proof {
            lemma_map_entries(old_map, rows, prefix, k, levels as int);
            let nkeys = map.keys();
            assert(nkeys =~= keys.insert(x as int, key@));
            assert forall|y: int| 0 <= y < map@.len() implies entry_matches(
                #[trigger] map@[y],
                rows,
                prefix,
                k + 1,
                levels as int,
            ) by {
                if y < x {
                    assert(map@[y] == old_map@[y]);
                    assert(keys[y] == old_map@[y].0@);
                    lemma_lex_total(keys[y], key@);
                    lemma_keep_entry(old_map@[y], rows, prefix, k, levels as int);
                } else if y > x {
                    assert(map@[y] == old_map@[y - 1]);
                    assert(keys[y - 1] == old_map@[y - 1].0@);
                    assert(nkeys[y] == keys[y - 1]);
                    assert(lex_lt(nkeys[x as int], nkeys[y]));
                    lemma_lex_total(keys[y - 1], key@);
                    lemma_keep_entry(old_map@[y - 1], rows, prefix, k, levels as int);
                } else {
                    assert(map@[y].0@ == key@);
                    assert(prefix_count(rows, new_prefix, k + 1) == 1);
                }
            }
            assert forall|r: int|
                0 <= r < k + 1 && has_prefix(#[trigger] rows[r].0, prefix) implies nkeys.contains(
                rows[r].0[prefix.len() as int],
            ) by {
                if r == k {
                    assert(nkeys[x as int] == key@);
                } else {
                    assert(keys.contains(rows[r].0[prefix.len() as int]));
                    let y = choose|y: int| 0 <= y < keys.len() && keys[y] == rows[r].0[prefix.len() as int];
                    if y < x {
                        assert(nkeys[y] == keys[y]);
                    } else {
                        assert(nkeys[y + 1] == keys[y]);
                    }
                }
            }
            lemma_entries_map(*map, rows, prefix, k + 1, levels as int);
        }
    }
    true
}

/// The identifiers of an activity, one for each way of grouping.
pub open spec fn path_of<G: ReportGroup>(a: Activity, groups: Seq<G>) -> Seq<Seq<char>> {
    Seq::new(groups.len(), |g: int| groups[g].identifier(a))
}

/// The rows of a report: each activity's identifiers and its duration up to `now`.
pub open spec fn rows_of<G: ReportGroup>(activities: Seq<&Activity>, groups: Seq<G>, now: Timestamp) -> Seq<Row> {
    Seq::new(activities.len(), |i: int| (path_of(*activities[i], groups), duration_at(*activities[i], now)))
}

/// The identifiers of an activity, one for each way of grouping.
fn identifiers<G: ReportGroup>(activity: &Activity, groups: &Vec<G>) -> (path: Vec<String>)
    ensures
        path@.len() == groups@.len(),
        forall|g: int| 0 <= g < groups@.len() ==> (#[trigger] path@[g])@ == path_of(*activity, groups@)[g],
{
    let mut path: Vec<String> = Vec::new();
    for g in 0..groups.len()
        invariant
            path@.len() == g,
            forall|j: int| 0 <= j < g ==> (#[trigger] path@[j])@ == path_of(*activity, groups@)[j],
    {
        let id = groups[g].return_identifier(activity);
        path.push(id);
    }
    path
}

/// Groups the activities level by level, one level for each way of grouping,
/// measuring running activities up to `now`.
pub fn create_project_map_at<G: ReportGroup>(
    activities: &[&Activity],
    groups: &Vec<G>,
    now: &Timestamp,
) -> (m: ProjectMap)
    requires
        activities@.len() > 0 ==> groups@.len() > 0,
        group_sums_fit(rows_of(activities@, groups@, *now)),
    ensures
        groups@.len() > 0 ==> map_matches(
            m,
            rows_of(activities@, groups@, *now),
            Seq::empty(),
            activities@.len() as int,
            groups@.len() as int,
        ),
        groups@.len() == 0 ==> m@.len() == 0,
{
    try_create_project_map_at(activities, groups, now).unwrap()
}

/// Groups the activities like `create_project_map_at`; `None` when there are
/// activities but no way of grouping, or a running total of a group leaves
/// the range of a duration.
pub fn try_create_project_map_at<G: ReportGroup>(
    activities: &[&Activity],
    groups: &Vec<G>,
    now: &Timestamp,
) -> (m: Option<ProjectMap>)
    ensures
        m is None <==> ((activities@.len() > 0 && groups@.len() == 0) || !group_sums_fit(
            rows_of(activities@, groups@, *now),
        )),
        m matches Some(m) ==> (groups@.len() > 0 ==> map_matches(
            m,
            rows_of(activities@, groups@, *now),
            Seq::empty(),
            activities@.len() as int,
            groups@.len() as int,
        )),
        m matches Some(m) ==> (groups@.len() == 0 ==> m@.len() == 0),
{
    let ghost rows = rows_of(activities@, groups@, *now);
    let levels = groups.len();
    let n = activities.len();
    if n > 0 && levels == 0 {
        return None;
    }
    let mut map = ProjectMap::new();
    assert(rows_have_levels(rows, levels as int));
    for i in 0..n
        invariant
            n == activities@.len(),
            levels == groups@.len(),
            rows == rows_of(activities@, groups@, *now),
            rows_have_levels(rows, levels as int),
            n > 0 ==> levels > 0,
            levels > 0 ==> map_matches(map, rows, Seq::empty(), i as int, levels as int),
            levels == 0 ==> map@.len() == 0,
            forall|q: Seq<Seq<char>>, m: int|
                1 <= q.len() && 0 <= m <= i ==> valid_duration(#[trigger] prefix_sum(rows, q, m)),
    {
        let activity: &Activity = activities[i];
        let path = identifiers(activity, groups);
        let dur = activity.duration_until(now);
        proof {
            assert forall|j: int| 0 <= j < levels implies (#[trigger] path@[j])@ == rows[i as int].0[j] by {
                assert(path@[j]@ == path_of(*activity, groups@)[j]);
            }
            assert(has_prefix(rows[i as int].0, Seq::empty()));
        }
        if !insert_row(&mut map, &path, dur, 0, levels, Ghost(rows), Ghost(Seq::empty()), Ghost(i as int)) {
            return None;
        }
        proof {
            assert forall|q: Seq<Seq<char>>, m: int|
                1 <= q.len() && 0 <= m <= i + 1 implies valid_duration(#[trigger] prefix_sum(rows, q, m)) by {
                if m == i + 1 && !(has_prefix(rows[i as int].0, q) && q.len() <= levels) {
                    assert(prefix_sum(rows, q, m) == prefix_sum(rows, q, i as int));
                }
            }
        }
    }
    Some(map)
}

/// Whether every activity has been stopped.
pub open spec fn none_running(activities: Seq<&Activity>) -> bool {
    forall|i: int| 0 <= i < activities.len() ==> (#[trigger] activities[i]).end is Some
}

/// The time to measure the activities at: now when one of them runs (`None`
/// when the clock cannot be read as a timestamp), else any valid time, on
/// which nothing then depends.
fn measuring_time(activities: &[&Activity]) -> (t: Option<Timestamp>)
    ensures
        none_running(activities@) ==> t is Some,
        t matches Some(x) ==> x.is_valid(),
{
    let mut running = false;
    for i in 0..activities.len()
        invariant
            !running ==> forall|j: int| 0 <= j < i ==> (#[trigger] activities@[j]).end is Some,
            running ==> exists|j: int| 0 <= j < i && (#[trigger] activities@[j]).end is None,
    {
        if !activities[i].is_stopped() {
            running = true;
        }
    }
    if running {
        Timestamp::now()
    } else {
        let t = Timestamp::unix_epoch();
        Some(t)
    }
}

/// Groups the activities level by level, one level for each way of grouping;
/// running activities are measured up to now. `None` when an activity runs
/// and the clock cannot be read as a timestamp.
pub fn create_project_map<G: ReportGroup>(activities: &[&Activity], groups: Vec<G>) -> (m: Option<ProjectMap>)
    requires
        activities@.len() > 0 ==> groups@.len() > 0,
        forall|t: Timestamp| t.is_valid() ==> #[trigger] group_sums_fit(rows_of(activities@, groups@, t)),
    ensures
        none_running(activities@) ==> m is Some,
        m is Some && groups@.len() > 0 ==> exists|t: Timestamp|
            t.is_valid() && #[trigger] map_matches(
                m->0,
                rows_of(activities@, groups@, t),
                Seq::empty(),
                activities@.len() as int,
                groups@.len() as int,
            ),
        m matches Some(m) ==> (groups@.len() == 0 ==> m@.len() == 0),
{
    let now = match measuring_time(activities) {
        Some(t) => t,
        None => return None,
    };
    let r = Some(create_project_map_at(activities, &groups, &now));
    proof {
        if groups@.len() > 0 {
            let rows = rows_of(activities@, groups@, now);
            assert(map_matches(r->0, rows, Seq::empty(), activities@.len() as int, groups@.len() as int));
            assert(exists|t: Timestamp|
                t.is_valid() && #[trigger] map_matches(
                    r->0,
                    rows_of(activities@, groups@, t),
                    Seq::empty(),
                    activities@.len() as int,
                    groups@.len() as int,
                ));
        }
    }
    r
}

/// The total duration, measured up to `now`, of the first `k` activities.
pub open spec fn total_at(activities: Seq<&Activity>, now: Timestamp, k: int) -> int
    decreases k,
{
    if k <= 0 {
        0
    } else {
        total_at(activities, now, k - 1) + duration_at(*activities[k - 1], now)
    }
}

/// Whether every running total of the activities' durations, measured up to
/// `now`, stays within the range of a duration.
pub open spec fn total_sums_fit(activities: Seq<&Activity>, now: Timestamp) -> bool {
    forall|k: int| 0 <= k <= activities.len() ==> valid_duration(#[trigger] total_at(activities, now, k))
}

/// The total duration of the activities, measuring running ones up to `now`.
pub fn sum_duration_at(activities: &[&Activity], now: &Timestamp) -> (d: Duration)
    requires
        total_sums_fit(activities@, *now),
    ensures
        d.nanos() == total_at(activities@, *now, activities@.len() as int),
{
    try_sum_duration_at(activities, now).unwrap()
}

/// The total duration like `sum_duration_at`; `None` when a running total
/// leaves the range of a duration.
pub fn try_sum_duration_at(activities: &[&Activity], now: &Timestamp) -> (d: Option<Duration>)
    ensures
        d is None <==> !total_sums_fit(activities@, *now),
        d matches Some(d) ==> d.nanos() == total_at(activities@, *now, activities@.len() as int),
{
    let mut duration = Duration::zero();
    for i in 0..activities.len()
        invariant
            duration.nanos() == total_at(activities@, *now, i as int),
            forall|k: int| 0 <= k <= i ==> valid_duration(#[trigger] total_at(activities@, *now, k)),
    {
        let d = activities[i].duration_until(now);
        match duration.checked_add(d) {
            Some(total) => duration = total,
            None => {
                assert(!valid_duration(total_at(activities@, *now, i + 1)));
                return None;
            },
        }
    }
    Some(duration)
}

/// The total duration of the activities; running ones are measured up to
/// now. `None` when an activity runs and the clock cannot be read as a
/// timestamp.
pub fn sum_duration(activities: &[&Activity]) -> (d: Option<Duration>)
    requires
        forall|t: Timestamp| t.is_valid() ==> #[trigger] total_sums_fit(activities@, t),
    ensures
        none_running(activities@) ==> d is Some,
        d matches Some(d) ==> exists|t: Timestamp|
            t.is_valid() && d.nanos() == #[trigger] total_at(activities@, t, activities@.len() as int),
{
    let now = match measuring_time(activities) {
        Some(t) => t,
        None => return None,
    };
    assert(total_sums_fit(activities@, now));
    let d = sum_duration_at(activities, &now);
    assert(now.is_valid() && d.nanos() == total_at(activities@, now, activities@.len() as int));
    Some(d)
}

/// Without running activities the total does not depend on the time of measuring.
pub proof fn lemma_total_without_running(activities: Seq<&Activity>, t1: Timestamp, t2: Timestamp, k: int)
    requires
        0 <= k <= activities.len(),
        forall|i: int| 0 <= i < activities.len() ==> (#[trigger] activities[i]).end is Some,
    ensures
        total_at(activities, t1, k) == total_at(activities, t2, k),
    decreases k,
{
    if k > 0 {
        lemma_total_without_running(activities, t1, t2, k - 1);
        assert(activities[k - 1].end is Some);
    }
}

/// A report: the activities grouped level by level, and their total duration.
pub struct Report {
    pub project_map: ProjectMap,
    pub total_duration: Duration,
}

impl Report {
    /// Groups the activities and sums their durations, measuring running
    /// activities up to `now`.
    pub fn new_at<G: ReportGroup>(activities: &[&Activity], groups: Vec<G>, now: &Timestamp) -> (r: Report)
        requires
            activities@.len() > 0 ==> groups@.len() > 0,
            group_sums_fit(rows_of(activities@, groups@, *now)),
            total_sums_fit(activities@, *now),
        ensures
            groups@.len() > 0 ==> map_matches(
                r.project_map,
                rows_of(activities@, groups@, *now),
                Seq::empty(),
                activities@.len() as int,
                groups@.len() as int,
            ),
            groups@.len() == 0 ==> r.project_map@.len() == 0,
            r.total_duration.nanos() == total_at(activities@, *now, activities@.len() as int),
            crate::report_lines::indent_fits(r.project_map, 0),
    {
        let project_map = create_project_map_at(activities, &groups, now);
        let total_duration = sum_duration_at(activities, now);
        let levels = groups.len();
        proof {
            if levels > 0 {
                crate::report_lines::lemma_matches_indent_fits(
                    project_map,
                    rows_of(activities@, groups@, *now),
                    Seq::empty(),
                    activities@.len() as int,
                    levels as int,
                );
            }
        }
        Report { project_map, total_duration }
    }

    /// Groups the activities and sums their durations; running activities
    /// are measured up to now, the same instant for all of them. `None` when
    /// an activity runs and the clock cannot be read as a timestamp.
    pub fn new<G: ReportGroup>(activities: &[&Activity], groups: Vec<G>) -> (r: Option<Report>)
        requires
            activities@.len() > 0 ==> groups@.len() > 0,
            forall|t: Timestamp| t.is_valid() ==> #[trigger] group_sums_fit(rows_of(activities@, groups@, t)),
            forall|t: Timestamp| t.is_valid() ==> #[trigger] total_sums_fit(activities@, t),
        ensures
            none_running(activities@) ==> r is Some,
            r matches Some(r) ==> exists|t: Timestamp|
                #![trigger rows_of(activities@, groups@, t)]
                t.is_valid() && (groups@.len() > 0 ==> map_matches(
                    r.project_map,
                    rows_of(activities@, groups@, t),
                    Seq::empty(),
                    activities@.len() as int,
                    groups@.len() as int,
                )) && r.total_duration.nanos() == total_at(activities@, t, activities@.len() as int),
            r matches Some(r) ==> (groups@.len() == 0 ==> r.project_map@.len() == 0),
            r matches Some(r) ==> crate::report_lines::indent_fits(r.project_map, 0),
    {
        let now = match measuring_time(activities) {
            Some(t) => t,
            None => return None,
        };
        proof {
            assert(group_sums_fit(rows_of(activities@, groups@, now)));
            assert(total_sums_fit(activities@, now));
        }
        let r = Report::new_at(activities, groups, &now);
        assert(rows_of(activities@, groups@, now) == rows_of(activities@, groups@, now));
        Some(r)
    }
}

/// The sum of the total durations of a level's groups.
pub open spec fn entries_total(e: Seq<(String, ReportEntry)>) -> int
    decreases e.len(),
{
    if e.len() == 0 {
        0
    } else {
        entries_total(e.drop_last()) + e.last().1.total_duration.nanos()
    }
}

/// The durations of the first `k` rows below `prefix`, summed group by group
/// over the identifiers `keys`.
pub open spec fn key_sums(rows: Seq<Row>, prefix: Seq<Seq<char>>, keys: Seq<Seq<char>>, k: int) -> int
    decreases keys.len(),
{
    if keys.len() == 0 {
        0
    } else {
        key_sums(rows, prefix, keys.drop_last(), k) + prefix_sum(rows, prefix.push(keys.last()), k)
    }
}

/// The share of one row in `key_sums`.
pub open spec fn key_hits(path: Seq<Seq<char>>, dur: int, prefix: Seq<Seq<char>>, keys: Seq<Seq<char>>) -> int
    decreases keys.len(),
{
    if keys.len() == 0 {
        0
    } else {
        key_hits(path, dur, prefix, keys.drop_last()) + if has_prefix(path, prefix.push(keys.last())) {
            dur
        } else {
            0
        }
    }
}

proof fn lemma_key_sums_step(rows: Seq<Row>, prefix: Seq<Seq<char>>, keys: Seq<Seq<char>>, k: int)
    requires
        0 <= k < rows.len(),
    ensures
        key_sums(rows, prefix, keys, k + 1) == key_sums(rows, prefix, keys, k) + key_hits(
            rows[k].0,
            rows[k].1,
            prefix,
            keys,
        ),
    decreases keys.len(),
{
    if keys.len() > 0 {
        lemma_key_sums_step(rows, prefix, keys.drop_last(), k);
    }
}

proof fn lemma_key_hits(path: Seq<Seq<char>>, dur: int, prefix: Seq<Seq<char>>, keys: Seq<Seq<char>>)
    requires
        prefix.len() < path.len(),
        keys_ascending(keys),
    ensures
        key_hits(path, dur, prefix, keys) == if has_prefix(path, prefix) && keys.contains(path[prefix.len() as int]) {
            dur
        } else {
            0
        },
    decreases keys.len(),
{
    if keys.len() > 0 {
        let front = keys.drop_last();
        assert(keys_ascending(front)) by {
            assert forall|x: int, y: int| 0 <= x < y < front.len() implies lex_lt(#[trigger] front[x], #[trigger] front[y]) by {
                assert(front[x] == keys[x] && front[y] == keys[y]);
            }
        }
        lemma_key_hits(path, dur, prefix, front);
        lemma_prefix_push(path, prefix, keys.last());
        let id = path[prefix.len() as int];
        if keys.contains(id) {
            let y = choose|y: int| 0 <= y < keys.len() && keys[y] == id;
            if y < keys.len() - 1 {
                assert(front[y] == id);
                assert(lex_lt(keys[y], keys.last()));
                crate::text::lemma_lex_irreflexive(id);
            } else {
                if front.contains(id) {
                    let z = choose|z: int| 0 <= z < front.len() && front[z] == id;
                    assert(lex_lt(keys[z], keys[y]));
                    crate::text::lemma_lex_irreflexive(id);
                }
            }
        } else {
            if front.contains(id) {
                let z = choose|z: int| 0 <= z < front.len() && front[z] == id;
                assert(keys[z] == id);
            }
        }
    }
}

proof fn lemma_key_sums_total(rows: Seq<Row>, prefix: Seq<Seq<char>>, keys: Seq<Seq<char>>, k: int, j: int, levels: int)
    requires
        0 <= j <= k <= rows.len(),
        prefix.len() < levels,
        rows_have_levels(rows, levels),
        keys_ascending(keys),
        forall|r: int| 0 <= r < k && has_prefix(#[trigger] rows[r].0, prefix) ==> keys.contains(rows[r].0[prefix.len() as int]),
    ensures
        key_sums(rows, prefix, keys, j) == prefix_sum(rows, prefix, j),
    decreases j,
{
    if j == 0 {
        lemma_key_sums_zero(rows, prefix, keys);
    } else {
        lemma_key_sums_total(rows, prefix, keys, k, j - 1, levels);
        lemma_key_sums_step(rows, prefix, keys, j - 1);
        assert(rows[j - 1].0.len() == levels);
        lemma_key_hits(rows[j - 1].0, rows[j - 1].1, prefix, keys);
    }
}

proof fn lemma_key_sums_zero(rows: Seq<Row>, prefix: Seq<Seq<char>>, keys: Seq<Seq<char>>)
    ensures
        key_sums(rows, prefix, keys, 0) == 0,
    decreases keys.len(),
{
    if keys.len() > 0 {
        lemma_key_sums_zero(rows, prefix, keys.drop_last());
    }
}

proof fn lemma_entries_key_sums(m: ProjectMap, rows: Seq<Row>, prefix: Seq<Seq<char>>, k: int, levels: int, n: int)
    requires
        map_matches(m, rows, prefix, k, levels),
        0 <= n <= m@.len(),
    ensures
        entries_total(m@.take(n)) == key_sums(rows, prefix, m.keys().take(n), k),
    decreases n,
{
    if n > 0 {
        lemma_entries_key_sums(m, rows, prefix, k, levels, n - 1);
        assert(m@.take(n).drop_last() =~= m@.take(n - 1));
        assert(m.keys().take(n).drop_last() =~= m.keys().take(n - 1));
        assert(m.keys()[n - 1] == m@[n - 1].0@);
    }
}

/// The groups of a level together hold all the duration of the level: the
/// total durations of the groups below `prefix` add up to the total duration
/// of the rows below `prefix`. Applied below the top, this says that a
/// group's duration is the sum of the durations of its subgroups.
pub proof fn lemma_groups_add_up(m: ProjectMap, rows: Seq<Row>, prefix: Seq<Seq<char>>, k: int, levels: int)
    requires
        map_matches(m, rows, prefix, k, levels),
        0 <= k <= rows.len(),
        rows_have_levels(rows, levels),
    ensures
        entries_total(m@) == prefix_sum(rows, prefix, k),
{
    let n = m@.len() as int;
    lemma_entries_key_sums(m, rows, prefix, k, levels, n);
    assert(m@.take(n) =~= m@);
    assert(m.keys().take(n) =~= m.keys());
    lemma_key_sums_total(rows, prefix, m.keys(), k, k, levels);
}

/// Whether every path through a report has one group for each of `depth`
/// levels: each group above the last level has groups below it, whose total
/// durations add up to its own, and each group of the last level has none.
pub open spec fn report_shape(m: ProjectMap, depth: int) -> bool
    decreases m,
{
    proof {
        m.lemma_view_decreases();
    }
    forall|x: int|
        0 <= x < m@.len() ==> if depth > 1 {
            &&& (#[trigger] m@[x]).1.items@.len() > 0
            &&& entries_total(m@[x].1.items@) == m@[x].1.total_duration.nanos()
            &&& report_shape(m@[x].1.items, depth - 1)
        } else {
            m@[x].1.items@.len() == 0
        }
}

/// Some one of the first `k` rows begins with `prefix` when they are counted.
proof fn lemma_count_witness(rows: Seq<Row>, prefix: Seq<Seq<char>>, k: int)
    requires
        0 <= k <= rows.len(),
        prefix_count(rows, prefix, k) > 0,
    ensures
        exists|r: int| 0 <= r < k && has_prefix(#[trigger] rows[r].0, prefix),
    decreases k,
{
    if has_prefix(rows[k - 1].0, prefix) {
        assert(has_prefix(rows[k - 1].0, prefix));
    } else {
        lemma_count_witness(rows, prefix, k - 1);
        let r = choose|r: int| 0 <= r < k - 1 && has_prefix(#[trigger] rows[r].0, prefix);
        assert(has_prefix(rows[r].0, prefix));
    }
}

/// Below `prefix`, a report has one level for each remaining way of grouping,
/// and each group's duration is the sum of those of the groups below it.
pub proof fn lemma_report_shape(m: ProjectMap, rows: Seq<Row>, prefix: Seq<Seq<char>>, k: int, levels: int)
    requires
        map_matches(m, rows, prefix, k, levels),
        0 <= k <= rows.len(),
        rows_have_levels(rows, levels),
    ensures
        report_shape(m, levels - prefix.len()),
    decreases levels - prefix.len(),
{
    let keys = m.keys();
    let e = m@;
    assert forall|x: int| 0 <= x < e.len() implies if levels - prefix.len() > 1 {
        &&& (#[trigger] e[x]).1.items@.len() > 0
        &&& entries_total(e[x].1.items@) == e[x].1.total_duration.nanos()
        &&& report_shape(e[x].1.items, levels - prefix.len() - 1)
    } else {
        e[x].1.items@.len() == 0
    } by {
        let q = prefix.push(keys[x]);
        if prefix.len() + 1 < levels {
            let items = e[x].1.items;
            assert(map_matches(items, rows, q, k, levels));
            assert(prefix_count(rows, q, k) > 0);
            lemma_count_witness(rows, q, k);
            let r = choose|r: int| 0 <= r < k && has_prefix(#[trigger] rows[r].0, q);
            assert(rows[r].0.len() == levels);
            assert(has_prefix(rows[r].0, q));
            assert(items.keys().contains(rows[r].0[q.len() as int]));
            lemma_groups_add_up(items, rows, q, k, levels);
            lemma_report_shape(items, rows, q, k, levels);
            assert(q.len() == prefix.len() + 1);
        }
    }
}

/// In a report, the groups of the top level add up to the report's total;
/// every path through it has one group for each way of grouping, and each
/// group's duration is the sum of those of the groups below it.
pub proof fn lemma_report_total<G: ReportGroup>(r: Report, activities: Seq<&Activity>, groups: Seq<G>, now: Timestamp)
    requires
        groups.len() > 0,
        map_matches(r.project_map, rows_of(activities, groups, now), Seq::empty(), activities.len() as int, groups.len() as int),
        r.total_duration.nanos() == total_at(activities, now, activities.len() as int),
    ensures
        entries_total(r.project_map@) == r.total_duration.nanos(),
        report_shape(r.project_map, groups.len() as int),
{
    let rows = rows_of(activities, groups, now);
    assert(rows_have_levels(rows, groups.len() as int));
    lemma_groups_add_up(r.project_map, rows, Seq::empty(), activities.len() as int, groups.len() as int);
    lemma_total_rows(activities, groups, now, activities.len() as int);
    lemma_report_shape(r.project_map, rows, Seq::empty(), activities.len() as int, groups.len() as int);
}

/// Whether two reports have the same groups: the same identifiers in the
/// same order, each with the same total duration and the same groups below.
pub open spec fn same_groups(m1: ProjectMap, m2: ProjectMap) -> bool
    decreases m1,
{
    proof {
        m1.lemma_view_decreases();
    }
    &&& m1.keys() == m2.keys()
    &&& forall|x: int|
        0 <= x < m1@.len() ==> {
            &&& (#[trigger] m1@[x]).1.total_duration.nanos() == m2@[x].1.total_duration.nanos()
            &&& same_groups(m1@[x].1.items, m2@[x].1.items)
        }
}

/// Two strictly ascending sequences of identifiers with the same elements are equal.
proof fn lemma_ascending_unique(a: Seq<Seq<char>>, b: Seq<Seq<char>>)
    requires
        keys_ascending(a),
        keys_ascending(b),
        forall|s: Seq<char>| a.contains(s) <==> b.contains(s),
    ensures
        a == b,
    decreases a.len(),
{
    if a.len() == 0 {
        if b.len() > 0 {
            assert(b.contains(b[0]));
        }
        assert(b =~= a);
    } else {
        assert(a.contains(a[0]));
        assert(b.len() > 0);
        assert(b.contains(b[0]));
        let j = choose|j: int| 0 <= j < b.len() && b[j] == a[0];
        let i = choose|i: int| 0 <= i < a.len() && a[i] == b[0];
        lemma_lex_irreflexive(a[0]);
        lemma_lex_irreflexive(b[0]);
        if j > 0 {
            assert(lex_lt(b[0], a[0]));
            if i > 0 {
                assert(lex_lt(a[0], b[0]));
                lemma_lex_total(a[0], b[0]);
            }
        }
        assert(a[0] == b[0]);
        let a1 = a.drop_first();
        let b1 = b.drop_first();
        assert forall|s: Seq<char>| a1.contains(s) implies b1.contains(s) by {
            let y = choose|y: int| 0 <= y < a1.len() && a1[y] == s;
            assert(a[y + 1] == s);
            assert(lex_lt(a[0], a[y + 1]));
            assert(b.contains(s));
            let z = choose|z: int| 0 <= z < b.len() && b[z] == s;
            if z == 0 {
                assert(s == a[0]);
            }
            assert(b1[z - 1] == s);
        }
        assert forall|s: Seq<char>| b1.contains(s) implies a1.contains(s) by {
            let y = choose|y: int| 0 <= y < b1.len() && b1[y] == s;
            assert(b[y + 1] == s);
            assert(lex_lt(b[0], b[y + 1]));
            assert(a.contains(s));
            let z = choose|z: int| 0 <= z < a.len() && a[z] == s;
            if z == 0 {
                assert(s == b[0]);
            }
            assert(a1[z - 1] == s);
        }
        assert forall|x: int, y: int| 0 <= x < y < a1.len() implies lex_lt(#[trigger] a1[x], #[trigger] a1[y]) by {
            assert(a1[x] == a[x + 1] && a1[y] == a[y + 1]);
        }
        assert forall|x: int, y: int| 0 <= x < y < b1.len() implies lex_lt(#[trigger] b1[x], #[trigger] b1[y]) by {
            assert(b1[x] == b[x + 1] && b1[y] == b[y + 1]);
        }
        lemma_ascending_unique(a1, b1);
        assert(a =~= seq![a[0]] + a1);
        assert(b =~= seq![b[0]] + b1);
    }
}

/// A key of a report of rows below `prefix` is the identifier, at that level,
/// of one of the rows.
proof fn lemma_key_of_row(m1: ProjectMap, m2: ProjectMap, rows: Seq<Row>, prefix: Seq<Seq<char>>, k: int, levels: int, s: Seq<char>)
    requires
        map_matches(m1, rows, prefix, k, levels),
        map_matches(m2, rows, prefix, k, levels),
        0 <= k <= rows.len(),
        rows_have_levels(rows, levels),
        m1.keys().contains(s),
    ensures
        m2.keys().contains(s),
{
    let x = choose|x: int| 0 <= x < m1.keys().len() && m1.keys()[x] == s;
    assert(prefix_count(rows, prefix.push(m1.keys()[x]), k) > 0);
    lemma_count_witness(rows, prefix.push(s), k);
    let r = choose|r: int| 0 <= r < k && has_prefix(#[trigger] rows[r].0, prefix.push(s));
    assert(rows[r].0.len() == levels);
    lemma_prefix_push(rows[r].0, prefix, s);
    assert(has_prefix(rows[r].0, prefix));
}

/// Two reports of the same rows below `prefix` have the same groups.
proof fn lemma_map_matches_unique(m1: ProjectMap, m2: ProjectMap, rows: Seq<Row>, prefix: Seq<Seq<char>>, k: int, levels: int)
    requires
        map_matches(m1, rows, prefix, k, levels),
        map_matches(m2, rows, prefix, k, levels),
        0 <= k <= rows.len(),
        rows_have_levels(rows, levels),
    ensures
        same_groups(m1, m2),
    decreases levels - prefix.len(),
{
    assert forall|s: Seq<char>| m1.keys().contains(s) <==> m2.keys().contains(s) by {
        if m1.keys().contains(s) {
            lemma_key_of_row(m1, m2, rows, prefix, k, levels, s);
        }
        if m2.keys().contains(s) {
            lemma_key_of_row(m2, m1, rows, prefix, k, levels, s);
        }
    }
    lemma_ascending_unique(m1.keys(), m2.keys());
    let keys = m1.keys();
    assert forall|x: int| 0 <= x < m1@.len() implies {
        &&& (#[trigger] m1@[x]).1.total_duration.nanos() == m2@[x].1.total_duration.nanos()
        &&& same_groups(m1@[x].1.items, m2@[x].1.items)
    } by {
        assert(keys[x] == m2.keys()[x]);
        let i1 = m1@[x].1.items;
        let i2 = m2@[x].1.items;
        if prefix.len() + 1 < levels {
            lemma_map_matches_unique(i1, i2, rows, prefix.push(keys[x]), k, levels);
        } else {
            assert(i1.keys() =~= i2.keys());
        }
    }
}

/// A report is determined by its activities, whatever their order: two maps
/// that are each the report of the same activities, in any order, have the
/// same groups, with the same durations, level by level. This holds when both
/// are measured at the same time, and, when no activity is running, whenever
/// each is measured.
pub proof fn lemma_report_unique<G: ReportGroup>(
    m1: ProjectMap,
    m2: ProjectMap,
    activities: Seq<&Activity>,
    reordered: Seq<&Activity>,
    groups: Seq<G>,
    now1: Timestamp,
    now2: Timestamp,
)
    requires
        activities.to_multiset() == reordered.to_multiset(),
        now1 == now2 || forall|i: int| 0 <= i < activities.len() ==> (#[trigger] activities[i]).end is Some,
        map_matches(m1, rows_of(activities, groups, now1), Seq::empty(), activities.len() as int, groups.len() as int),
        map_matches(m2, rows_of(reordered, groups, now2), Seq::empty(), reordered.len() as int, groups.len() as int),
    ensures
        same_groups(m1, m2),
{
    lemma_report_reorder(m2, activities, reordered, groups, now1, now2);
    let rows = rows_of(activities, groups, now1);
    assert(rows_have_levels(rows, groups.len() as int));
    lemma_map_matches_unique(m1, m2, rows, Seq::empty(), activities.len() as int, groups.len() as int);
}

proof fn lemma_total_rows<G: ReportGroup>(activities: Seq<&Activity>, groups: Seq<G>, now: Timestamp, k: int)
    requires
        0 <= k <= activities.len(),
    ensures
        prefix_sum(rows_of(activities, groups, now), Seq::empty(), k) == total_at(activities, now, k),
    decreases k,
{
    if k > 0 {
        lemma_total_rows(activities, groups, now, k - 1);
        let rows = rows_of(activities, groups, now);
        assert(has_prefix(rows[k - 1].0, Seq::empty()));
    }
}

/// The running sums and counts of two row sequences agree as far as the rows agree.
proof fn lemma_prefix_agree(r1: Seq<Row>, r2: Seq<Row>, prefix: Seq<Seq<char>>, k: int)
    requires
        0 <= k <= r1.len(),
        k <= r2.len(),
        forall|i: int| 0 <= i < k ==> r1[i] == r2[i],
    ensures
        prefix_sum(r1, prefix, k) == prefix_sum(r2, prefix, k),
        prefix_count(r1, prefix, k) == prefix_count(r2, prefix, k),
    decreases k,
{
    if k > 0 {
        lemma_prefix_agree(r1, r2, prefix, k - 1);
        assert(r1[k - 1] == r2[k - 1]);
    }
}

/// The sum and count over rows one after another are those of the parts added.
proof fn lemma_prefix_concat(r1: Seq<Row>, r2: Seq<Row>, prefix: Seq<Seq<char>>)
    ensures
        prefix_sum(r1 + r2, prefix, (r1.len() + r2.len()) as int) == prefix_sum(r1, prefix, r1.len() as int) + prefix_sum(
            r2,
            prefix,
            r2.len() as int,
        ),
        prefix_count(r1 + r2, prefix, (r1.len() + r2.len()) as int) == prefix_count(r1, prefix, r1.len() as int)
            + prefix_count(r2, prefix, r2.len() as int),
    decreases r2.len(),
{
    if r2.len() == 0 {
        assert(r1 + r2 =~= r1);
    } else {
        let front = r2.drop_last();
        lemma_prefix_concat(r1, front, prefix);
        lemma_prefix_agree(r1 + r2, r1 + front, prefix, (r1.len() + front.len()) as int);
        lemma_prefix_agree(r2, front, prefix, front.len() as int);
        assert((r1 + r2)[r1.len() + r2.len() - 1] == r2[r2.len() - 1]);
    }
}

/// The sum and count over rows, with one row taken out and counted apart.
proof fn lemma_prefix_remove(r: Seq<Row>, j: int, prefix: Seq<Seq<char>>)
    requires
        0 <= j < r.len(),
    ensures
        prefix_sum(r, prefix, r.len() as int) == prefix_sum(r.remove(j), prefix, r.len() - 1) + if has_prefix(
            r[j].0,
            prefix,
        ) {
            r[j].1
        } else {
            0
        },
        prefix_count(r, prefix, r.len() as int) == prefix_count(r.remove(j), prefix, r.len() - 1) + if has_prefix(
            r[j].0,
            prefix,
        ) {
            1int
        } else {
            0
        },
{
    let a = r.take(j);
    let b = seq![r[j]];
    let c = r.skip(j + 1);
    assert(r =~= (a + b) + c);
    assert(r.remove(j) =~= a + c);
    lemma_prefix_concat(a + b, c, prefix);
    lemma_prefix_concat(a, b, prefix);
    lemma_prefix_concat(a, c, prefix);
    assert(b[0] == r[j]);
    assert(prefix_sum(b, prefix, 0) == 0);
    assert(prefix_count(b, prefix, 0) == 0);
    assert(a.len() + b.len() + c.len() == r.len());
}

/// Rows in another order have the same sums and counts.
proof fn lemma_prefix_reorder(r1: Seq<Row>, r2: Seq<Row>, prefix: Seq<Seq<char>>)
    requires
        r1.to_multiset() == r2.to_multiset(),
    ensures
        r1.len() == r2.len(),
        prefix_sum(r1, prefix, r1.len() as int) == prefix_sum(r2, prefix, r2.len() as int),
        prefix_count(r1, prefix, r1.len() as int) == prefix_count(r2, prefix, r2.len() as int),
    decreases r1.len(),
{
    broadcast use vstd::seq_lib::group_to_multiset_ensures;

    assert(r1.len() == r1.to_multiset().len());
    assert(r2.len() == r2.to_multiset().len());
    if r1.len() > 0 {
        let x = r1.last();
        let front = r1.drop_last();
        assert(r1 =~= front.push(x));
        assert(r1.to_multiset() == front.to_multiset().insert(x));
        assert(r2.to_multiset().count(x) > 0);
        assert(r2.contains(x));
        let j = choose|j: int| 0 <= j < r2.len() && r2[j] == x;
        let rest = r2.remove(j);
        assert(rest.to_multiset() == r2.to_multiset().remove(x));
        assert(rest.to_multiset() =~= front.to_multiset());
        lemma_prefix_reorder(front, rest, prefix);
        lemma_prefix_remove(r2, j, prefix);
        lemma_prefix_agree(r1, front, prefix, front.len() as int);
    }
}

/// Each row of one sequence is a row of a reordering of it.
proof fn lemma_reorder_contains(r1: Seq<Row>, r2: Seq<Row>, i: int)
    requires
        r1.to_multiset() == r2.to_multiset(),
        0 <= i < r1.len(),
    ensures
        exists|j: int| 0 <= j < r2.len() && r2[j] == r1[i],
{
    broadcast use vstd::seq_lib::group_to_multiset_ensures;

    assert(r1.contains(r1[i]));
    assert(r1.to_multiset().count(r1[i]) > 0);
    assert(r2.contains(r1[i]));
}

/// A map is the report of rows exactly when it is the report of the same rows
/// in another order.
proof fn lemma_map_matches_reorder(m: ProjectMap, r1: Seq<Row>, r2: Seq<Row>, prefix: Seq<Seq<char>>, levels: int)
    requires
        r1.to_multiset() == r2.to_multiset(),
        map_matches(m, r1, prefix, r1.len() as int, levels),
    ensures
        map_matches(m, r2, prefix, r2.len() as int, levels),
    decreases levels - prefix.len(),
{
    lemma_prefix_reorder(r1, r2, prefix);
    let keys = m.keys();
    let e = m@;
    let k = r2.len() as int;
    assert forall|x: int| 0 <= x < e.len() implies prefix_count(r2, #[trigger] prefix.push(keys[x]), k) > 0 by {
        lemma_prefix_reorder(r1, r2, prefix.push(keys[x]));
    }
    assert forall|r: int| 0 <= r < k && has_prefix(#[trigger] r2[r].0, prefix) implies keys.contains(
        r2[r].0[prefix.len() as int],
    ) by {
        lemma_reorder_contains(r2, r1, r);
        let j = choose|j: int| 0 <= j < r1.len() && r1[j] == r2[r];
        assert(has_prefix(r1[j].0, prefix));
    }
    assert forall|x: int| 0 <= x < e.len() implies (#[trigger] e[x]).1.total_duration.nanos() == prefix_sum(
        r2,
        prefix.push(keys[x]),
        k,
    ) by {
        lemma_prefix_reorder(r1, r2, prefix.push(keys[x]));
    }
    assert forall|x: int| 0 <= x < e.len() implies if prefix.len() + 1 < levels {
        map_matches((#[trigger] e[x]).1.items, r2, prefix.push(keys[x]), k, levels)
    } else {
        e[x].1.items@.len() == 0
    } by {
        if prefix.len() + 1 < levels {
            lemma_map_matches_reorder(e[x].1.items, r1, r2, prefix.push(keys[x]), levels);
        }
    }
}

/// The rows of activities in another order are the rows in another order.
proof fn lemma_rows_reorder<G: ReportGroup>(
    activities: Seq<&Activity>,
    reordered: Seq<&Activity>,
    groups: Seq<G>,
    now: Timestamp,
)
    requires
        activities.to_multiset() == reordered.to_multiset(),
    ensures
        rows_of(activities, groups, now).to_multiset() == rows_of(reordered, groups, now).to_multiset(),
    decreases activities.len(),
{
    broadcast use vstd::seq_lib::group_to_multiset_ensures;

    let r1 = rows_of(activities, groups, now);
    let r2 = rows_of(reordered, groups, now);
    assert(activities.len() == activities.to_multiset().len());
    assert(reordered.len() == reordered.to_multiset().len());
    if activities.len() == 0 {
        assert(r1 =~= Seq::<Row>::empty());
        assert(r2 =~= Seq::<Row>::empty());
    } else {
        let x = activities.last();
        let front = activities.drop_last();
        assert(activities =~= front.push(x));
        assert(activities.to_multiset() == front.to_multiset().insert(x));
        assert(reordered.to_multiset().count(x) > 0);
        assert(reordered.contains(x));
        let j = choose|j: int| 0 <= j < reordered.len() && reordered[j] == x;
        let rest = reordered.remove(j);
        assert(rest.to_multiset() == reordered.to_multiset().remove(x));
        assert(rest.to_multiset() =~= front.to_multiset());
        lemma_rows_reorder(front, rest, groups, now);
        let row = (path_of(*x, groups), duration_at(*x, now));
        assert(r1 =~= rows_of(front, groups, now).push(row));
        assert(rows_of(rest, groups, now) =~= r2.remove(j));
        assert(r2[j] == row);
        assert(r2.remove(j).to_multiset() == r2.to_multiset().remove(row));
        assert(r2.contains(row));
        assert(r2.to_multiset().count(row) > 0);
        assert(r2.to_multiset() =~= r2.to_multiset().remove(row).insert(row));
    }
}

/// The rows of activities that have all been stopped do not depend on when
/// they are measured.
proof fn lemma_rows_stopped<G: ReportGroup>(activities: Seq<&Activity>, groups: Seq<G>, t1: Timestamp, t2: Timestamp)
    requires
        forall|i: int| 0 <= i < activities.len() ==> (#[trigger] activities[i]).end is Some,
    ensures
        rows_of(activities, groups, t1) == rows_of(activities, groups, t2),
{
    assert forall|i: int| 0 <= i < activities.len() implies duration_at(*activities[i], t1) == duration_at(
        *activities[i],
        t2,
    ) by {
        assert(activities[i].end is Some);
    }
    assert(rows_of(activities, groups, t1) =~= rows_of(activities, groups, t2));
}

/// The order of the activities does not matter to their report: a map is the
/// report of the activities exactly when it is the report of the same
/// activities in another order. This holds when both are measured at the same
/// time, and, when no activity is running, whenever each is measured.
pub proof fn lemma_report_reorder<G: ReportGroup>(
    m: ProjectMap,
    activities: Seq<&Activity>,
    reordered: Seq<&Activity>,
    groups: Seq<G>,
    now1: Timestamp,
    now2: Timestamp,
)
    requires
        activities.to_multiset() == reordered.to_multiset(),
        now1 == now2 || forall|i: int| 0 <= i < activities.len() ==> (#[trigger] activities[i]).end is Some,
    ensures
        activities.len() == reordered.len(),
        map_matches(m, rows_of(activities, groups, now1), Seq::empty(), activities.len() as int, groups.len() as int)
            <==> map_matches(
            m,
            rows_of(reordered, groups, now2),
            Seq::empty(),
            reordered.len() as int,
            groups.len() as int,
        ),
{
    broadcast use vstd::seq_lib::group_to_multiset_ensures;

    assert(activities.len() == activities.to_multiset().len());
    assert(reordered.len() == reordered.to_multiset().len());
    if now1 != now2 {
        lemma_rows_stopped(activities, groups, now1, now2);
    }
    lemma_rows_reorder(activities, reordered, groups, now2);
    let r1 = rows_of(activities, groups, now1);
    let r2 = rows_of(reordered, groups, now2);
    let levels = groups.len() as int;
    if map_matches(m, r1, Seq::empty(), activities.len() as int, levels) {
        lemma_map_matches_reorder(m, r1, r2, Seq::empty(), levels);
    }
    if map_matches(m, r2, Seq::empty(), reordered.len() as int, levels) {
        lemma_map_matches_reorder(m, r2, r1, Seq::empty(), levels);
    }
}

/// The total of activities one after another is the total of the first ones
/// plus the total of the others. This holds when all are measured at the same
/// time, and, when no activity is running, whenever each is measured.
pub proof fn lemma_total_concat(
    first: Seq<&Activity>,
    second: Seq<&Activity>,
    now: Timestamp,
    now1: Timestamp,
    now2: Timestamp,
)
    requires
        (now == now1 && now == now2) || forall|i: int|
            0 <= i < first.len() + second.len() ==> (#[trigger] (first + second)[i]).end is Some,
    ensures
        total_at(first + second, now, (first.len() + second.len()) as int) == total_at(first, now1, first.len() as int)
            + total_at(second, now2, second.len() as int),
{
    let both = first + second;
    let none = Seq::<Grouping>::empty();
    if !(now == now1 && now == now2) {
        assert forall|i: int| 0 <= i < first.len() implies (#[trigger] first[i]).end is Some by {
            assert(both[i] == first[i]);
        }
        assert forall|i: int| 0 <= i < second.len() implies (#[trigger] second[i]).end is Some by {
            assert(both[first.len() + i] == second[i]);
        }
        lemma_total_without_running(first, now1, now, first.len() as int);
        lemma_total_without_running(second, now2, now, second.len() as int);
    }
    lemma_total_rows(both, none, now, both.len() as int);
    lemma_total_rows(first, none, now, first.len() as int);
    lemma_total_rows(second, none, now, second.len() as int);
    assert(rows_of(both, none, now) =~= rows_of(first, none, now) + rows_of(second, none, now));
    lemma_prefix_concat(rows_of(first, none, now), rows_of(second, none, now), Seq::empty());
}

/// The total of the activities does not depend on their order. This holds
/// when both are measured at the same time, and, when no activity is
/// running, whenever each is measured.
pub proof fn lemma_total_reorder(activities: Seq<&Activity>, reordered: Seq<&Activity>, now1: Timestamp, now2: Timestamp)
    requires
        activities.to_multiset() == reordered.to_multiset(),
        now1 == now2 || forall|i: int| 0 <= i < activities.len() ==> (#[trigger] activities[i]).end is Some,
    ensures
        total_at(activities, now1, activities.len() as int) == total_at(reordered, now2, reordered.len() as int),
{
    broadcast use vstd::seq_lib::group_to_multiset_ensures;

    let none = Seq::<Grouping>::empty();
    if now1 != now2 {
        lemma_total_without_running(activities, now1, now2, activities.len() as int);
    }
    lemma_rows_reorder(activities, reordered, none, now2);
    lemma_prefix_reorder(rows_of(activities, none, now2), rows_of(reordered, none, now2), Seq::empty());
    lemma_total_rows(activities, none, now2, activities.len() as int);
    lemma_total_rows(reordered, none, now2, reordered.len() as int);
}

impl Report {
    /// Groups the activities and sums their durations, measuring running
    /// activities up to now; `None` when there are activities but no way of
    /// grouping them, a running total leaves the range of a duration, or an
    /// activity runs and the clock cannot be read as a timestamp.
    pub fn try_new<G: ReportGroup>(activities: &[&Activity], groups: Vec<G>) -> (r: Option<Report>)
        ensures
            (r is Some || none_running(activities@)) ==> exists|t: Timestamp|
                #![trigger rows_of(activities@, groups@, t)]
                t.is_valid() && (match r {
                    Some(r) => {
                        &&& groups@.len() > 0 ==> map_matches(
                            r.project_map,
                            rows_of(activities@, groups@, t),
                            Seq::empty(),
                            activities@.len() as int,
                            groups@.len() as int,
                        )
                        &&& groups@.len() == 0 ==> r.project_map@.len() == 0
                        &&& r.total_duration.nanos() == total_at(activities@, t, activities@.len() as int)
                    },
                    None => (activities@.len() > 0 && groups@.len() == 0) || !group_sums_fit(
                        rows_of(activities@, groups@, t),
                    ) || !total_sums_fit(activities@, t),
                }),
            r matches Some(r) ==> crate::report_lines::indent_fits(r.project_map, 0),
    {
        let now = match measuring_time(activities) {
            Some(t) => t,
            None => return None,
        };
        let project_map = match try_create_project_map_at(activities, &groups, &now) {
            Some(m) => m,
            None => {
                assert(rows_of(activities@, groups@, now) == rows_of(activities@, groups@, now));
                return None;
            },
        };
        let total_duration = match try_sum_duration_at(activities, &now) {
            Some(d) => d,
            None => {
                assert(rows_of(activities@, groups@, now) == rows_of(activities@, groups@, now));
                return None;
            },
        };
        let levels = groups.len();
        proof {
            if groups@.len() > 0 {
                assert(groups@.len() == levels);
                crate::report_lines::lemma_matches_indent_fits(
                    project_map,
                    rows_of(activities@, groups@, now),
                    Seq::empty(),
                    activities@.len() as int,
                    groups@.len() as int,
                );
            }
            assert(rows_of(activities@, groups@, now) == rows_of(activities@, groups@, now));
        }
        Some(Report { project_map, total_duration })
    }
}

} // verus!
