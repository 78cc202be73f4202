//! A report as lines of text: one line per group, indented by its level,
//! with blank lines closing the groups of the second and third level.
use vstd::prelude::*;

use crate::format_util::{duration_chars, duration_text};
use crate::report::{map_matches, ProjectMap, Report, ReportEntry, Row};
use crate::text::{char_count, chars_of, string_from_chars};
use crate::time::Duration;

verus! {

/// A group's line: its level, its identifier, whether groups follow below it,
/// and its total duration.
pub struct ReportLineItem {
    pub indent: usize,
    pub name: String,
    pub heading: bool,
    pub duration: Duration,
}

/// A line of a report.
pub enum ReportLine {
    Item(ReportLineItem),
    Separator,
}

/// The widths of a report's columns: the longest name (with its indent) and
/// the longest duration text.
pub struct LongestLineInfo {
    pub name: usize,
    pub duration: usize,
}

/// The line of one group.
pub open spec fn entry_line(e: (String, ReportEntry), indent: int) -> ReportLine {
    ReportLine::Item(
        ReportLineItem {
            indent: indent as usize,
            name: e.0,
            heading: e.1.items@.len() > 0,
            duration: e.1.total_duration,
        },
    )
}

/// The lines of a level: each group's line followed by the lines of the
/// groups below it, and a blank line after the level when it is the second
/// or third.
pub open spec fn map_lines(m: ProjectMap, indent: int) -> Seq<ReportLine>
    decreases m,
{
    proof {
        m.lemma_view_decreases();
    }
    entries_lines(m@, indent) + if 1 <= indent <= 2 {
        seq![ReportLine::Separator]
    } else {
        Seq::empty()
    }
}

/// The lines of some groups of a level, each followed by the lines below it.
pub open spec fn entries_lines(e: Seq<(String, ReportEntry)>, indent: int) -> Seq<ReportLine>
    decreases e,
{
    if e.len() == 0 {
        Seq::empty()
    } else {
        entries_lines(e.drop_last(), indent) + seq![entry_line(e.last(), indent)] + map_lines(
            e.last().1.items,
            indent + 1,
        )
    }
}

/// Whether the levels of a map, counted from `indent`, fit in a `usize`.
pub open spec fn indent_fits(m: ProjectMap, indent: int) -> bool
    decreases m,
{
    proof {
        m.lemma_view_decreases();
    }
    &&& 0 <= indent
    &&& m@.len() > 0 ==> indent < usize::MAX
    &&& forall|x: int| 0 <= x < m@.len() ==> indent_fits(#[trigger] m@[x].1.items, indent + 1)
}

/// A report below a prefix has its levels within the number of levels.
pub proof fn lemma_matches_indent_fits(m: ProjectMap, rows: Seq<Row>, prefix: Seq<Seq<char>>, k: int, levels: int)
    requires
        map_matches(m, rows, prefix, k, levels),
        levels <= usize::MAX,
    ensures
        indent_fits(m, prefix.len() as int),
    decreases levels - prefix.len(),
{
    assert forall|x: int| 0 <= x < m@.len() implies indent_fits(#[trigger] m@[x].1.items, prefix.len() as int + 1) by {
        let q = prefix.push(m.keys()[x]);
        if prefix.len() + 1 < levels {
            lemma_matches_indent_fits(m@[x].1.items, rows, q, k, levels);
        }
    }
}

impl ReportLine {
    /// The line of a group.
    pub fn new_report_line(indent: usize, name: String, heading: bool, duration: Duration) -> (l: ReportLine)
        ensures
            l == ReportLine::Item(ReportLineItem { indent, name, heading, duration }),
    {
        ReportLine::Item(ReportLineItem { indent: indent, name: name, heading: heading, duration: duration })
    }

    /// A blank line.
    pub fn new_separator() -> (l: ReportLine)
        ensures
            l == ReportLine::Separator,
    {
        Self::Separator
    }
}

fn recursively_return_lines(map: &ProjectMap, lines: &mut Vec<ReportLine>, indent: usize)
    requires
        indent_fits(*map, indent as int),
    ensures
        final(lines)@ == old(lines)@ + map_lines(*map, indent as int),
    decreases map,
{
    let ghost start = lines@;
    let entries = map.entries();
    let n = entries.len();
    for x in 0..n
        invariant
            n == map@.len(),
            entries@ == map@,
            indent_fits(*map, indent as int),
            lines@ == start + entries_lines(map@.take(x as int), indent as int),
    {
        let name = entries[x].0.clone();
        let entry = &entries[x].1;
        lines.push(ReportLine::new_report_line(indent, name, !entry.items.is_empty(), entry.total_duration));
        proof {
            assert(indent_fits(map@[x as int].1.items, indent + 1));
            map.lemma_view_decreases();
        }
        recursively_return_lines(&entry.items, lines, indent + 1);
        proof {
            let t = map@.take(x + 1);
            assert(t.drop_last() =~= map@.take(x as int));
            assert(t.last() == map@[x as int]);
            assert(lines@ =~= start + entries_lines(t, indent as int));
        }
    }
    if 1 <= indent && indent <= 2 {
        lines.push(ReportLine::new_separator());
    }
    proof {
        assert(map@.take(n as int) =~= map@);
        assert(lines@ =~= start + map_lines(*map, indent as int));
    }
}

impl Report {
    /// The lines of the report, level by level.
    pub fn return_report_lines(&self) -> (lines: Vec<ReportLine>)
        requires
            indent_fits(self.project_map, 0),
        ensures
            lines@ == map_lines(self.project_map, 0),
    {
        let mut lines: Vec<ReportLine> = Vec::new();
        recursively_return_lines(&self.project_map, &mut lines, 0);
        assert(lines@ =~= map_lines(self.project_map, 0));
        lines
    }
}

/// The width a line takes in the name column.
pub open spec fn name_len(line: ReportLine) -> int {
    match line {
        ReportLine::Item(item) => item.name@.len() + item.indent,
        ReportLine::Separator => 0,
    }
}

/// The width a line takes in the duration column.
pub open spec fn duration_len(line: ReportLine) -> int {
    match line {
        ReportLine::Item(item) => duration_text(item.duration.nanos()).len() as int,
        ReportLine::Separator => 0,
    }
}

/// The largest name width of the lines (0 for none).
pub open spec fn longest_name(lines: Seq<ReportLine>) -> int
    decreases lines.len(),
{
    if lines.len() == 0 {
        0
    } else {
        let rest = longest_name(lines.drop_last());
        let last = name_len(lines.last());
        if last > rest {
            last
        } else {
            rest
        }
    }
}

/// The largest duration width of the lines (0 for none).
pub open spec fn longest_duration(lines: Seq<ReportLine>) -> int
    decreases lines.len(),
{
    if lines.len() == 0 {
        0
    } else {
        let rest = longest_duration(lines.drop_last());
        let last = duration_len(lines.last());
        if last > rest {
            last
        } else {
            rest
        }
    }
}

/// The width a line takes in the name column.
pub fn return_name_len(line: &ReportLine) -> (n: usize)
    requires
        name_len(*line) <= usize::MAX,
    ensures
        n == name_len(*line),
{
    if let ReportLine::Item(item) = line {
        char_count(item.name.as_str()) + item.indent
    } else {
        0
    }
}

/// The width a line takes in the duration column.
pub fn return_duration_len(line: &ReportLine) -> (n: usize)
    ensures
        n == duration_len(*line),
{
    if let ReportLine::Item(item) = line {
        duration_chars(&item.duration).len()
    } else {
        0
    }
}

/// The widths of the columns of the lines.
pub fn get_longest_line_info(lines: &[ReportLine]) -> (info: LongestLineInfo)
    requires
        forall|i: int| 0 <= i < lines@.len() ==> name_len(#[trigger] lines@[i]) <= usize::MAX,
    ensures
        info.name == longest_name(lines@),
        info.duration == longest_duration(lines@),
{
    let mut longest_name_len: usize = 0;
    let mut longest_duration_len: usize = 0;
    for i in 0..lines.len()
        invariant
            forall|j: int| 0 <= j < lines@.len() ==> name_len(#[trigger] lines@[j]) <= usize::MAX,
            longest_name_len == longest_name(lines@.take(i as int)),
            longest_duration_len == longest_duration(lines@.take(i as int)),
    {
        let n = return_name_len(&lines[i]);
        let d = return_duration_len(&lines[i]);
        proof {
            let t = lines@.take(i + 1);
            assert(t.drop_last() =~= lines@.take(i as int));
            assert(t.last() == lines@[i as int]);
        }
        if n > longest_name_len {
            longest_name_len = n;
        }
        if d > longest_duration_len {
            longest_duration_len = d;
        }
    }
    assert(lines@.take(lines@.len() as int) =~= lines@);
    LongestLineInfo { name: longest_name_len, duration: longest_duration_len }
}

/// `n` copies of a character.
pub open spec fn repeat_char(c: char, n: int) -> Seq<char> {
    Seq::new(if n > 0 { n as nat } else { 0 }, |i: int| c)
}

/// The text of a group's line: two spaces per level, the name padded with
/// dots to the name column's width, a tab, and the duration right-aligned in
/// the duration column.
pub open spec fn item_text(item: ReportLineItem, info: LongestLineInfo) -> Seq<char> {
    let dur = duration_text(item.duration.nanos());
    repeat_char(' ', 2 * item.indent) + item.name@ + repeat_char('.', info.name - item.name@.len()) + seq!['\t']
        + repeat_char(' ', info.duration - dur.len()) + dur
}

fn push_repeated(v: &mut Vec<char>, c: char, n: usize)
    ensures
        final(v)@ == old(v)@ + repeat_char(c, n as int),
{
    let ghost start = v@;
    for i in 0..n
        invariant
            v@ == start + repeat_char(c, i as int),
    {
        v.push(c);
        assert(v@ =~= start + repeat_char(c, i + 1));
    }
}

impl ReportLineItem {
    /// The text of the line, laid out in the given column widths.
    pub fn as_string(&self, longest_line_info: &LongestLineInfo) -> (s: String)
        requires
            2 * self.indent <= usize::MAX,
        ensures
            s@ == item_text(*self, *longest_line_info),
    {
        let mut v: Vec<char> = Vec::new();
        push_repeated(&mut v, ' ', self.indent * 2);
        let name = chars_of(self.name.as_str());
        let ghost front = v@;
        for i in 0..name.len()
            invariant
                v@ == front + name@.take(i as int),
        {
            v.push(name[i]);
            assert(v@ =~= front + name@.take(i + 1));
        }
        assert(name@.take(name@.len() as int) =~= name@);
        if name.len() < longest_line_info.name {
            push_repeated(&mut v, '.', longest_line_info.name - name.len());
        } else {
            assert(repeat_char('.', longest_line_info.name - name@.len()) =~= Seq::<char>::empty());
            assert(v@ =~= v@ + repeat_char('.', longest_line_info.name - name@.len()));
        }
        v.push('\t');
        let dur = duration_chars(&self.duration);
        if dur.len() < longest_line_info.duration {
            push_repeated(&mut v, ' ', longest_line_info.duration - dur.len());
        } else {
            assert(repeat_char(' ', longest_line_info.duration - dur@.len()) =~= Seq::<char>::empty());
            assert(v@ =~= v@ + repeat_char(' ', longest_line_info.duration - dur@.len()));
        }
        let ghost front2 = v@;
        for i in 0..dur.len()
            invariant
                v@ == front2 + dur@.take(i as int),
        {
            v.push(dur[i]);
            assert(v@ =~= front2 + dur@.take(i + 1));
        }
        assert(dur@.take(dur@.len() as int) =~= dur@);
        assert(v@ =~= item_text(*self, *longest_line_info));
        string_from_chars(&v)
    }
}

/// The text in bold on a terminal: the code that sets bold (`ESC [1m`), the
/// text, and the code that resets all styles (`ESC [0m`).
pub open spec fn bold_text(text: Seq<char>) -> Seq<char> {
    seq!['\u{1b}', '[', '1', 'm'] + text + seq!['\u{1b}', '[', '0', 'm']
}

/// Writes text in bold with nu_ansi_term (`Style::new().bold().paint`, then
/// `to_string`). Claims that the result is the text between the code that sets
/// bold and the code that resets all styles, which is what nu_ansi_term writes
/// for a style that is bold and nothing else.
#[verifier::external_body]
fn paint_bold(text: &str) -> (s: String)
    ensures
        s@ == bold_text(text@),
{
    nu_ansi_term::Style::new().bold().paint(text).to_string()
}

/// Whether every line's widths fit in a `usize`.
pub open spec fn widths_fit(lines: Seq<ReportLine>) -> bool {
    forall|i: int|
        0 <= i < lines.len() ==> match #[trigger] lines[i] {
            ReportLine::Item(item) => name_len(lines[i]) <= usize::MAX && 2 * item.indent <= usize::MAX,
            ReportLine::Separator => true,
        }
}

/// The text of a line: a group's line (in bold when groups follow below it),
/// or nothing; ending with a newline.
pub open spec fn line_text(line: ReportLine, info: LongestLineInfo) -> Seq<char> {
    match line {
        ReportLine::Item(item) => if item.heading {
            bold_text(item_text(item, info))
        } else {
            item_text(item, info)
        }.push('\n'),
        ReportLine::Separator => seq!['\n'],
    }
}

/// The text of some lines.
pub open spec fn lines_text(lines: Seq<ReportLine>, info: LongestLineInfo) -> Seq<char>
    decreases lines.len(),
{
    if lines.len() == 0 {
        Seq::empty()
    } else {
        lines_text(lines.drop_last(), info) + line_text(lines.last(), info)
    }
}

impl ReportLine {
    /// The text of the line, laid out in the given column widths.
    pub fn write_line(&self, longest_line_info: &LongestLineInfo) -> (s: String)
        requires
            self matches ReportLine::Item(item) ==> 2 * item.indent <= usize::MAX,
        ensures
            s@ == line_text(*self, *longest_line_info),
    {
        match self {
            ReportLine::Item(line) => {
                let text = line.as_string(longest_line_info);
                let styled = if line.heading {
                    paint_bold(text.as_str())
                } else {
                    text
                };
                let mut v = chars_of(styled.as_str());
                v.push('\n');
                string_from_chars(&v)
            },
            ReportLine::Separator => {
                let mut v: Vec<char> = Vec::new();
                v.push('\n');
                string_from_chars(&v)
            },
        }
    }
}

/// Whether the widths of a line fit in a `usize`.
fn line_widths_fit(line: &ReportLine) -> (b: bool)
    ensures
        b == match *line {
            ReportLine::Item(item) => name_len(*line) <= usize::MAX && 2 * item.indent <= usize::MAX,
            ReportLine::Separator => true,
        },
{
    match line {
        ReportLine::Item(item) => {
            let n = char_count(item.name.as_str());
            n <= usize::MAX - item.indent && item.indent <= usize::MAX / 2
        },
        ReportLine::Separator => true,
    }
}

impl Report {
    /// The text of the report: its lines, laid out in columns as wide as
    /// their longest entries; `None` when a width does not fit in a `usize`.
    pub fn to_text(&self) -> (s: Option<String>)
        requires
            indent_fits(self.project_map, 0),
        ensures
            match s {
                Some(s) => {
                    let lines = map_lines(self.project_map, 0);
                    &&& widths_fit(lines)
                    &&& s@ == lines_text(
                        lines,
                        LongestLineInfo { name: longest_name(lines) as usize, duration: longest_duration(lines) as usize },
                    )
                },
                None => !widths_fit(map_lines(self.project_map, 0)),
            },
    {
        let lines = self.return_report_lines();
        for i in 0..lines.len()
            invariant
                lines@ == map_lines(self.project_map, 0),
                forall|j: int|
                    0 <= j < i ==> match #[trigger] lines@[j] {
                        ReportLine::Item(item) => name_len(lines@[j]) <= usize::MAX && 2 * item.indent <= usize::MAX,
                        ReportLine::Separator => true,
                    },
        {
            if !line_widths_fit(&lines[i]) {
                return None;
            }
        }
        let info = get_longest_line_info(lines.as_slice());
        let mut v: Vec<char> = Vec::new();
        for i in 0..lines.len()
            invariant
                widths_fit(lines@),
                v@ == lines_text(lines@.take(i as int), info),
        {
            let text = lines[i].write_line(&info);
            let ghost before = v@;
            let chars = chars_of(text.as_str());
            for j in 0..chars.len()
                invariant
                    v@ == before + chars@.take(j as int),
            {
                v.push(chars[j]);
                assert(v@ =~= before + chars@.take(j + 1));
            }
            proof {
                assert(chars@.take(chars@.len() as int) =~= chars@);
                assert(lines@.take(i + 1).drop_last() =~= lines@.take(i as int));
            }
        }
        assert(lines@.take(lines@.len() as int) =~= lines@);
        Some(string_from_chars(&v))
    }
}

} // verus!
