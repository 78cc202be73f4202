//! The text of the activity log: one activity per line,
//! `<start>[ - <end>] | <project> | <description>`, with `\` and `|` escaped
//! by a backslash in the project and description, and times written as
//! `%Y-%m-%d %H:%M`.
use vstd::prelude::*;

use crate::activity::{Activity, ActivityError, Line};
use crate::text::{chars_of, decimal, string_from_chars};
use crate::time::{date_text, two_digit_text, valid_parts, year_text, zero_padded, Timestamp};

verus! {

/// The text of a timestamp in the log, as chrono writes it with the format
/// `%Y-%m-%d %H:%M`: the date, a space, and the hour and minute of the day
/// with two digits each, joined by `:`.
#[verifier::opaque]
pub open spec fn datetime_text(secs: int, nanos: int) -> Seq<char> {
    let of_day = secs % 86_400;
    date_text(secs, nanos) + seq![' '] + two_digit_text(of_day / 3_600) + seq![':'] + two_digit_text(
        (of_day % 3_600) / 60,
    )
}

/// The timestamp (seconds and nanoseconds) that chrono reads from a text with
/// the format `%Y-%m-%d %H:%M`, if it reads one.
pub uninterp spec fn parsed_datetime(text: Seq<char>) -> Option<(int, int)>;

/// Whether a character is white space: it has the Unicode property
/// `White_Space`, as `char::is_whitespace` documents.
pub open spec fn char_is_whitespace(c: char) -> bool {
    let n = c as u32;
    ||| 0x09 <= n <= 0x0d
    ||| n == 0x20
    ||| n == 0x85
    ||| n == 0xa0
    ||| n == 0x1680
    ||| 0x2000 <= n <= 0x200a
    ||| n == 0x2028
    ||| n == 0x2029
    ||| n == 0x202f
    ||| n == 0x205f
    ||| n == 0x3000
}

/// Whether a character is an ASCII digit.
pub open spec fn is_digit(c: char) -> bool {
    0x30 <= c as u32 <= 0x39
}

/// Whether a text has the shape of a date and time written with
/// `%Y-%m-%d %H:%M`: it is made of digits, `+`, `-`, `:` and spaces, does not
/// start with a space, ends with a digit, and has a digit after each space.
pub open spec fn datetime_shape(s: Seq<char>) -> bool {
    &&& s.len() > 0
    &&& s[0] != ' '
    &&& is_digit(s.last())
    &&& forall|i: int|
        0 <= i < s.len() ==> is_digit(#[trigger] s[i]) || s[i] == '+' || s[i] == '-' || s[i] == ':' || s[i]
            == ' '
    &&& forall|i: int| 0 <= i < s.len() && #[trigger] s[i] == ' ' ==> i + 1 < s.len() && is_digit(s[i + 1])
}

/// Whether every character of a text is a digit, `+`, `-` or `:`.
pub open spec fn plain_chars(s: Seq<char>) -> bool {
    forall|i: int| 0 <= i < s.len() ==> is_digit(#[trigger] s[i]) || s[i] == '+' || s[i] == '-' || s[i] == ':'
}

proof fn lemma_decimal_digits(n: nat)
    ensures
        decimal(n).len() > 0,
        forall|i: int| 0 <= i < decimal(n).len() ==> is_digit(#[trigger] decimal(n)[i]),
    decreases n,
{
    if n >= 10 {
        lemma_decimal_digits(n / 10);
        assert(is_digit(crate::text::digit_char(n % 10)));
        let d = decimal(n);
        assert forall|i: int| 0 <= i < d.len() implies is_digit(#[trigger] d[i]) by {
            if i < d.len() - 1 {
                assert(d[i] == decimal(n / 10)[i]);
            }
        }
    } else {
        assert(is_digit(crate::text::digit_char(n)));
    }
}

proof fn lemma_padded_digits(n: nat, width: nat)
    ensures
        zero_padded(decimal(n), width).len() > 0,
        forall|i: int|
            0 <= i < zero_padded(decimal(n), width).len() ==> is_digit(#[trigger] zero_padded(decimal(n), width)[i]),
{
    lemma_decimal_digits(n);
    let d = decimal(n);
    let z = zero_padded(d, width);
    if d.len() < width {
        let pad = Seq::new((width - d.len()) as nat, |i: int| '0');
        assert forall|i: int| 0 <= i < z.len() implies is_digit(#[trigger] z[i]) by {
            if i < pad.len() {
                assert(z[i] == '0');
            } else {
                assert(z[i] == d[i - pad.len()]);
            }
        }
    }
}

proof fn lemma_plain_concat(a: Seq<char>, b: Seq<char>)
    requires
        plain_chars(a),
        plain_chars(b),
    ensures
        plain_chars(a + b),
{
    assert forall|i: int| 0 <= i < (a + b).len() implies is_digit(#[trigger] (a + b)[i]) || (a + b)[i] == '+' || (a
        + b)[i] == '-' || (a + b)[i] == ':' by {
        if i < a.len() {
            assert((a + b)[i] == a[i]);
        } else {
            assert((a + b)[i] == b[i - a.len()]);
        }
    }
}

/// The text of a timestamp has the shape of a date and time.
proof fn lemma_datetime_shape(secs: int, nanos: int)
    ensures
        datetime_shape(datetime_text(secs, nanos)),
{
    reveal(datetime_text);
    reveal(date_text);
    let of_day = secs % 86_400;
    let (y, m, d) = crate::time::civil_date(secs / 86_400);
    let yt = year_text(y);
    let abs: nat = if y >= 0 {
        y as nat
    } else {
        (-y) as nat
    };
    lemma_padded_digits(abs, 4);
    lemma_decimal_digits(abs);
    let zp = zero_padded(decimal(abs), 4);
    if 0 <= y <= 9999 {
        assert(yt == zp);
    } else if y > 9999 {
        assert(yt == seq!['+'] + decimal(abs));
        lemma_plain_concat(seq!['+'], decimal(abs));
    } else {
        assert(yt == seq!['-'] + zp);
        lemma_plain_concat(seq!['-'], zp);
    }
    assert(plain_chars(yt));
    assert(yt.len() > 0);
    let mt = two_digit_text(m);
    let dt = two_digit_text(d);
    let ht = two_digit_text(of_day / 3_600);
    let nt = two_digit_text((of_day % 3_600) / 60);
    lemma_padded_digits(m as nat, 2);
    lemma_padded_digits(d as nat, 2);
    lemma_padded_digits((of_day / 3_600) as nat, 2);
    lemma_padded_digits(((of_day % 3_600) / 60) as nat, 2);
    assert(plain_chars(mt) && plain_chars(dt) && plain_chars(ht) && plain_chars(nt));
    let dash = seq!['-'];
    let colon = seq![':'];
    lemma_plain_concat(yt, dash);
    lemma_plain_concat(yt + dash, mt);
    lemma_plain_concat(yt + dash + mt, dash);
    lemma_plain_concat(yt + dash + mt + dash, dt);
    lemma_plain_concat(ht, colon);
    lemma_plain_concat(ht + colon, nt);
    let left = yt + dash + mt + dash + dt;
    let right = ht + colon + nt;
    let text = datetime_text(secs, nanos);
    assert(date_text(secs, nanos) == left);
    assert(text =~= left + seq![' '] + right);
    assert(right[0] == ht[0]);
    assert(right.last() == nt.last());
    assert(nt.last() == nt[nt.len() - 1]);
    assert(text[0] == left[0]);
    assert(text.last() == right.last());
    assert forall|i: int| 0 <= i < text.len() implies is_digit(#[trigger] text[i]) || text[i] == '+' || text[i]
        == '-' || text[i] == ':' || text[i] == ' ' by {
        if i < left.len() {
            assert(text[i] == left[i]);
        } else if i > left.len() {
            assert(text[i] == right[i - left.len() - 1]);
        }
    }
    assert forall|i: int| 0 <= i < text.len() && #[trigger] text[i] == ' ' implies i + 1 < text.len() && is_digit(
        text[i + 1],
    ) by {
        if i < left.len() {
            assert(text[i] == left[i]);
        } else if i > left.len() {
            assert(text[i] == right[i - left.len() - 1]);
        } else {
            assert(text[i + 1] == right[0]);
        }
    }
}

/// Writes the parts of a timestamp with chrono: `DateTime::from_timestamp`,
/// then `format("%Y-%m-%d %H:%M")` of the naive date and time. Claims that the
/// text is `datetime_text` (the proleptic Gregorian date, the year written by
/// four digits or, outside 0..=9999, by a sign and at least four digits, then
/// two digits each for month, day, hour and minute, joined by `-`, a space and
/// `:`), and that `NaiveDateTime::parse_from_str` with the same format reads it
/// back as the same minute, with no seconds.
#[verifier::external_body]
fn format_datetime(secs: i64, nanos: u32) -> (s: String)
    requires
        valid_parts(secs as int, nanos as int),
    ensures
        s@ == datetime_text(secs as int, nanos as int),
        parsed_datetime(s@) == Some((secs as int - (secs as int) % 60, 0int)),
{
    chrono::DateTime::from_timestamp(secs, nanos).expect("timestamp in range").naive_utc().format(
        "%Y-%m-%d %H:%M",
    ).to_string()
}

/// Reads a timestamp with chrono's `NaiveDateTime::parse_from_str` and the
/// format `%Y-%m-%d %H:%M`, and takes the result apart. Claims that the result
/// is named by `parsed_datetime`, and that the parts of a result are in the
/// range of `NaiveDateTime` with no nanoseconds past the minute's second.
#[verifier::external_body]
fn parse_datetime(text: &str) -> (r: Option<(i64, u32)>)
    ensures
        r is Some <==> parsed_datetime(text@) is Some,
        r matches Some(p) ==> parsed_datetime(text@) == Some((p.0 as int, p.1 as int)) && valid_parts(
            p.0 as int,
            p.1 as int,
        ),
{
    match chrono::NaiveDateTime::parse_from_str(text, "%Y-%m-%d %H:%M") {
        Ok(dt) => Some((dt.and_utc().timestamp(), dt.and_utc().timestamp_subsec_nanos())),
        Err(_) => None,
    }
}

/// Whether a character is white space (the Unicode property `White_Space`).
pub fn is_whitespace(c: char) -> (b: bool)
    ensures
        b == char_is_whitespace(c),
{
    let n = c as u32;
    (0x09 <= n && n <= 0x0d) || n == 0x20 || n == 0x85 || n == 0xa0 || n == 0x1680 || (0x2000 <= n && n
        <= 0x200a) || n == 0x2028 || n == 0x2029 || n == 0x202f || n == 0x205f || n == 0x3000
}

/// The escaped form of one character.
pub open spec fn escape_char(c: char) -> Seq<char> {
    if c == '\\' {
        seq!['\\', '\\']
    } else if c == '|' {
        seq!['\\', '|']
    } else {
        seq![c]
    }
}

/// A text with `\` and `|` escaped by a backslash.
pub open spec fn escape(s: Seq<char>) -> Seq<char>
    decreases s.len(),
{
    if s.len() == 0 {
        Seq::empty()
    } else {
        escape(s.drop_last()) + escape_char(s.last())
    }
}

/// Reading a text from left to right, splitting it at each `|` that no
/// backslash escapes: the fields read so far, the field being read, and
/// whether the last character was an escaping backslash.
pub open spec fn split_state(s: Seq<char>) -> (Seq<Seq<char>>, Seq<char>, bool)
    decreases s.len(),
{
    if s.len() == 0 {
        (Seq::empty(), Seq::empty(), false)
    } else {
        let (done, cur, escaped) = split_state(s.drop_last());
        let c = s.last();
        if escaped {
            (done, cur.push(c), false)
        } else if c == '\\' {
            (done, cur, true)
        } else if c == '|' {
            (done.push(cur), Seq::empty(), false)
        } else {
            (done, cur.push(c), false)
        }
    }
}

/// The fields of a text, split at each `|` that no backslash escapes, with
/// the escaping backslashes removed.
pub open spec fn split_fields(s: Seq<char>) -> Seq<Seq<char>> {
    split_state(s).0.push(split_state(s).1)
}

/// The text without white space at its start.
pub open spec fn trim_start(s: Seq<char>) -> Seq<char>
    decreases s.len(),
{
    if s.len() > 0 && char_is_whitespace(s[0]) {
        trim_start(s.drop_first())
    } else {
        s
    }
}

/// The text without white space at its end.
pub open spec fn trim_end(s: Seq<char>) -> Seq<char>
    decreases s.len(),
{
    if s.len() > 0 && char_is_whitespace(s.last()) {
        trim_end(s.drop_last())
    } else {
        s
    }
}

/// The text without white space at either end.
pub open spec fn trim(s: Seq<char>) -> Seq<char> {
    trim_end(trim_start(s))
}

/// Where the first ` - ` of a text begins, if it holds one.
pub open spec fn find_dash(s: Seq<char>, from: int) -> Option<int>
    decreases s.len() - from,
{
    if from < 0 || from + 3 > s.len() {
        None
    } else if s[from] == ' ' && s[from + 1] == '-' && s[from + 2] == ' ' {
        Some(from)
    } else {
        find_dash(s, from + 1)
    }
}

/// The text up to its first ` - ` (all of it when there is none).
pub open spec fn before_dash(s: Seq<char>) -> Seq<char> {
    match find_dash(s, 0) {
        Some(i) => s.take(i),
        None => s,
    }
}

/// The activity a line of the log holds: the time field is a start time,
/// and after ` - ` an end time; then a project and a description (empty
/// when missing); each field trimmed.
pub open spec fn parse_activity(text: Seq<char>) -> Result<(Timestamp, Option<Timestamp>, Seq<char>, Seq<char>), ActivityError> {
    let fields = split_fields(text);
    if fields.len() < 2 {
        Err(ActivityError::GeneralParseError)
    } else {
        let time_field = fields[0];
        match parsed_datetime(trim(before_dash(time_field))) {
            None => Err(ActivityError::DateTimeParseError),
            Some(start) => {
                let project = trim(fields[1]);
                let description = if fields.len() > 2 {
                    trim(fields[2])
                } else {
                    Seq::empty()
                };
                match find_dash(time_field, 0) {
                    None => Ok((timestamp_of(start), None, project, description)),
                    Some(i) => match parsed_datetime(trim(before_dash(time_field.skip(i + 3)))) {
                        None => Err(ActivityError::DateTimeParseError),
                        Some(end) => Ok((timestamp_of(start), Some(timestamp_of(end)), project, description)),
                    },
                }
            },
        }
    }
}

/// The timestamp with the given parts.
pub open spec fn timestamp_of(parts: (int, int)) -> Timestamp {
    choose|t: Timestamp| t.seconds() == parts.0 && t.subsec() == parts.1
}

/// Whether a line's activity is the one its text holds.
pub open spec fn activity_parsed(text: Seq<char>, activity: Result<Activity, ActivityError>) -> bool {
    match parse_activity(text) {
        Ok((start, end, project, description)) => activity matches Ok(a) && a.start == start && a.end == end
            && a.project@ == project && a.description@ == description,
        Err(e) => activity == Err::<Activity, ActivityError>(e),
    }
}

/// The text of a timestamp.
pub open spec fn timestamp_text(t: Timestamp) -> Seq<char> {
    datetime_text(t.seconds(), t.subsec())
}

/// The line of text that holds an activity, ending with a newline.
pub open spec fn activity_text(a: Activity) -> Seq<char> {
    timestamp_text(a.start) + match a.end {
        Some(e) => seq![' ', '-', ' '] + timestamp_text(e),
        None => Seq::empty(),
    } + seq![' ', '|', ' '] + escape(a.project@) + seq![' ', '|', ' '] + escape(a.description@) + seq!['\n']
}

/// The text a line is written as: its text as read when it has not changed,
/// else the text of its activity; ending with a newline.
pub open spec fn line_text(l: Line) -> Seq<char> {
    if !l.changed && l.plaintext is Some {
        l.plaintext->0@.push('\n')
    } else {
        match l.activity {
            Ok(a) => activity_text(a),
            Err(_) => match l.plaintext {
                Some(p) => p@.push('\n'),
                None => seq!['\n'],
            },
        }
    }
}

/// The text of a log.
pub open spec fn file_text(lines: Seq<Line>) -> Seq<char>
    decreases lines.len(),
{
    if lines.len() == 0 {
        Seq::empty()
    } else {
        file_text(lines.drop_last()) + line_text(lines.last())
    }
}

fn push_all(v: &mut Vec<char>, s: &Vec<char>)
    ensures
        final(v)@ == old(v)@ + s@,
{
    let ghost start = v@;
    for i in 0..s.len()
        invariant
            v@ == start + s@.take(i as int),
    {
        v.push(s[i]);
        assert(v@ =~= start + s@.take(i + 1));
    }
    assert(s@.take(s@.len() as int) =~= s@);
}

fn push_escaped(v: &mut Vec<char>, s: &str)
    ensures
        final(v)@ == old(v)@ + escape(s@),
{
    let ghost start = v@;
    let chars = chars_of(s);
    for i in 0..chars.len()
        invariant
            chars@ == s@,
            v@ == start + escape(chars@.take(i as int)),
    {
        let c = chars[i];
        if c == '\\' {
            v.push('\\');
            v.push('\\');
        } else if c == '|' {
            v.push('\\');
            v.push('|');
        } else {
            v.push(c);
        }
        proof {
            assert(chars@.take(i + 1).drop_last() =~= chars@.take(i as int));
            assert(v@ =~= start + escape(chars@.take(i + 1)));
        }
    }
    assert(chars@.take(chars@.len() as int) =~= s@);
}

fn push_timestamp(v: &mut Vec<char>, t: &Timestamp)
    ensures
        final(v)@ == old(v)@ + timestamp_text(*t),
        datetime_shape(timestamp_text(*t)),
        parsed_datetime(timestamp_text(*t)) == Some((t.seconds() - t.seconds() % 60, 0int)),
{
    proof {
        use_type_invariant(t);
        crate::time::lemma_timestamp_inv(*t);
    }
    let text = format_datetime(t.timestamp(), t.subsec_nanos());
    proof {
        lemma_datetime_shape(t.seconds(), t.subsec());
    }
    let chars = chars_of(text.as_str());
    push_all(v, &chars);
}

fn push_activity(v: &mut Vec<char>, a: &Activity)
    ensures
        final(v)@ == old(v)@ + activity_text(*a),
        datetime_shape(timestamp_text(a.start)),
        parsed_datetime(timestamp_text(a.start)) == Some((a.start.seconds() - a.start.seconds() % 60, 0int)),
        a.end matches Some(e) ==> datetime_shape(timestamp_text(e)) && parsed_datetime(timestamp_text(e)) == Some(
            (e.seconds() - e.seconds() % 60, 0int),
        ),
{
    let ghost start = v@;
    push_timestamp(v, &a.start);
    let ghost after_start = v@;
    if let Some(e) = &a.end {
        v.push(' ');
        v.push('-');
        v.push(' ');
        push_timestamp(v, e);
    }
    let ghost after_end = v@;
    v.push(' ');
    v.push('|');
    v.push(' ');
    push_escaped(v, a.project.as_str());
    v.push(' ');
    v.push('|');
    v.push(' ');
    push_escaped(v, a.description.as_str());
    v.push('\n');
    proof {
        let mid = match a.end {
            Some(e) => seq![' ', '-', ' '] + timestamp_text(e),
            None => Seq::empty(),
        };
        assert(after_end =~= start + timestamp_text(a.start) + mid);
        assert(v@ =~= start + activity_text(*a));
    }
}

impl Activity {
    /// The line of text that holds the activity, ending with a newline. Read
    /// back, the line gives the activity again, when its times are whole
    /// minutes and its project and description have no white space at either end.
    pub fn to_text(&self) -> (s: String)
        ensures
            s@ == activity_text(*self),
            whole_minute(self.start) && (self.end matches Some(e) ==> whole_minute(e)) && trimmed(self.project@)
                && trimmed(self.description@) ==> parse_activity(s@.drop_last()) == Ok::<
                (Timestamp, Option<Timestamp>, Seq<char>, Seq<char>),
                ActivityError,
            >((self.start, self.end, self.project@, self.description@)),
    {
        let mut v: Vec<char> = Vec::new();
        push_activity(&mut v, self);
        assert(v@ =~= activity_text(*self));
        proof {
            let a = *self;
            if whole_minute(a.start) && (a.end matches Some(e) ==> whole_minute(e)) && trimmed(a.project@)
                && trimmed(a.description@) {
                lemma_shape_plain(timestamp_text(a.start));
                if let Some(e) = a.end {
                    lemma_shape_plain(timestamp_text(e));
                }
                lemma_activity_text_read_back(a);
            }
        }
        string_from_chars(&v)
    }
}

/// The text of a log: each line written as `line_text` says.
pub fn file_content_text(file_content: &Vec<Line>) -> (s: String)
    ensures
        s@ == file_text(file_content@),
{
    let mut v: Vec<char> = Vec::new();
    for i in 0..file_content.len()
        invariant
            v@ == file_text(file_content@.take(i as int)),
    {
        let line = &file_content[i];
        let ghost before = v@;
        if !line.changed && line.plaintext.is_some() {
            let text = chars_of(line.plaintext.as_ref().unwrap().as_str());
            push_all(&mut v, &text);
            v.push('\n');
        } else {
            match &line.activity {
                Ok(a) => push_activity(&mut v, a),
                Err(_) => {
                    if let Some(p) = &line.plaintext {
                        let text = chars_of(p.as_str());
                        push_all(&mut v, &text);
                    }
                    v.push('\n');
                },
            }
        }
        proof {
            assert(file_content@.take(i + 1).drop_last() =~= file_content@.take(i as int));
            assert(v@ =~= before + line_text(file_content@[i as int]));
        }
    }
    assert(file_content@.take(file_content@.len() as int) =~= file_content@);
    string_from_chars(&v)
}

/// The fields of a text, split at each `|` that no backslash escapes.
fn split_escaped(chars: &Vec<char>) -> (fields: Vec<Vec<char>>)
    ensures
        fields@.len() == split_fields(chars@).len(),
        forall|j: int| 0 <= j < fields@.len() ==> (#[trigger] fields@[j])@ == split_fields(chars@)[j],
{
    let mut done: Vec<Vec<char>> = Vec::new();
    let mut cur: Vec<char> = Vec::new();
    let mut escaped = false;
    for i in 0..chars.len()
        invariant
            done@.len() == split_state(chars@.take(i as int)).0.len(),
            forall|j: int| 0 <= j < done@.len() ==> (#[trigger] done@[j])@ == split_state(chars@.take(i as int)).0[j],
            cur@ == split_state(chars@.take(i as int)).1,
            escaped == split_state(chars@.take(i as int)).2,
    {
        proof {
            assert(chars@.take(i + 1).drop_last() =~= chars@.take(i as int));
        }
        let c = chars[i];
        if escaped {
            cur.push(c);
            escaped = false;
        } else if c == '\\' {
            escaped = true;
        } else if c == '|' {
            let field = cur;
            done.push(field);
            cur = Vec::new();
        } else {
            cur.push(c);
        }
    }
    assert(chars@.take(chars@.len() as int) =~= chars@);
    done.push(cur);
    done
}

/// The characters without white space at either end.
fn trim_chars(s: &Vec<char>) -> (t: Vec<char>)
    ensures
        t@ == trim(s@),
{
    let mut lo: usize = 0;
    assert(s@.skip(0) =~= s@);
    while lo < s.len() && is_whitespace(s[lo])
        invariant
            lo <= s@.len(),
            trim_start(s@) == trim_start(s@.skip(lo as int)),
        decreases s@.len() - lo,
    {
        assert(s@.skip(lo as int).drop_first() =~= s@.skip(lo + 1));
        lo = lo + 1;
    }
    let ghost front = s@.skip(lo as int);
    assert(trim_start(s@) == front);
    let mut hi: usize = s.len();
    while hi > lo && is_whitespace(s[hi - 1])
        invariant
            lo <= hi <= s@.len(),
            trim_end(front) == trim_end(s@.subrange(lo as int, hi as int)),
        decreases hi,
    {
        assert(s@.subrange(lo as int, hi as int).drop_last() =~= s@.subrange(lo as int, hi - 1));
        hi = hi - 1;
    }
    proof {
        assert(front =~= s@.subrange(lo as int, s@.len() as int));
    }
    let mut t: Vec<char> = Vec::new();
    for i in lo..hi
        invariant
            lo <= hi <= s@.len(),
            t@ == s@.subrange(lo as int, i as int),
    {
        t.push(s[i]);
        assert(t@ =~= s@.subrange(lo as int, i + 1));
    }
    t
}

/// Where the first ` - ` of the characters begins, looking from `from` on.
fn find_dash_at(s: &Vec<char>, from: usize) -> (r: Option<usize>)
    ensures
        match find_dash(s@, from as int) {
            Some(i) => r == Some(i as usize),
            None => r is None,
        },
    decreases s@.len() - from,
{
    if from >= s.len() || s.len() - from < 3 {
        None
    } else if s[from] == ' ' && s[from + 1] == '-' && s[from + 2] == ' ' {
        Some(from)
    } else {
        find_dash_at(s, from + 1)
    }
}

/// Reads a time from the part of a time field before its first ` - `.
fn parse_time_part(field: &Vec<char>) -> (r: Option<Timestamp>)
    ensures
        match parsed_datetime(trim(before_dash(field@))) {
            Some(p) => r == Some(timestamp_of(p)),
            None => r is None,
        },
{
    proof {
        lemma_find_dash_range(field@, 0);
    }
    let found = find_dash_at(field, 0);
    let end = match found {
        Some(i) => i,
        None => field.len(),
    };
    proof {
        match find_dash(field@, 0 as int) {
            Some(i) => {
                assert(0 <= i && i + 3 <= field@.len() == field.len());
            },
            None => {},
        }
    }
    let ghost expected = before_dash(field@);
    proof {
        match find_dash(field@, 0) {
            Some(i) => assert(end == i),
            None => assert(end == field@.len()),
        }
        assert(expected == field@.take(end as int) || (end == field@.len() && expected == field@));
    }
    let mut piece: Vec<char> = Vec::new();
    for j in 0..end
        invariant
            end <= field@.len(),
            piece@ == field@.take(j as int),
    {
        piece.push(field[j]);
        assert(piece@ =~= field@.take(j + 1));
    }
    assert(field@.take(field@.len() as int) =~= field@);
    assert(piece@ == before_dash(field@));
    let text = string_from_chars(&trim_chars(&piece));
    match parse_datetime(text.as_str()) {
        Some((secs, nanos)) => {
            let t = Timestamp::from_valid_parts(secs, nanos);
            proof {
                let p = (secs as int, nanos as int);
                let c = timestamp_of(p);
                assert(t.seconds() == p.0 && t.subsec() == p.1);
                crate::time::lemma_timestamp_parts(c, t);
            }
            Some(t)
        },
        None => None,
    }
}

/// What follows the first ` - ` of the characters.
fn after_dash(s: &Vec<char>, i: usize) -> (v: Vec<char>)
    requires
        i + 3 <= s@.len(),
    ensures
        v@ == s@.skip(i + 3),
{
    let mut v: Vec<char> = Vec::new();
    for j in i + 3..s.len()
        invariant
            i + 3 <= j <= s@.len(),
            v@ == s@.subrange(i + 3, j as int),
    {
        v.push(s[j]);
        assert(v@ =~= s@.subrange(i + 3, j + 1));
    }
    assert(v@ =~= s@.skip(i + 3));
    v
}

proof fn lemma_find_dash_range(s: Seq<char>, from: int)
    requires
        from >= 0,
    ensures
        find_dash(s, from) matches Some(i) ==> from <= i && i + 3 <= s.len(),
    decreases s.len() - from,
{
    if from + 3 <= s.len() && !(s[from] == ' ' && s[from + 1] == '-' && s[from + 2] == ' ') {
        lemma_find_dash_range(s, from + 1);
    }
}

impl Line {
    /// The line of the log with the given text and number, and the activity it holds.
    #[verifier::spinoff_prover]
    pub fn new(plaintext: &str, line_number: usize) -> (l: Line)
        ensures
            l.plaintext matches Some(p) && p@ == plaintext@,
            l.line_number == Some(line_number),
            !l.changed,
            activity_parsed(plaintext@, l.activity),
    {
        let chars = chars_of(plaintext);
        let fields = split_escaped(&chars);
        let ghost f = split_fields(plaintext@);
        assert(chars@ == plaintext@);
        let activity: Result<Activity, ActivityError> = if fields.len() < 2 {
            Err(ActivityError::GeneralParseError)
        } else {
            let time_field = &fields[0];
            match parse_time_part(time_field) {
                None => Err(ActivityError::DateTimeParseError),
                Some(start) => {
                    let project = string_from_chars(&trim_chars(&fields[1]));
                    let description = if fields.len() > 2 {
                        string_from_chars(&trim_chars(&fields[2]))
                    } else {
                        String::new()
                    };
                    proof {
                        lemma_find_dash_range(time_field@, 0);
                    }
                    match find_dash_at(time_field, 0) {
                        None => Ok(Activity { start, end: None, project, description }),
                        Some(i) => {
                            let rest = after_dash(time_field, i);
                            match parse_time_part(&rest) {
                                None => Err(ActivityError::DateTimeParseError),
                                Some(end) => Ok(Activity { start, end: Some(end), project, description }),
                            }
                        },
                    }
                },
            }
        };
        proof {
            if f.len() >= 2 {
                assert(fields@[0]@ == f[0]);
                assert(fields@[1]@ == f[1]);
                if f.len() > 2 {
                    assert(fields@[2]@ == f[2]);
                }
            }
        }
        Line { plaintext: Some(plaintext.to_owned()), line_number: Some(line_number), activity, changed: false }
    }
}

/// Fields joined into one text: each escaped, separated by `|`.
pub open spec fn join_escaped(fields: Seq<Seq<char>>) -> Seq<char>
    decreases fields.len(),
{
    if fields.len() <= 1 {
        if fields.len() == 1 {
            escape(fields[0])
        } else {
            Seq::empty()
        }
    } else {
        join_escaped(fields.drop_last()) + seq!['|'] + escape(fields.last())
    }
}

proof fn lemma_split_escaped_tail(s: Seq<char>, q: Seq<char>)
    requires
        !split_state(s).2,
    ensures
        split_state(s + escape(q)) == (split_state(s).0, split_state(s).1 + q, false),
    decreases q.len(),
{
    if q.len() == 0 {
        assert(s + escape(q) =~= s);
        assert(split_state(s).1 + q =~= split_state(s).1);
    } else {
        let front = q.drop_last();
        let c = q.last();
        lemma_split_escaped_tail(s, front);
        let t = s + escape(front);
        let st = split_state(t);
        assert(st == (split_state(s).0, split_state(s).1 + front, false));
        if c == '\\' || c == '|' {
            let t1 = t.push('\\');
            let t2 = t1.push(c);
            assert(s + escape(q) =~= t2);
            assert(t1.drop_last() =~= t);
            assert(t1.last() == '\\');
            assert(split_state(t1) == (st.0, st.1, true));
            assert(t2.drop_last() =~= t1);
            assert(t2.last() == c);
            assert(split_state(t2) == (st.0, st.1.push(c), false));
        } else {
            let t2 = t.push(c);
            assert(s + escape(q) =~= t2);
            assert(t2.drop_last() =~= t);
            assert(t2.last() == c);
            assert(split_state(t2) == (st.0, st.1.push(c), false));
        }
        assert(split_state(s).1 + front.push(c) =~= (split_state(s).1 + front).push(c));
        assert(front.push(c) =~= q);
    }
}

/// Escaping makes any texts separable: splitting the escaped texts joined
/// by `|` gives back the texts.
pub proof fn lemma_split_join(fields: Seq<Seq<char>>)
    requires
        fields.len() >= 1,
    ensures
        split_fields(join_escaped(fields)) == fields,
    decreases fields.len(),
{
    lemma_split_join_state(fields);
    assert(fields.drop_last().push(fields.last()) =~= fields);
}

proof fn lemma_split_join_state(fields: Seq<Seq<char>>)
    requires
        fields.len() >= 1,
    ensures
        split_state(join_escaped(fields)) == (fields.drop_last(), fields.last(), false),
    decreases fields.len(),
{
    if fields.len() == 1 {
        lemma_split_escaped_tail(Seq::empty(), fields[0]);
        assert(Seq::<char>::empty() + escape(fields[0]) =~= escape(fields[0]));
        assert(Seq::<char>::empty() + fields[0] =~= fields[0]);
        assert(fields.drop_last() =~= Seq::<Seq<char>>::empty());
    } else {
        let front = fields.drop_last();
        lemma_split_join_state(front);
        let head = join_escaped(front) + seq!['|'];
        assert(head.drop_last() =~= join_escaped(front));
        assert(split_state(head) == (front.drop_last().push(front.last()), Seq::<char>::empty(), false));
        assert(front.drop_last().push(front.last()) =~= front);
        lemma_split_escaped_tail(head, fields.last());
        assert(Seq::<char>::empty() + fields.last() =~= fields.last());
    }
}

/// Whether a text starts and ends with something other than white space.
pub open spec fn trimmed(s: Seq<char>) -> bool {
    s.len() == 0 || (!char_is_whitespace(s[0]) && !char_is_whitespace(s.last()))
}

/// Whether the text of a time can stand in a line of the log and be found
/// again: it is trimmed, not empty, holds neither `|` nor `\`, and holds no
/// ` - `, not even with a space after it.
pub open spec fn plain_time_text(text: Seq<char>) -> bool {
    &&& text.len() > 0
    &&& trimmed(text)
    &&& forall|i: int| 0 <= i < text.len() ==> #[trigger] text[i] != '|' && text[i] != '\\'
    &&& find_dash(text.push(' '), 0) is None
}

/// Whether a timestamp falls on a whole minute.
pub open spec fn whole_minute(t: Timestamp) -> bool {
    t.seconds() % 60 == 0 && t.subsec() == 0
}

/// A text with the shape of a date and time is plain enough to stand in a
/// line of the log and be found again.
pub proof fn lemma_shape_plain(s: Seq<char>)
    requires
        datetime_shape(s),
    ensures
        plain_time_text(s),
{
    let t = s.push(' ');
    assert forall|i: int| 0 <= i < s.len() implies #[trigger] s[i] != '|' && s[i] != '\\' by {
        assert(is_digit(s[i]) || s[i] == '+' || s[i] == '-' || s[i] == ':' || s[i] == ' ');
    }
    assert(s.last() == s[s.len() - 1]);
    lemma_find_dash_none(t, 0);
    assert forall|i: int| 0 <= i implies !#[trigger] dash_at(t, i) by {
        if dash_at(t, i) {
            assert(t[i] == s[i]);
            assert(t[i + 1] == s[i + 1]);
            assert(is_digit(s[i + 1]));
        }
    }
}

/// Whether ` - ` begins at position `i`.
pub open spec fn dash_at(s: Seq<char>, i: int) -> bool {
    0 <= i && i + 3 <= s.len() && s[i] == ' ' && s[i + 1] == '-' && s[i + 2] == ' '
}

proof fn lemma_find_dash_at(s: Seq<char>, from: int, j: int)
    requires
        0 <= from <= j,
        dash_at(s, j),
        forall|i: int| from <= i < j ==> !dash_at(s, i),
    ensures
        find_dash(s, from) == Some(j),
    decreases j - from,
{
    if from < j {
        assert(!dash_at(s, from));
        lemma_find_dash_at(s, from + 1, j);
    }
}

proof fn lemma_find_dash_none(s: Seq<char>, from: int)
    requires
        0 <= from,
    ensures
        find_dash(s, from) is None <==> forall|i: int| from <= i ==> !#[trigger] dash_at(s, i),
    decreases s.len() - from,
{
    if from + 3 <= s.len() {
        lemma_find_dash_none(s, from + 1);
        assert(dash_at(s, from) == (s[from] == ' ' && s[from + 1] == '-' && s[from + 2] == ' '));
        if find_dash(s, from) is None {
            assert(!dash_at(s, from));
            assert forall|i: int| from <= i implies !#[trigger] dash_at(s, i) by {
                if i > from {
                    assert(find_dash(s, from + 1) is None);
                }
            }
        }
        if forall|i: int| from <= i ==> !#[trigger] dash_at(s, i) {
            assert(!dash_at(s, from));
            assert forall|i: int| from + 1 <= i implies !#[trigger] dash_at(s, i) by {
                assert(from <= i);
            }
            assert(find_dash(s, from + 1) is None);
        }
    } else {
        assert forall|i: int| from <= i implies !#[trigger] dash_at(s, i) by {}
    }
}

proof fn lemma_escape_concat(a: Seq<char>, b: Seq<char>)
    ensures
        escape(a + b) == escape(a) + escape(b),
    decreases b.len(),
{
    if b.len() == 0 {
        assert(a + b =~= a);
        assert(escape(a) + escape(b) =~= escape(a));
    } else {
        lemma_escape_concat(a, b.drop_last());
        assert((a + b).drop_last() =~= a + b.drop_last());
        assert((a + b).last() == b.last());
        assert(escape(a) + escape(b.drop_last()) + escape_char(b.last()) =~= escape(a) + escape(b));
    }
}

proof fn lemma_escape_plain(a: Seq<char>)
    requires
        forall|i: int| 0 <= i < a.len() ==> #[trigger] a[i] != '|' && a[i] != '\\',
    ensures
        escape(a) == a,
    decreases a.len(),
{
    if a.len() > 0 {
        let front = a.drop_last();
        assert forall|i: int| 0 <= i < front.len() implies #[trigger] front[i] != '|' && front[i] != '\\' by {
            assert(front[i] == a[i]);
        }
        lemma_escape_plain(front);
        assert(a.last() == a[a.len() - 1]);
        assert(front.push(a.last()) =~= a);
    }
}

proof fn lemma_trim_padded(x: Seq<char>)
    requires
        trimmed(x),
    ensures
        trim(seq![' '] + x + seq![' ']) == x,
        trim(seq![' '] + x) == x,
        trim(x + seq![' ']) == x,
        trim(x) == x,
{
    let a = seq![' '] + x + seq![' '];
    assert(a.drop_first() =~= x + seq![' ']);
    let b = seq![' '] + x;
    assert(b.drop_first() =~= x);
    let c = x + seq![' '];
    assert(c.drop_last() =~= x);
    if x.len() == 0 {
        assert(c =~= seq![' ']);
        assert(c.drop_first() =~= Seq::<char>::empty());
        assert(trim_start(c) == trim_start(c.drop_first()));
        assert(trim_start(a) == trim_start(c));
        assert(trim_start(b) =~= Seq::<char>::empty());
    } else {
        assert(c[0] == x[0]);
        assert(trim_start(c) == c);
        assert(a[0] == ' ');
        assert(trim_start(a) == trim_start(a.drop_first()));
        assert(trim_start(a) == c);
        assert(b[0] == ' ');
        assert(trim_start(b) == trim_start(b.drop_first()));
        assert(trim_start(b) == x);
    }
    assert(c.last() == ' ');
    assert(trim_end(c) == trim_end(x));
}

/// Reading back the line of an activity gives the activity: when the texts
/// of its times are plain and read back as the same times, and its project
/// and description have no white space at either end.
pub proof fn lemma_activity_text_read_back(a: Activity)
    requires
        plain_time_text(timestamp_text(a.start)),
        parsed_datetime(timestamp_text(a.start)) == Some((a.start.seconds(), a.start.subsec())),
        a.end matches Some(e) ==> plain_time_text(timestamp_text(e)) && parsed_datetime(timestamp_text(e)) == Some(
            (e.seconds(), e.subsec()),
        ),
        trimmed(a.project@),
        trimmed(a.description@),
    ensures
        parse_activity(activity_text(a).drop_last()) == Ok::<(Timestamp, Option<Timestamp>, Seq<char>, Seq<char>), ActivityError>(
            (a.start, a.end, a.project@, a.description@),
        ),
{
    let ts = timestamp_text(a.start);
    let sp = seq![' '];
    let time_field: Seq<char> = match a.end {
        Some(e) => ts + seq![' ', '-', ' '] + timestamp_text(e) + sp,
        None => ts + sp,
    };
    let p = a.project@;
    let d = a.description@;
    let f1 = sp + p + sp;
    let f2 = sp + d;
    let fields = seq![time_field, f1, f2];
    // the line is its three fields, escaped and joined
    assert forall|i: int| 0 <= i < time_field.len() implies #[trigger] time_field[i] != '|' && time_field[i] != '\\' by {
        if i < ts.len() {
            assert(time_field[i] == ts[i]);
        } else {
            match a.end {
                Some(e) => {
                    let te = timestamp_text(e);
                    if ts.len() + 3 <= i < ts.len() + 3 + te.len() {
                        assert(time_field[i] == te[i - ts.len() - 3]);
                    }
                },
                None => {},
            }
        }
    }
    lemma_escape_plain(time_field);
    lemma_escape_plain(sp);
    lemma_escape_concat(sp, p);
    lemma_escape_concat(sp + p, sp);
    lemma_escape_concat(sp, d);
    assert(join_escaped(fields.take(1)) == escape(time_field)) by {
        assert(fields.take(1) =~= seq![time_field]);
    }
    assert(fields.take(2).drop_last() =~= fields.take(1));
    assert(fields.drop_last() =~= fields.take(2));
    let mid: Seq<char> = match a.end {
        Some(e) => seq![' ', '-', ' '] + timestamp_text(e),
        None => Seq::empty(),
    };
    let body = ts + mid + seq![' ', '|', ' '] + escape(p) + seq![' ', '|', ' '] + escape(d);
    assert(activity_text(a) =~= body + seq!['\n']);
    assert(activity_text(a).drop_last() =~= body);
    assert(time_field =~= ts + mid + sp);
    assert(escape(f1) == sp + escape(p) + sp);
    assert(escape(f2) == sp + escape(d));
    assert(fields.take(2).last() == f1);
    assert(join_escaped(fields.take(2)) == join_escaped(fields.take(1)) + seq!['|'] + escape(f1));
    assert(join_escaped(fields) == join_escaped(fields.take(2)) + seq!['|'] + escape(f2));
    assert(join_escaped(fields) =~= body);
    lemma_split_join(fields);
    // the fields, trimmed
    lemma_trim_padded(p);
    lemma_trim_padded(d);
    lemma_trim_padded(ts);
    let tsp = ts.push(' ');
    lemma_find_dash_none(tsp, 0);
    match a.end {
        Some(e) => {
            let te = timestamp_text(e);
            assert forall|i: int| 0 <= i < ts.len() implies !dash_at(time_field, i) by {
                if i + 3 <= ts.len() + 1 {
                    assert(!dash_at(tsp, i));
                    assert(time_field[i] == tsp[i] && time_field[i + 1] == tsp[i + 1]);
                    if i + 2 < ts.len() + 1 {
                        assert(time_field[i + 2] == tsp[i + 2]);
                    }
                } else {
                    assert(time_field[i] == ts[i]);
                    assert(ts[i] == ts.last());
                }
            }
            assert(dash_at(time_field, ts.len() as int));
            lemma_find_dash_at(time_field, 0, ts.len() as int);
            assert(before_dash(time_field) =~= ts);
            let rest = time_field.skip(ts.len() as int + 3);
            assert(rest =~= te.push(' '));
            lemma_find_dash_none(te.push(' '), 0);
            assert(before_dash(rest) == rest);
            lemma_trim_padded(te);
            assert(rest =~= te + seq![' ']);
            assert(trim(before_dash(rest)) == te);
            assert(trim(before_dash(time_field)) == ts);
            crate::time::lemma_timestamp_parts(timestamp_of((e.seconds(), e.subsec())), e);
        },
        None => {
            assert(time_field =~= tsp);
            assert(before_dash(time_field) == time_field);
            assert(trim(before_dash(time_field)) == ts);
        },
    }
    crate::time::lemma_timestamp_parts(timestamp_of((a.start.seconds(), a.start.subsec())), a.start);
    let text = activity_text(a).drop_last();
    assert(split_fields(text) == fields);
    assert(split_fields(text)[0] == time_field);
    assert(trim(split_fields(text)[1]) == p);
    assert(trim(split_fields(text)[2]) == d);
}

} // verus!
