//! The lines of the history file: one command each, with the time, the session and the
//! directory in which it was entered. Lines without such a prefix are plain commands.
use vstd::prelude::*;

use crate::text::{
    chars_of, decimal, decimal_of, find_char, index_from, law_decimal_parses, law_decimal_value,
    matches_at, parse_u64, push_all, push_str, spec_is_digit, starts_with, string_of, substring,
    u64_value,
};

verus! {

pub open spec fn record_prefix() -> Seq<char> {
    ":ish-history:v1\t"@
}

pub open spec fn record_prefix_v2() -> Seq<char> {
    ":ish-history:v2\t"@
}

/// A line of the history file.
#[derive(Debug)]
pub struct ParsedHistoryLine {
    pub command: String,
    pub timestamp: u64,
    /// Zero where it is unknown.
    pub session_id: u64,
    pub cwd: Option<String>,
}

#[verifier::ext_equal]
pub struct ParsedView {
    pub command: Seq<char>,
    pub timestamp: u64,
    pub session_id: u64,
    pub cwd: Option<Seq<char>>,
}

pub open spec fn opt_view(s: Option<String>) -> Option<Seq<char>> {
    match s {
        Some(t) => Some(t@),
        None => None,
    }
}

impl View for ParsedHistoryLine {
    type V = ParsedView;

    open spec fn view(&self) -> ParsedView {
        ParsedView {
            command: self.command@,
            timestamp: self.timestamp,
            session_id: self.session_id,
            cwd: opt_view(self.cwd),
        }
    }
}

// -- Fields --

/// A character as it stands in a field.
pub open spec fn escaped_char(c: char) -> Seq<char> {
    if c == '\\' {
        seq!['\\', '\\']
    } else if c == '\t' {
        seq!['\\', 't']
    } else if c == '\n' {
        seq!['\\', 'n']
    } else if c == '\r' {
        seq!['\\', 'r']
    } else {
        seq![c]
    }
}

/// `s` from `i` on as it stands in a field.
pub open spec fn escaped_from(s: Seq<char>, i: int) -> Seq<char>
    decreases s.len() - i,
{
    if i < 0 || i >= s.len() {
        Seq::empty()
    } else {
        escaped_char(s[i]) + escaped_from(s, i + 1)
    }
}

/// The character that a backslash and `c` stand for.
pub open spec fn unescaped_char(c: char) -> Option<char> {
    if c == '\\' {
        Some('\\')
    } else if c == 't' {
        Some('\t')
    } else if c == 'n' {
        Some('\n')
    } else if c == 'r' {
        Some('\r')
    } else {
        None
    }
}

/// What a field from `i` on stands for, if it is well-formed.
pub open spec fn unescaped_from(s: Seq<char>, i: int) -> Option<Seq<char>>
    decreases s.len() - i,
{
    if i < 0 || i >= s.len() {
        Some(Seq::empty())
    } else if s[i] != '\\' {
        match unescaped_from(s, i + 1) {
            Some(rest) => Some(seq![s[i]] + rest),
            None => None,
        }
    } else if i + 1 < s.len() && unescaped_char(s[i + 1]) is Some {
        match unescaped_from(s, i + 2) {
            Some(rest) => Some(seq![unescaped_char(s[i + 1])->0] + rest),
            None => None,
        }
    } else {
        None
    }
}

pub fn escape_history_field(field: &str) -> (r: String)
    ensures
        r@ == escaped_from(field@, 0),
{
    let s = chars_of(field);
    let mut out: Vec<char> = Vec::new();
    let mut i: usize = 0;
    assert(out@ + escaped_from(s@, 0) =~= escaped_from(s@, 0));
    while i < s.len()
        invariant
            i <= s.len(),
            s@ == field@,
            escaped_from(s@, 0) == out@ + escaped_from(s@, i as int),
        decreases s.len() - i,
    {
        let ghost had = out@;
        let c = s[i];
        if c == '\\' {
            out.push('\\');
            out.push('\\');
        } else if c == '\t' {
            out.push('\\');
            out.push('t');
        } else if c == '\n' {
            out.push('\\');
            out.push('n');
        } else if c == '\r' {
            out.push('\\');
            out.push('r');
        } else {
            out.push(c);
        }
        assert(out@ =~= had + escaped_char(c));
        assert(had + (escaped_char(c) + escaped_from(s@, i + 1)) =~= out@ + escaped_from(
            s@,
            i + 1,
        ));
        i += 1;
    }
    assert(out@ + escaped_from(s@, i as int) =~= out@);
    string_of(out.as_slice())
}

pub fn unescape_history_field(field: &str) -> (r: Option<String>)
    ensures
        opt_view(r) == unescaped_from(field@, 0),
{
    let s = chars_of(field);
    let mut out: Vec<char> = Vec::new();
    let mut i: usize = 0;
    proof {
        if let Some(all) = unescaped_from(s@, 0) {
            assert(out@ + all =~= all);
        }
    }
    while i < s.len()
        invariant
            i <= s.len(),
            s@ == field@,
            unescaped_from(s@, 0) == match unescaped_from(s@, i as int) {
                Some(rest) => Some(out@ + rest),
                None => None,
            },
        decreases s.len() - i,
    {
        let ghost had = out@;
        let c = s[i];
        if c != '\\' {
            out.push(c);
            i += 1;
            proof {
                if let Some(rest) = unescaped_from(s@, i as int) {
                    assert(had + (seq![c] + rest) =~= out@ + rest);
                }
            }
            continue;
        }
        if i + 1 >= s.len() {
            return None;
        }
        let d = s[i + 1];
        let x = if d == '\\' {
            '\\'
        } else if d == 't' {
            '\t'
        } else if d == 'n' {
            '\n'
        } else if d == 'r' {
            '\r'
        } else {
            return None;
        };
        out.push(x);
        i += 2;
        proof {
            if let Some(rest) = unescaped_from(s@, i as int) {
                assert(had + (seq![x] + rest) =~= out@ + rest);
            }
        }
    }
    assert(out@ + Seq::<char>::empty() =~= out@);
    Some(string_of(out.as_slice()))
}

/// Unescaping an escaped field gives the field back.
pub proof fn law_field_round_trip(s: Seq<char>, i: int)
    requires
        0 <= i <= s.len(),
    ensures
        unescaped_from(escaped_from(s, i), 0) == Some(s.skip(i)),
    decreases s.len() - i,
{
    if i == s.len() {
        assert(s.skip(i) =~= Seq::<char>::empty());
    } else {
        law_field_round_trip(s, i + 1);
        let head = escaped_char(s[i]);
        let rest = escaped_from(s, i + 1);
        lemma_unescaped_shift(head, rest, 0);
        let all = head + rest;
        assert(all[0] == head[0]);
        if head.len() == 2 {
            assert(all[1] == head[1]);
        }
        assert(seq![s[i]] + s.skip(i + 1) =~= s.skip(i));
    }
}

proof fn lemma_unescaped_shift(head: Seq<char>, rest: Seq<char>, i: int)
    requires
        0 <= i <= rest.len(),
    ensures
        unescaped_from(head + rest, head.len() + i) == unescaped_from(rest, i),
    decreases rest.len() - i,
{
    let all = head + rest;
    if i < rest.len() {
        assert(all[head.len() + i] == rest[i]);
        lemma_unescaped_shift(head, rest, i + 1);
        if i + 1 < rest.len() {
            assert(all[head.len() + i + 1] == rest[i + 1]);
            lemma_unescaped_shift(head, rest, i + 2);
        }
    }
}

// -- Records --

/// The record of a command whose directory is known.
pub open spec fn record_v2(rest: Seq<char>) -> Option<ParsedView> {
    let a = index_from(rest, '\t', 0);
    let b = index_from(rest, '\t', a + 1);
    let c = index_from(rest, '\t', b + 1);
    if a < rest.len() && b < rest.len() && c < rest.len() && c + 1 < rest.len() && u64_value(
        rest.take(a),
    ) is Some && u64_value(rest.subrange(a + 1, b)) is Some {
        Some(
            ParsedView {
                command: rest.skip(c + 1),
                timestamp: u64_value(rest.take(a))->0,
                session_id: u64_value(rest.subrange(a + 1, b))->0,
                cwd: unescaped_from(rest.subrange(b + 1, c), 0),
            },
        )
    } else {
        None
    }
}

/// The record of a command whose directory is not known.
pub open spec fn record_v1(rest: Seq<char>) -> Option<ParsedView> {
    let a = index_from(rest, '\t', 0);
    let b = index_from(rest, '\t', a + 1);
    if a < rest.len() && b < rest.len() && b + 1 < rest.len() && u64_value(rest.take(a)) is Some
        && u64_value(rest.subrange(a + 1, b)) is Some {
        Some(
            ParsedView {
                command: rest.skip(b + 1),
                timestamp: u64_value(rest.take(a))->0,
                session_id: u64_value(rest.subrange(a + 1, b))->0,
                cwd: None,
            },
        )
    } else {
        None
    }
}

/// What a line of the history file says; a line that is no record is a command.
pub open spec fn parsed_line(line: Seq<char>, fallback_ts: u64) -> Option<ParsedView> {
    if line.len() == 0 {
        None
    } else if starts_with(line, record_prefix_v2()) && record_v2(
        line.skip(record_prefix_v2().len() as int),
    ) is Some {
        record_v2(line.skip(record_prefix_v2().len() as int))
    } else if starts_with(line, record_prefix()) && record_v1(
        line.skip(record_prefix().len() as int),
    ) is Some {
        record_v1(line.skip(record_prefix().len() as int))
    } else {
        Some(
            ParsedView { command: line, timestamp: fallback_ts, session_id: 0, cwd: None },
        )
    }
}

fn parse_record_v2(rest: &Vec<char>) -> (r: Option<ParsedHistoryLine>)
    ensures
        match record_v2(rest@) {
            Some(v) => r matches Some(p) && p@ == v,
            None => r is None,
        },
{
    let n = rest.len();
    let a = find_char(rest, '\t', 0);
    if a >= n {
        return None;
    }
    let b = find_char(rest, '\t', a + 1);
    if b >= n {
        return None;
    }
    let c = find_char(rest, '\t', b + 1);
    if c >= n || c + 1 >= n {
        return None;
    }
    let ts = substring(rest, 0, a);
    assert(ts@ =~= rest@.take(a as int));
    let command = substring(rest, c + 1, n);
    assert(command@ =~= rest@.skip(c + 1));
    match (parse_u64(ts.as_str()), parse_u64(substring(rest, a + 1, b).as_str())) {
        (Some(timestamp), Some(session_id)) => {
            let cwd = unescape_history_field(substring(rest, b + 1, c).as_str());
            Some(ParsedHistoryLine { command, timestamp, session_id, cwd })
        },
        _ => None,
    }
}

fn parse_record_v1(rest: &Vec<char>) -> (r: Option<ParsedHistoryLine>)
    ensures
        match record_v1(rest@) {
            Some(v) => r matches Some(p) && p@ == v,
            None => r is None,
        },
{
    let n = rest.len();
    let a = find_char(rest, '\t', 0);
    if a >= n {
        return None;
    }
    let b = find_char(rest, '\t', a + 1);
    if b >= n || b + 1 >= n {
        return None;
    }
    let ts = substring(rest, 0, a);
    assert(ts@ =~= rest@.take(a as int));
    let command = substring(rest, b + 1, n);
    assert(command@ =~= rest@.skip(b + 1));
    match (parse_u64(ts.as_str()), parse_u64(substring(rest, a + 1, b).as_str())) {
        (Some(timestamp), Some(session_id)) => Some(
            ParsedHistoryLine { command, timestamp, session_id, cwd: None },
        ),
        _ => None,
    }
}

/// Parses a line of the history file.
pub fn parse_history_line(line: &str, fallback_ts: u64) -> (r: Option<ParsedHistoryLine>)
    ensures
        match parsed_line(line@, fallback_ts) {
            Some(v) => r matches Some(p) && p@ == v,
            None => r is None,
        },
{
    let v = chars_of(line);
    if v.len() == 0 {
        return None;
    }
    let p2 = chars_of(":ish-history:v2\t");
    if matches_at(&v, &p2, 0) {
        let rest = chars_of(substring(&v, p2.len(), v.len()).as_str());
        assert(rest@ =~= line@.skip(p2@.len() as int));
        let r = parse_record_v2(&rest);
        if r.is_some() {
            return r;
        }
    }
    let p1 = chars_of(":ish-history:v1\t");
    if matches_at(&v, &p1, 0) {
        let rest = chars_of(substring(&v, p1.len(), v.len()).as_str());
        assert(rest@ =~= line@.skip(p1@.len() as int));
        let r = parse_record_v1(&rest);
        if r.is_some() {
            return r;
        }
    }
    Some(
        ParsedHistoryLine {
            command: line.to_owned(),
            timestamp: fallback_ts,
            session_id: 0,
            cwd: None,
        },
    )
}

/// The record of a command whose directory is not known.
pub open spec fn formatted(timestamp: u64, session_id: u64, command: Seq<char>) -> Seq<char> {
    record_prefix() + (decimal(timestamp as nat) + (seq!['\t'] + (decimal(session_id as nat) + (
    seq!['\t'] + command))))
}

/// The record of a command whose directory is known.
pub open spec fn formatted_with_cwd(
    timestamp: u64,
    session_id: u64,
    cwd: Seq<char>,
    command: Seq<char>,
) -> Seq<char> {
    record_prefix_v2() + (decimal(timestamp as nat) + (seq!['\t'] + (decimal(session_id as nat) + (
    seq!['\t'] + (escaped_from(cwd, 0) + (seq!['\t'] + command))))))
}

pub fn format_history_record(timestamp: u64, session_id: u64, command: &str) -> (r: String)
    ensures
        r@ == formatted(timestamp, session_id, command@),
{
    let mut v = chars_of(":ish-history:v1\t");
    push_all(&mut v, decimal_of(timestamp).as_slice());
    v.push('\t');
    push_all(&mut v, decimal_of(session_id).as_slice());
    v.push('\t');
    push_str(&mut v, command);
    assert(v@ =~= formatted(timestamp, session_id, command@));
    string_of(v.as_slice())
}

pub fn format_history_record_with_cwd(
    timestamp: u64,
    session_id: u64,
    cwd: &str,
    command: &str,
) -> (r: String)
    ensures
        r@ == formatted_with_cwd(timestamp, session_id, cwd@, command@),
{
    let mut v = chars_of(":ish-history:v2\t");
    push_all(&mut v, decimal_of(timestamp).as_slice());
    v.push('\t');
    push_all(&mut v, decimal_of(session_id).as_slice());
    v.push('\t');
    push_str(&mut v, escape_history_field(cwd).as_str());
    v.push('\t');
    push_str(&mut v, command);
    assert(v@ =~= formatted_with_cwd(timestamp, session_id, cwd@, command@));
    string_of(v.as_slice())
}

/// The record of a command, as it is appended to the history file.
pub open spec fn record_of(
    timestamp: u64,
    session_id: u64,
    cwd: Option<Seq<char>>,
    command: Seq<char>,
) -> Seq<char> {
    match cwd {
        Some(d) => formatted_with_cwd(timestamp, session_id, d, command),
        None => formatted(timestamp, session_id, command),
    }
}

pub fn format_record(
    timestamp: u64,
    session_id: u64,
    cwd: &Option<String>,
    command: &str,
) -> (r: String)
    ensures
        r@ == record_of(timestamp, session_id, opt_view(*cwd), command@),
{
    match cwd {
        Some(d) => format_history_record_with_cwd(timestamp, session_id, d.as_str(), command),
        None => format_history_record(timestamp, session_id, command),
    }
}

// -- Laws --

proof fn lemma_index_after(head: Seq<char>, tail: Seq<char>, from: int)
    requires
        0 <= from <= head.len(),
        forall|k: int| from <= k < head.len() ==> head[k] != '\t',
    ensures
        index_from(head + (seq!['\t'] + tail), '\t', from) == head.len(),
    decreases head.len() - from,
{
    let all = head + (seq!['\t'] + tail);
    if from < head.len() {
        assert(all[from] == head[from]);
        lemma_index_after(head, tail, from + 1);
    } else {
        assert(all[from] == '\t');
    }
}

proof fn lemma_decimal_no_tab(n: nat)
    ensures
        forall|k: int| 0 <= k < decimal(n).len() ==> decimal(n)[k] != '\t' && decimal(n)[k] != '\n',
{
    law_decimal_value(n);
    assert forall|k: int| 0 <= k < decimal(n).len() implies decimal(n)[k] != '\t' && decimal(n)[k]
        != '\n' by {
        assert(spec_is_digit(decimal(n)[k]));
    }
}

proof fn lemma_escaped_no_tab(s: Seq<char>, i: int)
    requires
        0 <= i <= s.len(),
    ensures
        forall|k: int|
            0 <= k < escaped_from(s, i).len() ==> escaped_from(s, i)[k] != '\t' && escaped_from(
                s,
                i,
            )[k] != '\n',
    decreases s.len() - i,
{
    if i < s.len() {
        lemma_escaped_no_tab(s, i + 1);
        let head = escaped_char(s[i]);
        let rest = escaped_from(s, i + 1);
        assert forall|k: int| 0 <= k < (head + rest).len() implies (head + rest)[k] != '\t' && (head
            + rest)[k] != '\n' by {
            if k >= head.len() {
                assert((head + rest)[k] == rest[k - head.len()]);
            } else {
                assert((head + rest)[k] == head[k]);
            }
        }
    }
}

proof fn lemma_record_v1(timestamp: u64, session_id: u64, command: Seq<char>)
    requires
        command.len() > 0,
    ensures
        record_v1(
            decimal(timestamp as nat) + (seq!['\t'] + (decimal(session_id as nat) + (seq!['\t']
                + command))),
        ) == Some(ParsedView { command, timestamp, session_id, cwd: None }),
{
    let ts = decimal(timestamp as nat);
    let sid = decimal(session_id as nat);
    law_decimal_parses(timestamp);
    law_decimal_parses(session_id);
    lemma_decimal_no_tab(timestamp as nat);
    lemma_decimal_no_tab(session_id as nat);
    let tail = sid + (seq!['\t'] + command);
    let rest = ts + (seq!['\t'] + tail);
    lemma_index_after(ts, tail, 0);
    let a = ts.len() as int;
    assert(rest.take(a) =~= ts);
    let head = ts + seq!['\t'] + sid;
    assert(rest =~= head + (seq!['\t'] + command));
    lemma_index_after(head, command, a + 1);
    let b = head.len() as int;
    assert(rest.subrange(a + 1, b) =~= sid);
    assert(rest.skip(b + 1) =~= command);
}

proof fn lemma_record_v2(timestamp: u64, session_id: u64, cwd: Seq<char>, command: Seq<char>)
    requires
        command.len() > 0,
    ensures
        record_v2(
            decimal(timestamp as nat) + (seq!['\t'] + (decimal(session_id as nat) + (seq!['\t'] + (
            escaped_from(cwd, 0) + (seq!['\t'] + command))))),
        ) == Some(ParsedView { command, timestamp, session_id, cwd: Some(cwd) }),
{
    let ts = decimal(timestamp as nat);
    let sid = decimal(session_id as nat);
    let esc = escaped_from(cwd, 0);
    law_decimal_parses(timestamp);
    law_decimal_parses(session_id);
    lemma_decimal_no_tab(timestamp as nat);
    lemma_decimal_no_tab(session_id as nat);
    lemma_escaped_no_tab(cwd, 0);
    law_field_round_trip(cwd, 0);
    assert(cwd.skip(0) =~= cwd);
    let tail2 = esc + (seq!['\t'] + command);
    let tail = sid + (seq!['\t'] + tail2);
    let rest = ts + (seq!['\t'] + tail);
    let a = ts.len() as int;
    assert(index_from(rest, '\t', 0) == a) by {
        lemma_index_after(ts, tail, 0);
    }
    assert(rest.take(a) =~= ts);
    let head = ts + seq!['\t'] + sid;
    let b = head.len() as int;
    assert(index_from(rest, '\t', a + 1) == b) by {
        assert(rest =~= head + (seq!['\t'] + tail2));
        lemma_index_after(head, tail2, a + 1);
    }
    assert(rest.subrange(a + 1, b) =~= sid);
    let head2 = head + seq!['\t'] + esc;
    let c = head2.len() as int;
    assert(index_from(rest, '\t', b + 1) == c) by {
        assert(rest =~= head2 + (seq!['\t'] + command));
        lemma_index_after(head2, command, b + 1);
    }
    assert(rest.subrange(b + 1, c) =~= esc);
    assert(rest.skip(c + 1) =~= command);
}

/// Reading a record gives back what was written in it.
pub proof fn law_record_round_trip(
    timestamp: u64,
    session_id: u64,
    cwd: Option<Seq<char>>,
    command: Seq<char>,
    fallback_ts: u64,
)
    requires
        command.len() > 0,
    ensures
        parsed_line(record_of(timestamp, session_id, cwd, command), fallback_ts) == Some(
            ParsedView { command, timestamp, session_id, cwd },
        ),
{
    let line = record_of(timestamp, session_id, cwd, command);
    match cwd {
        None => {
            let p = record_prefix();
            lemma_record_v1(timestamp, session_id, command);
            let rest = decimal(timestamp as nat) + (seq!['\t'] + (decimal(session_id as nat) + (
            seq!['\t'] + command)));
            assert(line == p + rest);
            assert(line.skip(p.len() as int) =~= rest);
            assert(line.subrange(0, p.len() as int) =~= p);
            lemma_prefixes_differ(line);
        },
        Some(d) => {
            let p = record_prefix_v2();
            lemma_record_v2(timestamp, session_id, d, command);
            let rest = decimal(timestamp as nat) + (seq!['\t'] + (decimal(session_id as nat) + (
            seq!['\t'] + (escaped_from(d, 0) + (seq!['\t'] + command)))));
            assert(line == p + rest);
            assert(line.skip(p.len() as int) =~= rest);
            assert(line.subrange(0, p.len() as int) =~= p);
            lemma_prefixes_differ(line);
        },
    }
}

proof fn lemma_prefixes_differ(line: Seq<char>)
    ensures
        starts_with(line, record_prefix()) ==> !starts_with(line, record_prefix_v2()),
        record_prefix().len() > 0,
        record_prefix_v2().len() > 0,
{
    reveal_strlit(":ish-history:v1\t");
    reveal_strlit(":ish-history:v2\t");
    if starts_with(line, record_prefix()) && starts_with(line, record_prefix_v2()) {
        assert(line.subrange(0, 16)[14] == record_prefix()[14]);
        assert(line.subrange(0, 16)[14] == record_prefix_v2()[14]);
    }
}

proof fn lemma_no_newline(a: Seq<char>, b: Seq<char>)
    requires
        !a.contains('\n'),
        !b.contains('\n'),
    ensures
        !(a + b).contains('\n'),
{
    if (a + b).contains('\n') {
        let k = (a + b).index_of('\n');
        if k < a.len() {
            assert(a[k] == '\n');
        } else {
            assert(b[k - a.len()] == '\n');
        }
    }
}

/// The record of a command of one line is one line, whatever its directory is called.
pub proof fn law_record_is_one_line(
    timestamp: u64,
    session_id: u64,
    cwd: Option<Seq<char>>,
    command: Seq<char>,
)
    requires
        !command.contains('\n'),
    ensures
        !record_of(timestamp, session_id, cwd, command).contains('\n'),
{
    let ts = decimal(timestamp as nat);
    let sid = decimal(session_id as nat);
    let tab = seq!['\t'];
    lemma_decimal_no_tab(timestamp as nat);
    lemma_decimal_no_tab(session_id as nat);
    lemma_no_newline(tab, command);
    reveal_strlit(":ish-history:v1\t");
    reveal_strlit(":ish-history:v2\t");
    match cwd {
        None => {
            lemma_no_newline(sid, tab + command);
            lemma_no_newline(tab, sid + (tab + command));
            lemma_no_newline(ts, tab + (sid + (tab + command)));
            lemma_no_newline(record_prefix(), ts + (tab + (sid + (tab + command))));
        },
        Some(d) => {
            lemma_escaped_no_tab(d, 0);
            let esc = escaped_from(d, 0);
            let rest = tab + (esc + (tab + command));
            lemma_no_newline(esc, tab + command);
            lemma_no_newline(tab, esc + (tab + command));
            lemma_no_newline(sid, rest);
            lemma_no_newline(tab, sid + rest);
            lemma_no_newline(ts, tab + (sid + rest));
            lemma_no_newline(record_prefix_v2(), ts + (tab + (sid + rest)));
        },
    }
}

} // verus!
