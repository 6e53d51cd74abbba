//! Environments of directories: which `.envrc` and `.env` hold where, what is remembered of what
//! they changed, and what each step of loading and leaving them does.
//!
//! The caller looks at files and variables, runs `.envrc`, and applies the changes.
use vstd::prelude::*;
use vstd::utf8::encode_utf8;

use crate::builtin::text3;
use crate::dirs::{is_within, join_path, joined_path, within};
use crate::env_changes::{
    applied, apply_diff, captured, change_views, diff_changes, last_change, law_restore_undoes,
    lemma_applied, opt_views, set_keys, value_in, values_in, ChangeView,
};
pub use crate::env_changes::EnvChange;
use crate::env_files::{pair_views, DiffView, EnvDiff};
use crate::text::{
    all_digits, chars_of, decimal, decimal_of, find_char, has_char, has_prefix_str,
    head_of, index_from, join_strings, joined, law_decimal_parses, law_decimal_value,
    lemma_index_from, lines, lines_from, lines_of, parse_u64, push_all, push_str,
    spec_is_digit, starts_with, str_eq, string_of, strs, tail_of, trim_of, trimmed, u64_value,
};
use crate::utf8_bytes::law_text_round_trip;

verus! {

// -- Splitting --

/// The text before and behind the first `c`.
pub open spec fn split_once(s: Seq<char>, c: char) -> Option<(Seq<char>, Seq<char>)> {
    let k = index_from(s, c, 0);
    if k < s.len() {
        Some((s.take(k), s.skip(k + 1)))
    } else {
        None
    }
}

fn split_at_first(s: &Vec<char>, c: char) -> (r: Option<(Vec<char>, Vec<char>)>)
    ensures
        match (r, split_once(s@, c)) {
            (Some(p), Some(q)) => p.0@ == q.0 && p.1@ == q.1,
            (None, None) => true,
            _ => false,
        },
{
    let k = find_char(s, c, 0);
    if k < s.len() {
        Some((head_of(s, k), tail_of(s, k + 1)))
    } else {
        None
    }
}

proof fn lemma_split_once(a: Seq<char>, c: char, b: Seq<char>)
    requires
        !a.contains(c),
    ensures
        split_once(a + seq![c] + b, c) == Some((a, b)),
{
    let s = a + seq![c] + b;
    lemma_index_from(s, c, 0);
    let k = index_from(s, c, 0);
    let n = a.len() as int;
    assert(s[n] == c);
    if k > n {
        assert(s[n] != c);
    }
    if k < n {
        assert(s[k] == a[k]);
        assert(a.contains(c));
    }
    assert(s.take(n) =~= a);
    assert(s.skip(n + 1) =~= b);
}

proof fn lemma_decimal_lacks(n: nat, c: char)
    requires
        c == ' ' || c == '\n' || c == '\r',
    ensures
        !decimal(n).contains(c),
{
    law_decimal_value(n);
    if decimal(n).contains(c) {
        let i = choose|i: int| 0 <= i < decimal(n).len() && decimal(n)[i] == c;
        assert(spec_is_digit(decimal(n)[i]));
    }
}

// -- The state variable --

/// What the state variable says: two modification times and a directory, with spaces between.
pub open spec fn parsed_state(s: Seq<char>) -> Option<(u64, u64, Seq<char>)> {
    match split_once(s, ' ') {
        None => None,
        Some((first, rest)) => match split_once(rest, ' ') {
            None => None,
            Some((second, dir)) => match (u64_value(first), u64_value(second)) {
                (Some(a), Some(b)) => Some((a, b, dir)),
                _ => None,
            },
        },
    }
}

/// Reads the state variable.
pub fn parse_denv_state(s: &str) -> (r: Option<(u64, u64, String)>)
    ensures
        match (r, parsed_state(s@)) {
            (Some(p), Some(q)) => p.0 == q.0 && p.1 == q.1 && p.2@ == q.2,
            (None, None) => true,
            _ => false,
        },
{
    let v = chars_of(s);
    match split_at_first(&v, ' ') {
        None => None,
        Some((first, rest)) => match split_at_first(&rest, ' ') {
            None => None,
            Some((second, dir)) => {
                let a = parse_u64(string_of(first.as_slice()).as_str());
                let b = parse_u64(string_of(second.as_slice()).as_str());
                match (a, b) {
                    (Some(x), Some(y)) => Some((x, y, string_of(dir.as_slice()))),
                    _ => None,
                }
            },
        },
    }
}

pub open spec fn state_text(envrc: u64, dotenv: u64, dir: Seq<char>) -> Seq<char> {
    decimal(envrc as nat) + seq![' '] + (decimal(dotenv as nat) + seq![' '] + dir)
}

fn format_state(envrc: u64, dotenv: u64, dir: &str) -> (r: String)
    ensures
        r@ == state_text(envrc, dotenv, dir@),
{
    let mut out = decimal_of(envrc);
    out.push(' ');
    let second = decimal_of(dotenv);
    push_all(&mut out, second.as_slice());
    out.push(' ');
    push_str(&mut out, dir);
    assert(out@ =~= state_text(envrc, dotenv, dir@));
    string_of(out.as_slice())
}

/// Reading the state variable gives back what was written to it.
pub proof fn law_state_round_trip(envrc: u64, dotenv: u64, dir: Seq<char>)
    ensures
        parsed_state(state_text(envrc, dotenv, dir)) == Some((envrc, dotenv, dir)),
{
    lemma_decimal_lacks(envrc as nat, ' ');
    lemma_decimal_lacks(dotenv as nat, ' ');
    law_decimal_parses(envrc);
    law_decimal_parses(dotenv);
    lemma_split_once(decimal(envrc as nat), ' ', decimal(dotenv as nat) + seq![' '] + dir);
    lemma_split_once(decimal(dotenv as nat), ' ', dir);
}

// -- Escaped newlines --

/// The characters that stand for a character on a line.
pub open spec fn escaped_char(c: char) -> Seq<char> {
    if c == '\\' {
        seq!['\\', '\\']
    } else if c == '\n' {
        seq!['\\', 'n']
    } else {
        seq![c]
    }
}

pub open spec fn escaped_from(s: Seq<char>, i: int) -> Seq<char>
    decreases s.len() - i,
{
    if i >= s.len() {
        Seq::empty()
    } else {
        escaped_char(s[i]) + escaped_from(s, i + 1)
    }
}

pub open spec fn escaped(s: Seq<char>) -> Seq<char> {
    escaped_from(s, 0)
}

/// Writes a text on one line.
pub fn escape_newlines(s: &str) -> (r: String)
    ensures
        r@ == escaped(s@),
{
    let v = chars_of(s);
    let mut out: Vec<char> = Vec::new();
    let mut i: usize = 0;
    assert(out@ + escaped_from(v@, 0) =~= escaped(v@));
    while i < v.len()
        invariant
            i <= v.len(),
            out@ + escaped_from(v@, i as int) == escaped(v@),
        decreases v.len() - i,
    {
        let ghost had = out@;
        let c = v[i];
        if c == '\\' {
            out.push('\\');
            out.push('\\');
        } else if c == '\n' {
            out.push('\\');
            out.push('n');
        } else {
            out.push(c);
        }
        assert(out@ =~= had + escaped_char(c));
        assert(had + (escaped_char(c) + escaped_from(v@, i + 1)) =~= (had + escaped_char(c))
            + escaped_from(v@, i + 1));
        i += 1;
    }
    assert(out@ + escaped_from(v@, i as int) =~= out@);
    string_of(out.as_slice())
}

pub open spec fn unescaped_from(s: Seq<char>, i: int) -> Seq<char>
    decreases s.len() - i,
{
    if i >= s.len() {
        Seq::empty()
    } else if s[i] != '\\' {
        seq![s[i]] + unescaped_from(s, i + 1)
    } else if i + 1 >= s.len() {
        seq!['\\']
    } else if s[i + 1] == 'n' {
        seq!['\n'] + unescaped_from(s, i + 2)
    } else if s[i + 1] == '\\' {
        seq!['\\'] + unescaped_from(s, i + 2)
    } else {
        seq!['\\', s[i + 1]] + unescaped_from(s, i + 2)
    }
}

pub open spec fn unescaped(s: Seq<char>) -> Seq<char> {
    unescaped_from(s, 0)
}

/// Reads a text that was written on one line. A backslash before any other character, or at the
/// end, stands for itself.
pub fn unescape_newlines(s: &str) -> (r: String)
    ensures
        r@ == unescaped(s@),
{
    let v = chars_of(s);
    let out = unescape_chars(&v);
    string_of(out.as_slice())
}

fn unescape_chars(v: &Vec<char>) -> (out: Vec<char>)
    ensures
        out@ == unescaped(v@),
{
    let mut out: Vec<char> = Vec::new();
    let mut i: usize = 0;
    assert(out@ + unescaped_from(v@, 0) =~= unescaped(v@));
    while i < v.len()
        invariant
            i <= v.len(),
            out@ + unescaped_from(v@, i as int) == unescaped(v@),
        decreases v.len() - i,
    {
        let ghost had = out@;
        let ghost from = i as int;
        let c = v[i];
        let ghost piece: Seq<char>;
        if c != '\\' {
            out.push(c);
            proof {
                piece = seq![c];
            }
            i += 1;
        } else if i + 1 >= v.len() {
            out.push('\\');
            proof {
                piece = seq!['\\'];
            }
            i += 1;
        } else {
            let d = v[i + 1];
            if d == 'n' {
                out.push('\n');
                proof {
                    piece = seq!['\n'];
                }
            } else if d == '\\' {
                out.push('\\');
                proof {
                    piece = seq!['\\'];
                }
            } else {
                out.push('\\');
                out.push(d);
                proof {
                    piece = seq!['\\', d];
                }
            }
            i += 2;
        }
        assert(out@ =~= had + piece);
        assert(unescaped_from(v@, from) =~= piece + unescaped_from(v@, i as int));
        assert(had + (piece + unescaped_from(v@, i as int)) =~= (had + piece) + unescaped_from(
            v@,
            i as int,
        ));
    }
    assert(out@ + unescaped_from(v@, i as int) =~= out@);
    out
}

proof fn lemma_unescaped_shift(a: Seq<char>, b: Seq<char>, k: int)
    requires
        0 <= k <= b.len(),
    ensures
        unescaped_from(a + b, a.len() + k) == unescaped_from(b, k),
    decreases b.len() - k,
{
    let s = a + b;
    let n = a.len() as int;
    if k < b.len() {
        assert(s[n + k] == b[k]);
        if b[k] != '\\' {
            lemma_unescaped_shift(a, b, k + 1);
        } else if k + 1 < b.len() {
            assert(s[n + k + 1] == b[k + 1]);
            lemma_unescaped_shift(a, b, k + 2);
        }
    }
}

proof fn lemma_escape(s: Seq<char>, i: int)
    requires
        0 <= i <= s.len(),
    ensures
        unescaped_from(escaped_from(s, i), 0) == s.skip(i),
    decreases s.len() - i,
{
    if i < s.len() {
        lemma_escape(s, i + 1);
        let head = escaped_char(s[i]);
        let rest = escaped_from(s, i + 1);
        let all = head + rest;
        lemma_unescaped_shift(head, rest, 0);
        assert(all[0] == head[0]);
        if head.len() == 2 {
            assert(all[1] == head[1]);
        }
        assert(unescaped_from(all, 0) =~= seq![s[i]] + s.skip(i + 1));
        assert(seq![s[i]] + s.skip(i + 1) =~= s.skip(i));
    } else {
        assert(s.skip(i) =~= Seq::empty());
    }
}

/// Reading an escaped text gives the text back.
pub proof fn law_escape_round_trip(s: Seq<char>)
    ensures
        unescaped(escaped(s)) == s,
{
    lemma_escape(s, 0);
    assert(s.skip(0) =~= s);
}

proof fn lemma_escaped_on_one_line(s: Seq<char>, i: int)
    requires
        0 <= i <= s.len(),
    ensures
        !escaped_from(s, i).contains('\n'),
        i < s.len() && s.last() != '\r' ==> escaped_from(s, i).len() > 0 && escaped_from(
            s,
            i,
        ).last() != '\r',
    decreases s.len() - i,
{
    if i < s.len() {
        lemma_escaped_on_one_line(s, i + 1);
        let head = escaped_char(s[i]);
        let rest = escaped_from(s, i + 1);
        let all = head + rest;
        if all.contains('\n') {
            let k = choose|k: int| 0 <= k < all.len() && all[k] == '\n';
            if k >= head.len() {
                assert(rest[k - head.len()] == '\n');
            }
        }
        if i + 1 < s.len() {
            if rest.len() > 0 {
                assert(all.last() == rest.last());
            }
        } else {
            assert(rest =~= Seq::empty());
            assert(all =~= head);
        }
    }
}

/// An escaped text holds no newline.
pub proof fn law_escaped_on_one_line(s: Seq<char>)
    ensures
        !escaped(s).contains('\n'),
{
    lemma_escaped_on_one_line(s, 0);
}

// -- What is remembered --

/// What is remembered of a loaded environment: the directory, the modification times of its
/// files, and what undoes it.
pub struct ActiveState {
    pub dir: String,
    pub envrc_mtime: u64,
    pub dotenv_mtime: u64,
    pub prev: Vec<EnvChange>,
}

pub struct ActiveView {
    pub dir: Seq<char>,
    pub envrc_mtime: u64,
    pub dotenv_mtime: u64,
    pub prev: Seq<ChangeView>,
}

impl View for ActiveState {
    type V = ActiveView;

    open spec fn view(&self) -> ActiveView {
        ActiveView {
            dir: self.dir@,
            envrc_mtime: self.envrc_mtime,
            dotenv_mtime: self.dotenv_mtime,
            prev: change_views(self.prev@),
        }
    }
}

/// The line of a change: a name, and a value behind `=` where there is one.
pub open spec fn change_line(c: ChangeView) -> Seq<char> {
    match c {
        ChangeView::Assign(k, v) => k + seq!['='] + escaped(v),
        ChangeView::Unset(k) => k,
    }
}

pub open spec fn prev_text(prev: Seq<ChangeView>, i: int) -> Seq<char>
    decreases prev.len() - i,
{
    if i >= prev.len() {
        Seq::empty()
    } else {
        change_line(prev[i]) + seq!['\n'] + prev_text(prev, i + 1)
    }
}

/// The file that remembers a loaded environment.
pub open spec fn active_text(s: ActiveView) -> Seq<char> {
    s.dir + seq!['\n'] + (decimal(s.envrc_mtime as nat) + seq![' '] + decimal(
        s.dotenv_mtime as nat,
    ) + seq!['\n'] + prev_text(s.prev, 0))
}

/// The file that remembers a loaded environment.
pub fn save_active(state: &ActiveState) -> (r: String)
    ensures
        r@ == active_text(state@),
{
    let mut out = chars_of(state.dir.as_str());
    out.push('\n');
    let first = decimal_of(state.envrc_mtime);
    push_all(&mut out, first.as_slice());
    out.push(' ');
    let second = decimal_of(state.dotenv_mtime);
    push_all(&mut out, second.as_slice());
    out.push('\n');
    let ghost prev = change_views(state.prev@);
    let mut i: usize = 0;
    assert(out@ + prev_text(prev, 0) =~= active_text(state@));
    while i < state.prev.len()
        invariant
            i <= state.prev.len(),
            prev == change_views(state.prev@),
            out@ + prev_text(prev, i as int) == active_text(state@),
        decreases state.prev.len() - i,
    {
        let ghost had = out@;
        assert(prev[i as int] == state.prev@[i as int]@);
        match &state.prev[i] {
            EnvChange::Assign(k, v) => {
                push_str(&mut out, k.as_str());
                out.push('=');
                let e = escape_newlines(v.as_str());
                push_str(&mut out, e.as_str());
            },
            EnvChange::Unset(k) => {
                push_str(&mut out, k.as_str());
            },
        }
        assert(out@ =~= had + change_line(prev[i as int]));
        out.push('\n');
        assert(had + prev_text(prev, i as int) =~= out@ + prev_text(prev, i + 1));
        i += 1;
    }
    assert(out@ + prev_text(prev, i as int) =~= out@);
    string_of(out.as_slice())
}

/// The change that a line stands for.
pub open spec fn line_change(line: Seq<char>) -> Option<ChangeView> {
    match split_once(line, '=') {
        Some((k, v)) => Some(ChangeView::Assign(k, unescaped(v))),
        None => if line.len() > 0 {
            Some(ChangeView::Unset(line))
        } else {
            None
        },
    }
}

pub open spec fn prev_from(all: Seq<Seq<char>>, i: int) -> Seq<ChangeView>
    decreases all.len() - i,
{
    if i >= all.len() {
        Seq::empty()
    } else {
        match line_change(all[i]) {
            Some(c) => seq![c] + prev_from(all, i + 1),
            None => prev_from(all, i + 1),
        }
    }
}

/// What the file says. A file without two lines, or without two times on the second, says
/// nothing.
pub open spec fn parsed_active(content: Seq<char>) -> Option<ActiveView> {
    let all = lines(content);
    if all.len() < 2 {
        None
    } else {
        match split_once(all[1], ' ') {
            None => None,
            Some((a, b)) => match (u64_value(a), u64_value(b)) {
                (Some(x), Some(y)) => Some(
                    ActiveView {
                        dir: all[0],
                        envrc_mtime: x,
                        dotenv_mtime: y,
                        prev: prev_from(all, 2),
                    },
                ),
                _ => None,
            },
        }
    }
}

fn read_line_change(line: &str) -> (r: Option<EnvChange>)
    ensures
        match (r, line_change(line@)) {
            (Some(c), Some(d)) => c@ == d,
            (None, None) => true,
            _ => false,
        },
{
    let v = chars_of(line);
    match split_at_first(&v, '=') {
        Some((k, value)) => {
            let value = unescape_chars(&value);
            Some(EnvChange::Assign(string_of(k.as_slice()), string_of(value.as_slice())))
        },
        None => if v.len() > 0 {
            Some(EnvChange::Unset(string_of(v.as_slice())))
        } else {
            None
        },
    }
}

/// Reads the file that remembers a loaded environment.
pub fn load_active(content: &str) -> (r: Option<ActiveState>)
    ensures
        match (r, parsed_active(content@)) {
            (Some(a), Some(b)) => a@ == b,
            (None, None) => true,
            _ => false,
        },
{
    let all = lines_of(content);
    let ghost lv = strs(all@);
    assert(lv.len() == all@.len());
    if all.len() < 2 {
        return None;
    }
    assert(lv[0] == all@[0]@ && lv[1] == all@[1]@);
    let times = chars_of(all[1].as_str());
    let (first, second) = match split_at_first(&times, ' ') {
        None => {
            return None;
        },
        Some(p) => p,
    };
    let a = parse_u64(string_of(first.as_slice()).as_str());
    let b = parse_u64(string_of(second.as_slice()).as_str());
    let (x, y) = match (a, b) {
        (Some(x), Some(y)) => (x, y),
        _ => {
            return None;
        },
    };
    let mut prev: Vec<EnvChange> = Vec::new();
    let mut i: usize = 2;
    assert(change_views(prev@) + prev_from(lv, 2) =~= prev_from(lv, 2));
    while i < all.len()
        invariant
            2 <= i <= all.len(),
            lv == strs(all@),
            lv.len() == all@.len(),
            change_views(prev@) + prev_from(lv, i as int) == prev_from(lv, 2),
        decreases all.len() - i,
    {
        assert(lv[i as int] == all@[i as int]@);
        match read_line_change(all[i].as_str()) {
            Some(c) => {
                let ghost had = change_views(prev@);
                let ghost cv = c@;
                prev.push(c);
                assert(change_views(prev@) =~= had + seq![cv]);
                assert(had + (seq![cv] + prev_from(lv, i + 1)) =~= (had + seq![cv]) + prev_from(
                    lv,
                    i + 1,
                ));
            },
            None => {},
        }
        i += 1;
    }
    assert(change_views(prev@) + prev_from(lv, i as int) =~= change_views(prev@));
    let state = ActiveState {
        dir: all[0].clone(),
        envrc_mtime: x,
        dotenv_mtime: y,
        prev,
    };
    assert(state@.prev =~= prev_from(lv, 2));
    Some(state)
}

// -- Reading back what was remembered --

/// Whether a text stands on a line by itself: it holds no newline, and its end is not taken for
/// a part of the line's ending.
pub open spec fn fits_line(s: Seq<char>) -> bool {
    !s.contains('\n') && (s.len() == 0 || s.last() != '\r')
}

/// Whether a change can be written on a line: its name is not empty and holds neither `=` nor
/// a newline, and the line does not end in a carriage return.
pub open spec fn fits_change(c: ChangeView) -> bool {
    &&& c.key().len() > 0
    &&& !c.key().contains('=')
    &&& !c.key().contains('\n')
    &&& match c {
        ChangeView::Assign(_, v) => v.len() == 0 || v.last() != '\r',
        ChangeView::Unset(k) => k.last() != '\r',
    }
}

proof fn lemma_index_shift(a: Seq<char>, b: Seq<char>, c: char, k: int)
    requires
        0 <= k <= b.len(),
    ensures
        index_from(a + b, c, a.len() + k) == a.len() + index_from(b, c, k),
    decreases b.len() - k,
{
    if k < b.len() {
        assert((a + b)[a.len() + k] == b[k]);
        if b[k] != c {
            lemma_index_shift(a, b, c, k + 1);
        }
    }
}

proof fn lemma_lines_shift(a: Seq<char>, b: Seq<char>, k: int)
    requires
        0 <= k <= b.len(),
    ensures
        lines_from(a + b, a.len() + k) == lines_from(b, k),
    decreases b.len() - k,
{
    let s = a + b;
    let n = a.len() as int;
    lemma_index_shift(a, b, '\n', k);
    lemma_index_from(b, '\n', k);
    let j = index_from(b, '\n', k);
    if k < b.len() {
        if j >= b.len() {
            assert(s.skip(n + k) =~= b.skip(k));
        } else {
            lemma_lines_shift(a, b, j + 1);
            if j > k {
                assert(s[n + j - 1] == b[j - 1]);
                assert(s.subrange(n + k, n + j - 1) =~= b.subrange(k, j - 1));
            }
            assert(s.subrange(n + k, n + j) =~= b.subrange(k, j));
        }
    }
}

proof fn lemma_first_line(a: Seq<char>, rest: Seq<char>)
    requires
        fits_line(a),
    ensures
        lines(a + seq!['\n'] + rest) == seq![a] + lines(rest),
{
    let head = a + seq!['\n'];
    let s = head + rest;
    let n = a.len() as int;
    lemma_lines_shift(head, rest, 0);
    lemma_index_from(s, '\n', 0);
    let k = index_from(s, '\n', 0);
    assert(s[n] == '\n');
    if k > n {
        assert(s[n] != '\n');
    }
    if k < n {
        assert(s[k] == a[k]);
        assert(a.contains('\n'));
    }
    assert(s.subrange(0, n) =~= a);
    if n > 0 {
        assert(s[n - 1] == a.last());
    }
}

proof fn lemma_change_line(c: ChangeView)
    requires
        fits_change(c),
    ensures
        fits_line(change_line(c)),
        line_change(change_line(c)) == Some(c),
{
    let k = c.key();
    match c {
        ChangeView::Assign(_, v) => {
            let e = escaped(v);
            let line = change_line(c);
            lemma_split_once(k, '=', e);
            law_escape_round_trip(v);
            lemma_escaped_on_one_line(v, 0);
            if line.contains('\n') {
                let i = choose|i: int| 0 <= i < line.len() && line[i] == '\n';
                if i < k.len() {
                    assert(k[i] == '\n');
                } else if i > k.len() {
                    assert(e[i - k.len() - 1] == '\n');
                }
            }
            if e.len() > 0 {
                assert(line.last() == e.last());
            } else {
                assert(line.last() == '=');
            }
            if v.len() == 0 {
                assert(e =~= Seq::empty());
            }
        },
        ChangeView::Unset(_) => {
            lemma_index_from(k, '=', 0);
            if index_from(k, '=', 0) < k.len() {
                assert(k.contains('='));
            }
        },
    }
}

proof fn lemma_prev_lines(prev: Seq<ChangeView>, i: int)
    requires
        0 <= i <= prev.len(),
        forall|j: int| 0 <= j < prev.len() ==> fits_change(#[trigger] prev[j]),
    ensures
        prev_from(lines(prev_text(prev, i)), 0) == prev.skip(i),
    decreases prev.len() - i,
{
    let all = lines(prev_text(prev, i));
    if i < prev.len() {
        lemma_prev_lines(prev, i + 1);
        lemma_change_line(prev[i]);
        lemma_first_line(change_line(prev[i]), prev_text(prev, i + 1));
        let rest = lines(prev_text(prev, i + 1));
        assert(all =~= seq![change_line(prev[i])] + rest);
        lemma_prev_shift(seq![change_line(prev[i])], rest, 0);
        assert(prev_from(all, 0) =~= seq![prev[i]] + prev.skip(i + 1));
        assert(seq![prev[i]] + prev.skip(i + 1) =~= prev.skip(i));
    } else {
        assert(all =~= Seq::empty());
        assert(prev.skip(i) =~= Seq::empty());
    }
}

proof fn lemma_prev_shift(a: Seq<Seq<char>>, b: Seq<Seq<char>>, k: int)
    requires
        0 <= k <= b.len(),
    ensures
        prev_from(a + b, a.len() + k) == prev_from(b, k),
    decreases b.len() - k,
{
    if k < b.len() {
        assert((a + b)[a.len() + k] == b[k]);
        lemma_prev_shift(a, b, k + 1);
    }
}

/// Reading what was remembered gives it back, where the directory and the variables' names fit
/// the file's lines.
pub proof fn law_active_round_trip(s: ActiveView)
    requires
        fits_line(s.dir),
        forall|i: int| 0 <= i < s.prev.len() ==> fits_change(#[trigger] s.prev[i]),
    ensures
        parsed_active(active_text(s)) == Some(s),
{
    let a = decimal(s.envrc_mtime as nat);
    let b = decimal(s.dotenv_mtime as nat);
    let times = a + seq![' '] + b;
    let tail = prev_text(s.prev, 0);
    let below = times + seq!['\n'] + tail;
    lemma_decimal_lacks(s.envrc_mtime as nat, ' ');
    lemma_decimal_lacks(s.envrc_mtime as nat, '\n');
    lemma_decimal_lacks(s.dotenv_mtime as nat, '\n');
    lemma_decimal_lacks(s.dotenv_mtime as nat, '\r');
    law_decimal_parses(s.envrc_mtime);
    law_decimal_parses(s.dotenv_mtime);
    law_decimal_value(s.dotenv_mtime as nat);
    if times.contains('\n') {
        let i = choose|i: int| 0 <= i < times.len() && times[i] == '\n';
        if i < a.len() {
            assert(a[i] == '\n');
        } else if i > a.len() {
            assert(b[i - a.len() - 1] == '\n');
        }
    }
    assert(times.last() == b.last());
    assert(b[b.len() - 1] == b.last());
    assert(fits_line(times));
    lemma_split_once(a, ' ', b);
    lemma_first_line(s.dir, below);
    lemma_first_line(times, tail);
    let all = lines(active_text(s));
    let rest = lines(tail);
    assert(all =~= seq![s.dir, times] + rest);
    lemma_prev_shift(seq![s.dir, times], rest, 0);
    lemma_prev_lines(s.prev, 0);
    assert(s.prev.skip(0) =~= s.prev);
}

// -- Trust --

pub open spec fn hex_digit(d: int) -> char {
    if d < 10 {
        (d + '0' as int) as char
    } else {
        (d - 10 + 'a' as int) as char
    }
}

/// The two digits of each byte from `i` on.
pub open spec fn hex_from(bytes: Seq<u8>, i: int) -> Seq<char>
    decreases bytes.len() - i,
{
    if i >= bytes.len() {
        Seq::empty()
    } else {
        seq![hex_digit(bytes[i] as int / 16), hex_digit(bytes[i] as int % 16)] + hex_from(
            bytes,
            i + 1,
        )
    }
}

fn hex_char(d: u8) -> (r: char)
    requires
        d < 16,
    ensures
        r == hex_digit(d as int),
{
    if d < 10 {
        (d + 48) as char
    } else {
        (d - 10 + 97) as char
    }
}

/// The name of the file that says that an `.envrc` is trusted.
pub open spec fn key_of(path: Seq<char>) -> Seq<char> {
    hex_from(encode_utf8(path), 0)
}

/// The name of the file that says that an `.envrc` is trusted.
pub fn trust_key(path: &str) -> (r: String)
    ensures
        r@ == key_of(path@),
        r@ == hex_from(encode_utf8(path@), 0),
{
    let bytes = path.as_bytes();
    let mut out: Vec<char> = Vec::new();
    let mut i: usize = 0;
    assert(out@ + hex_from(bytes@, 0) =~= hex_from(bytes@, 0));
    while i < bytes.len()
        invariant
            i <= bytes.len(),
            out@ + hex_from(bytes@, i as int) == hex_from(bytes@, 0),
        decreases bytes.len() - i,
    {
        let ghost had = out@;
        let b = bytes[i];
        out.push(hex_char(b / 16));
        out.push(hex_char(b % 16));
        let ghost two = seq![hex_digit(b as int / 16), hex_digit(b as int % 16)];
        assert(out@ =~= had + two);
        assert(had + (two + hex_from(bytes@, i + 1)) =~= (had + two) + hex_from(bytes@, i + 1));
        i += 1;
    }
    assert(out@ + hex_from(bytes@, i as int) =~= out@);
    string_of(out.as_slice())
}

proof fn lemma_hex_injective(a: Seq<u8>, b: Seq<u8>, i: int)
    requires
        0 <= i <= a.len(),
        i <= b.len(),
        hex_from(a, i) == hex_from(b, i),
    ensures
        a.skip(i) == b.skip(i),
    decreases a.len() - i,
{
    let x = hex_from(a, i);
    let y = hex_from(b, i);
    if i < a.len() && i < b.len() {
        let xr = hex_from(a, i + 1);
        let yr = hex_from(b, i + 1);
        assert(x[0] == hex_digit(a[i] as int / 16) && x[1] == hex_digit(a[i] as int % 16));
        assert(y[0] == hex_digit(b[i] as int / 16) && y[1] == hex_digit(b[i] as int % 16));
        assert(x.skip(2) =~= xr);
        assert(y.skip(2) =~= yr);
        lemma_hex_injective(a, b, i + 1);
        assert(a[i] as int / 16 == b[i] as int / 16);
        assert(a[i] as int % 16 == b[i] as int % 16);
        assert(a[i] == b[i]);
        assert(a.skip(i) =~= seq![a[i]] + a.skip(i + 1));
        assert(b.skip(i) =~= seq![b[i]] + b.skip(i + 1));
    } else {
        if i < a.len() {
            assert(x.len() >= 2);
        }
        if i < b.len() {
            assert(y.len() >= 2);
        }
        assert(a.skip(i) =~= b.skip(i));
    }
}

/// Trusting one file says nothing of another.
pub proof fn law_trust_keys_differ(a: Seq<char>, b: Seq<char>)
    requires
        hex_from(encode_utf8(a), 0) == hex_from(encode_utf8(b), 0),
    ensures
        a == b,
{
    let x = encode_utf8(a);
    let y = encode_utf8(b);
    lemma_hex_injective(x, y, 0);
    assert(x.skip(0) =~= x);
    assert(y.skip(0) =~= y);
    law_text_round_trip(a);
    law_text_round_trip(b);
}

/// Whether an `.envrc` is trusted: the time that was stored when it was allowed is the time that
/// it was last modified.
pub open spec fn allowed_by(stored: Option<Seq<char>>, current: Option<u64>) -> bool {
    stored is Some && current is Some && u64_value(trimmed(stored->0)) == current
}

pub open spec fn opt_view(s: Option<String>) -> Option<Seq<char>> {
    match s {
        Some(t) => Some(t@),
        None => None,
    }
}

/// Whether an `.envrc` is trusted, from what was stored and its modification time.
pub fn is_allowed(stored: &Option<String>, current: Option<u64>) -> (r: bool)
    ensures
        r == allowed_by(opt_view(*stored), current),
{
    match (stored, current) {
        (Some(text), Some(now)) => {
            let v = chars_of(text.as_str());
            let t = trim_of(&v);
            match parse_u64(string_of(t.as_slice()).as_str()) {
                Some(at) => at == now,
                None => false,
            }
        },
        _ => false,
    }
}

/// What is stored when an `.envrc` is allowed.
pub open spec fn trust_text(mtime: u64) -> Seq<char> {
    decimal(mtime as nat)
}

/// What is stored when an `.envrc` is allowed.
pub fn trust_mark(mtime: u64) -> (r: String)
    ensures
        r@ == trust_text(mtime),
        r@ == decimal(mtime as nat),
{
    string_of(decimal_of(mtime).as_slice())
}

proof fn lemma_digits_untrimmed(s: Seq<char>)
    requires
        s.len() > 0,
        all_digits(s),
    ensures
        trimmed(s) == s,
{
    assert(spec_is_digit(s[s.len() - 1]));
    assert(spec_is_digit(s[0]));
    assert(s.take(s.len() as int) =~= s);
    assert(s.skip(0) =~= s);
}

/// What was allowed stays trusted until it is modified.
pub proof fn law_allowed_until_modified(mtime: u64, current: u64)
    ensures
        allowed_by(Some(decimal(mtime as nat)), Some(current)) == (mtime == current),
{
    let s = decimal(mtime as nat);
    law_decimal_parses(mtime);
    law_decimal_value(mtime as nat);
    lemma_digits_untrimmed(s);
}

// -- Where things are kept --

pub open spec fn data_path(
    denv: Option<Seq<char>>,
    xdg: Option<Seq<char>>,
    home: Option<Seq<char>>,
) -> Result<Seq<char>, Seq<char>> {
    if denv is Some {
        Ok(denv->0)
    } else if xdg is Some {
        Ok(joined_path(xdg->0, "denv"@))
    } else if home is Some {
        Ok(joined_path(home->0, ".local/share/denv"@))
    } else {
        Err("HOME, XDG_DATA_HOME, and DENV_DATA_DIR are all unset"@)
    }
}

pub open spec fn text_result(r: Result<String, String>) -> Result<Seq<char>, Seq<char>> {
    match r {
        Ok(s) => Ok(s@),
        Err(e) => Err(e@),
    }
}

/// The directory that trust and state are kept in, from `$DENV_DATA_DIR`, `$XDG_DATA_HOME` and
/// `$HOME`.
pub fn data_dir(denv: &Option<String>, xdg: &Option<String>, home: &Option<String>) -> (r: Result<
    String,
    String,
>)
    ensures
        text_result(r) == data_path(opt_view(*denv), opt_view(*xdg), opt_view(*home)),
{
    if let Some(path) = denv {
        return Ok(path.clone());
    }
    if let Some(path) = xdg {
        return Ok(join_path(path.as_str(), "denv"));
    }
    match home {
        Some(path) => Ok(join_path(path.as_str(), ".local/share/denv")),
        None => Err(String::from_str("HOME, XDG_DATA_HOME, and DENV_DATA_DIR are all unset")),
    }
}

/// The directory that trust is kept in.
pub fn allow_dir(data: &str) -> (r: String)
    ensures
        r@ == joined_path(data@, "allow"@),
{
    join_path(data, "allow")
}

/// The file that remembers the environment that a shell has loaded.
pub fn active_path(data: &str, pid: u32) -> (r: String)
    ensures
        r@ == joined_path(data@, "active_"@ + decimal(pid as nat)),
{
    pid_path(data, "active_", pid)
}

/// A file of a shell of its own.
pub fn pid_path(data: &str, prefix: &str, pid: u32) -> (r: String)
    ensures
        r@ == joined_path(data@, prefix@ + decimal(pid as nat)),
{
    let mut name = chars_of(prefix);
    let digits = decimal_of(pid as u64);
    push_all(&mut name, digits.as_slice());
    join_path(data, string_of(name.as_slice()).as_str())
}

// -- Which files hold --

/// The environment files of a directory, with the times of their last modification.
pub struct EnvFiles {
    pub dir: String,
    pub envrc: Option<u64>,
    pub dotenv: Option<u64>,
}

pub struct FilesView {
    pub dir: Seq<char>,
    pub envrc: Option<u64>,
    pub dotenv: Option<u64>,
}

impl View for EnvFiles {
    type V = FilesView;

    open spec fn view(&self) -> FilesView {
        FilesView { dir: self.dir@, envrc: self.envrc, dotenv: self.dotenv }
    }
}

pub open spec fn opt_files(f: Option<EnvFiles>) -> Option<FilesView> {
    match f {
        Some(g) => Some(g@),
        None => None,
    }
}

/// The first directory from `i` on that has a file.
pub open spec fn first_with_files(all: Seq<EnvFiles>, i: int) -> Option<FilesView>
    decreases all.len() - i,
{
    if i >= all.len() {
        None
    } else if all[i].envrc is Some || all[i].dotenv is Some {
        Some(all[i]@)
    } else {
        first_with_files(all, i + 1)
    }
}

/// The files that hold in the first of some directories, given from the inside out.
pub fn find_env_files(all: &Vec<EnvFiles>) -> (r: Option<EnvFiles>)
    ensures
        opt_files(r) == first_with_files(all@, 0),
{
    let mut i: usize = 0;
    while i < all.len()
        invariant
            i <= all.len(),
            first_with_files(all@, 0) == first_with_files(all@, i as int),
        decreases all.len() - i,
    {
        let f = &all[i];
        if f.envrc.is_some() || f.dotenv.is_some() {
            return Some(EnvFiles { dir: f.dir.clone(), envrc: f.envrc, dotenv: f.dotenv });
        }
        i += 1;
    }
    None
}

pub open spec fn time_or_zero(t: Option<u64>) -> u64 {
    match t {
        Some(m) => m,
        None => 0,
    }
}

fn or_zero(t: Option<u64>) -> (r: u64)
    ensures
        r == time_or_zero(t),
{
    match t {
        Some(m) => m,
        None => 0,
    }
}

/// What the state variable says where the working directory lies in the directory it names.
pub open spec fn cached_state(state: Option<Seq<char>>, cwd: Seq<char>) -> Option<
    (u64, u64, Seq<char>),
> {
    match state {
        None => None,
        Some(text) => match parsed_state(text) {
            None => None,
            Some((a, b, dir)) => if within(cwd, dir) {
                Some((a, b, dir))
            } else {
                None
            },
        },
    }
}

/// The directory whose files may show that what is loaded is up to date; none where a reload is
/// forced.
pub fn dir_to_check(force: bool, state: &Option<String>, cwd: &str) -> (r: Option<String>)
    ensures
        match (r, cached_state(opt_view(*state), cwd@)) {
            (Some(d), Some(c)) => !force && d@ == c.2,
            (None, c) => force || c is None,
            _ => false,
        },
{
    if force {
        None
    } else {
        cached_dir(state, cwd)
    }
}

/// The directory whose files are to be looked at before the directories above the working
/// directory are searched.
pub fn cached_dir(state: &Option<String>, cwd: &str) -> (r: Option<String>)
    ensures
        match (r, cached_state(opt_view(*state), cwd@)) {
            (Some(d), Some(c)) => d@ == c.2,
            (None, None) => true,
            _ => false,
        },
{
    match state {
        Some(text) => match parse_denv_state(text.as_str()) {
            Some((_, _, dir)) => if is_within(cwd, dir.as_str()) {
                Some(dir)
            } else {
                None
            },
            None => None,
        },
        None => None,
    }
}

/// Whether nothing changed: every file that was there has the time it had.
pub open spec fn fast_path(
    state: Option<Seq<char>>,
    cwd: Seq<char>,
    envrc: Option<u64>,
    dotenv: Option<u64>,
) -> bool {
    match cached_state(state, cwd) {
        Some(c) => (c.0 == 0 || envrc == Some(c.0)) && (c.1 == 0 || dotenv == Some(c.1)),
        None => false,
    }
}

/// Whether nothing changed, from the times of the files of the directory that the state variable
/// names.
pub fn state_var_fast_path_ok(
    state: &Option<String>,
    cwd: &str,
    envrc: Option<u64>,
    dotenv: Option<u64>,
) -> (r: bool)
    ensures
        r == fast_path(opt_view(*state), cwd@, envrc, dotenv),
{
    match state {
        Some(text) => match parse_denv_state(text.as_str()) {
            Some((a, b, dir)) => {
                if !is_within(cwd, dir.as_str()) {
                    return false;
                }
                let first = a == 0 || match envrc {
                    Some(m) => m == a,
                    None => false,
                };
                let second = b == 0 || match dotenv {
                    Some(m) => m == b,
                    None => false,
                };
                first && second
            },
            None => false,
        },
        None => false,
    }
}

/// Whether the state variable speaks of files: the times are theirs, and the directory is, as it
/// was found or as the file system names it.
pub open spec fn state_matches(
    found: FilesView,
    state: Option<Seq<char>>,
    canonical: Option<Seq<char>>,
) -> bool {
    match state {
        None => false,
        Some(text) => match parsed_state(text) {
            None => false,
            Some((a, b, dir)) => a == time_or_zero(found.envrc) && b == time_or_zero(found.dotenv)
                && (dir == found.dir || canonical == Some(dir)),
        },
    }
}

/// Whether the state variable speaks of the files that were found.
pub fn state_var_matches(
    found: &EnvFiles,
    state: &Option<String>,
    canonical: &Option<String>,
) -> (r: bool)
    ensures
        r == state_matches(found@, opt_view(*state), opt_view(*canonical)),
{
    match state {
        None => false,
        Some(text) => match parse_denv_state(text.as_str()) {
            None => false,
            Some((a, b, dir)) => {
                let same = str_eq(dir.as_str(), found.dir.as_str()) || match canonical {
                    Some(c) => str_eq(c.as_str(), dir.as_str()),
                    None => false,
                };
                a == or_zero(found.envrc) && b == or_zero(found.dotenv) && same
            },
        },
    }
}

/// Whether what was found is what is loaded. `same_dir` tells whether the remembered directory is
/// the one that was found.
pub open spec fn up_to_date(
    found: Option<FilesView>,
    state: Option<Seq<char>>,
    canonical: Option<Seq<char>>,
    active: Option<ActiveView>,
    same_dir: bool,
) -> bool {
    match found {
        None => false,
        Some(f) => state_matches(f, state, canonical) || match active {
            None => false,
            Some(a) => a.envrc_mtime == time_or_zero(f.envrc) && a.dotenv_mtime == time_or_zero(
                f.dotenv,
            ) && same_dir,
        },
    }
}

pub open spec fn opt_active(a: Option<ActiveState>) -> Option<ActiveView> {
    match a {
        Some(s) => Some(s@),
        None => None,
    }
}

/// Whether what was found is what is loaded.
pub fn is_up_to_date(
    found: &Option<EnvFiles>,
    state: &Option<String>,
    canonical: &Option<String>,
    active: &Option<ActiveState>,
    same_dir: bool,
) -> (r: bool)
    ensures
        r == up_to_date(
            opt_files(*found),
            opt_view(*state),
            opt_view(*canonical),
            opt_active(*active),
            same_dir,
        ),
{
    match found {
        None => false,
        Some(f) => {
            if state_var_matches(f, state, canonical) {
                return true;
            }
            match active {
                None => false,
                Some(a) => a.envrc_mtime == or_zero(f.envrc) && a.dotenv_mtime == or_zero(f.dotenv)
                    && same_dir,
            }
        },
    }
}

// -- What is said of changes --

/// The names that are shown, each behind a sign: those that are kept for this module are not.
pub open spec fn shown(keys: Seq<Seq<char>>, sign: char) -> Seq<Seq<char>>
    decreases keys.len(),
{
    if keys.len() == 0 {
        Seq::empty()
    } else if starts_with(keys.last(), "__DENV_"@) {
        shown(keys.drop_last(), sign)
    } else {
        shown(keys.drop_last(), sign).push(seq![sign] + keys.last())
    }
}

/// The line that tells what was set and what was removed; nothing where there is nothing to
/// tell.
pub open spec fn summary(plus: Seq<Seq<char>>, minus: Seq<Seq<char>>) -> Seq<char> {
    let all = shown(plus, '+') + shown(minus, '-');
    if all.len() == 0 {
        Seq::empty()
    } else {
        "denv: "@ + joined(all, " "@) + "\n"@
    }
}

fn push_shown(out: &mut Vec<String>, keys: &Vec<String>, sign: char)
    ensures
        strs(final(out)@) == strs(old(out)@) + shown(strs(keys@), sign),
{
    let ghost all = strs(keys@);
    let ghost front = strs(out@);
    let mut i: usize = 0;
    assert(all.take(0) =~= Seq::empty());
    assert(front + shown(all.take(0), sign) =~= front);
    while i < keys.len()
        invariant
            i <= keys.len(),
            all == strs(keys@),
            strs(out@) == front + shown(all.take(i as int), sign),
        decreases keys.len() - i,
    {
        let ghost had = strs(out@);
        assert(all[i as int] == keys@[i as int]@);
        assert(all.take(i + 1).drop_last() =~= all.take(i as int));
        assert(all.take(i + 1).last() == all[i as int]);
        let key = chars_of(keys[i].as_str());
        if !has_prefix_str(&key, "__DENV_") {
            let mut item: Vec<char> = Vec::new();
            item.push(sign);
            push_all(&mut item, key.as_slice());
            assert(item@ =~= seq![sign] + all[i as int]);
            let item = string_of(item.as_slice());
            let ghost iv = item@;
            out.push(item);
            assert(strs(out@) =~= had.push(iv));
            assert(had.push(iv) =~= front + shown(all.take(i as int), sign).push(iv));
        }
        i += 1;
    }
    assert(all.take(i as int) =~= all);
}

/// The line that tells what was set and what was removed.
pub fn print_summary(plus: &Vec<String>, minus: &Vec<String>) -> (r: String)
    ensures
        r@ == summary(strs(plus@), strs(minus@)),
{
    let mut all: Vec<String> = Vec::new();
    push_shown(&mut all, plus, '+');
    push_shown(&mut all, minus, '-');
    assert(strs(all@) =~= shown(strs(plus@), '+') + shown(strs(minus@), '-'));
    assert(strs(all@).len() == all@.len());
    if all.len() == 0 {
        return String::new();
    }
    let mut out = chars_of("denv: ");
    let text = join_strings(all.as_slice(), " ");
    push_str(&mut out, text.as_str());
    push_str(&mut out, "\n");
    string_of(out.as_slice())
}

pub open spec fn change_keys(cs: Seq<ChangeView>) -> Seq<Seq<char>> {
    Seq::new(cs.len(), |i: int| cs[i].key())
}

fn keys_of(cs: &Vec<EnvChange>) -> (r: Vec<String>)
    ensures
        strs(r@) == change_keys(change_views(cs@)),
{
    let mut out: Vec<String> = Vec::new();
    let mut i: usize = 0;
    while i < cs.len()
        invariant
            i <= cs.len(),
            strs(out@) == change_keys(change_views(cs@)).take(i as int),
        decreases cs.len() - i,
    {
        let ghost had = strs(out@);
        let key = match &cs[i] {
            EnvChange::Assign(k, _) => k.clone(),
            EnvChange::Unset(k) => k.clone(),
        };
        let ghost kv = key@;
        out.push(key);
        assert(strs(out@) =~= had.push(kv));
        assert(change_keys(change_views(cs@)).take(i + 1) =~= had.push(kv));
        i += 1;
    }
    assert(change_keys(change_views(cs@)).take(i as int) =~= change_keys(change_views(cs@)));
    out
}

// -- Loading and leaving --

/// What undoes the environment that is loaded, if one is.
pub open spec fn restore(active: Option<ActiveView>) -> Seq<ChangeView> {
    match active {
        Some(a) => a.prev,
        None => Seq::empty(),
    }
}

/// What is said when an environment is left, if one was loaded.
pub open spec fn restore_report(active: Option<ActiveView>) -> Seq<char> {
    match active {
        Some(a) => summary(Seq::empty(), change_keys(a.prev)),
        None => Seq::empty(),
    }
}

/// The changes where no environment holds.
pub open spec fn cleared() -> Seq<ChangeView> {
    seq![
        ChangeView::Unset("__DENV_DIR"@),
        ChangeView::Unset("__DENV_DIRTY"@),
        ChangeView::Unset("__DENV_STATE"@),
    ]
}

/// The changes where an environment holds that is not loaded.
pub open spec fn marked_dirty(dir: Seq<char>) -> Seq<ChangeView> {
    seq![
        ChangeView::Assign("__DENV_DIR"@, dir),
        ChangeView::Assign("__DENV_DIRTY"@, "1"@),
        ChangeView::Unset("__DENV_STATE"@),
    ]
}

/// The changes where an environment is loaded.
pub open spec fn marked_loaded(dir: Seq<char>, found: FilesView) -> Seq<ChangeView> {
    seq![
        ChangeView::Assign("__DENV_DIR"@, dir),
        ChangeView::Unset("__DENV_DIRTY"@),
        ChangeView::Assign(
            "__DENV_STATE"@,
            state_text(time_or_zero(found.envrc), time_or_zero(found.dotenv), found.dir),
        ),
    ]
}

/// What is to be loaded.
#[derive(Debug, Clone, Copy, PartialEq, Eq, Structural)]
pub enum Load {
    Nothing,
    /// The variables of the `.env` alone.
    Dotenv,
    /// What the `.envrc` does, with the variables of the `.env` where there is one.
    Script,
}

/// What a step does to variables, what it says, and what is to be loaded next.
pub struct RefreshStep {
    pub changes: Vec<EnvChange>,
    pub report: String,
    pub load: Load,
}

pub struct StepView {
    pub changes: Seq<ChangeView>,
    pub report: Seq<char>,
    pub load: Load,
}

impl View for RefreshStep {
    type V = StepView;

    open spec fn view(&self) -> StepView {
        StepView {
            changes: change_views(self.changes@),
            report: self.report@,
            load: self.load,
        }
    }
}

/// How a refresh starts. What is loaded is undone first. Where nothing holds, that is all; an
/// `.envrc` that is not trusted is not loaded.
pub open spec fn started(
    found: Option<FilesView>,
    active: Option<ActiveView>,
    allowed: bool,
    dir: Seq<char>,
    envrc: Seq<char>,
) -> StepView {
    match found {
        None => StepView {
            changes: restore(active) + cleared(),
            report: restore_report(active),
            load: Load::Nothing,
        },
        Some(f) => if f.envrc is Some && !allowed {
            StepView {
                changes: restore(active) + marked_dirty(dir),
                report: "denv: "@ + envrc + " is blocked. Run `denv allow` to trust it.\n"@
                    + restore_report(active),
                load: Load::Nothing,
            }
        } else {
            StepView {
                changes: restore(active),
                report: Seq::empty(),
                load: if f.envrc is Some {
                    Load::Script
                } else {
                    Load::Dotenv
                },
            }
        },
    }
}

fn clone_changes(cs: &Vec<EnvChange>) -> (r: Vec<EnvChange>)
    ensures
        change_views(r@) == change_views(cs@),
{
    let mut out: Vec<EnvChange> = Vec::new();
    let mut i: usize = 0;
    while i < cs.len()
        invariant
            i <= cs.len(),
            change_views(out@) == change_views(cs@).take(i as int),
        decreases cs.len() - i,
    {
        let ghost had = change_views(out@);
        let c = match &cs[i] {
            EnvChange::Assign(k, v) => EnvChange::Assign(k.clone(), v.clone()),
            EnvChange::Unset(k) => EnvChange::Unset(k.clone()),
        };
        let ghost cv = c@;
        out.push(c);
        assert(change_views(out@) =~= had.push(cv));
        assert(change_views(cs@).take(i + 1) =~= had.push(cv));
        i += 1;
    }
    assert(change_views(cs@).take(i as int) =~= change_views(cs@));
    out
}

/// Undoes what is loaded.
pub fn apply_restore(active: &Option<ActiveState>) -> (r: Vec<EnvChange>)
    ensures
        change_views(r@) == restore(opt_active(*active)),
{
    match active {
        Some(a) => clone_changes(&a.prev),
        None => {
            let r: Vec<EnvChange> = Vec::new();
            assert(change_views(r@) =~= Seq::empty());
            r
        },
    }
}

fn push_change(out: &mut Vec<EnvChange>, c: EnvChange)
    ensures
        change_views(final(out)@) == change_views(old(out)@).push(c@),
{
    let ghost had = change_views(out@);
    let ghost cv = c@;
    out.push(c);
    assert(change_views(out@) =~= had.push(cv));
}

/// Marks that no environment holds.
pub fn clear_runtime_state(changes: &mut Vec<EnvChange>)
    ensures
        change_views(final(changes)@) == change_views(old(changes)@) + cleared(),
{
    let ghost had = change_views(changes@);
    push_change(changes, EnvChange::Unset(String::from_str("__DENV_DIR")));
    push_change(changes, EnvChange::Unset(String::from_str("__DENV_DIRTY")));
    push_change(changes, EnvChange::Unset(String::from_str("__DENV_STATE")));
    assert(change_views(changes@) =~= had + cleared());
}

fn mark_dirty(changes: &mut Vec<EnvChange>, dir: &str)
    ensures
        change_views(final(changes)@) == change_views(old(changes)@) + marked_dirty(dir@),
{
    let ghost had = change_views(changes@);
    let dir = string_of(chars_of(dir).as_slice());
    push_change(changes, EnvChange::Assign(String::from_str("__DENV_DIR"), dir));
    push_change(
        changes,
        EnvChange::Assign(String::from_str("__DENV_DIRTY"), String::from_str("1")),
    );
    push_change(changes, EnvChange::Unset(String::from_str("__DENV_STATE")));
    assert(change_views(changes@) =~= had + marked_dirty(dir@));
}

fn report_restore(active: &Option<ActiveState>) -> (r: String)
    ensures
        r@ == restore_report(opt_active(*active)),
{
    match active {
        Some(a) => {
            let none: Vec<String> = Vec::new();
            let keys = keys_of(&a.prev);
            assert(strs(none@) =~= Seq::empty());
            print_summary(&none, &keys)
        },
        None => String::new(),
    }
}

/// Starts a refresh, from the files that were found, what is remembered, whether the `.envrc` is
/// trusted, and the names that the file system gives the directory and the `.envrc`.
pub fn start_refresh(
    found: &Option<EnvFiles>,
    active: &Option<ActiveState>,
    allowed: bool,
    dir: &str,
    envrc: &str,
) -> (r: RefreshStep)
    ensures
        r@ == started(opt_files(*found), opt_active(*active), allowed, dir@, envrc@),
{
    let mut changes = apply_restore(active);
    match found {
        None => {
            clear_runtime_state(&mut changes);
            RefreshStep { changes, report: report_restore(active), load: Load::Nothing }
        },
        Some(f) => if f.envrc.is_some() && !allowed {
            mark_dirty(&mut changes, dir);
            let mut out = chars_of("denv: ");
            push_str(&mut out, envrc);
            push_str(&mut out, " is blocked. Run `denv allow` to trust it.\n");
            let more = report_restore(active);
            push_str(&mut out, more.as_str());
            RefreshStep { changes, report: string_of(out.as_slice()), load: Load::Nothing }
        } else {
            let load = if f.envrc.is_some() {
                Load::Script
            } else {
                Load::Dotenv
            };
            RefreshStep { changes, report: String::new(), load }
        },
    }
}

pub open spec fn opt_step(r: Option<RefreshStep>) -> Option<StepView> {
    match r {
        Some(s) => Some(s@),
        None => None,
    }
}

/// What a refresh does before files are read: nothing where what is loaded is up to date, unless
/// it is forced.
pub open spec fn refreshed(
    force: bool,
    found: Option<FilesView>,
    state: Option<Seq<char>>,
    canonical: Option<Seq<char>>,
    active: Option<ActiveView>,
    same_dir: bool,
    allowed: bool,
    dir: Seq<char>,
    envrc: Seq<char>,
) -> Option<StepView> {
    if !force && up_to_date(found, state, canonical, active, same_dir) {
        None
    } else {
        Some(started(found, active, allowed, dir, envrc))
    }
}

/// Loads or leaves the environment of a directory, as far as that goes before files are read.
/// Nothing happens where what is loaded is up to date, unless a reload is forced.
pub fn refresh(
    force: bool,
    found: &Option<EnvFiles>,
    state: &Option<String>,
    canonical: &Option<String>,
    active: &Option<ActiveState>,
    same_dir: bool,
    allowed: bool,
    dir: &str,
    envrc: &str,
) -> (r: Option<RefreshStep>)
    ensures
        opt_step(r) == refreshed(
            force,
            opt_files(*found),
            opt_view(*state),
            opt_view(*canonical),
            opt_active(*active),
            same_dir,
            allowed,
            dir@,
            envrc@,
        ),
        opt_step(r) == (if !force && up_to_date(
            opt_files(*found),
            opt_view(*state),
            opt_view(*canonical),
            opt_active(*active),
            same_dir,
        ) {
            None
        } else {
            Some(started(opt_files(*found), opt_active(*active), allowed, dir@, envrc@))
        }),
{
    if !force && is_up_to_date(found, state, canonical, active, same_dir) {
        None
    } else {
        Some(start_refresh(found, active, allowed, dir, envrc))
    }
}

pub open spec fn loading_text(found: FilesView) -> Seq<char> {
    (if found.envrc is Some {
        "denv: loading .envrc\n"@
    } else {
        Seq::empty()
    }) + (if found.dotenv is Some {
        "denv: loading .env\n"@
    } else {
        Seq::empty()
    })
}

/// What is said before files are loaded.
pub fn loading_report(found: &EnvFiles) -> (r: String)
    ensures
        r@ == loading_text(found@),
{
    let mut out: Vec<char> = Vec::new();
    if found.envrc.is_some() {
        push_str(&mut out, "denv: loading .envrc\n");
    }
    if found.dotenv.is_some() {
        push_str(&mut out, "denv: loading .env\n");
    }
    assert(out@ =~= loading_text(found@));
    string_of(out.as_slice())
}

/// What follows where the files could not be loaded.
pub open spec fn failed_step(dir: Seq<char>, err: Seq<char>) -> StepView {
    StepView {
        changes: marked_dirty(dir),
        report: "denv: "@ + err + "\n"@,
        load: Load::Nothing,
    }
}

/// What follows where the files could not be loaded.
pub fn refresh_failed(dir: &str, err: &str) -> (r: RefreshStep)
    ensures
        r@ == failed_step(dir@, err@),
        r@ == (StepView {
            changes: marked_dirty(dir@),
            report: "denv: "@ + err@ + "\n"@,
            load: Load::Nothing,
        }),
{
    let mut changes: Vec<EnvChange> = Vec::new();
    assert(change_views(changes@) =~= Seq::empty());
    mark_dirty(&mut changes, dir);
    assert(change_views(changes@) =~= marked_dirty(dir@));
    let mut out = chars_of("denv: ");
    push_str(&mut out, err);
    push_str(&mut out, "\n");
    RefreshStep { changes, report: string_of(out.as_slice()), load: Load::Nothing }
}

/// The changes of an environment that is loaded.
pub open spec fn loaded(found: FilesView, dir: Seq<char>, diff: DiffView) -> Seq<ChangeView> {
    diff_changes(diff) + marked_loaded(dir, found)
}

/// The step that finishes a refresh.
pub open spec fn finished_step(found: FilesView, dir: Seq<char>, diff: DiffView) -> StepView {
    StepView {
        changes: loaded(found, dir, diff),
        report: summary(set_keys(diff), diff.unset),
        load: Load::Nothing,
    }
}

/// What is remembered of a refresh.
pub open spec fn finished_active(
    found: FilesView,
    dir: Seq<char>,
    prev: Seq<ChangeView>,
) -> ActiveView {
    ActiveView {
        dir,
        envrc_mtime: time_or_zero(found.envrc),
        dotenv_mtime: time_or_zero(found.dotenv),
        prev,
    }
}

/// Finishes a refresh, from the difference that the files make and what undoes it. Returns the
/// step and what is to be remembered.
pub fn finish_refresh(
    found: &EnvFiles,
    dir: &str,
    diff: &EnvDiff,
    prev: Vec<EnvChange>,
) -> (r: (RefreshStep, ActiveState))
    ensures
        r.0@ == finished_step(found@, dir@, diff@),
        r.1@ == finished_active(found@, dir@, change_views(prev@)),
        r.0@ == (StepView {
            changes: loaded(found@, dir@, diff@),
            report: summary(set_keys(diff@), diff@.unset),
            load: Load::Nothing,
        }),
        r.1@ == (ActiveView {
            dir: dir@,
            envrc_mtime: time_or_zero(found.envrc),
            dotenv_mtime: time_or_zero(found.dotenv),
            prev: change_views(prev@),
        }),
{
    let a = or_zero(found.envrc);
    let b = or_zero(found.dotenv);
    let mut changes = apply_diff(diff);
    let ghost had = change_views(changes@);
    push_change(
        &mut changes,
        EnvChange::Assign(
            String::from_str("__DENV_DIR"),
            string_of(chars_of(dir).as_slice()),
        ),
    );
    push_change(&mut changes, EnvChange::Unset(String::from_str("__DENV_DIRTY")));
    push_change(
        &mut changes,
        EnvChange::Assign(
            String::from_str("__DENV_STATE"),
            format_state(a, b, found.dir.as_str()),
        ),
    );
    assert(change_views(changes@) =~= had + marked_loaded(dir@, found@));
    let plus = set_names(diff);
    let report = print_summary(&plus, &diff.unset);
    let state = ActiveState {
        dir: string_of(chars_of(dir).as_slice()),
        envrc_mtime: a,
        dotenv_mtime: b,
        prev,
    };
    (RefreshStep { changes, report, load: Load::Nothing }, state)
}

fn set_names(diff: &EnvDiff) -> (r: Vec<String>)
    ensures
        strs(r@) == set_keys(diff@),
{
    let mut out: Vec<String> = Vec::new();
    let mut i: usize = 0;
    while i < diff.set.len()
        invariant
            i <= diff.set.len(),
            strs(out@) == set_keys(diff@).take(i as int),
        decreases diff.set.len() - i,
    {
        let ghost had = strs(out@);
        let key = diff.set[i].0.clone();
        let ghost kv = key@;
        out.push(key);
        assert(strs(out@) =~= had.push(kv));
        assert(set_keys(diff@).take(i + 1) =~= had.push(kv));
        i += 1;
    }
    assert(set_keys(diff@).take(i as int) =~= set_keys(diff@));
    out
}

proof fn lemma_last_change_concat(a: Seq<ChangeView>, b: Seq<ChangeView>, k: Seq<char>)
    ensures
        last_change(a + b, k) == (match last_change(b, k) {
            Some(c) => Some(c),
            None => last_change(a, k),
        }),
    decreases b.len(),
{
    if b.len() == 0 {
        assert(a + b =~= a);
    } else {
        assert((a + b).last() == b.last());
        assert((a + b).drop_last() =~= a + b.drop_last());
        lemma_last_change_concat(a, b.drop_last(), k);
    }
}

/// Leaving a directory gives back the environment from before it was entered: every variable but
/// the three that tell of the loaded environment has the value that it had, and those three are
/// not set.
pub proof fn law_leaving_restores(
    env: Map<Seq<char>, Seq<char>>,
    found: FilesView,
    dir: Seq<char>,
    diff: DiffView,
    active: ActiveView,
)
    requires
        active.prev == captured(diff, values_in(env, set_keys(diff)), values_in(env, diff.unset)),
    ensures
        ({
            let entered = applied(env, loaded(found, dir, diff));
            let left = applied(entered, started(None, Some(active), true, dir, dir).changes);
            forall|k: Seq<char>| #[trigger]
                value_in(left, k) == (if k == "__DENV_DIR"@ || k == "__DENV_DIRTY"@ || k
                    == "__DENV_STATE"@ {
                    None
                } else {
                    value_in(env, k)
                })
        }),
{
    let there = loaded(found, dir, diff);
    let entered = applied(env, there);
    let undo = active.prev;
    let back = undo + cleared();
    let left = applied(entered, back);
    law_restore_undoes(env, diff);
    assert forall|k: Seq<char>| #[trigger]
        value_in(left, k) == (if k == "__DENV_DIR"@ || k == "__DENV_DIRTY"@ || k
            == "__DENV_STATE"@ {
            None
        } else {
            value_in(env, k)
        }) by {
        lemma_applied(entered, back, k);
        lemma_last_change_concat(undo, cleared(), k);
        lemma_three(cleared(), k);
        lemma_applied(env, there, k);
        lemma_last_change_concat(diff_changes(diff), marked_loaded(dir, found), k);
        lemma_three(marked_loaded(dir, found), k);
        lemma_applied(env, diff_changes(diff), k);
        lemma_applied(applied(env, diff_changes(diff)), undo, k);
    }
}

proof fn lemma_three(cs: Seq<ChangeView>, k: Seq<char>)
    requires
        cs.len() == 3,
    ensures
        last_change(cs, k) == (if cs[2].key() == k {
            Some(cs[2])
        } else if cs[1].key() == k {
            Some(cs[1])
        } else if cs[0].key() == k {
            Some(cs[0])
        } else {
            None
        }),
{
    reveal_with_fuel(last_change, 4);
    assert(cs.last() == cs[2]);
    assert(cs.drop_last().last() == cs[1]);
    assert(cs.drop_last().drop_last().last() == cs[0]);
}

/// After an environment is loaded the state variable matches the files it was loaded from.
pub proof fn law_loaded_is_up_to_date(
    env: Map<Seq<char>, Seq<char>>,
    found: FilesView,
    dir: Seq<char>,
    diff: DiffView,
)
    ensures
        state_matches(
            found,
            value_in(applied(env, loaded(found, dir, diff)), "__DENV_STATE"@),
            Some(dir),
        ),
{
    let k = "__DENV_STATE"@;
    lemma_applied(env, loaded(found, dir, diff), k);
    lemma_last_change_concat(diff_changes(diff), marked_loaded(dir, found), k);
    lemma_three(marked_loaded(dir, found), k);
    law_state_round_trip(time_or_zero(found.envrc), time_or_zero(found.dotenv), found.dir);
}

// -- The command --

pub enum DenvAction {
    Allow,
    Deny,
    Reload,
    Usage,
}

pub open spec fn denv_action(args: Seq<Seq<char>>) -> DenvAction {
    if args.len() > 0 && args[0] == "allow"@ {
        DenvAction::Allow
    } else if args.len() > 0 && args[0] == "deny"@ {
        DenvAction::Deny
    } else if args.len() > 0 && args[0] == "reload"@ {
        DenvAction::Reload
    } else {
        DenvAction::Usage
    }
}

/// What `denv allow|deny|reload` asks for.
pub fn command(args: &[String]) -> (r: DenvAction)
    ensures
        r == denv_action(strs(args@)),
{
    assert(strs(args@).len() == args@.len());
    if args.len() == 0 {
        return DenvAction::Usage;
    }
    assert(strs(args@)[0] == args@[0]@);
    if str_eq(args[0].as_str(), "allow") {
        DenvAction::Allow
    } else if str_eq(args[0].as_str(), "deny") {
        DenvAction::Deny
    } else if str_eq(args[0].as_str(), "reload") {
        DenvAction::Reload
    } else {
        DenvAction::Usage
    }
}

/// The changes of a command and its status.
pub struct CommandOutcome {
    pub status: i32,
    pub changes: Vec<EnvChange>,
}

pub open spec fn result_changes(r: Result<Vec<EnvChange>, String>) -> Seq<ChangeView> {
    match r {
        Ok(cs) => change_views(cs@),
        Err(_) => Seq::empty(),
    }
}

/// The status of a command that has a result, or an error.
pub open spec fn outcome_status(done: bool) -> i32 {
    if done {
        0
    } else {
        1
    }
}

/// What becomes of a command's result: its changes, or an error that is told.
pub fn command_outcome(result: Result<Vec<EnvChange>, String>) -> (r: (CommandOutcome, String))
    ensures
        r.0.status == outcome_status(result is Ok),
        r.0.status == (if result is Ok {
            0i32
        } else {
            1i32
        }),
        change_views(r.0.changes@) == result_changes(result),
        r.1@ == (match result {
            Ok(_) => Seq::empty(),
            Err(e) => "denv: "@ + e@ + "\n"@,
        }),
{
    match result {
        Ok(changes) => (CommandOutcome { status: 0, changes }, String::new()),
        Err(e) => {
            let mut out = chars_of("denv: ");
            push_str(&mut out, e.as_str());
            push_str(&mut out, "\n");
            let none: Vec<EnvChange> = Vec::new();
            assert(change_views(none@) =~= Seq::empty());
            (CommandOutcome { status: 1, changes: none }, string_of(out.as_slice()))
        },
    }
}

pub open spec fn envrc_place(found: Option<FilesView>) -> Result<Seq<char>, Seq<char>> {
    match found {
        None => Err("no .envrc or .env found"@),
        Some(f) => if f.envrc is Some {
            Ok(joined_path(f.dir, ".envrc"@))
        } else {
            Err("no .envrc found"@)
        },
    }
}

/// The `.envrc` that `denv allow` and `denv deny` speak of.
pub fn envrc_path(found: &Option<EnvFiles>) -> (r: Result<String, String>)
    ensures
        text_result(r) == envrc_place(opt_files(*found)),
{
    match found {
        None => Err(String::from_str("no .envrc or .env found")),
        Some(f) => if f.envrc.is_some() {
            Ok(join_path(f.dir.as_str(), ".envrc"))
        } else {
            Err(String::from_str("no .envrc found"))
        },
    }
}

/// What `denv allow` tells.
pub fn allowed_report(path: &str) -> (r: String)
    ensures
        r@ == "denv: allowed "@ + path@ + "\n"@,
{
    text3("denv: allowed ", path, "\n")
}

/// What `denv deny` tells, from whether the file was trusted.
pub fn denied_report(path: &str, was_allowed: bool) -> (r: String)
    ensures
        r@ == (if was_allowed {
            "denv: denied "@ + path@ + "\n"@
        } else {
            "denv: not currently allowed\n"@
        }),
{
    if was_allowed {
        text3("denv: denied ", path, "\n")
    } else {
        String::from_str("denv: not currently allowed\n")
    }
}

// -- Running an `.envrc` --

/// A text within single quotes of the shell.
pub open spec fn sh_quoted_from(s: Seq<char>, i: int) -> Seq<char>
    decreases s.len() - i,
{
    if i >= s.len() {
        Seq::empty()
    } else if s[i] == '\'' {
        seq!['\'', '\\', '\'', '\''] + sh_quoted_from(s, i + 1)
    } else {
        seq![s[i]] + sh_quoted_from(s, i + 1)
    }
}

pub open spec fn sh_quoted(s: Seq<char>) -> Seq<char> {
    seq!['\''] + sh_quoted_from(s, 0) + seq!['\'']
}

fn push_quoted(out: &mut Vec<char>, value: &str)
    ensures
        final(out)@ == old(out)@ + sh_quoted(value@),
{
    let v = chars_of(value);
    let ghost start = out@;
    out.push('\'');
    let mut i: usize = 0;
    let ghost goal = start + sh_quoted(v@);
    assert(out@ + sh_quoted_from(v@, 0) + seq!['\''] =~= goal);
    while i < v.len()
        invariant
            i <= v.len(),
            out@ + sh_quoted_from(v@, i as int) + seq!['\''] == goal,
        decreases v.len() - i,
    {
        let ghost had = out@;
        let c = v[i];
        if c == '\'' {
            out.push('\'');
            out.push('\\');
            out.push('\'');
            out.push('\'');
            assert(out@ =~= had + seq!['\'', '\\', '\'', '\'']);
        } else {
            out.push(c);
            assert(out@ =~= had + seq![c]);
        }
        assert(had + sh_quoted_from(v@, i as int) =~= out@ + sh_quoted_from(v@, i + 1));
        i += 1;
    }
    out.push('\'');
    assert(out@ =~= goal);
}

/// Appends a text as one word of the shell.
pub fn push_sh_escaped(out: &mut String, value: &str)
    ensures
        final(out)@ == old(out)@ + sh_quoted(value@),
{
    let mut v = chars_of(out.as_str());
    push_quoted(&mut v, value);
    *out = string_of(v.as_slice());
}

pub open spec fn export_lines(entries: Seq<(Seq<char>, Seq<char>)>, i: int) -> Seq<char>
    decreases entries.len() - i,
{
    if i >= entries.len() {
        Seq::empty()
    } else {
        "export "@ + entries[i].0 + seq!['='] + sh_quoted(entries[i].1) + seq!['\n']
            + export_lines(entries, i + 1)
    }
}

/// The script that runs an `.envrc` and exports the variables of a `.env` between two copies of
/// the environment.
pub open spec fn eval_text(
    prelude: Seq<char>,
    before: Seq<char>,
    envrc: Option<Seq<char>>,
    entries: Seq<(Seq<char>, Seq<char>)>,
    after: Seq<char>,
) -> Seq<char> {
    prelude + seq!['\n'] + "env -0 > "@ + sh_quoted(before) + seq!['\n'] + (match envrc {
        Some(path) => ". "@ + sh_quoted(path) + seq!['\n'],
        None => Seq::empty(),
    }) + export_lines(entries, 0) + ("env -0 > "@ + sh_quoted(after) + seq!['\n'])
}

/// The script that runs an `.envrc`.
pub fn eval_script(
    prelude: &str,
    before: &str,
    envrc: &Option<String>,
    entries: &Vec<(String, String)>,
    after: &str,
) -> (r: String)
    ensures
        r@ == eval_text(prelude@, before@, opt_view(*envrc), pair_views(entries@), after@),
{
    let mut out = chars_of(prelude);
    out.push('\n');
    push_str(&mut out, "env -0 > ");
    push_quoted(&mut out, before);
    out.push('\n');
    let ghost had = out@;
    match envrc {
        Some(path) => {
            push_str(&mut out, ". ");
            push_quoted(&mut out, path.as_str());
            out.push('\n');
        },
        None => {},
    }
    let ghost front = out@;
    let ghost sourced = match opt_view(*envrc) {
        Some(path) => ". "@ + sh_quoted(path) + seq!['\n'],
        None => Seq::empty(),
    };
    assert(front =~= had + sourced);
    let ghost all = pair_views(entries@);
    let mut i: usize = 0;
    assert(out@ + export_lines(all, 0) =~= front + export_lines(all, 0));
    while i < entries.len()
        invariant
            i <= entries.len(),
            all == pair_views(entries@),
            out@ + export_lines(all, i as int) == front + export_lines(all, 0),
        decreases entries.len() - i,
    {
        let ghost was = out@;
        assert(all[i as int].0 == entries@[i as int].0@ && all[i as int].1
            == entries@[i as int].1@);
        push_str(&mut out, "export ");
        push_str(&mut out, entries[i].0.as_str());
        out.push('=');
        push_quoted(&mut out, entries[i].1.as_str());
        out.push('\n');
        assert(was + export_lines(all, i as int) =~= out@ + export_lines(all, i + 1));
        i += 1;
    }
    assert(out@ + export_lines(all, i as int) =~= out@);
    push_str(&mut out, "env -0 > ");
    push_quoted(&mut out, after);
    out.push('\n');
    assert(out@ =~= eval_text(prelude@, before@, opt_view(*envrc), all, after@));
    string_of(out.as_slice())
}

/// The entries whose variables do not have their values yet, in order.
pub open spec fn unmet(
    entries: Seq<(Seq<char>, Seq<char>)>,
    values: Seq<Option<Seq<char>>>,
    n: int,
) -> Seq<(Seq<char>, Seq<char>)>
    decreases n,
{
    if n <= 0 {
        Seq::empty()
    } else if values[n - 1] == Some(entries[n - 1].1) {
        unmet(entries, values, n - 1)
    } else {
        unmet(entries, values, n - 1).push(entries[n - 1])
    }
}

/// The difference that a `.env` makes alone.
pub open spec fn dotenv_diff(
    entries: Seq<(Seq<char>, Seq<char>)>,
    values: Seq<Option<Seq<char>>>,
) -> DiffView {
    DiffView { set: unmet(entries, values, entries.len() as int), unset: Seq::empty() }
}

/// The difference that a `.env` makes alone, from the values that its variables have now.
pub fn diff_dotenv_only(
    entries: &Vec<(String, String)>,
    values: &Vec<Option<String>>,
) -> (r: EnvDiff)
    requires
        values.len() == entries.len(),
    ensures
        r@ == dotenv_diff(pair_views(entries@), opt_views(values@)),
        r@ == (DiffView {
            set: unmet(
                pair_views(entries@),
                opt_views(values@),
                entries.len() as int,
            ),
            unset: Seq::empty(),
        }),
{
    let ghost all = pair_views(entries@);
    let ghost vals = opt_views(values@);
    let mut set: Vec<(String, String)> = Vec::new();
    let mut i: usize = 0;
    assert(pair_views(set@) =~= Seq::empty());
    while i < entries.len()
        invariant
            i <= entries.len(),
            values.len() == entries.len(),
            all == pair_views(entries@),
            vals == opt_views(values@),
            pair_views(set@) == unmet(all, vals, i as int),
        decreases entries.len() - i,
    {
        let met = match &values[i] {
            Some(v) => str_eq(v.as_str(), entries[i].1.as_str()),
            None => false,
        };
        assert(all[i as int] == (entries@[i as int].0@, entries@[i as int].1@));
        assert(met == (vals[i as int] == Some(all[i as int].1)));
        if !met {
            let ghost had = pair_views(set@);
            set.push((entries[i].0.clone(), entries[i].1.clone()));
            assert(pair_views(set@) =~= had.push(all[i as int]));
        }
        i += 1;
    }
    let r = EnvDiff { set, unset: Vec::new() };
    assert(r@.unset =~= Seq::empty());
    r
}

// -- Directives --

/// Whether a line sets or removes a variable.
pub open spec fn is_directive(line: Seq<char>) -> bool {
    let t = line.take(without_semicolons(line, line.len() as int));
    if starts_with(t, "export "@) {
        t.skip("export "@.len() as int).contains('=')
    } else {
        starts_with(t, "unset "@)
    }
}

pub open spec fn without_semicolons(s: Seq<char>, n: int) -> int
    decreases n,
{
    if n > 0 && s[n - 1] == ';' {
        without_semicolons(s, n - 1)
    } else {
        n
    }
}

pub open spec fn directives(all: Seq<Seq<char>>, i: int) -> nat
    decreases all.len() - i,
{
    if i >= all.len() {
        0
    } else {
        directives(all, i + 1) + if is_directive(all[i]) {
            1nat
        } else {
            0nat
        }
    }
}

fn line_is_directive(line: &str) -> (r: bool)
    ensures
        r == is_directive(line@),
{
    let v = chars_of(line);
    let mut n: usize = v.len();
    while n > 0 && v[n - 1] == ';'
        invariant
            n <= v.len(),
            without_semicolons(v@, n as int) == without_semicolons(v@, v@.len() as int),
        decreases n,
    {
        n -= 1;
    }
    let t = head_of(&v, n);
    if has_prefix_str(&t, "export ") {
        let k = chars_of("export ").len();
        let rest = tail_of(&t, k);
        has_char(&rest, '=')
    } else {
        has_prefix_str(&t, "unset ")
    }
}

/// The number of lines that set or remove a variable.
pub fn apply_bash_output_bench(output: &str) -> (r: usize)
    ensures
        r == directives(lines(output@), 0),
{
    let all = lines_of(output);
    let ghost lv = strs(all@);
    assert(lv.len() == all@.len());
    let mut count: usize = 0;
    let mut i: usize = 0;
    while i < all.len()
        invariant
            i <= all.len(),
            count <= i,
            lv == strs(all@),
            lv.len() == all@.len(),
            count + directives(lv, i as int) == directives(lv, 0),
        decreases all.len() - i,
    {
        assert(lv[i as int] == all@[i as int]@);
        if line_is_directive(all[i].as_str()) {
            count += 1;
        }
        i += 1;
    }
    count
}

/// The variables that tell programs of the shell.
pub open spec fn init_changes(pid: u32) -> Seq<ChangeView> {
    seq![
        ChangeView::Assign("__DENV_PID"@, decimal(pid as nat)),
        ChangeView::Assign("__DENV_SHELL"@, "bash"@),
    ]
}

/// The variables that tell programs of the shell, set once when it starts.
pub fn init(pid: u32) -> (r: Vec<EnvChange>)
    ensures
        change_views(r@) == init_changes(pid),
        change_views(r@) == seq![
            ChangeView::Assign("__DENV_PID"@, decimal(pid as nat)),
            ChangeView::Assign("__DENV_SHELL"@, "bash"@),
        ],
{
    let mut out: Vec<EnvChange> = Vec::new();
    let digits = decimal_of(pid as u64);
    push_change(
        &mut out,
        EnvChange::Assign(String::from_str("__DENV_PID"), string_of(digits.as_slice())),
    );
    push_change(
        &mut out,
        EnvChange::Assign(String::from_str("__DENV_SHELL"), String::from_str("bash")),
    );
    assert(change_views(out@) =~= seq![
        ChangeView::Assign("__DENV_PID"@, decimal(pid as nat)),
        ChangeView::Assign("__DENV_SHELL"@, "bash"@),
    ]);
    out
}

} // verus!
