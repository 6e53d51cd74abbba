//! What is done to a command line between its being typed and its being run or recorded.
use vstd::prelude::*;

use crate::alias::{alias_of, AliasMap, AliasView};
use crate::builtin::{is_builtin, is_builtin_name, text3};
use crate::lex::{
    parse_simple_command_words, simple_words, tokens, word_views, SimpleView, SimpleWord,
};
use crate::parse::{quote_state, QuoteState};
use crate::text::{
    chars_of, ends_with, has_prefix_str, has_suffix_str, head_of, is_text, is_whitespace, push_all,
    push_str, spec_is_whitespace, starts_with, string_of, tail_of, trim, trim_end_of, trim_start_of,
    trimmed, trimmed_end, trimmed_start,
};

verus! {

// -- Continuation lines --

/// The text from `i` on with `\<newline>` taken out and other newlines as spaces.
pub open spec fn lines_joined(s: Seq<char>, i: int) -> Seq<char>
    decreases s.len() - i,
{
    if i < 0 || i >= s.len() {
        Seq::empty()
    } else if s[i] == '\\' && i + 1 < s.len() && s[i + 1] == '\n' {
        lines_joined(s, i + 2)
    } else if s[i] == '\n' {
        seq![' '] + lines_joined(s, i + 1)
    } else {
        seq![s[i]] + lines_joined(s, i + 1)
    }
}

/// Join continuation lines for execution: strip `\<newline>` sequences,
/// replace remaining newlines with spaces.
pub fn join_continuation_lines(input: &str) -> (r: String)
    ensures
        r@ == lines_joined(input@, 0),
{
    let s = chars_of(input);
    let n = s.len();
    let mut out = String::new();
    let mut i: usize = 0;
    assert(out@ + lines_joined(s@, 0) =~= lines_joined(s@, 0));
    while i < n
        invariant
            i <= n,
            n == s.len(),
            s@ == input@,
            lines_joined(s@, 0) == out@ + lines_joined(s@, i as int),
        decreases n - i,
    {
        let ghost had = out@;
        if s[i] == '\\' && n - i > 1 && s[i + 1] == '\n' {
            i += 2;
        } else {
            let c = if s[i] == '\n' {
                ' '
            } else {
                s[i]
            };
            out.push(c);
            i += 1;
            assert(had + (seq![c] + lines_joined(s@, i as int)) =~= had.push(c) + lines_joined(
                s@,
                i as int,
            ));
        }
    }
    assert(out@ + Seq::empty() =~= out@);
    out
}

/// A line without newlines is run as it is typed.
pub proof fn law_single_line_unchanged(s: Seq<char>, i: int)
    requires
        0 <= i <= s.len(),
        !s.contains('\n'),
    ensures
        lines_joined(s, i) == s.skip(i),
    decreases s.len() - i,
{
    if i < s.len() {
        assert(s[i] != '\n');
        if i + 1 < s.len() {
            assert(s[i + 1] != '\n');
        }
        law_single_line_unchanged(s, i + 1);
        assert(seq![s[i]] + s.skip(i + 1) =~= s.skip(i));
    } else {
        assert(s.skip(i) =~= Seq::empty());
    }
}

/// A joined line holds no newline.
pub proof fn law_joined_has_no_newline(s: Seq<char>, i: int)
    ensures
        !lines_joined(s, i).contains('\n'),
    decreases s.len() - i,
{
    if 0 <= i < s.len() {
        if s[i] == '\\' && i + 1 < s.len() && s[i + 1] == '\n' {
            law_joined_has_no_newline(s, i + 2);
        } else {
            law_joined_has_no_newline(s, i + 1);
            let r = lines_joined(s, i);
            let t = lines_joined(s, i + 1);
            assert forall|k: int| 0 <= k < r.len() implies r[k] != '\n' by {
                if k > 0 {
                    assert(r[k] == t[k - 1]);
                }
            }
        }
    }
}

/// Whether a line needs another: a quote is open, a backslash ends it, or an operator that
/// takes a right side does.
pub open spec fn line_continues(input: Seq<char>) -> bool {
    let t = trimmed_end(input);
    let q = quote_state(t);
    &&& t.len() > 0
    &&& q.single || q.double || q.escape || ends_with(t, "|"@) || ends_with(t, "&&"@) || ends_with(
        t,
        "||"@,
    )
}

/// Check if input needs a continuation line (open quotes, trailing operator, etc.)
pub fn needs_continuation(input: &str) -> (r: bool)
    ensures
        r == line_continues(input@),
{
    let s = chars_of(input);
    let t = trim_end_of(&s);
    if t.len() == 0 {
        return false;
    }
    let q = scan_quote_state(&t);
    if q.single || q.double || q.escape {
        return true;
    }
    has_suffix_str(&t, "|") || has_suffix_str(&t, "&&") || has_suffix_str(&t, "||")
}

pub fn scan_quote_state(s: &Vec<char>) -> (r: QuoteState)
    ensures
        r == quote_state(s@),
{
    let mut q = QuoteState { single: false, double: false, escape: false };
    let mut i: usize = 0;
    while i < s.len()
        invariant
            i <= s.len(),
            q == quote_state(s@.take(i as int)),
        decreases s.len() - i,
    {
        let c = s[i];
        assert(s@.take(i + 1).drop_last() =~= s@.take(i as int));
        if q.escape {
            q.escape = false;
        } else if c == '\\' && !q.single {
            q.escape = true;
        } else if c == '\'' && !q.double {
            q.single = !q.single;
        } else if c == '"' && !q.single {
            q.double = !q.double;
        }
        i += 1;
    }
    assert(s@.take(i as int) =~= s@);
    q
}

// -- Shorthand for cd --

/// How a line that may be a shorthand for `cd` is to be run.
pub enum CdRewrite {
    /// As it is.
    Unchanged,
    /// As another line.
    Line(String),
    /// As another line, if a path is a directory.
    IfDirectory { path: String, line: String },
}

pub enum RewriteView {
    Unchanged,
    Line(Seq<char>),
    IfDirectory { path: Seq<char>, line: Seq<char> },
}

impl View for CdRewrite {
    type V = RewriteView;

    open spec fn view(&self) -> RewriteView {
        match self {
            CdRewrite::Unchanged => RewriteView::Unchanged,
            CdRewrite::Line(l) => RewriteView::Line(l@),
            CdRewrite::IfDirectory { path, line } => RewriteView::IfDirectory {
                path: path@,
                line: line@,
            },
        }
    }
}

pub open spec fn all_dots(s: Seq<char>) -> bool {
    forall|i: int| 0 <= i < s.len() ==> s[i] == '.'
}

/// The path `n` levels up.
pub open spec fn levels_up(n: int) -> Seq<char>
    decreases n,
{
    if n <= 0 {
        Seq::empty()
    } else if n == 1 {
        ".."@
    } else {
        levels_up(n - 1) + "/.."@
    }
}

/// A path with a leading tilde as the home directory.
pub open spec fn tilde_path(text: Seq<char>, home: Seq<char>) -> Seq<char> {
    if text.len() > 0 && text[0] == '~' {
        home + text.skip(1)
    } else {
        text
    }
}

/// How the words of a line decide on its being a shorthand for `cd`:
/// two dots or more go up, one level less than there are dots; a single word that is no
/// builtin and no alias may name a directory.
pub open spec fn cd_rewritten(
    line: Seq<char>,
    ws: Option<Seq<SimpleView>>,
    aliases: Seq<AliasView>,
    home: Seq<char>,
) -> RewriteView {
    match ws {
        None => RewriteView::Unchanged,
        Some(words) => {
            let first = words[0];
            if words.len() != 1 || (!first.quoted && first.text == "cd"@) {
                RewriteView::Unchanged
            } else if !first.quoted && first.text.len() >= 2 && all_dots(first.text) {
                RewriteView::Line("cd "@ + levels_up(first.text.len() - 1))
            } else if is_builtin_name(first.text) || alias_of(aliases, first.text) is Some {
                RewriteView::Unchanged
            } else {
                RewriteView::IfDirectory {
                    path: tilde_path(first.text, home),
                    line: "cd "@ + trimmed(line),
                }
            }
        },
    }
}

fn dots_only(s: &Vec<char>) -> (r: bool)
    ensures
        r == all_dots(s@),
{
    let mut i: usize = 0;
    while i < s.len()
        invariant
            i <= s.len(),
            forall|k: int| 0 <= k < i ==> s@[k] == '.',
        decreases s.len() - i,
    {
        if s[i] != '.' {
            return false;
        }
        i += 1;
    }
    true
}

fn up_path(n: usize) -> (r: Vec<char>)
    ensures
        r@ == levels_up(n as int),
{
    let mut out: Vec<char> = Vec::new();
    let mut i: usize = 0;
    while i < n
        invariant
            i <= n,
            out@ == levels_up(i as int),
        decreases n - i,
    {
        if i == 0 {
            push_str(&mut out, "..");
            assert(out@ =~= ".."@);
        } else {
            push_str(&mut out, "/..");
        }
        i += 1;
    }
    out
}

/// How the words of a line decide on its being a shorthand for `cd`.
pub fn rewrite_cd_words(
    line: &str,
    words: &Option<Vec<SimpleWord>>,
    aliases: &AliasMap,
    home: &str,
) -> (r: CdRewrite)
    requires
        words matches Some(v) ==> v.len() > 0,
    ensures
        r@ == cd_rewritten(
            line@,
            match words {
                Some(v) => Some(word_views(v@)),
                None => None,
            },
            aliases@,
            home@,
        ),
{
    match words {
        None => CdRewrite::Unchanged,
        Some(v) => {
            assert(word_views(v@)[0] == v@[0]@);
            let text = chars_of(v[0].text.as_str());
            let quoted = v[0].quoted;
            if v.len() != 1 || (!quoted && is_text(&text, "cd")) {
                return CdRewrite::Unchanged;
            }
            if !quoted && text.len() >= 2 && dots_only(&text) {
                let mut out = chars_of("cd ");
                let up = up_path(text.len() - 1);
                push_all(&mut out, up.as_slice());
                return CdRewrite::Line(string_of(out.as_slice()));
            }
            if is_builtin(v[0].text.as_str()) || aliases.get(v[0].text.as_str()).is_some() {
                return CdRewrite::Unchanged;
            }
            let path = if text.len() > 0 && text[0] == '~' {
                let mut p = chars_of(home);
                let rest = tail_of(&text, 1);
                push_all(&mut p, rest.as_slice());
                string_of(p.as_slice())
            } else {
                string_of(text.as_slice())
            };
            let body = trim(line);
            let mut out = chars_of("cd ");
            push_str(&mut out, body.as_str());
            CdRewrite::IfDirectory { path, line: string_of(out.as_slice()) }
        },
    }
}

/// Rewrite shorthand cd forms:
///   ".." → "cd ..", "..." → "cd ../..", "...." → "cd ../../..", etc.
///   single-arg that is a directory (and not an alias/builtin/executable) → "cd <arg>"
pub fn maybe_rewrite_cd(line: &str, aliases: &AliasMap, home: &str) -> (r: CdRewrite)
    ensures
        r@ == cd_rewritten(line@, simple_words(tokens(trimmed(line@))), aliases@, home@),
{
    let body = trim(line);
    let words = parse_simple_command_words(body.as_str());
    rewrite_cd_words(line, &words, aliases, home)
}

/// The line to run, once it is known whether the path is a directory.
pub open spec fn line_to_run(line: Seq<char>, rewrite: RewriteView, is_dir: bool) -> Seq<char> {
    match rewrite {
        RewriteView::Unchanged => line,
        RewriteView::Line(l) => l,
        RewriteView::IfDirectory { path, line: l } => if is_dir {
            l
        } else {
            line
        },
    }
}

/// The line to run, once it is known whether the path is a directory.
pub fn rewritten_line(line: &str, rewrite: CdRewrite, is_dir: bool) -> (r: String)
    ensures
        r@ == line_to_run(line@, rewrite@, is_dir),
        r@ == (match rewrite@ {
            RewriteView::Unchanged => line@,
            RewriteView::Line(l) => l,
            RewriteView::IfDirectory { path, line: l } => if is_dir {
                l
            } else {
                line@
            },
        }),
{
    match rewrite {
        CdRewrite::Line(l) => l,
        CdRewrite::IfDirectory { path: _, line: l } => if is_dir {
            l
        } else {
            let s = chars_of(line);
            string_of(s.as_slice())
        },
        CdRewrite::Unchanged => {
            let s = chars_of(line);
            string_of(s.as_slice())
        },
    }
}

// -- Recording directory changes --

/// Whether a character ends the argument of `cd`.
pub open spec fn ends_argument(c: char) -> bool {
    spec_is_whitespace(c) || c == '&' || c == '|' || c == ';'
}

pub fn is_argument_end(c: char) -> (r: bool)
    ensures
        r == ends_argument(c),
{
    is_whitespace(c) || c == '&' || c == '|' || c == ';'
}

/// Number of characters of the argument at the start of `s`.
pub open spec fn argument_len(s: Seq<char>) -> int
    decreases s.len(),
{
    if s.len() > 0 && !ends_argument(s[0]) {
        1 + argument_len(s.drop_first())
    } else {
        0
    }
}

pub fn argument_end(s: &Vec<char>) -> (r: usize)
    ensures
        r == argument_len(s@),
        r <= s.len(),
{
    let mut i: usize = 0;
    assert(s@.skip(0) =~= s@);
    while i < s.len() && !is_argument_end(s[i])
        invariant
            i <= s.len(),
            argument_len(s@) == i + argument_len(s@.skip(i as int)),
        decreases s.len() - i,
    {
        assert(s@.skip(i as int).drop_first() =~= s@.skip(i + 1));
        i += 1;
    }
    i
}

/// A relative path in a `cd` or `z` line: what stands before it, the path, and what follows.
pub struct CdPath {
    pub prefix: String,
    pub path: String,
    pub suffix: String,
}

pub struct CdPathView {
    pub prefix: Seq<char>,
    pub path: Seq<char>,
    pub suffix: Seq<char>,
}

impl View for CdPath {
    type V = CdPathView;

    open spec fn view(&self) -> CdPathView {
        CdPathView { prefix: self.prefix@, path: self.path@, suffix: self.suffix@ }
    }
}

/// The relative path that is to be resolved before the line is recorded: one that starts
/// neither at the root nor with a tilde and is not the previous directory.
pub open spec fn relative_cd(line: Seq<char>) -> Option<CdPathView> {
    let t = trimmed(line);
    if starts_with(t, "cd "@) {
        relative_argument("cd "@, trimmed_start(t.skip("cd "@.len() as int)))
    } else if starts_with(t, "z "@) {
        relative_argument("z "@, trimmed_start(t.skip("z "@.len() as int)))
    } else {
        None
    }
}

pub open spec fn relative_argument(prefix: Seq<char>, rest: Seq<char>) -> Option<CdPathView> {
    if starts_with(rest, "/"@) || starts_with(rest, "~"@) || rest == "-"@ || rest.len() == 0 {
        None
    } else {
        let n = argument_len(rest);
        Some(CdPathView { prefix, path: rest.take(n), suffix: rest.skip(n) })
    }
}

fn relative_argument_of(prefix: &str, rest: &Vec<char>) -> (r: Option<CdPath>)
    ensures
        (match r {
            Some(p) => Some(p@),
            None => None,
        }) == relative_argument(prefix@, rest@),
{
    if has_prefix_str(rest, "/") || has_prefix_str(rest, "~") || is_text(rest, "-") || rest.len()
        == 0 {
        return None;
    }
    let n = argument_end(rest);
    let p = chars_of(prefix);
    let a = head_of(rest, n);
    let b = tail_of(rest, n);
    Some(
        CdPath {
            prefix: string_of(p.as_slice()),
            path: string_of(a.as_slice()),
            suffix: string_of(b.as_slice()),
        },
    )
}

/// The relative path of a `cd` or `z` line, which is resolved for history so that `z` can match
/// it.
pub fn cd_path_for_history(line: &str) -> (r: Option<CdPath>)
    ensures
        (match r {
            Some(p) => Some(p@),
            None => None,
        }) == relative_cd(line@),
{
    let s = chars_of(line);
    let t = crate::text::trim_of(&s);
    proof {
        reveal_strlit("cd ");
        reveal_strlit("z ");
    }
    if has_prefix_str(&t, "cd ") {
        let rest = tail_of(&t, 3);
        let arg = trim_start_of(&rest);
        return relative_argument_of("cd ", &arg);
    }
    if has_prefix_str(&t, "z ") {
        let rest = tail_of(&t, 2);
        let arg = trim_start_of(&rest);
        return relative_argument_of("z ", &arg);
    }
    None
}

/// A line with its relative path resolved, where it has one and the absolute path is known.
pub open spec fn resolved_line(line: Seq<char>, resolved: Option<Seq<char>>) -> Seq<char> {
    match (relative_cd(line), resolved) {
        (Some(p), Some(path)) => p.prefix + path + p.suffix,
        _ => line,
    }
}

/// Resolve relative cd/z paths to absolute for history, so `z` can match them.
/// `resolved` is the absolute path, where it is known.
pub fn resolve_cd_for_history(line: &str, resolved: &Option<String>) -> (r: String)
    ensures
        r@ == resolved_line(
            line@,
            match resolved {
                Some(path) => Some(path@),
                None => None,
            },
        ),
        r@ == (match (relative_cd(line@), resolved) {
            (Some(p), Some(path)) => p.prefix + path@ + p.suffix,
            _ => line@,
        }),
{
    match (cd_path_for_history(line), resolved) {
        (Some(p), Some(path)) => text3(p.prefix.as_str(), path.as_str(), p.suffix.as_str()),
        _ => {
            let s = chars_of(line);
            string_of(s.as_slice())
        },
    }
}

/// Whether a line is recorded: all are but `l` alone.
pub open spec fn goes_on_record(line: Seq<char>) -> bool {
    trimmed(line) != "l"@
}

/// The entry of the history for a line: listing the directory is not recorded.
pub fn is_recorded(history_line: &str) -> (r: bool)
    ensures
        r == goes_on_record(history_line@),
        r == (trimmed(history_line@) != "l"@),
{
    let s = chars_of(history_line);
    let t = crate::text::trim_of(&s);
    !is_text(&t, "l")
}

// -- Escape sequences --

/// A path with its spaces percent-encoded.
pub open spec fn spaces_encoded(s: Seq<char>) -> Seq<char>
    decreases s.len(),
{
    if s.len() == 0 {
        Seq::empty()
    } else {
        spaces_encoded(s.drop_last()) + (if s.last() == ' ' {
            "%20"@
        } else {
            seq![s.last()]
        })
    }
}

/// The sequence that tells the terminal the working directory; nothing for an unknown one.
pub open spec fn directory_notice(hostname: Seq<char>, pwd: Seq<char>) -> Seq<char> {
    if pwd.len() == 0 {
        Seq::empty()
    } else {
        "\x1b]7;file://"@ + hostname + spaces_encoded(pwd) + "\x07"@
    }
}

/// OSC 7, so that terminal emulators track the working directory.
pub fn cwd_notice(hostname: &str, pwd: &str) -> (r: String)
    ensures
        r@ == directory_notice(hostname@, pwd@),
{
    let p = chars_of(pwd);
    if p.len() == 0 {
        let r = String::new();
        assert(r@ =~= Seq::empty());
        return r;
    }
    let mut out = chars_of("\x1b]7;file://");
    push_str(&mut out, hostname);
    let ghost start = out@;
    let mut i: usize = 0;
    assert(spaces_encoded(p@.take(0)) =~= Seq::empty());
    assert(start + Seq::<char>::empty() =~= start);
    while i < p.len()
        invariant
            i <= p.len(),
            out@ == start + spaces_encoded(p@.take(i as int)),
        decreases p.len() - i,
    {
        let ghost had = out@;
        assert(p@.take(i + 1).drop_last() =~= p@.take(i as int));
        if p[i] == ' ' {
            push_str(&mut out, "%20");
        } else {
            out.push(p[i]);
        }
        assert(out@ =~= start + spaces_encoded(p@.take(i + 1)));
        i += 1;
    }
    assert(p@.take(i as int) =~= p@);
    push_str(&mut out, "\x07");
    string_of(out.as_slice())
}

/// Character number `n` of the base64 alphabet.
pub open spec fn base64_char(n: int) -> char {
    if n < 26 {
        (65 + n) as char
    } else if n < 52 {
        (97 + n - 26) as char
    } else if n < 62 {
        (48 + n - 52) as char
    } else if n == 62 {
        '+'
    } else {
        '/'
    }
}

/// The base64 encoding of the bytes from `i` on: three bytes make four characters, and a part
/// of fewer bytes is filled up with `=`.
pub open spec fn base64(s: Seq<u8>, i: int) -> Seq<char>
    decreases s.len() - i,
{
    if i < 0 || i >= s.len() {
        Seq::empty()
    } else if i + 1 == s.len() {
        seq![base64_char(s[i] as int / 4), base64_char((s[i] as int % 4) * 16), '=', '=']
    } else if i + 2 == s.len() {
        seq![
            base64_char(s[i] as int / 4),
            base64_char((s[i] as int % 4) * 16 + s[i + 1] as int / 16),
            base64_char((s[i + 1] as int % 16) * 4),
            '=',
        ]
    } else {
        seq![
            base64_char(s[i] as int / 4),
            base64_char((s[i] as int % 4) * 16 + s[i + 1] as int / 16),
            base64_char((s[i + 1] as int % 16) * 4 + s[i + 2] as int / 64),
            base64_char(s[i + 2] as int % 64),
        ] + base64(s, i + 3)
    }
}

fn base64_symbol(n: u8) -> (r: char)
    requires
        n < 64,
    ensures
        r == base64_char(n as int),
{
    if n < 26 {
        (65 + n) as char
    } else if n < 52 {
        (97 + (n - 26)) as char
    } else if n < 62 {
        (48 + (n - 52)) as char
    } else if n == 62 {
        '+'
    } else {
        '/'
    }
}

pub fn base64_encode(input: &[u8]) -> (r: String)
    ensures
        r@ == base64(input@, 0),
{
    let n = input.len();
    let mut out = String::new();
    let mut i: usize = 0;
    assert(out@ + base64(input@, 0) =~= base64(input@, 0));
    while i < n
        invariant
            i <= n,
            n == input.len(),
            base64(input@, 0) == out@ + base64(input@, i as int),
        decreases n - i,
    {
        let ghost had = out@;
        let b0 = input[i];
        out.push(base64_symbol(b0 / 4));
        if n - i == 1 {
            out.push(base64_symbol((b0 % 4) * 16));
            out.push('=');
            out.push('=');
            assert(out@ =~= had + base64(input@, i as int));
            return out;
        }
        let b1 = input[i + 1];
        out.push(base64_symbol((b0 % 4) * 16 + b1 / 16));
        if n - i == 2 {
            out.push(base64_symbol((b1 % 16) * 4));
            out.push('=');
            assert(out@ =~= had + base64(input@, i as int));
            return out;
        }
        let b2 = input[i + 2];
        out.push(base64_symbol((b1 % 16) * 4 + b2 / 64));
        out.push(base64_symbol(b2 % 64));
        assert(out@ + base64(input@, i + 3) =~= had + base64(input@, i as int));
        i += 3;
    }
    assert(out@ + Seq::empty() =~= out@);
    out
}

/// The number of a character of the base64 alphabet.
pub open spec fn base64_value(c: char) -> int {
    let n = c as u32;
    if 65 <= n <= 90 {
        n - 65
    } else if 97 <= n <= 122 {
        n - 97 + 26
    } else if 48 <= n <= 57 {
        n - 48 + 52
    } else if c == '+' {
        62
    } else {
        63
    }
}

/// The bytes that a base64 text stands for.
pub open spec fn base64_decoded(t: Seq<char>) -> Seq<u8>
    decreases t.len(),
{
    if t.len() < 4 {
        Seq::empty()
    } else {
        let a = base64_value(t[0]);
        let b = base64_value(t[1]);
        let c = base64_value(t[2]);
        let d = base64_value(t[3]);
        if t[2] == '=' {
            seq![(a * 4 + b / 16) as u8]
        } else if t[3] == '=' {
            seq![(a * 4 + b / 16) as u8, ((b % 16) * 16 + c / 4) as u8]
        } else {
            seq![
                (a * 4 + b / 16) as u8,
                ((b % 16) * 16 + c / 4) as u8,
                ((c % 4) * 64 + d) as u8,
            ] + base64_decoded(t.skip(4))
        }
    }
}

proof fn lemma_base64_value(n: int)
    requires
        0 <= n < 64,
    ensures
        base64_value(base64_char(n)) == n,
        base64_char(n) != '=',
{
}

/// Decoding an encoded text gives its bytes back.
pub proof fn law_base64_round_trip(s: Seq<u8>, i: int)
    requires
        0 <= i <= s.len(),
    ensures
        base64_decoded(base64(s, i)) == s.skip(i),
    decreases s.len() - i,
{
    let t = base64(s, i);
    if i == s.len() {
        assert(s.skip(i) =~= Seq::empty());
    } else {
        let x = s[i] as int;
        lemma_base64_value(x / 4);
        if i + 1 == s.len() {
            lemma_base64_value((x % 4) * 16);
            assert(base64_decoded(t) =~= s.skip(i));
        } else {
            let y = s[i + 1] as int;
            lemma_base64_value((x % 4) * 16 + y / 16);
            if i + 2 == s.len() {
                lemma_base64_value((y % 16) * 4);
                assert(base64_decoded(t) =~= s.skip(i));
            } else {
                let z = s[i + 2] as int;
                lemma_base64_value((y % 16) * 4 + z / 64);
                lemma_base64_value(z % 64);
                law_base64_round_trip(s, i + 3);
                assert(t.skip(4) =~= base64(s, i + 3));
                assert(base64_decoded(t) =~= s.skip(i));
            }
        }
    }
}

} // verus!
