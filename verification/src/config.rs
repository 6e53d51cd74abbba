//! The configuration file: `set` and `alias` directives.
//!
//! The caller reads the file and expands and exports the variables.
use vstd::prelude::*;

use crate::alias::{with_alias, AliasMap, AliasView};
use crate::byte_paths::{byte_text, bytes_of, opt_text, text_bytes, text_of};
use crate::dirs::{join_path, joined_path, renamed, with_file_name};
use crate::lex::{leading_texts, leading_texts_of, starts_with_word, tokens, tokens_of};
use crate::text::{
    chars_of, decimal, decimal_of, has_prefix_str, head_of, lines, lines_of, push_all, push_str,
    span_from, span_front, starts_with, string_of, strs, tail_of, trim_of, trimmed,
};

verus! {

// -- Where the files are --

pub open spec fn config_place(xdg: Option<Seq<char>>, home: Option<Seq<char>>) -> Seq<char> {
    if xdg is Some {
        joined_path(xdg->0, "ish/config.ish"@)
    } else if home is Some {
        joined_path(home->0, ".config/ish/config.ish"@)
    } else {
        "/etc/ish/config.ish"@
    }
}

/// Where the configuration file is, from `$XDG_CONFIG_HOME` and `$HOME`.
pub fn config_path(xdg: &Option<Vec<u8>>, home: &Option<Vec<u8>>) -> (r: Vec<u8>)
    ensures
        r@ == text_bytes(config_place(opt_text(*xdg), opt_text(*home))),
{
    let path = match xdg {
        Some(dir) => join_path(text_of(dir).as_str(), "ish/config.ish"),
        None => match home {
            Some(dir) => join_path(text_of(dir).as_str(), ".config/ish/config.ish"),
            None => String::from_str("/etc/ish/config.ish"),
        },
    };
    bytes_of(path.as_str())
}

/// The script beside the configuration file.
pub fn init_path(config: &Vec<u8>) -> (r: Vec<u8>)
    ensures
        r@ == text_bytes(renamed(byte_text(config@), "init.sh"@)),
{
    bytes_of(with_file_name(text_of(config).as_str(), "init.sh").as_str())
}

// -- Lines --

/// What a line of the configuration file asks for.
pub enum Directive {
    Nothing,
    /// A variable is to be set to what the first word of a text expands to, and exported. A text
    /// that does not start with a word stands for itself.
    Export { name: String, source: String, expands: bool, lineno: u64 },
    Alias { name: String, words: Vec<String> },
    /// Something is wrong with the line.
    Warn(String),
}

#[verifier::ext_equal]
pub enum DirectiveView {
    Nothing,
    Export { name: Seq<char>, source: Seq<char>, expands: bool, lineno: nat },
    Alias { name: Seq<char>, words: Seq<Seq<char>> },
    Warn(Seq<char>),
}

impl View for Directive {
    type V = DirectiveView;

    open spec fn view(&self) -> DirectiveView {
        match self {
            Directive::Nothing => DirectiveView::Nothing,
            Directive::Export { name, source, expands, lineno } => DirectiveView::Export {
                name: name@,
                source: source@,
                expands: *expands,
                lineno: *lineno as nat,
            },
            Directive::Alias { name, words } => DirectiveView::Alias {
                name: name@,
                words: strs(words@),
            },
            Directive::Warn(text) => DirectiveView::Warn(text@),
        }
    }
}

/// The start of a warning.
pub open spec fn place(path: Seq<char>, lineno: nat) -> Seq<char> {
    "ish: "@ + path + ":"@ + decimal(lineno) + ": "@
}

fn warning(path: &str, lineno: u64, text: &str, tail: &str) -> (r: String)
    ensures
        r@ == place(path@, lineno as nat) + text@ + tail@ + "\n"@,
{
    let mut out = chars_of("ish: ");
    push_str(&mut out, path);
    push_str(&mut out, ":");
    let digits = decimal_of(lineno);
    push_all(&mut out, digits.as_slice());
    push_str(&mut out, ": ");
    push_str(&mut out, text);
    push_str(&mut out, tail);
    push_str(&mut out, "\n");
    string_of(out.as_slice())
}

/// `set` and what follows it: a name, white space, and the text of the value.
pub open spec fn set_directive(rest: Seq<char>, path: Seq<char>, lineno: nat) -> DirectiveView {
    let k = span_front(rest, false);
    if k == 0 {
        DirectiveView::Warn(
            place(path, lineno) + "set: missing variable name"@ + ""@ + "\n"@,
        )
    } else {
        let source = if k < rest.len() {
            trimmed(rest.skip(k + 1))
        } else {
            Seq::empty()
        };
        DirectiveView::Export {
            name: rest.take(k),
            source,
            expands: tokens(source)[0] is Word,
            lineno,
        }
    }
}

/// Reads what follows `set`.
pub fn parse_set(rest: &str, lineno: u64, path: &str) -> (r: Directive)
    ensures
        r@ == set_directive(rest@, path@, lineno as nat),
{
    let v = chars_of(rest);
    let k = span_from(&v, 0, false);
    assert(v@.skip(0) =~= v@);
    if k == 0 {
        return Directive::Warn(warning(path, lineno, "set: missing variable name", ""));
    }
    let name = head_of(&v, k);
    let source: Vec<char> = if k < v.len() {
        let tail = tail_of(&v, k + 1);
        trim_of(&tail)
    } else {
        Vec::new()
    };
    let source = string_of(source.as_slice());
    let expands = starts_with_word(source.as_str());
    Directive::Export { name: string_of(name.as_slice()), source, expands, lineno }
}

/// `alias` and what follows it: a name and the words it stands for.
pub open spec fn alias_directive(rest: Seq<char>, path: Seq<char>, lineno: nat) -> DirectiveView {
    let words = leading_texts(tokens(rest), 0);
    if words.len() == 0 {
        DirectiveView::Warn(place(path, lineno) + "alias: missing name"@ + ""@ + "\n"@)
    } else if words.len() == 1 {
        DirectiveView::Warn(
            place(path, lineno) + ("alias: missing expansion for '"@ + words[0]) + "'"@ + "\n"@,
        )
    } else {
        DirectiveView::Alias { name: words[0], words: words.skip(1) }
    }
}

/// Reads what follows `alias`.
pub fn parse_alias(rest: &str, lineno: u64, path: &str) -> (r: Directive)
    ensures
        r@ == alias_directive(rest@, path@, lineno as nat),
{
    let ts = tokens_of(rest);
    let words = leading_texts_of(&ts);
    let ghost wv = strs(words@);
    assert(wv.len() == words@.len());
    if words.len() == 0 {
        return Directive::Warn(warning(path, lineno, "alias: missing name", ""));
    }
    assert(wv[0] == words@[0]@);
    if words.len() == 1 {
        let mut text = chars_of("alias: missing expansion for '");
        push_str(&mut text, words[0].as_str());
        let text = string_of(text.as_slice());
        return Directive::Warn(warning(path, lineno, text.as_str(), "'"));
    }
    let name = words[0].clone();
    let mut rest_words: Vec<String> = Vec::new();
    let mut i: usize = 1;
    assert(wv.subrange(1, 1) =~= Seq::empty());
    assert(strs(rest_words@) =~= Seq::empty());
    while i < words.len()
        invariant
            1 <= i <= words.len(),
            wv == strs(words@),
            strs(rest_words@) == wv.subrange(1, i as int),
        decreases words.len() - i,
    {
        let ghost had = strs(rest_words@);
        let w = words[i].clone();
        let ghost one = w@;
        assert(wv[i as int] == one);
        rest_words.push(w);
        assert(strs(rest_words@) =~= had.push(one));
        assert(wv.subrange(1, i + 1) =~= had.push(one));
        i += 1;
    }
    assert(wv.subrange(1, i as int) =~= wv.skip(1));
    Directive::Alias { name, words: rest_words }
}

/// What a line asks for. Empty lines and comments ask for nothing.
pub open spec fn line_directive(line: Seq<char>, path: Seq<char>, lineno: nat) -> DirectiveView {
    let t = trimmed(line);
    if t.len() == 0 || t[0] == '#' {
        DirectiveView::Nothing
    } else if starts_with(t, "set "@) {
        set_directive(trimmed(t.skip("set "@.len() as int)), path, lineno)
    } else if starts_with(t, "alias "@) {
        alias_directive(trimmed(t.skip("alias "@.len() as int)), path, lineno)
    } else {
        DirectiveView::Warn(place(path, lineno) + "unrecognized directive: "@ + t + "\n"@)
    }
}

/// Reads a line.
pub fn parse_line(line: &str, lineno: u64, path: &str) -> (r: Directive)
    ensures
        r@ == line_directive(line@, path@, lineno as nat),
{
    let v = chars_of(line);
    let t = trim_of(&v);
    if t.len() == 0 || t[0] == '#' {
        return Directive::Nothing;
    }
    if has_prefix_str(&t, "set ") {
        let n = chars_of("set ").len();
        let tail = tail_of(&t, n);
        let rest = trim_of(&tail);
        return parse_set(string_of(rest.as_slice()).as_str(), lineno, path);
    }
    if has_prefix_str(&t, "alias ") {
        let n = chars_of("alias ").len();
        let tail = tail_of(&t, n);
        let rest = trim_of(&tail);
        return parse_alias(string_of(rest.as_slice()).as_str(), lineno, path);
    }
    let text = string_of(t.as_slice());
    Directive::Warn(warning(path, lineno, "unrecognized directive: ", text.as_str()))
}

// -- The file --

/// What the first `n` lines ask of the caller, in order: exports and warnings.
pub open spec fn requests(all: Seq<Seq<char>>, path: Seq<char>, n: int) -> Seq<DirectiveView>
    decreases n,
{
    if n <= 0 {
        Seq::empty()
    } else {
        let d = line_directive(all[n - 1], path, n as nat);
        match d {
            DirectiveView::Export { .. } => requests(all, path, n - 1).push(d),
            DirectiveView::Warn(_) => requests(all, path, n - 1).push(d),
            _ => requests(all, path, n - 1),
        }
    }
}

/// The aliases after the first `n` lines.
pub open spec fn aliases_after(
    base: Seq<AliasView>,
    all: Seq<Seq<char>>,
    path: Seq<char>,
    n: int,
) -> Seq<AliasView>
    decreases n,
{
    if n <= 0 {
        base
    } else {
        let before = aliases_after(base, all, path, n - 1);
        match line_directive(all[n - 1], path, n as nat) {
            DirectiveView::Alias { name, words } => with_alias(before, name, words),
            _ => before,
        }
    }
}

pub open spec fn directive_views(v: Seq<Directive>) -> Seq<DirectiveView> {
    Seq::new(v.len(), |i: int| v[i]@)
}

/// Reads the configuration file: defines the aliases, and returns the exports and warnings that
/// the caller is to make, in the order of the lines. A line that is wrong does not stop the
/// others.
pub fn load(content: &str, path: &str, aliases: &mut AliasMap) -> (r: Vec<Directive>)
    ensures
        directive_views(r@) == requests(lines(content@), path@, lines(content@).len() as int),
        final(aliases)@ == aliases_after(
            old(aliases)@,
            lines(content@),
            path@,
            lines(content@).len() as int,
        ),
{
    let all = lines_of(content);
    let ghost lv = strs(all@);
    let ghost base = aliases@;
    assert(lv.len() == all@.len());
    let n = all.len();
    let mut out: Vec<Directive> = Vec::new();
    let mut i: usize = 0;
    assert(directive_views(out@) =~= Seq::empty());
    while i < n
        invariant
            i <= n == all.len(),
            lv == strs(all@),
            lv.len() == all@.len(),
            directive_views(out@) == requests(lv, path@, i as int),
            aliases@ == aliases_after(base, lv, path@, i as int),
        decreases n - i,
    {
        assert(lv[i as int] == all@[i as int]@);
        let d = parse_line(all[i].as_str(), i as u64 + 1, path);
        let ghost dv = d@;
        let ghost had = directive_views(out@);
        assert(dv == line_directive(lv[i as int], path@, (i + 1) as nat));
        match d {
            Directive::Nothing => {},
            Directive::Alias { name, words } => {
                aliases.set(name, words);
            },
            other => {
                out.push(other);
                assert(directive_views(out@) =~= had.push(dv));
            },
        }
        i += 1;
    }
    out
}

/// Comments and empty lines change nothing.
pub proof fn law_comments_say_nothing(line: Seq<char>, path: Seq<char>, lineno: nat)
    requires
        trimmed(line).len() == 0 || trimmed(line)[0] == '#',
    ensures
        line_directive(line, path, lineno) == DirectiveView::Nothing,
{
}

} // verus!
