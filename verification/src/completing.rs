//! Tab completion: what the word at the cursor asks for, the candidates, and the line with a
//! candidate in place of the word.
use vstd::prelude::*;

use crate::alias::{alias_views, AliasMap, AliasView};
use crate::builtin::{all_builtin_names, extension_names, shell_names};
use crate::candidates::{
    complete_hostnames, complete_partial_path, complete_path_into, complete_remote_path, concat,
    dir_part, dir_path, group_views, groups_of, host_entries, listed, listings_bytes, name_part,
    names_bytes, partial_result, quotes_escaped, remote_entries, searched, shell_escape,
    split_path, strings_bytes, DirItem,
};
use crate::complete::{
    compute_grid, deduped, display_name, file_entry, grid_of, name_order, time_order, CompEntry,
    CompletionState, Completions, EntryView, PATH_LIMIT,
};
use crate::line::{LineBuffer, LineState};
use crate::path::{complete_commands, command_matches, dirs_bytes, PathDir};
use crate::sort::stable_sorted;
use crate::text::{
    byte_len, chars_of, ends_with, find_char, first_word, first_word_of, has_char, has_prefix_str,
    has_suffix_str, head_of, index_from, is_text, is_whitespace, lemma_encode_concat,
    lemma_index_from, lines, push_all, push_str, spec_is_whitespace, starts_with, str_len,
    string_of, strs, tail_of, trim_end_of, trimmed_end,
};

verus! {

// -- The word at the cursor --

/// The quotes that are open, and where the word starts.
#[derive(Debug, Clone, Copy, PartialEq, Eq, Structural)]
pub struct WordScan {
    pub single: bool,
    pub double: bool,
    pub start: usize,
}

pub struct ScanView {
    pub single: bool,
    pub double: bool,
    pub start: int,
}

impl View for WordScan {
    type V = ScanView;

    open spec fn view(&self) -> ScanView {
        ScanView { single: self.single, double: self.double, start: self.start as int }
    }
}

/// Reads the text from `i` on: blanks outside quotes end a word, a backslash outside single
/// quotes takes the next character along.
pub open spec fn word_scan(s: Seq<char>, i: int, st: ScanView) -> ScanView
    decreases s.len() - i,
{
    if i < 0 || i >= s.len() {
        st
    } else if s[i] == '\'' && !st.double {
        word_scan(s, i + 1, ScanView { single: !st.single, ..st })
    } else if s[i] == '"' && !st.single {
        word_scan(s, i + 1, ScanView { double: !st.double, ..st })
    } else if s[i] == '\\' && !st.single && i + 1 < s.len() {
        word_scan(s, i + 2, st)
    } else if (s[i] == ' ' || s[i] == '\t' || s[i] == '\n') && !st.single && !st.double {
        word_scan(s, i + 1, ScanView { start: i + 1, ..st })
    } else {
        word_scan(s, i + 1, st)
    }
}

pub open spec fn word_at_end(s: Seq<char>) -> ScanView {
    word_scan(s, 0, ScanView { single: false, double: false, start: 0 })
}

/// Find the start of the completion word, respecting quotes.
/// Returns the index of its first character, and the quotes that are open at the end.
pub fn find_comp_word_start(s: &Vec<char>) -> (r: WordScan)
    ensures
        r@ == word_at_end(s@),
        r.start <= s.len(),
{
    let n = s.len();
    let mut st = WordScan { single: false, double: false, start: 0 };
    let mut i: usize = 0;
    while i < n
        invariant
            i <= n,
            n == s.len(),
            st.start <= i,
            word_at_end(s@) == word_scan(s@, i as int, st@),
        decreases n - i,
    {
        let c = s[i];
        if c == '\'' && !st.double {
            st.single = !st.single;
            i += 1;
        } else if c == '"' && !st.single {
            st.double = !st.double;
            i += 1;
        } else if c == '\\' && !st.single && n - i > 1 {
            i += 2;
        } else if (c == ' ' || c == '\t' || c == '\n') && !st.single && !st.double {
            i += 1;
            st.start = i;
        } else {
            i += 1;
        }
    }
    st
}

/// Index after the last character of `s` that separates words: white space, `|` or `;`.
pub open spec fn after_separator(s: Seq<char>) -> int
    decreases s.len(),
{
    if s.len() == 0 || spec_is_whitespace(s.last()) || s.last() == '|' || s.last() == ';' {
        s.len() as int
    } else {
        after_separator(s.drop_last())
    }
}

fn separator_end(s: &Vec<char>) -> (r: usize)
    ensures
        r == after_separator(s@),
        r <= s.len(),
{
    let mut i: usize = s.len();
    assert(s@.take(i as int) =~= s@);
    while i > 0
        invariant
            i <= s.len(),
            after_separator(s@) == after_separator(s@.take(i as int)),
        decreases i,
    {
        let c = s[i - 1];
        assert(s@.take(i as int).last() == c);
        if is_whitespace(c) || c == '|' || c == ';' {
            return i;
        }
        assert(s@.take(i as int).drop_last() =~= s@.take(i - 1));
        i -= 1;
    }
    i
}

/// Whether a word is where a command stands: first, after `|`, `;` or `&&`, or after a command
/// that runs another.
pub open spec fn command_position(before: Seq<char>, start: int) -> bool {
    let b = trimmed_end(before.take(start));
    let w = b.skip(after_separator(b));
    start == 0 || ends_with(b, "|"@) || ends_with(b, ";"@) || ends_with(b, "&&"@) || w == "sudo"@
        || w == "doas"@ || w == "su"@
}

/// Whether the cursor is at a command position (first word, after | && ;,
/// or immediately after sudo/doas/su).
pub fn is_command_position(before_cursor: &Vec<char>, word_start: usize) -> (r: bool)
    requires
        word_start <= before_cursor.len(),
    ensures
        r == command_position(before_cursor@, word_start as int),
{
    if word_start == 0 {
        return true;
    }
    let head = head_of(before_cursor, word_start);
    let b = trim_end_of(&head);
    if has_suffix_str(&b, "|") || has_suffix_str(&b, ";") || has_suffix_str(&b, "&&") {
        return true;
    }
    let k = separator_end(&b);
    let w = tail_of(&b, k);
    is_text(&w, "sudo") || is_text(&w, "doas") || is_text(&w, "su")
}

/// `s` without a single quote at its end.
pub open spec fn without_end_quote(s: Seq<char>) -> Seq<char> {
    if s.len() > 0 && s.last() == '\'' {
        s.drop_last()
    } else {
        s
    }
}

fn drop_end_quote(s: &Vec<char>) -> (r: Vec<char>)
    ensures
        r@ == without_end_quote(s@),
{
    let n = s.len();
    if n > 0 && s[n - 1] == '\'' {
        head_of(s, n - 1)
    } else {
        head_of(s, n)
    }
}

/// What a word stands for without its single quotes: an open quote, a closed one, and one
/// after a tilde.
pub open spec fn unquoted_word(raw: Seq<char>, in_single: bool) -> Seq<char> {
    if in_single {
        if raw.len() > 0 && raw[0] == '\'' {
            raw.skip(1)
        } else {
            raw
        }
    } else if starts_with(raw, "~/'"@) {
        "~/"@ + without_end_quote(raw.skip(3))
    } else if raw.len() > 0 && raw[0] == '\'' {
        without_end_quote(raw.skip(1))
    } else {
        raw
    }
}

pub open spec fn is_quoted_word(raw: Seq<char>, in_single: bool) -> bool {
    in_single || starts_with(raw, "~/'"@) || raw.len() > 0 && raw[0] == '\''
}

fn unquote_word(raw: &Vec<char>, in_single: bool) -> (r: (Vec<char>, bool))
    ensures
        r.0@ == unquoted_word(raw@, in_single),
        r.1 == is_quoted_word(raw@, in_single),
{
    let n = raw.len();
    let opens = n > 0 && raw[0] == '\'';
    if in_single {
        return if opens {
            (tail_of(raw, 1), true)
        } else {
            (head_of(raw, n), true)
        };
    }
    proof {
        reveal_strlit("~/'");
    }
    if has_prefix_str(raw, "~/'") {
        let rest = tail_of(raw, 3);
        let inner = drop_end_quote(&rest);
        let mut out = chars_of("~/");
        push_all(&mut out, inner.as_slice());
        return (out, true);
    }
    if opens {
        let rest = tail_of(raw, 1);
        return (drop_end_quote(&rest), true);
    }
    (head_of(raw, n), false)
}

// -- The plan --

/// Where candidates come from.
pub enum Source {
    /// Builtins, aliases, the commands of `$PATH`, and directories.
    Commands,
    /// The names of environment variables that start with a prefix.
    Variables(String),
    /// The files of another machine.
    Remote { host: String, path: String },
    /// The names of other machines, and files.
    Hosts,
    /// Files.
    Files,
}

pub enum SourceView {
    Commands,
    Variables(Seq<char>),
    Remote { host: Seq<char>, path: Seq<char> },
    Hosts,
    Files,
}

impl View for Source {
    type V = SourceView;

    open spec fn view(&self) -> SourceView {
        match self {
            Source::Commands => SourceView::Commands,
            Source::Variables(p) => SourceView::Variables(p@),
            Source::Remote { host, path } => SourceView::Remote { host: host@, path: path@ },
            Source::Hosts => SourceView::Hosts,
            Source::Files => SourceView::Files,
        }
    }
}

/// What the word at the cursor asks for. Where the source yields nothing, files are looked for,
/// except for commands; where there are none, the path is taken as abbreviated.
pub struct CompletionPlan {
    pub source: Source,
    /// The word without its quotes.
    pub partial: String,
    /// The word with the home directory in place of a tilde.
    pub expanded: String,
    pub dirs_only: bool,
    pub in_quote: bool,
}

pub struct PlanView {
    pub source: SourceView,
    pub partial: Seq<char>,
    pub expanded: Seq<char>,
    pub dirs_only: bool,
    pub in_quote: bool,
}

impl View for CompletionPlan {
    type V = PlanView;

    open spec fn view(&self) -> PlanView {
        PlanView {
            source: self.source@,
            partial: self.partial@,
            expanded: self.expanded@,
            dirs_only: self.dirs_only,
            in_quote: self.in_quote,
        }
    }
}

/// Commands whose arguments name other machines.
pub open spec fn is_remote_command(w: Seq<char>) -> bool {
    w == "ssh"@ || w == "scp"@ || w == "rsync"@ || w == "sftp"@ || w == "mosh"@
}

/// A word with the home directory in place of a tilde.
pub open spec fn home_expanded(partial: Seq<char>, home: Seq<char>) -> Seq<char> {
    if partial == "~"@ {
        home + "/"@
    } else if starts_with(partial, "~/"@) {
        home + partial.skip(1)
    } else {
        partial
    }
}

pub open spec fn source_of(
    before: Seq<char>,
    start: int,
    command: Seq<char>,
    partial: Seq<char>,
    in_quote: bool,
) -> SourceView {
    if !in_quote && partial.len() > 0 && partial[0] == '$' {
        SourceView::Variables(partial.skip(1))
    } else if partial.len() > 0 && !partial.contains('/') && command_position(before, start) {
        SourceView::Commands
    } else if start > 0 && is_remote_command(command) {
        if partial.contains(':') {
            let k = index_from(partial, ':', 0);
            SourceView::Remote { host: partial.take(k), path: partial.skip(k + 1) }
        } else if !partial.contains('/') {
            SourceView::Hosts
        } else {
            SourceView::Files
        }
    } else {
        SourceView::Files
    }
}

pub open spec fn plan_of(line: LineState, home: Seq<char>) -> PlanView {
    let scan = word_at_end(line.before);
    let raw = line.before.skip(scan.start);
    let partial = unquoted_word(raw, scan.single);
    let in_quote = is_quoted_word(raw, scan.single);
    let command = first_word(line.text());
    PlanView {
        source: source_of(line.before, scan.start, command, partial, in_quote),
        partial,
        expanded: home_expanded(partial, home),
        dirs_only: command == "cd"@ && scan.start > 0,
        in_quote,
    }
}

fn expand_home(partial: &Vec<char>, home: &str) -> (r: String)
    ensures
        r@ == home_expanded(partial@, home@),
{
    proof {
        reveal_strlit("~/");
    }
    let mut out = chars_of(home);
    if is_text(partial, "~") {
        push_str(&mut out, "/");
        return string_of(out.as_slice());
    }
    if has_prefix_str(partial, "~/") {
        let rest = tail_of(partial, 1);
        push_all(&mut out, rest.as_slice());
        return string_of(out.as_slice());
    }
    string_of(partial.as_slice())
}

fn names_machine(w: &Vec<char>) -> (r: bool)
    ensures
        r == is_remote_command(w@),
{
    is_text(w, "ssh") || is_text(w, "scp") || is_text(w, "rsync") || is_text(w, "sftp") || is_text(
        w,
        "mosh",
    )
}

fn choose_source(
    before: &Vec<char>,
    start: usize,
    command: &Vec<char>,
    partial: &Vec<char>,
    in_quote: bool,
) -> (r: Source)
    requires
        start <= before.len(),
    ensures
        r@ == source_of(before@, start as int, command@, partial@, in_quote),
{
    if !in_quote && partial.len() > 0 && partial[0] == '$' {
        let name = tail_of(partial, 1);
        return Source::Variables(string_of(name.as_slice()));
    }
    if partial.len() > 0 && !has_char(partial, '/') && is_command_position(before, start) {
        return Source::Commands;
    }
    if start > 0 && names_machine(command) {
        if has_char(partial, ':') {
            let n = partial.len();
            let k = find_char(partial, ':', 0);
            proof {
                lemma_index_from(partial@, ':', 0);
                let w = choose|w: int| 0 <= w < partial@.len() && partial@[w] == ':';
                assert(k < n);
            }
            let host = head_of(partial, k);
            let path = tail_of(partial, k + 1);
            return Source::Remote {
                host: string_of(host.as_slice()),
                path: string_of(path.as_slice()),
            };
        }
        if !has_char(partial, '/') {
            return Source::Hosts;
        }
    }
    Source::Files
}

/// What the word at the cursor asks for.
pub fn start_completion(line: &LineBuffer, home: &str) -> (r: CompletionPlan)
    ensures
        r@ == plan_of(line@, home@),
{
    let before = chars_of(line.before_cursor());
    let scan = find_comp_word_start(&before);
    let raw = tail_of(&before, scan.start);
    let (partial, in_quote) = unquote_word(&raw, scan.single);
    let text = chars_of(line.text());
    let command = first_word_of(&text);
    let source = choose_source(&before, scan.start, &command, &partial, in_quote);
    CompletionPlan {
        source,
        expanded: expand_home(&partial, home),
        partial: string_of(partial.as_slice()),
        dirs_only: is_text(&command, "cd") && scan.start > 0,
        in_quote,
    }
}

// -- The candidates --

/// The state that shows candidates: the first is selected.
pub open spec fn shows(
    state: CompletionState,
    prefix: Seq<char>,
    in_quote: bool,
    term_cols: u16,
) -> bool {
    &&& state.comp.wf()
    &&& state.selected == 0
    &&& state.scroll == 0
    &&& (state.cols as int, state.rows as int) == grid_of(
        state.comp.entries@,
        term_cols as int,
    )
    &&& state.dir_prefix@ == prefix
    &&& state.in_quote == in_quote
}

fn show(comp: Completions, dir_prefix: String, in_quote: bool, term_cols: u16) -> (r:
    CompletionState)
    requires
        comp.wf(),
    ensures
        shows(r, dir_prefix@, in_quote, term_cols),
        r.comp == comp,
{
    let (cols, rows) = compute_grid(&comp.entries, term_cols);
    CompletionState { comp, selected: 0, cols, rows, scroll: 0, dir_prefix, in_quote }
}

/// The entries of those of the first `n` names that start with a prefix.
pub open spec fn name_entries(names: Seq<Seq<char>>, prefix: Seq<char>, n: int) -> Seq<EntryView>
    decreases n,
{
    if n <= 0 {
        Seq::empty()
    } else if starts_with(names[n - 1], prefix) {
        name_entries(names, prefix, n - 1).push(file_entry(names[n - 1], false, false, false, 0))
    } else {
        name_entries(names, prefix, n - 1)
    }
}

fn push_names(names: &Vec<String>, prefix: &str, comp: &mut Completions)
    requires
        old(comp).wf(),
        byte_len(old(comp).names@) + strings_bytes(strs(names@), names@.len() as int)
            <= u32::MAX,
    ensures
        final(comp).wf(),
        final(comp)@ == old(comp)@ + name_entries(strs(names@), prefix@, names@.len() as int),
        byte_len(final(comp).names@) <= byte_len(old(comp).names@) + strings_bytes(
            strs(names@),
            names@.len() as int,
        ),
{
    let ghost nv = strs(names@);
    let mut i: usize = 0;
    assert(comp@ + name_entries(nv, prefix@, 0) =~= comp@);
    while i < names.len()
        invariant
            i <= names.len(),
            nv == strs(names@),
            comp.wf(),
            comp@ == old(comp)@ + name_entries(nv, prefix@, i as int),
            byte_len(comp.names@) <= byte_len(old(comp).names@) + strings_bytes(nv, i as int),
            byte_len(old(comp).names@) + strings_bytes(nv, names@.len() as int) <= u32::MAX,
        decreases names.len() - i,
    {
        let h = chars_of(names[i].as_str());
        assert(nv[i as int] == names@[i as int]@);
        proof {
            crate::candidates::lemma_strings_bytes(nv, i + 1, names@.len() as int);
        }
        if has_prefix_str(&h, prefix) {
            proof {
                lemma_encode_concat(comp.names@, nv[i as int]);
            }
            comp.push(names[i].as_str(), false, false, false);
            assert(comp@ =~= old(comp)@ + name_entries(nv, prefix@, i + 1));
        }
        i += 1;
    }
}

pub open spec fn alias_names(v: Seq<AliasView>) -> Seq<Seq<char>> {
    Seq::new(v.len(), |i: int| v[i].name)
}

fn names_of_aliases(aliases: &AliasMap) -> (r: Vec<String>)
    ensures
        strs(r@) == alias_names(aliases@),
{
    let all = aliases.iter();
    let ghost av = alias_views(all@);
    let mut out: Vec<String> = Vec::new();
    let mut i: usize = 0;
    while i < all.len()
        invariant
            i <= all.len(),
            av == alias_views(all@),
            strs(out@) == alias_names(av).take(i as int),
        decreases all.len() - i,
    {
        let ghost had = strs(out@);
        out.push(all[i].name.clone());
        assert(av[i as int] == all@[i as int]@);
        assert(strs(out@) =~= had.push(av[i as int].name));
        assert(alias_names(av).take(i + 1) =~= had.push(av[i as int].name));
        i += 1;
    }
    assert(alias_names(av).take(i as int) =~= alias_names(av));
    out
}

/// Candidates in the order of their names, each once: `found` was sorted by time first where
/// files are among them.
pub open spec fn named_once(found: Seq<EntryView>, by_time: bool, shown: Seq<EntryView>) -> bool {
    exists|m: Seq<EntryView>, s: Seq<EntryView>|
        {
            &&& if by_time {
                stable_sorted(found, m, time_order())
            } else {
                m == found
            }
            &&& #[trigger] stable_sorted(m, s, name_order())
            &&& shown == deduped(s)
        }
}

/// The candidates for a command, before they are sorted.
pub open spec fn command_candidates(
    partial: Seq<char>,
    aliases: Seq<AliasView>,
    dirs: Seq<PathDir>,
    items: Seq<DirItem>,
) -> Seq<EntryView> {
    let builtins = extension_names() + shell_names();
    name_entries(builtins, partial, builtins.len() as int) + name_entries(
        alias_names(aliases),
        partial,
        aliases.len() as int,
    ) + command_matches(partial, dirs, dirs.len() as int) + listed(
        dir_part(partial),
        name_part(partial),
        true,
        items,
    )
}

/// The offsets of all names that may be candidates for a command are machine numbers.
pub open spec fn command_room(
    aliases: Seq<AliasView>,
    dirs: Seq<PathDir>,
    items: Seq<DirItem>,
) -> bool {
    let builtins = extension_names() + shell_names();
    strings_bytes(builtins, builtins.len() as int) + strings_bytes(
        alias_names(aliases),
        aliases.len() as int,
    ) + dirs_bytes(dirs, dirs.len() as int) + names_bytes(items, items.len() as int) <= u32::MAX
}

/// The candidates for a command: builtins, aliases, the commands of `$PATH` and, as they are
/// valid commands too, directories of the current directory, whose entries are `items`.
pub fn complete_command(
    plan: &CompletionPlan,
    aliases: &AliasMap,
    dirs: &Vec<PathDir>,
    items: &Vec<DirItem>,
    term_cols: u16,
) -> (r: CompletionState)
    requires
        command_room(aliases@, dirs@, items@),
    ensures
        shows(r, Seq::empty(), false, term_cols),
        named_once(
            command_candidates(plan.partial@, aliases@, dirs@, items@),
            byte_len(dir_path(dir_part(plan.partial@))) < PATH_LIMIT,
            r.comp@,
        ),
{
    let partial = plan.partial.as_str();
    let mut comp = Completions::new();
    let builtins = all_builtin_names();
    let names = names_of_aliases(aliases);
    assert(byte_len(comp.names@) == 0);
    assert(strs(builtins@).len() == builtins@.len());
    assert(strs(names@).len() == names@.len());
    push_names(&builtins, partial, &mut comp);
    push_names(&names, partial, &mut comp);
    complete_commands(partial, dirs, &mut comp);
    let ghost before = comp@;
    let ghost files = listed(dir_part(partial@), name_part(partial@), true, items@);
    let ghost all = command_candidates(partial@, aliases@, dirs@, items@);
    complete_path_into(partial, true, Some(items), &mut comp);
    let ghost m = comp@;
    assert(before + files =~= all);
    assert(byte_len(dir_path(dir_part(partial@))) >= PATH_LIMIT ==> files =~= Seq::empty());
    comp.sort_entries();
    let ghost s = comp@;
    comp.dedup_sorted();
    assert(stable_sorted(m, s, name_order()));
    assert(named_once(
        all,
        byte_len(dir_path(dir_part(partial@))) < PATH_LIMIT,
        comp@,
    ));
    let none = String::new();
    assert(none@ =~= Seq::empty());
    show(comp, none, false, term_cols)
}

/// The names of environment variables that start with a prefix, after a `$`; `None` where there
/// is none.
pub fn complete_variables(prefix: &str, variables: &Vec<String>, term_cols: u16) -> (r: Option<
    CompletionState,
>)
    requires
        strings_bytes(strs(variables@), variables@.len() as int) <= u32::MAX,
    ensures
        ({
            let found = name_entries(strs(variables@), prefix@, variables@.len() as int);
            match r {
                Some(state) => shows(state, "$"@, false, term_cols) && named_once(
                    found,
                    false,
                    state.comp@,
                ) && found.len() > 0,
                None => found.len() == 0,
            }
        }),
{
    let mut comp = Completions::new();
    assert(byte_len(comp.names@) == 0);
    push_names(variables, prefix, &mut comp);
    let ghost found = name_entries(strs(variables@), prefix@, variables@.len() as int);
    assert(comp@ =~= found);
    if comp.is_empty() {
        return None;
    }
    comp.sort_entries();
    let ghost s = comp@;
    comp.dedup_sorted();
    assert(stable_sorted(found, s, name_order()));
    assert(named_once(found, false, comp@));
    let sign = chars_of("$");
    Some(show(comp, string_of(sign.as_slice()), false, term_cols))
}

/// The files of another machine, from the listing of what starts with `path`; `None` where
/// there is none.
pub fn complete_remote(
    plan: &CompletionPlan,
    host: &str,
    path: &str,
    output: &str,
    term_cols: u16,
) -> (r: Option<CompletionState>)
    requires
        strings_bytes(lines(output@), lines(output@).len() as int) <= u32::MAX,
    ensures
        ({
            let found = remote_entries(lines(output@), path@, lines(output@).len() as int);
            match r {
                Some(state) => shows(
                    state,
                    host@ + ":"@ + dir_part(path@),
                    plan.in_quote,
                    term_cols,
                ) && state.comp@ == found && found.len() > 0,
                None => found.len() == 0,
            }
        }),
{
    let mut comp = Completions::new();
    assert(byte_len(comp.names@) == 0);
    complete_remote_path(output, path, &mut comp);
    let ghost found = remote_entries(lines(output@), path@, lines(output@).len() as int);
    assert(comp@ =~= found);
    if comp.is_empty() {
        return None;
    }
    let mut prefix = chars_of(host);
    push_str(&mut prefix, ":");
    push_str(&mut prefix, split_path(path).0);
    Some(show(comp, string_of(prefix.as_slice()), plan.in_quote, term_cols))
}

/// The names of other machines and the files of the current directory, whose entries are
/// `items`; `None` where there is none.
pub fn complete_hosts(
    plan: &CompletionPlan,
    hosts: &Vec<String>,
    items: &Vec<DirItem>,
    term_cols: u16,
) -> (r: Option<CompletionState>)
    requires
        strings_bytes(strs(hosts@), hosts@.len() as int) + names_bytes(
            items@,
            items@.len() as int,
        ) <= u32::MAX,
    ensures
        ({
            let found = host_entries(strs(hosts@), plan.partial@, hosts@.len() as int) + listed(
                dir_part(plan.partial@),
                name_part(plan.partial@),
                false,
                items@,
            );
            match r {
                Some(state) => shows(state, Seq::empty(), plan.in_quote, term_cols) && named_once(
                    found,
                    byte_len(dir_path(dir_part(plan.partial@))) < PATH_LIMIT,
                    state.comp@,
                ) && state.comp@.len() > 0,
                None => named_once(
                    found,
                    byte_len(dir_path(dir_part(plan.partial@))) < PATH_LIMIT,
                    Seq::empty(),
                ),
            }
        }),
{
    let partial = plan.partial.as_str();
    let mut comp = Completions::new();
    assert(byte_len(comp.names@) == 0);
    complete_hostnames(partial, hosts, &mut comp);
    let ghost before = comp@;
    let ghost files = listed(dir_part(partial@), name_part(partial@), false, items@);
    let ghost found = host_entries(strs(hosts@), partial@, hosts@.len() as int) + files;
    complete_path_into(partial, false, Some(items), &mut comp);
    let ghost m = comp@;
    assert(before + files =~= found);
    assert(byte_len(dir_path(dir_part(partial@))) >= PATH_LIMIT ==> files =~= Seq::empty());
    comp.sort_entries();
    let ghost s = comp@;
    comp.dedup_sorted();
    assert(stable_sorted(m, s, name_order()));
    assert(named_once(
        found,
        byte_len(dir_path(dir_part(partial@))) < PATH_LIMIT,
        comp@,
    ));
    if comp.is_empty() {
        assert(comp@ =~= Seq::empty());
        return None;
    }
    let none = String::new();
    assert(none@ =~= Seq::empty());
    Some(show(comp, none, plan.in_quote, term_cols))
}

/// The files that a word may stand for, from the entries of its directory; `None` where there
/// is none.
pub fn complete_files(plan: &CompletionPlan, items: &Vec<DirItem>, term_cols: u16) -> (r: Option<
    CompletionState,
>)
    requires
        names_bytes(items@, items@.len() as int) <= u32::MAX,
    ensures
        ({
            let found = listed(
                dir_part(plan.expanded@),
                name_part(plan.expanded@),
                plan.dirs_only,
                items@,
            );
            match r {
                Some(state) => shows(state, dir_part(plan.partial@), plan.in_quote, term_cols)
                    && stable_sorted(found, state.comp@, time_order()) && state.comp@.len() > 0,
                None => byte_len(dir_path(dir_part(plan.expanded@))) >= PATH_LIMIT
                    || stable_sorted(found, Seq::empty(), time_order()),
            }
        }),
{
    let mut comp = Completions::new();
    assert(byte_len(comp.names@) == 0);
    complete_path_into(plan.expanded.as_str(), plan.dirs_only, Some(items), &mut comp);
    let ghost found = listed(
        dir_part(plan.expanded@),
        name_part(plan.expanded@),
        plan.dirs_only,
        items@,
    );
    assert(Seq::<EntryView>::empty() + found =~= found);
    if comp.is_empty() {
        assert(comp@ =~= Seq::empty());
        return None;
    }
    let prefix = chars_of(split_path(plan.partial.as_str()).0);
    Some(show(comp, string_of(prefix.as_slice()), plan.in_quote, term_cols))
}

// -- Stages --

/// A place to look for candidates.
#[derive(Debug, Clone, Copy, PartialEq, Eq, Structural)]
pub enum Stage {
    /// The source that the plan names, if that is not files alone.
    Named,
    /// The files that the word may stand for.
    Files,
    /// The files that it may stand for as an abbreviated path.
    Abbreviated,
}

/// Where to look when nothing was found so far: `tried` is the last stage, none at the start.
/// Nothing is looked for behind the commands.
pub open spec fn stage_after(source: SourceView, tried: Option<Stage>) -> Option<Stage> {
    match tried {
        None => Some(
            if source is Files {
                Stage::Files
            } else {
                Stage::Named
            },
        ),
        Some(Stage::Named) => if source is Commands {
            None
        } else {
            Some(Stage::Files)
        },
        Some(Stage::Files) => Some(Stage::Abbreviated),
        Some(Stage::Abbreviated) => None,
    }
}

/// Where to look for candidates next.
pub fn next_stage(plan: &CompletionPlan, tried: Option<Stage>) -> (r: Option<Stage>)
    ensures
        r == stage_after(plan@.source, tried),
{
    match tried {
        None => match &plan.source {
            Source::Files => Some(Stage::Files),
            _ => Some(Stage::Named),
        },
        Some(Stage::Named) => match &plan.source {
            Source::Commands => None,
            _ => Some(Stage::Files),
        },
        Some(Stage::Files) => Some(Stage::Abbreviated),
        Some(Stage::Abbreviated) => None,
    }
}

/// The directory whose entries a stage asks for: that of the word as it stands for the source
/// that the plan names, and else that of the word with its tilde expanded.
pub open spec fn stage_dir(plan: PlanView, stage: Stage) -> Seq<char> {
    match stage {
        Stage::Named => dir_part(plan.partial),
        _ => dir_part(plan.expanded),
    }
}

/// The directory whose entries a stage asks for.
pub fn directory_of(plan: &CompletionPlan, stage: Stage) -> (r: &str)
    ensures
        r@ == stage_dir(plan@, stage),
{
    match stage {
        Stage::Named => split_path(plan.partial.as_str()).0,
        _ => split_path(plan.expanded.as_str()).0,
    }
}

/// Looking for candidates ends, and but for commands it ends with the abbreviated path.
pub proof fn law_stages_end(source: SourceView)
    ensures
        source is Commands ==> stage_after(source, stage_after(source, None)) is None,
        !(source is Commands) ==> stage_after(source, Some(Stage::Named)) == Some(Stage::Files)
            && stage_after(source, Some(Stage::Files)) == Some(Stage::Abbreviated),
        stage_after(source, Some(Stage::Abbreviated)) is None,
{
}

// -- Abbreviated paths --

/// A candidate with the directory that it was found in.
pub struct Found {
    pub name: String,
    pub is_dir: bool,
    pub is_link: bool,
    pub is_exec: bool,
}

pub struct FoundView {
    pub name: Seq<char>,
    pub is_dir: bool,
    pub is_link: bool,
    pub is_exec: bool,
}

impl View for Found {
    type V = FoundView;

    open spec fn view(&self) -> FoundView {
        FoundView {
            name: self.name@,
            is_dir: self.is_dir,
            is_link: self.is_link,
            is_exec: self.is_exec,
        }
    }
}

pub open spec fn found_views(v: Seq<Found>) -> Seq<FoundView> {
    Seq::new(v.len(), |i: int| v[i]@)
}

/// A directory below a root; none where it is not below it.
pub open spec fn below_root(dir: Seq<char>, root: Seq<char>) -> Seq<char> {
    if starts_with(dir, root) {
        dir.skip(root.len() as int)
    } else {
        dir
    }
}

/// The first `k` candidates of a group that starts at `start`, with their directory.
pub open spec fn group_found(
    dir: Seq<char>,
    entries: Seq<EntryView>,
    start: int,
    k: int,
) -> Seq<FoundView>
    decreases k,
{
    if k <= 0 {
        Seq::empty()
    } else {
        let e = entries[start + k - 1];
        group_found(dir, entries, start, k - 1).push(
            FoundView {
                name: dir + e.name,
                is_dir: e.is_dir,
                is_link: e.is_link,
                is_exec: e.is_exec,
            },
        )
    }
}

/// The candidates of the first `n` groups with their directories below a root.
pub open spec fn all_found(
    groups: Seq<(Seq<char>, int, int)>,
    entries: Seq<EntryView>,
    root: Seq<char>,
    n: int,
) -> Seq<FoundView>
    decreases n,
{
    if n <= 0 {
        Seq::empty()
    } else {
        all_found(groups, entries, root, n - 1) + group_found(
            below_root(groups[n - 1].0, root),
            entries,
            groups[n - 1].1,
            groups[n - 1].2,
        )
    }
}

/// Bytes of the first `n` names.
pub open spec fn found_bytes(v: Seq<FoundView>, n: int) -> nat
    decreases n,
{
    if n <= 0 {
        0
    } else {
        found_bytes(v, n - 1) + byte_len(v[n - 1].name)
    }
}

/// The entries of the first `n` candidates, as far as their offsets are machine numbers.
pub open spec fn found_entries(v: Seq<FoundView>, n: int) -> Seq<EntryView>
    decreases n,
{
    if n <= 0 {
        Seq::empty()
    } else if found_bytes(v, n - 1) <= u32::MAX {
        let f = v[n - 1];
        found_entries(v, n - 1).push(file_entry(f.name, f.is_dir, f.is_link, f.is_exec, 0))
    } else {
        found_entries(v, n - 1)
    }
}

/// How the root of a path is written, and which directory it is.
pub open spec fn user_root(partial: Seq<char>) -> Seq<char> {
    if starts_with(partial, "~/"@) || partial == "~"@ {
        "~/"@
    } else if starts_with(partial, "/"@) {
        "/"@
    } else {
        Seq::empty()
    }
}

pub open spec fn real_root(partial: Seq<char>, home: Seq<char>) -> Seq<char> {
    if starts_with(partial, "~/"@) || partial == "~"@ {
        home + "/"@
    } else if starts_with(partial, "/"@) {
        "/"@
    } else {
        Seq::empty()
    }
}

fn roots(partial: &str, home: &str) -> (r: (Vec<char>, Vec<char>))
    ensures
        r.0@ == user_root(partial@),
        r.1@ == real_root(partial@, home@),
{
    let p = chars_of(partial);
    if has_prefix_str(&p, "~/") || is_text(&p, "~") {
        let mut root = chars_of(home);
        push_str(&mut root, "/");
        return (chars_of("~/"), root);
    }
    if has_prefix_str(&p, "/") {
        return (chars_of("/"), chars_of("/"));
    }
    let a: Vec<char> = Vec::new();
    let b: Vec<char> = Vec::new();
    assert(a@ =~= Seq::empty() && b@ =~= Seq::empty());
    (a, b)
}

/// Every group lies within the entries.
pub open spec fn groups_within(g: Seq<(Seq<char>, int, int)>, n: int) -> bool {
    forall|i: int|
        0 <= i < g.len() ==> 0 <= (#[trigger] g[i]).1 && 0 <= g[i].2 && g[i].1 + g[i].2 <= n
}

proof fn lemma_groups_within(dirs: Seq<Seq<char>>, segs: Seq<Seq<EntryView>>, n: int, m: int)
    requires
        0 <= n <= m <= segs.len(),
    ensures
        groups_within(groups_of(dirs, segs, n), concat(segs, m).len() as int),
    decreases m,
{
    if m > n {
        lemma_groups_within(dirs, segs, n, m - 1);
    } else if n > 0 {
        lemma_groups_within(dirs, segs, n - 1, n - 1);
        let before = groups_of(dirs, segs, n - 1);
        let all = groups_of(dirs, segs, n);
        assert forall|i: int| 0 <= i < all.len() implies 0 <= (#[trigger] all[i]).1 && 0 <= all[i].2
            && all[i].1 + all[i].2 <= concat(segs, n).len() by {
            if i < before.len() {
                assert(all[i] == before[i]);
            }
        }
    }
}

fn collect_group(
    dir: &Vec<char>,
    comp: &Completions,
    start: usize,
    count: usize,
    out: &mut Vec<Found>,
)
    requires
        comp.wf(),
        start + count <= comp@.len(),
    ensures
        found_views(final(out)@) == found_views(old(out)@) + group_found(
            dir@,
            comp@,
            start as int,
            count as int,
        ),
{
    let mut k: usize = 0;
    let ghost had = found_views(out@);
    assert(had + group_found(dir@, comp@, start as int, 0) =~= had);
    let total = comp.len();
    while k < count
        invariant
            k <= count,
            comp.wf(),
            total == comp@.len(),
            start + count <= total,
            found_views(out@) == had + group_found(dir@, comp@, start as int, k as int),
        decreases count - k,
    {
        let e: CompEntry = comp.entries[start + k];
        let mut name: Vec<char> = Vec::new();
        push_all(&mut name, dir.as_slice());
        push_str(&mut name, comp.name(start + k));
        let ghost before = found_views(out@);
        let item = Found {
            name: string_of(name.as_slice()),
            is_dir: e.is_dir(),
            is_link: e.is_link(),
            is_exec: e.is_exec(),
        };
        let ghost iv = item@;
        out.push(item);
        proof {
            assert(iv.name =~= dir@ + comp@[start + k].name);
            assert(found_views(out@) =~= before.push(iv));
            assert(had + group_found(dir@, comp@, start as int, k + 1) =~= before.push(iv));
        }
        k += 1;
    }
}

fn push_found(found: &Vec<Found>, comp: &mut Completions)
    requires
        old(comp).wf(),
        old(comp)@.len() == 0,
        byte_len(old(comp).names@) == 0,
    ensures
        final(comp).wf(),
        final(comp)@ == found_entries(found_views(found@), found@.len() as int),
{
    let ghost fv = found_views(found@);
    let mut i: usize = 0;
    assert(comp@ =~= found_entries(fv, 0));
    while i < found.len()
        invariant
            i <= found.len(),
            fv == found_views(found@),
            comp.wf(),
            comp@ == found_entries(fv, i as int),
            byte_len(comp.names@) == found_bytes(fv, i as int) || byte_len(comp.names@) > u32::MAX
                && found_bytes(fv, i as int) > u32::MAX,
        decreases found.len() - i,
    {
        let f = &found[i];
        assert(fv[i as int] == f@);
        if str_len(comp.names.as_str()) <= u32::MAX as usize {
            proof {
                lemma_encode_concat(comp.names@, f.name@);
            }
            comp.push(f.name.as_str(), f.is_dir, f.is_link, f.is_exec);
        }
        i += 1;
    }
}

/// The candidates for a path whose components may be abbreviated (`~/de/s` for `~/dev/src`):
/// `dirs` are the directories that its directory part may stand for, `listings` their entries, and
/// `dir_exists` tells whether that part names a directory as it stands.
/// Where there is none the state is empty.
pub fn complete_abbreviated(
    plan: &CompletionPlan,
    home: &str,
    dir_exists: bool,
    dirs: &Vec<String>,
    listings: &Vec<Vec<DirItem>>,
    term_cols: u16,
) -> (r: CompletionState)
    requires
        dirs.len() == listings.len(),
        listings_bytes(listings@, listings@.len() as int) <= u32::MAX,
    ensures
        exists|segs: Seq<Seq<EntryView>>|
            {
                let groups = groups_of(
                    searched(plan.expanded@, dir_exists, strs(dirs@)),
                    segs,
                    segs.len() as int,
                );
                let found = all_found(
                    groups,
                    concat(segs, segs.len() as int),
                    real_root(plan.partial@, home@),
                    groups.len() as int,
                );
                &&& #[trigger] partial_result(
                    name_part(plan.expanded@),
                    plan.dirs_only,
                    searched(plan.expanded@, dir_exists, strs(dirs@)),
                    searched(plan.expanded@, dir_exists, listings@),
                    segs,
                )
                &&& r.comp@ == found_entries(found, found.len() as int)
                &&& shows(
                    r,
                    if groups.len() > 0 {
                        user_root(plan.partial@)
                    } else {
                        Seq::empty()
                    },
                    plan.in_quote,
                    term_cols,
                )
            },
{
    let ghost ds = searched(plan.expanded@, dir_exists, strs(dirs@));
    let (found_in, groups) = complete_partial_path(
        plan.expanded.as_str(),
        plan.dirs_only,
        dir_exists,
        dirs,
        listings,
    );
    let ghost segs = choose|segs: Seq<Seq<EntryView>>|
        {
            &&& #[trigger] partial_result(
                name_part(plan.expanded@),
                plan.dirs_only,
                ds,
                searched(plan.expanded@, dir_exists, listings@),
                segs,
            )
            &&& found_in@ == concat(segs, segs.len() as int)
            &&& group_views(groups@) == groups_of(ds, segs, segs.len() as int)
        };
    let (shown_root, root) = roots(plan.partial.as_str(), home);
    let ghost gv = group_views(groups@);
    proof {
        lemma_groups_within(ds, segs, segs.len() as int, segs.len() as int);
    }
    let mut found: Vec<Found> = Vec::new();
    let mut i: usize = 0;
    assert(found_views(found@) =~= all_found(gv, found_in@, root@, 0));
    while i < groups.len()
        invariant
            i <= groups.len(),
            gv == group_views(groups@),
            found_in.wf(),
            groups_within(gv, found_in@.len() as int),
            found_views(found@) == all_found(gv, found_in@, root@, i as int),
        decreases groups.len() - i,
    {
        assert(gv[i as int] == (
            groups@[i as int].0@,
            groups@[i as int].1 as int,
            groups@[i as int].2 as int,
        ));
        let d = chars_of(groups[i].0.as_str());
        let rel = if crate::text::matches_at(&d, &root, 0) {
            tail_of(&d, root.len())
        } else {
            tail_of(&d, 0)
        };
        assert(rel@ =~= below_root(gv[i as int].0, root@));
        collect_group(&rel, &found_in, groups[i].1, groups[i].2, &mut found);
        i += 1;
    }
    let mut comp = Completions::new();
    assert(byte_len(comp.names@) == 0);
    push_found(&found, &mut comp);
    let dir_prefix = if groups.len() > 0 {
        string_of(shown_root.as_slice())
    } else {
        String::new()
    };
    assert(groups@.len() == 0 ==> dir_prefix@ =~= Seq::empty());
    assert(found_views(found@).len() == found@.len());
    assert(partial_result(
        name_part(plan.expanded@),
        plan.dirs_only,
        ds,
        searched(plan.expanded@, dir_exists, listings@),
        segs,
    ));
    show(comp, dir_prefix, plan.in_quote, term_cols)
}

// -- The line with a candidate --

/// Whether a character is special to the shell.
pub open spec fn needs_quote(c: char) -> bool {
    c == ' ' || c == '\t' || c == '(' || c == ')' || c == '$' || c == '*' || c == '?' || c == '['
        || c == ']' || c == '|' || c == '&' || c == '>' || c == '<' || c == ';' || c == '#' || c
        == '\\' || c == '"' || c == '`'
}

/// Whether a completion string needs quoting for the shell.
pub fn needs_quoting(s: &Vec<char>) -> (r: bool)
    ensures
        r == exists|i: int| 0 <= i < s@.len() && needs_quote(#[trigger] s@[i]),
{
    let mut i: usize = 0;
    while i < s.len()
        invariant
            i <= s.len(),
            forall|k: int| 0 <= k < i ==> !needs_quote(#[trigger] s@[k]),
        decreases s.len() - i,
    {
        let c = s[i];
        if c == ' ' || c == '\t' || c == '(' || c == ')' || c == '$' || c == '*' || c == '?' || c
            == '[' || c == ']' || c == '|' || c == '&' || c == '>' || c == '<' || c == ';' || c
            == '#' || c == '\\' || c == '"' || c == '`' {
            assert(needs_quote(s@[i as int]));
            return true;
        }
        i += 1;
    }
    false
}

/// A text in single quotes. `~/` stays outside so that the tilde is still expanded.
pub open spec fn single_quoted(s: Seq<char>) -> Seq<char> {
    let escaped = quotes_escaped(s);
    if starts_with(escaped, "~/"@) {
        "~/'"@ + escaped.skip(2) + "'"@
    } else {
        "'"@ + escaped + "'"@
    }
}

/// What takes the place of the word: the candidate, quoted where it holds a character that is
/// special to the shell or the word was quoted. The name of a variable is not quoted.
pub open spec fn replacement(prefix: Seq<char>, e: EntryView, in_quote: bool) -> Seq<char> {
    let inner = prefix + display_name(e);
    if in_quote || prefix != "$"@ && ((exists|i: int|
        0 <= i < inner.len() && needs_quote(#[trigger] inner[i])) || inner.contains('\'')) {
        single_quoted(inner)
    } else {
        inner
    }
}

fn quote(s: &Vec<char>) -> (r: Vec<char>)
    ensures
        r@ == single_quoted(s@),
{
    let text = string_of(s.as_slice());
    let escaped = chars_of(shell_escape(text.as_str()).as_str());
    proof {
        reveal_strlit("~/");
    }
    if has_prefix_str(&escaped, "~/") {
        let rest = tail_of(&escaped, 2);
        let mut out = chars_of("~/'");
        push_all(&mut out, rest.as_slice());
        push_str(&mut out, "'");
        return out;
    }
    let mut out = chars_of("'");
    push_all(&mut out, escaped.as_slice());
    push_str(&mut out, "'");
    out
}

/// The line with the selected candidate in place of the word before the cursor; the line as it
/// was where none is selected.
pub open spec fn previewed(line: LineState, state: CompletionState, base: LineState) -> LineState {
    if state.selected < state.comp@.len() {
        LineState {
            before: base.before.take(word_at_end(base.before).start) + replacement(
                state.dir_prefix@,
                state.comp@[state.selected as int],
                state.in_quote,
            ),
            after: base.after,
            kill: line.kill,
        }
    } else {
        base
    }
}

pub fn preview_completion(line: &mut LineBuffer, state: &CompletionState, base_line: &LineBuffer)
    requires
        state.comp.wf(),
    ensures
        final(line)@ == previewed(old(line)@, *state, base_line@),
{
    if state.selected >= state.comp.len() {
        *line = base_line.clone();
        return;
    }
    let ghost e = state.comp@[state.selected as int];
    let entry: CompEntry = state.comp.entries[state.selected];
    let mut inner = chars_of(state.dir_prefix.as_str());
    let is_variable = is_text(&inner, "$");
    push_str(&mut inner, state.comp.name(state.selected));
    if entry.is_dir() {
        push_str(&mut inner, "/");
    } else if entry.is_host() {
        push_str(&mut inner, ":");
    }
    assert(inner@ =~= state.dir_prefix@ + display_name(e));
    let with = if state.in_quote || !is_variable && (needs_quoting(&inner) || has_char(
        &inner,
        '\'',
    )) {
        quote(&inner)
    } else {
        inner
    };
    let before = chars_of(base_line.before_cursor());
    let scan = find_comp_word_start(&before);
    let mut head = head_of(&before, scan.start);
    push_all(&mut head, with.as_slice());
    let head = string_of(head.as_slice());
    let tail = base_line.after_cursor();
    line.set_around(head.as_str(), tail.as_str());
}

pub proof fn lemma_word_scan(s: Seq<char>, i: int, st: ScanView)
    requires
        0 <= st.start <= i <= s.len() + 1,
        st.start <= s.len(),
    ensures
        0 <= word_scan(s, i, st).start <= s.len(),
    decreases s.len() - i,
{
    if i < s.len() {
        if s[i] == '\'' && !st.double {
            lemma_word_scan(s, i + 1, ScanView { single: !st.single, ..st });
        } else if s[i] == '"' && !st.single {
            lemma_word_scan(s, i + 1, ScanView { double: !st.double, ..st });
        } else if s[i] == '\\' && !st.single && i + 1 < s.len() {
            lemma_word_scan(s, i + 2, st);
        } else if (s[i] == ' ' || s[i] == '\t' || s[i] == '\n') && !st.single && !st.double {
            lemma_word_scan(s, i + 1, ScanView { start: i + 1, ..st });
        } else {
            lemma_word_scan(s, i + 1, st);
        }
    }
}

/// Text after the cursor and before the word is kept.
pub proof fn law_preview_keeps_rest(line: LineState, state: CompletionState, base: LineState)
    requires
        state.selected < state.comp@.len(),
    ensures
        previewed(line, state, base).after == base.after,
        starts_with(
            previewed(line, state, base).before,
            base.before.take(word_at_end(base.before).start),
        ),
{
    lemma_word_scan(base.before, 0, ScanView { single: false, double: false, start: 0 });
    let k = word_at_end(base.before).start;
    let p = base.before.take(k);
    let w = previewed(line, state, base).before;
    assert(w.subrange(0, p.len() as int) =~= p);
}

} // verus!
