//! What keys do at the prompt: editing, walking the history, accepting a suggestion.
use vstd::prelude::*;

use crate::alias::{alias_expanded, alias_of, AliasMap, AliasView};
use crate::builtin::{is_builtin, is_builtin_name};
use crate::history::{History, HistoryView};
use crate::input::{Key, KeyEvent};
use crate::line::{word_end, word_start, LineBuffer, LineState};
use crate::rewrite::{join_continuation_lines, line_continues, lines_joined, needs_continuation};
use crate::text::{
    byte_len, chars_of, first_word, first_word_of, has_char, starts_with, str_len, string_of,
    tail_of, trim_end_of, trimmed_end,
};

verus! {

/// What a key at the prompt asks for.
pub enum KeyAction {
    /// Nothing but to show the line.
    Continue,
    /// To run the line.
    Execute(String),
    /// To go on typing on another line.
    Continuation,
    Cancel,
    Exit,
    ClearScreen,
    StartHistorySearch,
    StartFilePicker,
    StartDirPicker,
    StartCompletion,
}

pub enum ActionView {
    Continue,
    Execute(Seq<char>),
    Continuation,
    Cancel,
    Exit,
    ClearScreen,
    StartHistorySearch,
    StartFilePicker,
    StartDirPicker,
    StartCompletion,
}

impl View for KeyAction {
    type V = ActionView;

    open spec fn view(&self) -> ActionView {
        match self {
            KeyAction::Continue => ActionView::Continue,
            KeyAction::Execute(t) => ActionView::Execute(t@),
            KeyAction::Continuation => ActionView::Continuation,
            KeyAction::Cancel => ActionView::Cancel,
            KeyAction::Exit => ActionView::Exit,
            KeyAction::ClearScreen => ActionView::ClearScreen,
            KeyAction::StartHistorySearch => ActionView::StartHistorySearch,
            KeyAction::StartFilePicker => ActionView::StartFilePicker,
            KeyAction::StartDirPicker => ActionView::StartDirPicker,
            KeyAction::StartCompletion => ActionView::StartCompletion,
        }
    }
}

/// The line at the prompt, and where in the history it comes from.
pub struct Prompt {
    pub line: LineBuffer,
    /// How many entries back the line was taken from.
    pub history_idx: Option<usize>,
    /// The line as it was before it was taken from the history.
    pub saved_line: String,
}

#[verifier::ext_equal]
pub struct PromptView {
    pub line: LineState,
    pub back: Option<usize>,
    pub saved: Seq<char>,
}

impl View for Prompt {
    type V = PromptView;

    open spec fn view(&self) -> PromptView {
        PromptView { line: self.line@, back: self.history_idx, saved: self.saved_line@ }
    }
}

/// A line with the cursor at its end.
pub open spec fn line_of(text: Seq<char>, kill: Seq<char>) -> LineState {
    LineState { before: text, after: Seq::empty(), kill }
}

/// Index after the last word to the left; the kill ring is kept.
pub open spec fn word_left(s: LineState) -> LineState {
    s.at(word_start(s.before))
}

pub open spec fn word_right(s: LineState) -> LineState {
    s.at(s.before.len() + word_end(s.after))
}

pub open spec fn line_home(s: LineState) -> LineState {
    s.at(0)
}

pub open spec fn line_end(s: LineState) -> LineState {
    s.at(s.text().len() as int)
}

// -- History --

/// The entry `skip` steps back among those that start with what was typed.
pub open spec fn recalled(h: HistoryView, typed: Seq<char>, skip: int) -> Option<Seq<char>> {
    match h.nth_back(typed, true, skip, h.entries.len() as int) {
        Some(i) => Some(h.entries[i].text),
        None => None,
    }
}

impl PromptView {
    /// What was typed before the history was walked.
    pub open spec fn typed(self) -> Seq<char> {
        if self.back is None {
            self.line.text()
        } else {
            self.saved
        }
    }

    /// One entry further back; nothing changes where there is none.
    pub open spec fn older(self, h: HistoryView) -> PromptView {
        let typed = self.typed();
        let skip = match self.back {
            Some(i) => i + 1,
            None => 0,
        };
        match recalled(h, typed, skip) {
            Some(t) => PromptView {
                line: line_of(t, self.line.kill),
                back: Some(skip as usize),
                saved: typed,
            },
            None => PromptView { saved: typed, ..self },
        }
    }

    /// One entry further forward; past the last, what was typed.
    pub open spec fn newer(self, h: HistoryView) -> PromptView {
        let typed = self.typed();
        if self.back is None || self.back == Some(0usize) {
            PromptView { line: line_of(typed, self.line.kill), back: None, saved: typed }
        } else {
            let skip = self.back->0 - 1;
            match recalled(h, typed, skip) {
                Some(t) => PromptView {
                    line: line_of(t, self.line.kill),
                    back: Some(skip as usize),
                    saved: typed,
                },
                None => PromptView { back: Some(skip as usize), saved: typed, ..self },
            }
        }
    }

    pub open spec fn navigated(self, h: HistoryView, up: bool) -> PromptView {
        if h.entries.len() == 0 {
            self
        } else if up {
            self.older(h)
        } else {
            self.newer(h)
        }
    }

    pub open spec fn edited(self, line: LineState) -> PromptView {
        PromptView { line, ..self }
    }

    /// The line is no longer one of the history.
    pub open spec fn typed_over(self, line: LineState) -> PromptView {
        PromptView { line, back: None, ..self }
    }
}

/// Walk the history by what was typed before.
pub fn navigate_history(p: &mut Prompt, history: &History, up: bool)
    requires
        old(p).history_idx matches Some(i) ==> i < usize::MAX,
    ensures
        final(p)@ == old(p)@.navigated(history@, up),
        final(p).history_idx matches Some(i) ==> i < usize::MAX,
{
    if history.is_empty() {
        return;
    }
    if p.history_idx.is_none() {
        let t = chars_of(p.line.text());
        p.saved_line = string_of(t.as_slice());
    }
    let ghost typed = old(p)@.typed();
    assert(p.saved_line@ == typed);
    if up {
        let skip: usize = match p.history_idx {
            Some(i) => i + 1,
            None => 0,
        };
        let count = history.len();
        match history.session_prefix_search(p.saved_line.as_str(), skip) {
            Some(e) => {
                proof {
                    lemma_nth_back_bound(history@, typed, skip as int, count as int);
                }
                p.history_idx = Some(skip);
                p.line.set(e);
            },
            None => {},
        }
    } else {
        match p.history_idx {
            Some(i) if i > 0 => {
                let skip = i - 1;
                p.history_idx = Some(skip);
                match history.session_prefix_search(p.saved_line.as_str(), skip) {
                    Some(e) => {
                        p.line.set(e);
                    },
                    None => {},
                }
            },
            _ => {
                p.history_idx = None;
                p.line.set(p.saved_line.as_str());
            },
        }
    }
}

proof fn lemma_nth_back_bound(h: HistoryView, typed: Seq<char>, skip: int, n: int)
    requires
        0 <= n,
        h.nth_back(typed, true, skip, n) is Some,
    ensures
        skip < n,
    decreases n,
{
    if n > 0 {
        if h.selects(typed, true, n - 1) {
            if skip > 0 {
                lemma_nth_back_bound(h, typed, skip - 1, n - 1);
            }
        } else {
            lemma_nth_back_bound(h, typed, skip, n - 1);
        }
    }
}

/// Walking back and then forward gives back what was typed.
pub proof fn law_up_then_down(p: PromptView, h: HistoryView)
    requires
        p.back is None,
        h.entries.len() > 0,
        recalled(h, p.line.text(), 0) is Some,
    ensures
        p.navigated(h, true).navigated(h, false).line.text() == p.line.text(),
        p.navigated(h, true).navigated(h, false).back is None,
{
    let t = p.line.text();
    assert(line_of(t, p.line.kill).text() =~= t);
}

/// What is recalled starts with what was typed.
pub proof fn law_recalled_starts_with(h: HistoryView, typed: Seq<char>, skip: int, n: int)
    requires
        0 <= n <= h.entries.len(),
        h.nth_back(typed, true, skip, n) is Some,
    ensures
        0 <= h.nth_back(typed, true, skip, n)->0 < n,
        starts_with(h.entries[h.nth_back(typed, true, skip, n)->0].text, typed),
        h.visible(h.nth_back(typed, true, skip, n)->0),
    decreases n,
{
    if n > 0 {
        if h.selects(typed, true, n - 1) {
            if skip > 0 {
                law_recalled_starts_with(h, typed, skip - 1, n - 1);
            }
        } else {
            law_recalled_starts_with(h, typed, skip, n - 1);
        }
    }
}

// -- Aliases and suggestions --

/// The line with its alias expanded: only where it is the only word.
pub open spec fn alias_typed(line: LineState, aliases: Seq<AliasView>) -> LineState {
    if trimmed_end(line.text()).contains(' ') {
        line
    } else {
        match alias_expanded(aliases, line.text()) {
            Some(t) => line_of(t, line.kill),
            None => line,
        }
    }
}

pub fn try_alias_expand(line: &mut LineBuffer, aliases: &AliasMap)
    ensures
        final(line)@ == alias_typed(old(line)@, aliases@),
{
    let t = chars_of(line.text());
    let trimmed = trim_end_of(&t);
    if has_char(&trimmed, ' ') {
        return;
    }
    match aliases.try_expand(line.text()) {
        Some(new_text) => {
            line.set(new_text.as_str());
        },
        None => {},
    }
}

/// What the history would add to the line: the rest of the latest entry that starts with it.
/// Short lines, lines with newlines and a cursor within the line get none.
pub open spec fn suggested_rest(line: LineState, h: HistoryView) -> Seq<char> {
    let t = line.text();
    if byte_len(t) >= 3 && !t.contains('\n') && line.after.len() == 0 {
        match recalled(h, t, 0) {
            Some(e) => e.skip(t.len() as int),
            None => Seq::empty(),
        }
    } else {
        Seq::empty()
    }
}

/// The suggestion that is shown after the line.
pub fn suggestion(line: &LineBuffer, history: &History) -> (r: String)
    ensures
        r@ == suggested_rest(line@, history@),
{
    let text = line.text();
    let t = chars_of(text);
    proof {
        crate::text::lemma_byte_len_take(line@.text(), line@.before.len() as int);
        assert(line@.text().take(line@.before.len() as int) =~= line@.before);
        assert(line@.after.len() == 0 ==> line@.text() =~= line@.before);
    }
    let at_end = line.cursor() == str_len(text);
    if str_len(text) >= 3 && !line.has_newlines() && at_end {
        match history.session_prefix_search(text, 0) {
            Some(e) => {
                let v = chars_of(e);
                proof {
                    law_recalled_starts_with(
                        history@,
                        text@,
                        0,
                        history@.entries.len() as int,
                    );
                }
                let rest = tail_of(&v, t.len());
                return string_of(rest.as_slice());
            },
            None => {},
        }
    }
    let r = String::new();
    assert(r@ =~= Seq::empty());
    r
}

/// How the first word is shown: as a command that exists or one that does not, or plainly.
pub open spec fn word_color(
    line: LineState,
    aliases: Seq<AliasView>,
    in_path: bool,
) -> Option<bool> {
    let w = first_word(line.text());
    if line.text().contains('\n') || w.len() == 0 {
        None
    } else if is_builtin_name(w) || alias_of(aliases, w) is Some || w.contains('/') {
        Some(true)
    } else {
        Some(in_path)
    }
}

/// Whether the first word of the line is a command; `in_path` tells whether `$PATH` holds it.
pub fn command_color(line: &LineBuffer, aliases: &AliasMap, in_path: bool) -> (r: Option<bool>)
    ensures
        r == word_color(line@, aliases@, in_path),
{
    if line.has_newlines() {
        return None;
    }
    let t = chars_of(line.text());
    let w = first_word_of(&t);
    if w.len() == 0 {
        return None;
    }
    let word = string_of(w.as_slice());
    if is_builtin(word.as_str()) || aliases.get(word.as_str()).is_some() || has_char(&w, '/') {
        return Some(true);
    }
    Some(in_path)
}

// -- Keys --

/// What a key does at the prompt.
pub open spec fn normal_key(
    key: KeyEvent,
    p: PromptView,
    h: HistoryView,
    aliases: Seq<AliasView>,
) -> (PromptView, ActionView) {
    let ctrl = key.mods.ctrl;
    let alt = key.mods.alt;
    let line = p.line;
    match key.key {
        Key::Char(c) => if ctrl {
            if c == 'c' {
                (p, ActionView::Cancel)
            } else if c == 'd' {
                if line.text().len() == 0 {
                    (p, ActionView::Exit)
                } else {
                    (p.edited(line.delete_forward()), ActionView::Continue)
                }
            } else if c == 'a' {
                (p.edited(line_home(line)), ActionView::Continue)
            } else if c == 'e' {
                (p.edited(line_end(line)), ActionView::Continue)
            } else if c == 'k' {
                (p.edited(line.kill_to_end()), ActionView::Continue)
            } else if c == 'u' {
                (p.edited(line.kill_to_start()), ActionView::Continue)
            } else if c == 'w' {
                (p.edited(line.kill_word_back()), ActionView::Continue)
            } else if c == 'y' {
                (p.edited(line.yank()), ActionView::Continue)
            } else if c == 'l' {
                (p, ActionView::ClearScreen)
            } else if c == 'r' {
                (p, ActionView::StartHistorySearch)
            } else if c == 'f' {
                (p, ActionView::StartFilePicker)
            } else {
                (p, ActionView::Continue)
            }
        } else if alt {
            if c == 'd' {
                (p.edited(line.kill_word_forward()), ActionView::Continue)
            } else if c == 'b' {
                (p.edited(word_left(line)), ActionView::Continue)
            } else if c == 'f' {
                (p.edited(word_right(line)), ActionView::Continue)
            } else {
                (p, ActionView::Continue)
            }
        } else {
            let typed = line.insert(seq![c]);
            (
                p.typed_over(
                    if c == ' ' {
                        alias_typed(typed, aliases)
                    } else {
                        typed
                    },
                ),
                ActionView::Continue,
            )
        },
        Key::Up => if ctrl {
            (p, ActionView::Continue)
        } else if line.text().contains('\n') && line.before.contains('\n') {
            (p.edited(line.move_line_up()), ActionView::Continue)
        } else {
            (p.navigated(h, true), ActionView::Continue)
        },
        Key::Down => if ctrl {
            (p, ActionView::Continue)
        } else if line.text().contains('\n') && line.after.contains('\n') {
            (p.edited(line.move_line_down()), ActionView::Continue)
        } else {
            (p.navigated(h, false), ActionView::Continue)
        },
        Key::Left => if ctrl || alt {
            (p.edited(word_left(line)), ActionView::Continue)
        } else {
            (p.edited(line.move_left()), ActionView::Continue)
        },
        Key::Right => if ctrl || alt {
            (p.edited(word_right(line)), ActionView::Continue)
        } else if line.after.len() == 0 && !line.text().contains('\n') {
            (
                match recalled(h, line.text(), 0) {
                    Some(t) => p.edited(line_of(t, line.kill)),
                    None => p,
                },
                ActionView::Continue,
            )
        } else {
            (p.edited(line.move_right()), ActionView::Continue)
        },
        Key::Home => (p.edited(line_home(line)), ActionView::Continue),
        Key::End => (p.edited(line_end(line)), ActionView::Continue),
        Key::Backspace => if ctrl {
            (p, ActionView::StartDirPicker)
        } else {
            (p.typed_over(line.delete_back()), ActionView::Continue)
        },
        Key::Delete => if ctrl {
            (p.typed_over(line.kill_word_back()), ActionView::Continue)
        } else {
            (p.edited(line.delete_forward()), ActionView::Continue)
        },
        Key::Tab => (
            if line.text().len() == 0 {
                p.edited(line.insert("cd "@))
            } else {
                p
            },
            ActionView::StartCompletion,
        ),
        Key::Enter => (
            p,
            if line_continues(lines_joined(line.text(), 0)) {
                ActionView::Continuation
            } else {
                ActionView::Execute(line.text())
            },
        ),
        Key::Escape => (p, ActionView::Continue),
    }
}

fn normal_ctrl(key: KeyEvent, c: char, p: &mut Prompt) -> (r: KeyAction)
    requires
        key.key == Key::Char(c),
        key.mods.ctrl,
    ensures
        forall|h: HistoryView, aliases: Seq<AliasView>|
            (final(p)@, r@) == #[trigger] normal_key(key, old(p)@, h, aliases),
        final(p).history_idx == old(p).history_idx,
{
    match c {
        'c' => KeyAction::Cancel,
        'd' => {
            if p.line.is_empty() {
                return KeyAction::Exit;
            }
            p.line.delete_forward();
            KeyAction::Continue
        },
        'a' => {
            p.line.move_home();
            KeyAction::Continue
        },
        'e' => {
            p.line.move_end();
            KeyAction::Continue
        },
        'k' => {
            p.line.kill_to_end();
            KeyAction::Continue
        },
        'u' => {
            p.line.kill_to_start();
            KeyAction::Continue
        },
        'w' => {
            p.line.kill_word_back();
            KeyAction::Continue
        },
        'y' => {
            p.line.yank();
            KeyAction::Continue
        },
        'l' => KeyAction::ClearScreen,
        'r' => KeyAction::StartHistorySearch,
        'f' => KeyAction::StartFilePicker,
        _ => KeyAction::Continue,
    }
}

fn normal_char(key: KeyEvent, c: char, p: &mut Prompt, aliases: &AliasMap)
    requires
        key.key == Key::Char(c),
        !key.mods.ctrl,
    ensures
        forall|h: HistoryView|
            (final(p)@, ActionView::Continue) == #[trigger] normal_key(
                key,
                old(p)@,
                h,
                aliases@,
            ),
        final(p).history_idx is None || final(p).history_idx == old(p).history_idx,
{
    if key.mods.alt {
        match c {
            'd' => p.line.kill_word_forward(),
            'b' => p.line.move_word_left(),
            'f' => p.line.move_word_right(),
            _ => {},
        }
        return;
    }
    p.line.insert_char(c);
    if c == ' ' {
        try_alias_expand(&mut p.line, aliases);
    }
    p.history_idx = None;
}

fn normal_right(key: KeyEvent, p: &mut Prompt, history: &History)
    requires
        key.key == Key::Right,
        !key.mods.ctrl && !key.mods.alt,
    ensures
        forall|aliases: Seq<AliasView>|
            (final(p)@, ActionView::Continue) == #[trigger] normal_key(
                key,
                old(p)@,
                history@,
                aliases,
            ),
        final(p).history_idx == old(p).history_idx,
{
    proof {
        let s = p.line@;
        crate::text::lemma_byte_len_take(s.text(), s.before.len() as int);
        assert(s.text().take(s.before.len() as int) =~= s.before);
        assert(s.after.len() == 0 ==> s.text() =~= s.before);
    }
    let at_end = p.line.cursor() >= str_len(p.line.text());
    if at_end && !p.line.has_newlines() {
        match history.session_prefix_search(p.line.text(), 0) {
            Some(e) => {
                let v = chars_of(e);
                let owned = string_of(v.as_slice());
                p.line.set(owned.as_str());
            },
            None => {},
        }
    } else {
        p.line.move_right();
    }
}

/// Handle a key at the prompt.
pub fn handle_normal_key(
    key: KeyEvent,
    p: &mut Prompt,
    history: &History,
    aliases: &AliasMap,
) -> (r: KeyAction)
    requires
        old(p).history_idx matches Some(i) ==> i < usize::MAX,
    ensures
        (final(p)@, r@) == normal_key(key, old(p)@, history@, aliases@),
        final(p).history_idx matches Some(i) ==> i < usize::MAX,
{
    let ctrl = key.mods.ctrl;
    let alt = key.mods.alt;
    match key.key {
        Key::Char(c) => {
            if ctrl {
                return normal_ctrl(key, c, p);
            }
            normal_char(key, c, p, aliases);
        },
        Key::Up => {
            if !ctrl {
                if p.line.has_newlines() && !p.line.on_first_line() {
                    p.line.move_line_up();
                } else {
                    navigate_history(p, history, true);
                }
            }
        },
        Key::Down => {
            if !ctrl {
                if p.line.has_newlines() && !p.line.on_last_line() {
                    p.line.move_line_down();
                } else {
                    navigate_history(p, history, false);
                }
            }
        },
        Key::Left => {
            if ctrl || alt {
                p.line.move_word_left();
            } else {
                p.line.move_left();
            }
        },
        Key::Right => {
            if ctrl || alt {
                p.line.move_word_right();
            } else {
                normal_right(key, p, history);
            }
        },
        Key::Home => p.line.move_home(),
        Key::End => p.line.move_end(),
        Key::Backspace => {
            if ctrl {
                return KeyAction::StartDirPicker;
            }
            p.line.delete_back();
            p.history_idx = None;
        },
        Key::Delete => {
            if ctrl {
                p.line.kill_word_back();
                p.history_idx = None;
            } else {
                p.line.delete_forward();
            }
        },
        Key::Tab => {
            if p.line.is_empty() {
                p.line.insert_str("cd ");
            }
            return KeyAction::StartCompletion;
        },
        Key::Enter => {
            let text = join_continuation_lines(p.line.text());
            if needs_continuation(text.as_str()) {
                return KeyAction::Continuation;
            }
            let t = chars_of(p.line.text());
            return KeyAction::Execute(string_of(t.as_slice()));
        },
        Key::Escape => {},
    }
    KeyAction::Continue
}

} // verus!
