//! Reading a line: the modes of the prompt, what an event does in each, and how each is shown.
//!
//! The caller reads events and does what a step asks for: it syncs the history, walks
//! directories, gathers candidates, changes directory or runs the line.
use vstd::prelude::*;

use crate::alias::{AliasMap, AliasView};
use crate::complete::{compute_grid, grid_of, CompletionState};
use crate::completing::{preview_completion, previewed};
use crate::editor::{
    command_color, handle_normal_key, line_of, normal_key, suggested_rest, suggestion, word_color,
    ActionView, KeyAction, Prompt, PromptView,
};
use crate::fuzzy::match_views;
use crate::history::{History, HistoryView};
use crate::input::KeyEvent;
use crate::line::{columns_before, smaller, str_width, width_of, LineBuffer, LineState};
use crate::pickers::{
    completion_key, dir_key, file_action, files_key, handle_completion_key, handle_dir_picker_key,
    handle_file_picker_key, handle_history_search_key, search_action, search_key, CompAction,
    DirAction, DirActionView, FileActionView, FilePicker, FilePickerAction, FilesView, HistAction,
    HistActionView, HistorySearch, SearchView,
};
use crate::render::{
    completions_drawn, dir_input, dirs_drawn, history_drawn, history_input, line_drawn, line_layout,
    picker_drawn, picker_input, render_completions, render_dir_picker, render_file_picker,
    render_history_pager, render_line, RenderOpts, RenderedRegion, MAX_GRID_ROWS,
};
use crate::rewrite::{join_continuation_lines, lines_joined};
use crate::term::TermWriter;
use crate::text::{byte_len, chars_of, str_len, string_of, strs};

verus! {

/// What the prompt is doing.
pub enum Mode {
    Normal,
    /// Candidates are shown for the word in `base_line`.
    Completion { state: CompletionState, base_line: LineBuffer },
    HistorySearch(HistorySearch),
    FilePicker(FilePicker),
    DirPicker { entries: Vec<String>, selected: usize },
}

pub enum ModeView {
    Normal,
    Completion { state: CompletionState, base: LineState },
    Search(SearchView),
    Files(FilesView),
    Dirs { entries: Seq<Seq<char>>, selected: int },
}

impl View for Mode {
    type V = ModeView;

    open spec fn view(&self) -> ModeView {
        match self {
            Mode::Normal => ModeView::Normal,
            Mode::Completion { state, base_line } => ModeView::Completion {
                state: *state,
                base: base_line@,
            },
            Mode::HistorySearch(s) => ModeView::Search(s@),
            Mode::FilePicker(p) => ModeView::Files(p@),
            Mode::DirPicker { entries, selected } => ModeView::Dirs {
                entries: strs(entries@),
                selected: *selected as int,
            },
        }
    }
}

/// What the caller is asked to do.
pub enum Step {
    /// Show the active mode.
    Show,
    /// Show the line where the mode was shown.
    ShowLine,
    /// Show the line in place of a picker.
    ShowLineFresh,
    /// Show the line and the grid of candidates in place.
    Repaint,
    Ignore,
    /// Run a line.
    Run(String),
    /// Read another line.
    Empty,
    /// Say that the line was cancelled, and read another.
    Cancelled,
    /// Leave the shell.
    Leave,
    ClearScreen,
    /// Sync the history, then begin the search.
    SearchHistory,
    /// Walk the files below the current directory.
    WalkFiles { hidden: bool },
    /// Gather the directories to pick from.
    PickDirectory,
    /// Gather the candidates for the word at the cursor.
    Complete,
    /// Gather the candidates for the changed word.
    CompleteAgain,
    /// Change to a directory.
    ChangeDirectory(String),
}

pub enum StepView {
    Show,
    ShowLine,
    ShowLineFresh,
    Repaint,
    Ignore,
    Run(Seq<char>),
    Empty,
    Cancelled,
    Leave,
    ClearScreen,
    SearchHistory,
    WalkFiles { hidden: bool },
    PickDirectory,
    Complete,
    CompleteAgain,
    ChangeDirectory(Seq<char>),
}

impl View for Step {
    type V = StepView;

    open spec fn view(&self) -> StepView {
        match self {
            Step::Show => StepView::Show,
            Step::ShowLine => StepView::ShowLine,
            Step::ShowLineFresh => StepView::ShowLineFresh,
            Step::Repaint => StepView::Repaint,
            Step::Ignore => StepView::Ignore,
            Step::Run(t) => StepView::Run(t@),
            Step::Empty => StepView::Empty,
            Step::Cancelled => StepView::Cancelled,
            Step::Leave => StepView::Leave,
            Step::ClearScreen => StepView::ClearScreen,
            Step::SearchHistory => StepView::SearchHistory,
            Step::WalkFiles { hidden } => StepView::WalkFiles { hidden: *hidden },
            Step::PickDirectory => StepView::PickDirectory,
            Step::Complete => StepView::Complete,
            Step::CompleteAgain => StepView::CompleteAgain,
            Step::ChangeDirectory(d) => StepView::ChangeDirectory(d@),
        }
    }
}

/// The state of reading a line.
pub struct Editor {
    pub prompt: Prompt,
    pub mode: Mode,
}

pub struct EditorView {
    pub prompt: PromptView,
    pub mode: ModeView,
}

impl View for Editor {
    type V = EditorView;

    open spec fn view(&self) -> EditorView {
        EditorView { prompt: self.prompt@, mode: self.mode@ }
    }
}

/// The grid of candidates can be walked.
pub open spec fn grid_ok(state: CompletionState) -> bool {
    state.comp.wf() && state.comp.entries@.len() + state.rows <= usize::MAX
}

// -- What keys do --

/// The prompt with another line, in normal mode.
pub open spec fn back_to(prompt: PromptView, line: LineState) -> EditorView {
    EditorView { prompt: PromptView { line, ..prompt }, mode: ModeView::Normal }
}

/// What an action of the prompt leads to.
pub open spec fn normal_step(p: PromptView, action: ActionView) -> (EditorView, StepView) {
    let stay = EditorView { prompt: p, mode: ModeView::Normal };
    let saved = PromptView { saved: p.line.text(), ..p };
    match action {
        ActionView::Continue => (stay, StepView::Show),
        ActionView::Execute(t) => (
            stay,
            if lines_joined(t, 0).len() == 0 {
                StepView::Empty
            } else {
                StepView::Run(lines_joined(t, 0))
            },
        ),
        ActionView::Continuation => (
            EditorView {
                prompt: PromptView { line: p.line.insert(seq!['\n']), back: None, ..p },
                mode: ModeView::Normal,
            },
            StepView::Show,
        ),
        ActionView::Cancel => (stay, StepView::Cancelled),
        ActionView::Exit => (stay, StepView::Leave),
        ActionView::ClearScreen => (stay, StepView::ClearScreen),
        ActionView::StartHistorySearch => (
            EditorView { prompt: saved, mode: ModeView::Normal },
            StepView::SearchHistory,
        ),
        ActionView::StartFilePicker => (
            EditorView { prompt: saved, mode: ModeView::Files(files_start(p.line)) },
            StepView::WalkFiles { hidden: false },
        ),
        ActionView::StartDirPicker => (stay, StepView::PickDirectory),
        ActionView::StartCompletion => (stay, StepView::Complete),
    }
}

/// A file picker with nothing found yet.
pub open spec fn files_start(line: LineState) -> FilesView {
    FilesView {
        query: LineState { before: Seq::empty(), after: Seq::empty(), kill: Seq::empty() },
        all: Seq::empty(),
        filtered: Seq::empty(),
        selected: 0,
        hidden: false,
        saved: line,
    }
}

/// What a key does while candidates are shown.
pub open spec fn completion_step(
    key: KeyEvent,
    p: PromptView,
    state: CompletionState,
    base: LineState,
) -> (EditorView, StepView) {
    let (next, line, action) = completion_key(key, state, base);
    match action {
        CompAction::Navigate => (
            EditorView {
                prompt: PromptView { line: previewed(p.line, next, line), ..p },
                mode: ModeView::Completion { state: next, base: line },
            },
            StepView::Repaint,
        ),
        CompAction::Refilter => (
            EditorView { prompt: p, mode: ModeView::Completion { state: next, base: line } },
            StepView::CompleteAgain,
        ),
        CompAction::Accept => (back_to(p, previewed(p.line, next, line)), StepView::ShowLine),
        CompAction::Cancel => (back_to(p, line), StepView::ShowLine),
    }
}

/// What a key leads to while the history is searched.
pub open spec fn search_step(p: PromptView, next: SearchView, action: HistActionView) -> (
    EditorView,
    StepView,
) {
    match action {
        HistActionView::Continue => (
            EditorView { prompt: p, mode: ModeView::Search(next) },
            StepView::Show,
        ),
        HistActionView::Accept(t) => (
            back_to(p, line_of(t, p.line.kill)),
            StepView::ShowLineFresh,
        ),
        HistActionView::Cancel => (
            back_to(p, line_of(next.saved, p.line.kill)),
            StepView::ShowLineFresh,
        ),
    }
}

/// What a key leads to while a file is picked.
pub open spec fn files_step(p: PromptView, next: FilesView, action: FileActionView) -> (
    EditorView,
    StepView,
) {
    match action {
        FileActionView::Continue => (
            EditorView { prompt: p, mode: ModeView::Files(next) },
            StepView::Show,
        ),
        FileActionView::Restart => (
            EditorView { prompt: p, mode: ModeView::Files(next) },
            StepView::WalkFiles { hidden: next.hidden },
        ),
        FileActionView::Accept(path) => (
            back_to(p, next.saved.insert(path)),
            StepView::ShowLineFresh,
        ),
        FileActionView::Cancel => (
            back_to(p, line_of(next.saved.text(), p.line.kill)),
            StepView::ShowLineFresh,
        ),
    }
}

/// What a key leads to while a directory is picked.
pub open spec fn dirs_step(
    p: PromptView,
    entries: Seq<Seq<char>>,
    selected: int,
    action: DirActionView,
) -> (EditorView, StepView) {
    let here = EditorView { prompt: p, mode: ModeView::Dirs { entries, selected } };
    match action {
        DirActionView::Ignore => (here, StepView::Ignore),
        DirActionView::Show => (here, StepView::Show),
        DirActionView::Leave => (back_to(p, p.line), StepView::ShowLineFresh),
        DirActionView::Change(d) => (back_to(p, p.line), StepView::ChangeDirectory(d)),
    }
}

/// A key takes the editor from `a` to `b` and asks for `step`.
pub open spec fn key_step(
    key: KeyEvent,
    a: EditorView,
    b: EditorView,
    step: StepView,
    h: HistoryView,
    aliases: Seq<AliasView>,
) -> bool {
    match a.mode {
        ModeView::Normal => {
            let (p, action) = normal_key(key, a.prompt, h, aliases);
            (b, step) == normal_step(p, action)
        },
        ModeView::Completion { state, base } => (b, step) == completion_step(
            key,
            a.prompt,
            state,
            base,
        ),
        ModeView::Search(s) => exists|next: SearchView| #[trigger]
            search_key(key, s, next, h) && (b, step) == search_step(
                a.prompt,
                next,
                search_action(key, s, h),
            ),
        ModeView::Files(f) => exists|next: FilesView| #[trigger]
            files_key(key, f, next) && (b, step) == files_step(
                a.prompt,
                next,
                file_action(key, f),
            ),
        ModeView::Dirs { entries, selected } => {
            let (sel, action) = dir_key(key, entries, selected);
            (b, step) == dirs_step(a.prompt, entries, sel, action)
        },
    }
}

// -- Candidates --

/// The candidates for the word at the cursor are there: one is taken at once, of several none
/// is selected yet.
pub open spec fn candidates_shown(p: PromptView, state: CompletionState) -> EditorView {
    let n = state.comp@.len();
    let none = CompletionState { selected: usize::MAX, ..state };
    if n == 1 {
        back_to(p, previewed(p.line, state, p.line))
    } else if n > 1 {
        EditorView {
            prompt: p,
            mode: ModeView::Completion { state: none, base: p.line },
        }
    } else {
        EditorView { prompt: p, mode: ModeView::Normal }
    }
}

/// The selection among new candidates: as far as there are so many.
pub open spec fn reselected(selected: usize, n: int) -> usize {
    if selected == usize::MAX || selected < n {
        selected
    } else {
        (n - 1) as usize
    }
}

/// The candidates for the changed word are there; without any the prompt comes back.
pub open spec fn candidates_refiltered(
    p: PromptView,
    selected: usize,
    state: CompletionState,
    base: LineState,
) -> EditorView {
    let n = state.comp@.len();
    let next = CompletionState { selected: reselected(selected, n as int), ..state };
    if n > 0 {
        EditorView {
            prompt: PromptView { line: previewed(p.line, next, base), ..p },
            mode: ModeView::Completion { state: next, base },
        }
    } else {
        back_to(p, base)
    }
}

/// The grid laid out anew for a terminal of another width.
pub open spec fn relaid(state: CompletionState, cols: u16) -> CompletionState {
    let (c, r) = grid_of(state.comp.entries@, cols as int);
    CompletionState {
        cols: c as usize,
        rows: r as usize,
        scroll: smaller(
            state.scroll as int,
            if r > 0 {
                r - 1
            } else {
                0
            },
        ) as usize,
        ..state
    }
}

/// What a paste leads to: at the prompt the text goes into the line.
pub open spec fn pasted(e: EditorView, text: Seq<char>) -> (EditorView, StepView) {
    if e.mode is Normal {
        (
            EditorView { prompt: e.prompt.typed_over(e.prompt.line.insert(text)), mode: e.mode },
            StepView::Show,
        )
    } else {
        (e, StepView::Ignore)
    }
}

/// What a paste leads to that was too large: at the prompt the line says so.
pub open spec fn paste_refused(e: EditorView) -> (EditorView, StepView) {
    if e.mode is Normal {
        (
            EditorView {
                prompt: e.prompt.typed_over(line_of(PASTE_TOO_LARGE@, e.prompt.line.kill)),
                mode: e.mode,
            },
            StepView::Show,
        )
    } else {
        (e, StepView::Ignore)
    }
}

/// What takes the place of the line when a paste was too large.
pub const PASTE_TOO_LARGE: &'static str = "# paste rejected: larger than 1 KiB";

impl Editor {
    pub open spec fn wf(&self, history: &History) -> bool {
        &&& self.prompt.history_idx matches Some(i) ==> i < usize::MAX
        &&& match self.mode {
            Mode::Completion { state, base_line } => grid_ok(state),
            Mode::HistorySearch(s) => s.wf(history),
            Mode::FilePicker(p) => p.wf(),
            _ => true,
        }
    }

    /// An empty line in normal mode.
    pub fn new() -> (r: Self)
        ensures
            forall|history: &History| r.wf(history),
            r@.mode == ModeView::Normal,
            r@.prompt.line == (LineState {
                before: Seq::empty(),
                after: Seq::empty(),
                kill: Seq::empty(),
            }),
            r@.prompt.back is None,
            r@.prompt.saved == Seq::<char>::empty(),
    {
        let saved_line = String::new();
        assert(saved_line@ =~= Seq::empty());
        Editor {
            prompt: Prompt { line: LineBuffer::new(), history_idx: None, saved_line },
            mode: Mode::Normal,
        }
    }

    fn save_line(&mut self)
        ensures
            final(self)@.prompt == (PromptView {
                saved: old(self)@.prompt.line.text(),
                ..old(self)@.prompt
            }),
            final(self).prompt.history_idx == old(self).prompt.history_idx,
            final(self).mode == old(self).mode,
    {
        let t = chars_of(self.prompt.line.text());
        self.prompt.saved_line = string_of(t.as_slice());
    }

    fn normal_key(&mut self, key: KeyEvent, history: &History, aliases: &AliasMap) -> (r: Step)
        requires
            old(self).wf(history),
            old(self).mode is Normal,
        ensures
            final(self).wf(history),
            key_step(key, old(self)@, final(self)@, r@, history@, aliases@),
    {
        match handle_normal_key(key, &mut self.prompt, history, aliases) {
            KeyAction::Continue => Step::Show,
            KeyAction::Execute(text) => {
                let joined = join_continuation_lines(text.as_str());
                if chars_of(joined.as_str()).len() == 0 {
                    Step::Empty
                } else {
                    Step::Run(joined)
                }
            },
            KeyAction::Continuation => {
                self.prompt.line.insert_char('\n');
                self.prompt.history_idx = None;
                Step::Show
            },
            KeyAction::Cancel => Step::Cancelled,
            KeyAction::Exit => Step::Leave,
            KeyAction::ClearScreen => Step::ClearScreen,
            KeyAction::StartHistorySearch => {
                self.save_line();
                Step::SearchHistory
            },
            KeyAction::StartFilePicker => {
                self.save_line();
                let picker = FilePicker::start(&self.prompt.line);
                assert(picker@ =~= files_start(self.prompt.line@));
                self.mode = Mode::FilePicker(picker);
                Step::WalkFiles { hidden: false }
            },
            KeyAction::StartDirPicker => Step::PickDirectory,
            KeyAction::StartCompletion => Step::Complete,
        }
    }

    fn completion_key(&mut self, key: KeyEvent, mut state: CompletionState, mut base: LineBuffer) -> (r:
        Step)
        requires
            grid_ok(state),
            old(self).mode is Normal,
            old(self).prompt.history_idx matches Some(i) ==> i < usize::MAX,
        ensures
            forall|history: &History| final(self).wf(history),
            (final(self)@, r@) == completion_step(key, old(self)@.prompt, state, base@),
    {
        match handle_completion_key(key, &mut state, &mut base) {
            CompAction::Navigate => {
                preview_completion(&mut self.prompt.line, &state, &base);
                self.mode = Mode::Completion { state, base_line: base };
                Step::Repaint
            },
            CompAction::Refilter => {
                self.mode = Mode::Completion { state, base_line: base };
                Step::CompleteAgain
            },
            CompAction::Accept => {
                preview_completion(&mut self.prompt.line, &state, &base);
                Step::ShowLine
            },
            CompAction::Cancel => {
                self.prompt.line = base;
                Step::ShowLine
            },
        }
    }

    /// What a key does.
    pub fn handle_key(&mut self, key: KeyEvent, history: &History, aliases: &AliasMap) -> (r: Step)
        requires
            old(self).wf(history),
        ensures
            final(self).wf(history),
            key_step(key, old(self)@, final(self)@, r@, history@, aliases@),
    {
        let mut mode = Mode::Normal;
        core::mem::swap(&mut self.mode, &mut mode);
        match mode {
            Mode::Normal => self.normal_key(key, history, aliases),
            Mode::Completion { state, base_line } => self.completion_key(key, state, base_line),
            Mode::HistorySearch(s) => {
                let mut s = s;
                let ghost before = s@;
                let action = handle_history_search_key(key, &mut s, history);
                assert(search_key(key, before, s@, history@));
                match action {
                    HistAction::Continue => {
                        self.mode = Mode::HistorySearch(s);
                        Step::Show
                    },
                    HistAction::Accept(text) => {
                        self.prompt.line.set(text.as_str());
                        Step::ShowLineFresh
                    },
                    HistAction::Cancel => {
                        self.prompt.line.set(s.saved_line());
                        Step::ShowLineFresh
                    },
                }
            },
            Mode::FilePicker(p) => {
                let mut p = p;
                let ghost before = p@;
                let action = handle_file_picker_key(key, &mut p);
                assert(files_key(key, before, p@));
                match action {
                    FilePickerAction::Continue => {
                        self.mode = Mode::FilePicker(p);
                        Step::Show
                    },
                    FilePickerAction::Restart => {
                        let hidden = p.hidden;
                        self.mode = Mode::FilePicker(p);
                        Step::WalkFiles { hidden }
                    },
                    FilePickerAction::Accept(path) => {
                        self.prompt.line = p.accepted(path.as_str());
                        Step::ShowLineFresh
                    },
                    FilePickerAction::Cancel => {
                        self.prompt.line.set(p.saved.text());
                        Step::ShowLineFresh
                    },
                }
            },
            Mode::DirPicker { entries, selected } => {
                let mut sel = selected;
                match handle_dir_picker_key(key, &entries, &mut sel) {
                    DirAction::Ignore => {
                        self.mode = Mode::DirPicker { entries, selected: sel };
                        Step::Ignore
                    },
                    DirAction::Show => {
                        self.mode = Mode::DirPicker { entries, selected: sel };
                        Step::Show
                    },
                    DirAction::Leave => Step::ShowLineFresh,
                    DirAction::Change(dir) => Step::ChangeDirectory(dir),
                }
            },
        }
    }

    /// Text was pasted: it goes into the line as a whole.
    pub fn handle_paste(&mut self, text: &str) -> (r: Step)
        requires
            old(self).prompt.history_idx matches Some(i) ==> i < usize::MAX,
        ensures
            (final(self)@, r@) == pasted(old(self)@, text@),
            final(self)@.mode == old(self)@.mode,
            final(self).mode == old(self).mode,
            old(self).mode is Normal ==> r@ == StepView::Show && final(self)@.prompt
                == old(self)@.prompt.typed_over(old(self)@.prompt.line.insert(text@)),
            !(old(self).mode is Normal) ==> r@ == StepView::Ignore && final(self)@
                == old(self)@,
            final(self).prompt.history_idx is None || final(self).prompt.history_idx
                == old(self).prompt.history_idx,
    {
        match self.mode {
            Mode::Normal => {
                self.prompt.line.insert_str(text);
                self.prompt.history_idx = None;
                Step::Show
            },
            _ => Step::Ignore,
        }
    }

    /// A paste was too large: the line says so.
    pub fn handle_paste_rejected(&mut self) -> (r: Step)
        ensures
            (final(self)@, r@) == paste_refused(old(self)@),
            final(self).mode == old(self).mode,
            old(self).mode is Normal ==> r@ == StepView::Show && final(self)@.prompt
                == old(self)@.prompt.typed_over(
                line_of(PASTE_TOO_LARGE@, old(self)@.prompt.line.kill),
            ),
            !(old(self).mode is Normal) ==> r@ == StepView::Ignore && final(self)@
                == old(self)@,
            final(self).prompt.history_idx is None || final(self).prompt.history_idx
                == old(self).prompt.history_idx,
    {
        match self.mode {
            Mode::Normal => {
                self.prompt.line.set(PASTE_TOO_LARGE);
                self.prompt.history_idx = None;
                Step::Show
            },
            _ => Step::Ignore,
        }
    }

    /// The search of the history begins, once the history has been synced.
    pub fn begin_search(&mut self, history: &History)
        requires
            old(self).prompt.history_idx matches Some(i) ==> i < usize::MAX,
        ensures
            final(self).wf(history),
            final(self)@.prompt == old(self)@.prompt,
            final(self)@.mode matches ModeView::Search(s) && s.query == line_of(
                Seq::empty(),
                Seq::empty(),
            ) && s.selected == 0 && s.saved == old(self)@.prompt.saved
                && crate::pickers::best_matches(history@, s.query.text(), s.matches),
    {
        let s = HistorySearch::start(history, self.prompt.saved_line.as_str());
        proof {
            s.lemma_shows_best(history);
        }
        self.mode = Mode::HistorySearch(s);
    }

    /// The directories to pick from are there. Returns whether there are any.
    pub fn begin_dir_picker(&mut self, entries: Vec<String>) -> (r: bool)
        ensures
            r == (entries@.len() > 0),
            final(self)@.prompt == old(self)@.prompt,
            final(self).prompt.history_idx == old(self).prompt.history_idx,
            r ==> final(self)@.mode == (ModeView::Dirs { entries: strs(entries@), selected: 0 })
                && (final(self).mode is DirPicker),
            !r ==> final(self).mode == old(self).mode,
    {
        if entries.len() == 0 {
            return false;
        }
        self.mode = Mode::DirPicker { entries, selected: 0 };
        true
    }

    /// The candidates for the word at the cursor are there.
    pub fn show_candidates(&mut self, state: CompletionState)
        requires
            old(self).prompt.history_idx matches Some(i) ==> i < usize::MAX,
            grid_ok(state),
            state.selected == 0,
        ensures
            final(self)@ == candidates_shown(old(self)@.prompt, state),
            forall|history: &History| final(self).wf(history),
    {
        let n = state.comp.len();
        self.mode = Mode::Normal;
        if n == 1 {
            let base = self.prompt.line.clone();
            preview_completion(&mut self.prompt.line, &state, &base);
        } else if n > 1 {
            let base = self.prompt.line.clone();
            let mut none = state;
            none.selected = usize::MAX;
            self.mode = Mode::Completion { state: none, base_line: base };
        }
    }

    /// The candidates for the changed word are there.
    pub fn refilter(&mut self, state: CompletionState)
        requires
            old(self).prompt.history_idx matches Some(i) ==> i < usize::MAX,
            grid_ok(state),
            old(self).mode is Completion,
        ensures
            final(self)@ == candidates_refiltered(
                old(self)@.prompt,
                old(self).mode->state.selected,
                state,
                old(self).mode->base_line@,
            ),
            forall|history: &History| final(self).wf(history),
    {
        let mut mode = Mode::Normal;
        core::mem::swap(&mut self.mode, &mut mode);
        match mode {
            Mode::Completion { state: before, base_line } => {
                let n = state.comp.len();
                if n == 0 {
                    self.prompt.line = base_line;
                    return;
                }
                let selected: usize = if before.selected == usize::MAX || before.selected < n {
                    before.selected
                } else {
                    n - 1
                };
                let mut next = state;
                next.selected = selected;
                preview_completion(&mut self.prompt.line, &next, &base_line);
                self.mode = Mode::Completion { state: next, base_line };
            },
            _ => {},
        }
    }

    /// The terminal has another width.
    pub fn resize(&mut self, cols: u16)
        requires
            old(self).mode matches Mode::Completion { state, base_line } ==> grid_ok(state)
                && 2 * state.comp.entries@.len() <= usize::MAX,
        ensures
            final(self)@.prompt == old(self)@.prompt,
            final(self).prompt.history_idx == old(self).prompt.history_idx,
            match old(self).mode {
                Mode::Completion { state, base_line } => final(self).mode matches Mode::Completion {
                    state: s,
                    base_line: b,
                } && s == relaid(state, cols) && b@ == base_line@ && grid_ok(s),
                _ => final(self).mode == old(self).mode,
            },
    {
        let mut mode = Mode::Normal;
        core::mem::swap(&mut self.mode, &mut mode);
        match mode {
            Mode::Completion { state, base_line } => {
                let (c, r) = compute_grid(&state.comp.entries, cols);
                proof {
                    crate::complete::law_grid_holds_all(state.comp.entries@, cols as int);
                }
                let mut next = state;
                next.cols = c;
                next.rows = r;
                let last: usize = if r > 0 {
                    r - 1
                } else {
                    0
                };
                if next.scroll > last {
                    next.scroll = last;
                }
                self.mode = Mode::Completion { state: next, base_line };
            },
            other => {
                self.mode = other;
            },
        }
    }
}

// -- Showing the modes --

/// The terminal and the prompt that a mode is shown with.
pub struct Screen<'a> {
    pub prompt: &'a str,
    pub prompt_width: usize,
    pub rows: u16,
    pub cols: u16,
}

/// The line fits in the numbers that it is laid out with.
pub open spec fn line_room(width: usize, line: LineState, rest: Seq<char>) -> bool {
    width + 4 * byte_len(line.text()) + byte_len(rest) + 8 <= usize::MAX
}

/// The grid of candidates can be drawn below a line.
pub open spec fn grid_drawable(state: CompletionState, info: RenderedRegion) -> bool {
    &&& state.cols <= 6
    &&& state.rows <= usize::MAX / 16
    &&& state.scroll <= usize::MAX / 4
    &&& info.cursor_row < info.painted_rows
    &&& info.painted_rows + MAX_GRID_ROWS <= u16::MAX
}

pub open spec fn grid_below(
    out: Seq<char>,
    state: CompletionState,
    info: RenderedRegion,
    initial: bool,
) -> Seq<char> {
    if grid_drawable(state, info) {
        completions_drawn(out, state, info, initial)
    } else {
        out
    }
}

fn draw_grid_below(
    tw: &mut TermWriter,
    state: &CompletionState,
    info: RenderedRegion,
    initial: bool,
)
    requires
        state.comp.wf(),
    ensures
        final(tw)@ == grid_below(old(tw)@, *state, info, initial),
{
    if state.cols <= 6 && state.rows <= usize::MAX / 16 && state.scroll <= usize::MAX / 4
        && info.cursor_row < info.painted_rows && info.painted_rows as usize + MAX_GRID_ROWS
        <= u16::MAX as usize {
        render_completions(tw, state, info, initial);
    }
}

/// Where the cursor of a query is shown.
pub open spec fn query_column(q: LineState) -> int {
    smaller(columns_before(q.text(), q.before) as int, width_of(q.text()) as int)
}

fn query_cursor(q: &LineBuffer) -> (r: usize)
    ensures
        r == query_column(q@),
        r <= width_of(q@.text()),
{
    let pos = q.display_cursor_pos();
    let width = str_width(q.text());
    if pos <= width {
        pos
    } else {
        width
    }
}

/// The region that shows a line and no hints.
pub open spec fn plain_region(screen: Screen, line: LineState) -> RenderedRegion {
    line_layout(screen.prompt_width as int, line, Seq::empty(), screen.cols as int).region()
}

pub open spec fn plain_drawn(
    out: Seq<char>,
    screen: Screen,
    line: LineState,
    prev: RenderedRegion,
) -> Seq<char> {
    line_drawn(
        out,
        screen.prompt@,
        screen.prompt_width as int,
        line,
        screen.cols as int,
        prev,
        None,
        Seq::empty(),
    )
}

/// Show a line without hints.
pub fn render_plain_line(
    tw: &mut TermWriter,
    screen: &Screen,
    line: &LineBuffer,
    prev: RenderedRegion,
) -> (r: RenderedRegion)
    requires
        screen.cols > 0,
        line_room(screen.prompt_width, line@, Seq::empty()),
    ensures
        r == plain_region(*screen, line@),
        final(tw)@ == plain_drawn(old(tw)@, *screen, line@, prev),
{
    proof {
        reveal_strlit("");
        assert(""@ =~= Seq::<char>::empty());
    }
    let opts = RenderOpts { cmd_color: None, suggestion: "" };
    render_line(tw, screen.prompt, screen.prompt_width, line, screen.cols, prev, &opts)
}

/// Show the prompt: the line with its command colored and a suggestion after it.
pub fn render_prompt_region(
    tw: &mut TermWriter,
    screen: &Screen,
    line: &LineBuffer,
    history: &History,
    aliases: &AliasMap,
    in_path: bool,
    prev: RenderedRegion,
) -> (r: RenderedRegion)
    requires
        screen.cols > 0,
        line_room(screen.prompt_width, line@, suggested_rest(line@, history@)),
    ensures
        r == line_layout(
            screen.prompt_width as int,
            line@,
            suggested_rest(line@, history@),
            screen.cols as int,
        ).region(),
        final(tw)@ == line_drawn(
            old(tw)@,
            screen.prompt@,
            screen.prompt_width as int,
            line@,
            screen.cols as int,
            prev,
            word_color(line@, aliases@, in_path),
            suggested_rest(line@, history@),
        ),
{
    let rest = suggestion(line, history);
    let opts = RenderOpts {
        cmd_color: command_color(line, aliases, in_path),
        suggestion: rest.as_str(),
    };
    render_line(tw, screen.prompt, screen.prompt_width, line, screen.cols, prev, &opts)
}

/// The active mode can be shown.
pub open spec fn showable(e: EditorView, screen: Screen, h: HistoryView) -> bool {
    &&& screen.cols > 0
    &&& line_room(screen.prompt_width, e.prompt.line, suggested_rest(e.prompt.line, h))
    &&& match e.mode {
        ModeView::Search(s) => screen.cols >= 2 && byte_len(s.query.text()) + 256 <= usize::MAX,
        ModeView::Files(f) => screen.cols >= 2 && byte_len(f.query.text()) + 256 <= usize::MAX,
        ModeView::Dirs { .. } => screen.cols >= 2,
        _ => true,
    }
}

/// What is written to show the active mode, and the region that it takes.
pub open spec fn mode_shown(
    out: Seq<char>,
    e: EditorView,
    screen: Screen,
    h: HistoryView,
    aliases: Seq<AliasView>,
    in_path: bool,
    prev: RenderedRegion,
) -> (Seq<char>, RenderedRegion) {
    let line = e.prompt.line;
    match e.mode {
        ModeView::Normal => (
            line_drawn(
                out,
                screen.prompt@,
                screen.prompt_width as int,
                line,
                screen.cols as int,
                prev,
                word_color(line, aliases, in_path),
                suggested_rest(line, h),
            ),
            line_layout(
                screen.prompt_width as int,
                line,
                suggested_rest(line, h),
                screen.cols as int,
            ).region(),
        ),
        ModeView::Completion { state, base } => {
            let info = plain_region(screen, line);
            (grid_below(plain_drawn(out, screen, line, prev), state, info, true), info)
        },
        ModeView::Search(s) => {
            let input = history_input(
                s.query.text(),
                s.matches.len(),
                s.selected,
                screen.rows,
                screen.cols,
                query_column(s.query),
            );
            (
                history_drawn(out, s.query.text(), h.entries, s.matches, input, prev),
                input.region(),
            )
        },
        ModeView::Files(f) => {
            let query = f.query.text();
            let typing = byte_len(query) < 3;
            let input = picker_input(
                query,
                f.filtered.len(),
                f.selected,
                screen.rows,
                screen.cols,
                query_column(f.query),
                typing,
                f.hidden,
            );
            (
                picker_drawn(out, query, f.all, f.filtered, input, typing, f.hidden, prev),
                input.region(),
            )
        },
        ModeView::Dirs { entries, selected } => {
            let input = dir_input(entries.len(), selected, screen.rows, screen.cols);
            (dirs_drawn(out, entries, input, prev), input.region())
        },
    }
}

fn render_search(
    tw: &mut TermWriter,
    s: &HistorySearch,
    screen: &Screen,
    history: &History,
    prev: RenderedRegion,
) -> (r: RenderedRegion)
    requires
        s.wf(history),
        screen.cols >= 2,
        byte_len(s@.query.text()) + 256 <= usize::MAX,
    ensures
        ({
            let input = history_input(
                s@.query.text(),
                s@.matches.len(),
                s@.selected,
                screen.rows,
                screen.cols,
                query_column(s@.query),
            );
            r == input.region() && final(tw)@ == history_drawn(
                old(tw)@,
                s@.query.text(),
                history@.entries,
                s@.matches,
                input,
                prev,
            )
        }),
{
    let matches = s.matches();
    proof {
        s.lemma_shows_best(history);
        assert forall|k: int| 0 <= k < matches@.len() implies (#[trigger] matches@[k]).entry_idx
            < history@.entries.len() && matches@[k].match_count <= 32 by {
            assert(match_views(matches@)[k] == matches@[k]@);
            assert(s@.matches[k].count <= 32);
        }
        assert(match_views(matches@).len() == matches@.len());
    }
    render_history_pager(
        tw,
        s.query().text(),
        matches,
        history,
        s.selected(),
        screen.rows,
        screen.cols,
        query_cursor(s.query()),
        prev,
    )
}

/// Show the active mode.
pub fn render_active_mode(
    tw: &mut TermWriter,
    editor: &Editor,
    screen: &Screen,
    history: &History,
    aliases: &AliasMap,
    in_path: bool,
    prev: RenderedRegion,
) -> (r: RenderedRegion)
    requires
        editor.wf(history),
        showable(editor@, *screen, history@),
    ensures
        (final(tw)@, r) == mode_shown(
            old(tw)@,
            editor@,
            *screen,
            history@,
            aliases@,
            in_path,
            prev,
        ),
{
    match &editor.mode {
        Mode::Normal => render_prompt_region(
            tw,
            screen,
            &editor.prompt.line,
            history,
            aliases,
            in_path,
            prev,
        ),
        Mode::Completion { state, base_line: _ } => {
            let info = render_plain_line(tw, screen, &editor.prompt.line, prev);
            draw_grid_below(tw, state, info, true);
            info
        },
        Mode::HistorySearch(s) => render_search(tw, s, screen, history, prev),
        Mode::FilePicker(p) => {
            let query = p.query.text();
            render_file_picker(
                tw,
                query,
                &p.all_entries,
                &p.filtered,
                p.selected,
                screen.rows,
                screen.cols,
                query_cursor(&p.query),
                str_len(query) < 3,
                p.hidden,
                prev,
            )
        },
        Mode::DirPicker { entries, selected } => {
            assert(strs(entries@).len() == entries@.len());
            render_dir_picker(tw, entries, *selected, screen.rows, screen.cols, prev)
        },
    }
}

/// Show the line and the grid of candidates in place, after a step in the grid.
pub fn render_repaint(
    tw: &mut TermWriter,
    line: &LineBuffer,
    state: &CompletionState,
    screen: &Screen,
    prev: RenderedRegion,
) -> (r: RenderedRegion)
    requires
        screen.cols > 0,
        state.comp.wf(),
        line_room(screen.prompt_width, line@, Seq::empty()),
    ensures
        r == plain_region(*screen, line@),
        final(tw)@ == grid_below(
            plain_drawn(old(tw)@, *screen, line@, prev),
            *state,
            plain_region(*screen, line@),
            false,
        ),
{
    let info = render_plain_line(tw, screen, line, prev);
    draw_grid_below(tw, state, info, false);
    info
}

/// Show the line in place of a picker.
pub fn render_line_fresh(
    tw: &mut TermWriter,
    line: &LineBuffer,
    screen: &Screen,
    prev: RenderedRegion,
) -> (r: RenderedRegion)
    requires
        screen.cols > 0,
        line_room(screen.prompt_width, line@, Seq::empty()),
    ensures
        r == plain_region(*screen, line@),
        final(tw)@ == plain_drawn(
            prev.cleared(old(tw)@),
            *screen,
            line@,
            RenderedRegion { painted_rows: 0, cursor_row: 0, cursor_col: 0 },
        ),
{
    prev.clear(tw);
    render_plain_line(tw, screen, line, RenderedRegion::default())
}

// -- Laws --

/// Escape gives back the line as it was before candidates or a picker were shown.
pub proof fn law_escape_restores(
    key: KeyEvent,
    a: EditorView,
    b: EditorView,
    step: StepView,
    h: HistoryView,
    aliases: Seq<AliasView>,
)
    requires
        key.key is Escape,
        !(a.mode is Normal),
        key_step(key, a, b, step, h, aliases),
    ensures
        b.mode is Normal,
        b.prompt.line.text() == (match a.mode {
            ModeView::Completion { state, base } => base.text(),
            ModeView::Search(s) => s.saved,
            ModeView::Files(f) => f.saved.text(),
            _ => a.prompt.line.text(),
        }),
{
    match a.mode {
        ModeView::Search(s) => {
            assert(line_of(s.saved, a.prompt.line.kill).text() =~= s.saved);
        },
        ModeView::Files(f) => {
            assert(line_of(f.saved.text(), a.prompt.line.kill).text() =~= f.saved.text());
        },
        _ => {},
    }
}

} // verus!
