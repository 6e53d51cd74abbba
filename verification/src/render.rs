//! Drawing of the prompt line, the completion grid and the pagers.
//!
//! What is drawn is stated as the text that the writer holds afterwards, given what it held
//! before.
use vstd::prelude::*;

use crate::complete::{
    display_name, widest, CompEntry, CompletionState, EntryView,
};
use crate::fuzzy::{match_views, FuzzyMatch, MatchView};
use crate::history::{History, HistoryEntryView};
use crate::line::{
    char_width, columns_before, law_width_le_bytes, lemma_width_concat, smaller, spec_char_width,
    str_width, width_of, LineBuffer, LineState,
};
use crate::term::{movement, TermWriter};
use crate::text::{
    byte_len, chars_of, find_char, index_from, lemma_byte_len_take, lemma_index_from, span_from,
    span_front, strs, substring,
};

verus! {

/// Geometry for a rendered region, relative to the region's top row.
#[derive(Clone, Copy, Debug)]
pub struct RenderedRegion {
    pub painted_rows: u16,
    pub cursor_row: u16,
    pub cursor_col: u16,
}

impl Default for RenderedRegion {
    fn default() -> (r: Self)
        ensures
            r == (RenderedRegion { painted_rows: 0, cursor_row: 0, cursor_col: 0 }),
    {
        RenderedRegion { painted_rows: 0, cursor_row: 0, cursor_col: 0 }
    }
}

impl RenderedRegion {
    /// Back to the top of the region, and all from there cleared.
    pub open spec fn cleared(self, out: Seq<char>) -> Seq<char> {
        out + movement(self.cursor_row as nat, 'A') + "\r"@ + "\x1b[J"@
    }

    pub fn clear(self, tw: &mut TermWriter)
        ensures
            final(tw)@ == self.cleared(old(tw)@),
    {
        tw.move_cursor_up(self.cursor_row);
        tw.carriage_return();
        tw.clear_to_end_of_screen();
    }
}

/// Rows and columns of a drawn text, counted from its first row.
pub struct Geometry {
    /// The last row.
    pub last_row: int,
    pub cursor_row: int,
    pub cursor_col: int,
    /// The text ends with the last column, where the terminal keeps the cursor.
    pub forced_wrap: bool,
}

impl Geometry {
    pub open spec fn region(self) -> RenderedRegion {
        RenderedRegion {
            painted_rows: (self.last_row + 1) as u16,
            cursor_row: self.cursor_row as u16,
            cursor_col: self.cursor_col as u16,
        }
    }

    pub open spec fn rows_back(self) -> u16 {
        (self.last_row - self.cursor_row) as u16
    }
}

struct PromptLayout {
    region: RenderedRegion,
    rows_back: u16,
    needs_forced_wrap: bool,
}

impl PromptLayout {
    spec fn shows(self, g: Geometry) -> bool {
        &&& self.region == g.region()
        &&& self.rows_back == g.rows_back()
        &&& self.needs_forced_wrap == g.forced_wrap
    }
}

/// Optional display hints for render_line.
pub struct RenderOpts<'a> {
    /// Color the command word: Some(true) = green, Some(false) = red, None = no color.
    pub cmd_color: Option<bool>,
    /// Autosuggestion ghost text to show after the cursor.
    pub suggestion: &'a str,
}

impl<'a> Default for RenderOpts<'a> {
    fn default() -> (r: Self)
        ensures
            r.cmd_color is None,
            r.suggestion@ == ""@,
    {
        RenderOpts { cmd_color: None, suggestion: "" }
    }
}

// -- The prompt line --

/// Layout of a line without newlines after a prompt of the given width.
pub open spec fn single_line(
    prompt_width: int,
    line: LineState,
    suggestion_width: int,
    cols: int,
) -> Geometry {
    let before = prompt_width + columns_before(line.text(), line.before);
    let full = prompt_width + columns_before(line.text(), line.text()) + suggestion_width;
    Geometry {
        last_row: full / cols,
        cursor_row: before / cols,
        cursor_col: before % cols,
        forced_wrap: full > 0 && full % cols == 0,
    }
}

proof fn lemma_columns(line: LineState)
    ensures
        columns_before(line.text(), line.before) <= columns_before(line.text(), line.text()),
        columns_before(line.text(), line.text()) <= byte_len(line.text()),
{
    lemma_width_concat(line.before, line.after);
    law_width_le_bytes(line.text());
    crate::text::lemma_byte_len_lower(line.text());
}

fn layout_single_line_prompt(
    prompt_display_len: usize,
    line: &LineBuffer,
    suggestion_display_len: usize,
    cols: usize,
) -> (r: PromptLayout)
    requires
        cols > 0,
        prompt_display_len + byte_len(line@.text()) + suggestion_display_len < usize::MAX,
    ensures
        r.shows(
            single_line(
                prompt_display_len as int,
                line@,
                suggestion_display_len as int,
                cols as int,
            ),
        ),
{
    proof {
        lemma_columns(line@);
    }
    let before = prompt_display_len + line.display_cursor_pos();
    let full = prompt_display_len + line.display_len() + suggestion_display_len;
    let cursor_row = before / cols;
    let cursor_col = before % cols;
    let total_rows = full / cols;
    proof {
        vstd::arithmetic::div_mod::lemma_div_is_ordered(before as int, full as int, cols as int);
        vstd::arithmetic::div_mod::lemma_div_is_ordered_by_denominator(
            full as int,
            1,
            cols as int,
        );
    }
    PromptLayout {
        region: RenderedRegion {
            painted_rows: (total_rows + 1) as u16,
            cursor_row: cursor_row as u16,
            cursor_col: cursor_col as u16,
        },
        rows_back: (total_rows - cursor_row) as u16,
        needs_forced_wrap: full > 0 && full % cols == 0,
    }
}

/// Width of the prompt of a continuation line.
pub const CONT_PROMPT_LEN: usize = 2;

/// Rows that a line of the given width takes after its first one.
pub open spec fn wraps(width: int, cols: int) -> int {
    if width > 0 {
        (width - 1) / cols
    } else {
        0
    }
}

/// Layout of the lines of `text` from the index `i` on, where the first of them starts at
/// `row` and `cursor` is where the cursor has been found before it. `at` is the number of
/// characters before the cursor, `prefix` the width of the prompt of the first line.
pub open spec fn lines_layout(
    text: Seq<char>,
    at: int,
    cols: int,
    i: int,
    prefix: int,
    row: int,
    cursor: (int, int),
) -> Geometry
    decreases text.len() - i,
    when 0 <= i <= text.len()
{
    let k = index_from(text, '\n', i);
    let width = prefix + width_of(text.subrange(i, k));
    let here = if i <= at <= k {
        let w = prefix + width_of(text.subrange(i, at));
        (row + w / cols, w % cols)
    } else {
        cursor
    };
    let end = row + wraps(width, cols);
    if k >= text.len() {
        let forced = width > 0 && width % cols == 0;
        Geometry {
            last_row: if forced {
                end + 1
            } else {
                end
            },
            cursor_row: here.0,
            cursor_col: here.1,
            forced_wrap: forced,
        }
    } else {
        proof {
            lemma_index_from(text, '\n', i);
        }
        lines_layout(text, at, cols, k + 1, CONT_PROMPT_LEN as int, end + 1, here)
    }
}

proof fn lemma_wraps(width: int, part: int, cols: int)
    requires
        0 <= part <= width,
        cols > 0,
    ensures
        0 <= wraps(width, cols) <= width,
        part / cols <= wraps(width, cols) + 1,
        !(width > 0 && width % cols == 0) ==> part / cols <= wraps(width, cols),
        0 <= part / cols,
{
    vstd::arithmetic::div_mod::lemma_div_is_ordered(part, width, cols);
    vstd::arithmetic::div_mod::lemma_div_pos_is_pos(part, cols);
    if width > 0 {
        vstd::arithmetic::div_mod::lemma_div_pos_is_pos(width - 1, cols);
        vstd::arithmetic::div_mod::lemma_div_is_ordered_by_denominator(width - 1, 1, cols);
        let q = (width - 1) / cols;
        let m = (width - 1) % cols;
        vstd::arithmetic::div_mod::lemma_fundamental_div_mod(width - 1, cols);
        if m + 1 < cols {
            vstd::arithmetic::div_mod::lemma_fundamental_div_mod_converse(
                width,
                cols,
                q,
                m + 1,
            );
        } else {
            assert(cols * q + cols == cols * (q + 1)) by (nonlinear_arith);
            vstd::arithmetic::div_mod::lemma_fundamental_div_mod_converse(
                width,
                cols,
                q + 1,
                0,
            );
        }
    } else {
        vstd::arithmetic::div_mod::lemma_basic_div(0, cols);
    }
}

#[verifier::rlimit(60)]
fn layout_multiline_prompt(
    prompt_display_len: usize,
    line: &LineBuffer,
    cols: usize,
) -> (r: PromptLayout)
    requires
        cols > 0,
        prompt_display_len + 4 * byte_len(line@.text()) + 8 <= usize::MAX,
    ensures
        r.shows(
            lines_layout(
                line@.text(),
                line@.before.len() as int,
                cols as int,
                0,
                prompt_display_len as int,
                0,
                (0, 0),
            ),
        ),
{
    let text = chars_of(line.text());
    let at = chars_of(line.before_cursor()).len();
    let ghost goal = lines_layout(
        text@,
        at as int,
        cols as int,
        0,
        prompt_display_len as int,
        0,
        (0, 0),
    );
    let mut i: usize = 0;
    let mut prefix: usize = prompt_display_len;
    let mut row: usize = 0;
    let mut cursor_row: usize = 0;
    let mut cursor_col: usize = 0;
    proof {
        crate::text::lemma_byte_len_lower(text@);
        assert(line@.before.len() <= text@.len());
    }
    loop
        invariant
            i <= text.len(),
            at <= text.len(),
            cols > 0,
            text@ == line@.text(),
            text@.len() <= byte_len(text@),
            prompt_display_len + 4 * byte_len(text@) + 8 <= usize::MAX,
            goal == lines_layout(
                line@.text(),
                line@.before.len() as int,
                cols as int,
                0,
                prompt_display_len as int,
                0,
                (0, 0),
            ),
            goal == lines_layout(
                text@,
                at as int,
                cols as int,
                i as int,
                prefix as int,
                row as int,
                (cursor_row as int, cursor_col as int),
            ),
            cursor_row <= row,
            i == 0 ==> prefix == prompt_display_len && row == 0,
            i > 0 ==> prefix == CONT_PROMPT_LEN && row <= prompt_display_len + byte_len(
                text@.take(i as int),
            ) + 3 * i,
        decreases text.len() - i,
    {
        let k = find_char(&text, '\n', i);
        let seg = substring(&text, i, k);
        let ghost sv = text@.subrange(i as int, k as int);
        proof {
            law_width_le_bytes(sv);
            lemma_byte_len_take(text@, k as int);
            lemma_byte_len_take(text@.take(k as int), i as int);
            assert(text@.take(k as int).skip(i as int) =~= sv);
            assert(text@.take(k as int).take(i as int) =~= text@.take(i as int));
            if i == 0 {
                assert(text@.take(0) =~= Seq::<char>::empty());
            }
        }
        let width = prefix + str_width(seg.as_str());
        proof {
            lemma_wraps(width as int, width as int, cols as int);
        }
        if i <= at && at <= k {
            let head = substring(&text, i, at);
            proof {
                assert(sv =~= head@ + text@.subrange(at as int, k as int));
                lemma_width_concat(head@, text@.subrange(at as int, k as int));
                lemma_wraps(width as int, prefix + width_of(head@), cols as int);
                vstd::arithmetic::div_mod::lemma_div_is_ordered_by_denominator(
                    prefix + width_of(head@),
                    1,
                    cols as int,
                );
            }
            let w = prefix + str_width(head.as_str());
            cursor_row = row + w / cols;
            cursor_col = w % cols;
        }
        let end = row + if width > 0 {
            (width - 1) / cols
        } else {
            0
        };
        if k >= text.len() {
            let forced = width > 0 && width % cols == 0;
            let last = if forced {
                end + 1
            } else {
                end
            };
            return PromptLayout {
                region: RenderedRegion {
                    painted_rows: (last + 1) as u16,
                    cursor_row: cursor_row as u16,
                    cursor_col: cursor_col as u16,
                },
                rows_back: (last - cursor_row) as u16,
                needs_forced_wrap: forced,
            };
        }
        proof {
            lemma_byte_len_take(text@, k + 1);
            lemma_byte_len_take(text@.take(k + 1), k as int);
            assert(text@.take(k + 1).take(k as int) =~= text@.take(k as int));
        }
        row = end + 1;
        prefix = CONT_PROMPT_LEN;
        i = k + 1;
    }
}

/// `text` with its first word in the color that says whether it can be run.
pub open spec fn colored(out: Seq<char>, text: Seq<char>, cmd_color: Option<bool>) -> Seq<char> {
    match cmd_color {
        None => out + text,
        Some(valid) => {
            let n = span_front(text, false);
            out + (if valid {
                "\x1b[32m"@
            } else {
                "\x1b[31m"@
            }) + text.take(n) + "\x1b[0m"@ + text.skip(n)
        },
    }
}

fn write_colored(tw: &mut TermWriter, text: &str, cmd_color: Option<bool>)
    ensures
        final(tw)@ == colored(old(tw)@, text@, cmd_color),
{
    match cmd_color {
        None => tw.write_str(text),
        Some(valid) => {
            let v = chars_of(text);
            let n = span_from(&v, 0, false);
            assert(v@.skip(0) =~= v@);
            let head = substring(&v, 0, n);
            let tail = substring(&v, n, v.len());
            assert(head@ =~= text@.take(n as int));
            assert(tail@ =~= text@.skip(n as int));
            if valid {
                tw.write_str("\x1b[32m");
            } else {
                tw.write_str("\x1b[31m");
            }
            tw.write_str(head.as_str());
            tw.write_str("\x1b[0m");
            tw.write_str(tail.as_str());
        },
    }
}

/// The text drawn, with the cursor at its end, brought to its place.
pub open spec fn cursor_placed(out: Seq<char>, g: Geometry) -> Seq<char> {
    (if g.forced_wrap {
        out + " \r"@
    } else {
        out
    }) + movement(g.rows_back() as nat, 'A') + "\r"@ + movement(
        g.region().cursor_col as nat,
        'C',
    ) + "\x1b[?25h"@
}

fn place_cursor(tw: &mut TermWriter, layout: &PromptLayout, Ghost(g): Ghost<Geometry>)
    requires
        layout.shows(g),
    ensures
        final(tw)@ == cursor_placed(old(tw)@, g),
{
    if layout.needs_forced_wrap {
        tw.write_str(" \r");
    }
    tw.move_cursor_up(layout.rows_back);
    tw.carriage_return();
    tw.move_cursor_right(layout.region.cursor_col);
    tw.show_cursor();
}

/// The lines of `text` from the index `i` on, each but the first on a row of its own after
/// two spaces.
pub open spec fn lines_written(
    out: Seq<char>,
    text: Seq<char>,
    i: int,
    cmd_color: Option<bool>,
) -> Seq<char>
    decreases text.len() - i,
    when 0 <= i <= text.len()
{
    let k = index_from(text, '\n', i);
    let seg = text.subrange(i, k);
    let now = if i == 0 {
        colored(out, seg, cmd_color)
    } else {
        out + "\r\n"@ + "  "@ + seg
    };
    if k >= text.len() {
        now
    } else {
        proof {
            lemma_index_from(text, '\n', i);
        }
        lines_written(now, text, k + 1, cmd_color)
    }
}

/// The suggestion in dim gray.
pub open spec fn suggested(out: Seq<char>, suggestion: Seq<char>) -> Seq<char> {
    if suggestion.len() == 0 {
        out
    } else {
        out + "\x1b[38;5;8m"@ + suggestion + "\x1b[0m"@
    }
}

/// Layout of the prompt and line.
pub open spec fn line_layout(
    prompt_width: int,
    line: LineState,
    suggestion: Seq<char>,
    cols: int,
) -> Geometry {
    if line.text().contains('\n') {
        lines_layout(
            line.text(),
            line.before.len() as int,
            cols,
            0,
            prompt_width,
            0,
            (0, 0),
        )
    } else {
        single_line(prompt_width, line, width_of(suggestion) as int, cols)
    }
}

/// The prompt and line drawn over the region that was drawn before. The suggestion is left
/// out where the line has newlines.
pub open spec fn line_drawn(
    out: Seq<char>,
    prompt: Seq<char>,
    prompt_width: int,
    line: LineState,
    cols: int,
    prev: RenderedRegion,
    cmd_color: Option<bool>,
    suggestion: Seq<char>,
) -> Seq<char> {
    let start = prev.cleared(out + "\x1b[?25l"@) + prompt;
    let text = if line.text().contains('\n') {
        lines_written(start, line.text(), 0, cmd_color)
    } else {
        suggested(colored(start, line.text(), cmd_color), suggestion)
    };
    cursor_placed(text, line_layout(prompt_width, line, suggestion, cols))
}

/// Render the prompt + line buffer. Positions cursor correctly.
/// `prev` is the geometry from the previous render of this region. It lets us
/// move back to the top before clearing.
/// Returns prompt geometry so completion rendering can restore cursor.
pub fn render_line(
    tw: &mut TermWriter,
    prompt: &str,
    prompt_display_len: usize,
    line: &LineBuffer,
    term_cols: u16,
    prev: RenderedRegion,
    opts: &RenderOpts,
) -> (r: RenderedRegion)
    requires
        term_cols > 0,
        prompt_display_len + 4 * byte_len(line@.text()) + byte_len(opts.suggestion@) + 8
            <= usize::MAX,
    ensures
        r == line_layout(
            prompt_display_len as int,
            line@,
            opts.suggestion@,
            term_cols as int,
        ).region(),
        final(tw)@ == line_drawn(
            old(tw)@,
            prompt@,
            prompt_display_len as int,
            line@,
            term_cols as int,
            prev,
            opts.cmd_color,
            opts.suggestion@,
        ),
{
    tw.hide_cursor();
    prev.clear(tw);
    let cols = term_cols as usize;
    if line.has_newlines() {
        return render_line_multiline(
            tw,
            prompt,
            prompt_display_len,
            line,
            cols,
            opts.cmd_color,
            opts.suggestion,
        );
    }
    proof {
        law_width_le_bytes(opts.suggestion@);
    }
    let layout = layout_single_line_prompt(
        prompt_display_len,
        line,
        str_width(opts.suggestion),
        cols,
    );
    tw.write_str(prompt);
    write_colored(tw, line.text(), opts.cmd_color);
    if !opts.suggestion.is_empty() {
        tw.write_str("\x1b[38;5;8m");
        tw.write_str(opts.suggestion);
        tw.write_str("\x1b[0m");
    }
    place_cursor(
        tw,
        &layout,
        Ghost(
            line_layout(
                prompt_display_len as int,
                line@,
                opts.suggestion@,
                term_cols as int,
            ),
        ),
    );
    layout.region
}

/// Render a multiline buffer (contains `\n`). First line gets the main prompt,
/// subsequent lines get a continuation prompt "  ".
fn render_line_multiline(
    tw: &mut TermWriter,
    prompt: &str,
    prompt_display_len: usize,
    line: &LineBuffer,
    cols: usize,
    cmd_color: Option<bool>,
    suggestion: &str,
) -> (r: RenderedRegion)
    requires
        cols > 0,
        line@.text().contains('\n'),
        prompt_display_len + 4 * byte_len(line@.text()) + 8 <= usize::MAX,
    ensures
        r == line_layout(prompt_display_len as int, line@, suggestion@, cols as int).region(),
        final(tw)@ == cursor_placed(
            lines_written(old(tw)@ + prompt@, line@.text(), 0, cmd_color),
            line_layout(prompt_display_len as int, line@, suggestion@, cols as int),
        ),
{
    let layout = layout_multiline_prompt(prompt_display_len, line, cols);
    let text = chars_of(line.text());
    tw.write_str(prompt);
    let ghost goal = lines_written(tw@, text@, 0, cmd_color);
    let mut i: usize = 0;
    loop
        invariant_except_break
            i <= text.len(),
            goal == lines_written(tw@, text@, i as int, cmd_color),
        ensures
            tw@ == goal,
        decreases text.len() - i,
    {
        let k = find_char(&text, '\n', i);
        let seg = substring(&text, i, k);
        if i == 0 {
            write_colored(tw, seg.as_str(), cmd_color);
        } else {
            tw.write_str("\r\n");
            tw.write_str("  ");
            tw.write_str(seg.as_str());
        }
        if k >= text.len() {
            break;
        }
        i = k + 1;
    }
    place_cursor(
        tw,
        &layout,
        Ghost(line_layout(prompt_display_len as int, line@, suggestion@, cols as int)),
    );
    layout.region
}

// -- The completion grid --

/// Most rows of the grid shown at once.
pub const MAX_GRID_ROWS: usize = 10;

pub struct CompletionGridLayout {
    pub visible_rows: usize,
    pub scroll_start: usize,
    pub col_widths: Vec<usize>,
}

/// The grid can be drawn: it has at most six columns, and the indices in it are machine
/// numbers.
pub open spec fn drawable(state: CompletionState) -> bool {
    &&& state.comp.wf()
    &&& state.cols <= 6
    &&& 8 * state.rows + state.scroll + 16 <= usize::MAX
}

pub open spec fn visible_rows(state: CompletionState) -> int {
    if state.comp.entries@.len() == 0 {
        0
    } else {
        smaller(state.rows as int, MAX_GRID_ROWS as int)
    }
}

/// First row shown: the one scrolled to, moved so that the selected row is shown.
pub open spec fn scroll_start(state: CompletionState) -> int {
    let row = state.selected as int % state.rows as int;
    if row < state.scroll {
        row
    } else if row >= state.scroll + visible_rows(state) {
        row + 1 - visible_rows(state)
    } else {
        state.scroll as int
    }
}

/// Width of a column of the grid.
pub open spec fn col_width(state: CompletionState, col: int) -> nat {
    let n = state.comp.entries@.len() as int;
    widest(
        state.comp.entries@,
        smaller(col * state.rows, n),
        smaller((col + 1) * state.rows, n),
    )
}

impl CompletionGridLayout {
    pub open spec fn fits(&self, state: CompletionState) -> bool {
        &&& self.visible_rows == visible_rows(state)
        &&& self.visible_rows > 0 ==> {
            &&& self.scroll_start == scroll_start(state)
            &&& self.col_widths@.len() == state.cols
            &&& forall|c: int|
                0 <= c < state.cols ==> #[trigger] self.col_widths@[c] == col_width(state, c)
        }
    }
}

pub fn grid_visible_rows(state: &CompletionState) -> (r: usize)
    ensures
        r == visible_rows(*state),
{
    if state.comp.is_empty() || state.rows == 0 {
        return 0;
    }
    if state.rows < MAX_GRID_ROWS {
        state.rows
    } else {
        MAX_GRID_ROWS
    }
}

/// Width of the widest of the entries from `from` up to but not including `to`.
fn widest_of(entries: &Vec<CompEntry>, from: usize, to: usize) -> (r: usize)
    requires
        from <= to <= entries.len(),
    ensures
        r == widest(entries@, from as int, to as int),
{
    let mut w: usize = 0;
    let mut i: usize = from;
    while i < to
        invariant
            from <= i <= to <= entries.len(),
            w == widest(entries@, from as int, i as int),
        decreases to - i,
    {
        let x = entries[i].display_width();
        if x > w {
            w = x;
        }
        i += 1;
    }
    w
}

pub fn layout_completion_grid(state: &CompletionState) -> (r: CompletionGridLayout)
    requires
        drawable(*state),
    ensures
        r.fits(*state),
{
    let visible = grid_visible_rows(state);
    if visible == 0 {
        return CompletionGridLayout {
            visible_rows: 0,
            scroll_start: 0,
            col_widths: Vec::new(),
        };
    }
    let n = state.comp.entries.len();
    let rows = state.rows;
    let mut col_widths: Vec<usize> = Vec::new();
    let mut from: usize = 0;
    let mut c: usize = 0;
    assert(0 * rows == 0);
    while c < state.cols
        invariant
            c <= state.cols,
            rows == state.rows,
            rows > 0,
            n == state.comp.entries.len(),
            from == smaller(c * rows, n as int),
            col_widths.len() == c,
            forall|k: int| 0 <= k < c ==> #[trigger] col_widths@[k] == col_width(*state, k),
        decreases state.cols - c,
    {
        let to = if n - from <= rows {
            n
        } else {
            from + rows
        };
        proof {
            assert((c + 1) * rows == c * rows + rows) by (nonlinear_arith);
            assert(to == smaller((c + 1) * rows, n as int));
        }
        col_widths.push(widest_of(&state.comp.entries, from, to));
        from = to;
        c += 1;
    }
    let row = state.selected % rows;
    let start = if row < state.scroll {
        row
    } else if row >= state.scroll + visible {
        row + 1 - visible
    } else {
        state.scroll
    };
    CompletionGridLayout { visible_rows: visible, scroll_start: start, col_widths }
}

/// `n` spaces.
pub open spec fn spaces(n: int) -> Seq<char> {
    Seq::new(n as nat, |i: int| ' ')
}

fn write_spaces(tw: &mut TermWriter, n: usize)
    ensures
        final(tw)@ == old(tw)@ + spaces(n as int),
{
    let mut i: usize = 0;
    assert(tw@ + spaces(0) =~= tw@);
    while i < n
        invariant
            i <= n,
            tw@ == old(tw)@ + spaces(i as int),
        decreases n - i,
    {
        let ghost had = tw@;
        tw.write_str(" ");
        proof {
            reveal_strlit(" ");
            assert(tw@ =~= old(tw)@ + spaces(i + 1));
        }
        i += 1;
    }
}

/// Color of a candidate: host magenta, link cyan, directory blue, executable green.
pub open spec fn entry_color(e: EntryView) -> Seq<char> {
    if e.is_host {
        "\x1b[35m"@
    } else if e.is_link {
        "\x1b[36m"@
    } else if e.is_dir {
        "\x1b[34m"@
    } else if e.is_exec {
        "\x1b[32m"@
    } else {
        Seq::empty()
    }
}

pub open spec fn is_colored(e: EntryView) -> bool {
    e.is_host || e.is_link || e.is_dir || e.is_exec
}

/// Spaces after the cell of an entry: up to the width of its column, and two more where the
/// row goes on.
pub open spec fn cell_pad(state: CompletionState, idx: int, col: int, row: int) -> int {
    let w = state.comp.entries@[idx].spec_display_width() as int;
    let cw = col_width(state, col) as int;
    let next = col + 1 < state.cols && (col + 1) * state.rows + row
        < state.comp.entries@.len();
    (if cw > w {
        cw - w
    } else {
        0
    }) + if next {
        2int
    } else {
        0int
    }
}

/// One cell of the grid.
pub open spec fn cell_drawn(
    out: Seq<char>,
    state: CompletionState,
    idx: int,
    col: int,
    row: int,
) -> Seq<char> {
    let e = state.comp@[idx];
    let a = if idx == state.selected {
        out + "\x1b[7m"@
    } else {
        out
    };
    let b = a + entry_color(e) + display_name(e);
    let c = if is_colored(e) {
        b + "\x1b[0m"@
    } else {
        b
    };
    let d = if idx == state.selected {
        c + "\x1b[0m"@
    } else {
        c
    };
    d + spaces(cell_pad(state, idx, col, row))
}

/// The cells of a row from the column `col` on.
pub open spec fn row_drawn(out: Seq<char>, state: CompletionState, row: int, col: int) -> Seq<char>
    decreases state.cols - col,
{
    let idx = col * state.rows + row;
    if col >= state.cols || idx >= state.comp.entries@.len() {
        out
    } else {
        row_drawn(cell_drawn(out, state, idx, col, row), state, row, col + 1)
    }
}

/// The rows of the grid from the shown row `vr` on.
pub open spec fn grid_drawn(out: Seq<char>, state: CompletionState, vr: int) -> Seq<char>
    decreases visible_rows(state) - vr,
{
    if vr >= visible_rows(state) {
        out
    } else {
        let row = row_drawn(
            out + "\r"@ + "\x1b[K"@,
            state,
            scroll_start(state) + vr,
            0,
        );
        grid_drawn(
            if vr + 1 < visible_rows(state) {
                row + "\n"@
            } else {
                row
            },
            state,
            vr + 1,
        )
    }
}

fn draw_cell(tw: &mut TermWriter, state: &CompletionState, idx: usize, pad: usize, Ghost(col): Ghost<
    int,
>, Ghost(row): Ghost<int>)
    requires
        state.comp.wf(),
        idx < state.comp.entries.len(),
        pad == cell_pad(*state, idx as int, col, row),
    ensures
        final(tw)@ == cell_drawn(old(tw)@, *state, idx as int, col, row),
{
    let entry = &state.comp.entries[idx];
    let ghost e = state.comp@[idx as int];
    let is_selected = idx == state.selected;
    if is_selected {
        tw.write_str("\x1b[7m");
    }
    let ghost a = tw@;
    if entry.is_host() {
        tw.write_str("\x1b[35m");
    } else if entry.is_link() {
        tw.write_str("\x1b[36m");
    } else if entry.is_dir() {
        tw.write_str("\x1b[34m");
    } else if entry.is_exec() {
        tw.write_str("\x1b[32m");
    } else {
        assert(a + Seq::<char>::empty() =~= a);
    }
    assert(tw@ == a + entry_color(e));
    state.write_display_name(idx, tw);
    if entry.is_host() || entry.is_link() || entry.is_dir() || entry.is_exec() {
        tw.write_str("\x1b[0m");
    }
    if is_selected {
        tw.write_str("\x1b[0m");
    }
    write_spaces(tw, pad);
}

pub fn draw_grid(tw: &mut TermWriter, state: &CompletionState, layout: &CompletionGridLayout)
    requires
        drawable(*state),
        layout.fits(*state),
    ensures
        final(tw)@ == grid_drawn(old(tw)@, *state, 0),
{
    let n = state.comp.entries.len();
    let rows = state.rows;
    let mut vr: usize = 0;
    while vr < layout.visible_rows
        invariant
            vr <= layout.visible_rows,
            drawable(*state),
            layout.fits(*state),
            n == state.comp.entries.len(),
            rows == state.rows,
            grid_drawn(old(tw)@, *state, 0) == grid_drawn(tw@, *state, vr as int),
        decreases layout.visible_rows - vr,
    {
        let ghost before = tw@;
        assert(0 <= state.selected as int % rows as int) by {
            vstd::arithmetic::div_mod::lemma_mod_bound(state.selected as int, rows as int);
        }
        assert(state.selected as int % rows as int <= rows) by {
            vstd::arithmetic::div_mod::lemma_mod_bound(state.selected as int, rows as int);
        }
        let row = layout.scroll_start + vr;
        tw.carriage_return();
        tw.clear_to_end_of_line();
        let ghost goal = row_drawn(tw@, *state, row as int, 0);
        let mut col: usize = 0;
        let mut idx: usize = row;
        assert(0 * rows == 0);
        while col < state.cols && idx < n
            invariant
                col <= state.cols <= 6,
                idx == col * rows + row,
                drawable(*state),
                layout.fits(*state),
                layout.visible_rows > 0,
                n == state.comp.entries.len(),
                rows == state.rows,
                row <= rows + state.scroll + 10,
                goal == row_drawn(tw@, *state, row as int, col as int),
            decreases state.cols - col,
        {
            proof {
                assert((col + 1) * rows == col * rows + rows) by (nonlinear_arith);
                assert(col * rows <= 6 * rows) by (nonlinear_arith)
                    requires
                        col <= 6,
                ;
                assert(layout.col_widths@[col as int] == col_width(*state, col as int));
            }
            let w = state.comp.entries[idx].display_width();
            let cw = layout.col_widths[col];
            let has_next = col + 1 < state.cols && idx + rows < n;
            let gap: usize = if has_next {
                2
            } else {
                0
            };
            proof {
                lemma_widest_bound(
                    state.comp.entries@,
                    smaller(col * rows, n as int),
                    smaller((col + 1) * rows, n as int),
                );
            }
            let pad = if cw > w {
                cw - w + gap
            } else {
                gap
            };
            draw_cell(tw, state, idx, pad, Ghost(col as int), Ghost(row as int));
            col += 1;
            idx += rows;
        }
        if vr + 1 < layout.visible_rows {
            tw.write_str("\n");
        }
        vr += 1;
    }
}

proof fn lemma_widest_bound(entries: Seq<CompEntry>, from: int, to: int)
    ensures
        widest(entries, from, to) <= 256,
    decreases to - from,
{
    if from < to {
        lemma_widest_bound(entries, from, to - 1);
    }
}

/// `n` newlines.
pub open spec fn newlines(n: int) -> Seq<char> {
    Seq::new(n as nat, |i: int| '\n')
}

fn write_newlines(tw: &mut TermWriter, n: usize)
    ensures
        final(tw)@ == old(tw)@ + newlines(n as int),
{
    let mut i: usize = 0;
    assert(tw@ + newlines(0) =~= tw@);
    while i < n
        invariant
            i <= n,
            tw@ == old(tw)@ + newlines(i as int),
        decreases n - i,
    {
        tw.write_str("\n");
        proof {
            reveal_strlit("\n");
            assert(tw@ =~= old(tw)@ + newlines(i + 1));
        }
        i += 1;
    }
}

/// The grid drawn below the prompt, whose geometry is `info`. At first the rows are made by
/// newlines, which may scroll the terminal.
pub open spec fn completions_drawn(
    out: Seq<char>,
    state: CompletionState,
    info: RenderedRegion,
    initial: bool,
) -> Seq<char> {
    let rows = visible_rows(state);
    if rows == 0 {
        out
    } else {
        let a = out + "\x1b[?25l"@;
        let below = info.painted_rows - 1 - info.cursor_row;
        let b = if initial {
            a + movement(below as nat, 'B') + newlines(rows) + movement(
                (below + rows) as nat,
                'A',
            ) + "\r"@ + movement(info.cursor_col as nat, 'C')
        } else {
            a
        };
        let c = b + "\x1b7"@ + movement((info.painted_rows - info.cursor_row) as nat, 'B');
        grid_drawn(c, state, 0) + "\x1b8"@ + "\x1b[?25h"@
    }
}

/// Render the completion grid below the current line.
/// `initial`: true for first render (adds newline), false for repaint.
/// Cursor should be on the prompt line. Leaves cursor on the prompt line.
pub fn render_completions(
    tw: &mut TermWriter,
    state: &CompletionState,
    info: RenderedRegion,
    initial: bool,
)
    requires
        drawable(*state),
        visible_rows(*state) > 0 ==> info.cursor_row <= info.painted_rows,
        visible_rows(*state) > 0 && initial ==> info.cursor_row < info.painted_rows
            && info.painted_rows - 1 - info.cursor_row + visible_rows(*state) <= u16::MAX,
    ensures
        final(tw)@ == completions_drawn(old(tw)@, *state, info, initial),
{
    let layout = layout_completion_grid(state);
    if layout.visible_rows == 0 {
        return;
    }
    tw.hide_cursor();
    if initial {
        let rows_below = info.painted_rows - 1 - info.cursor_row;
        tw.move_cursor_down(rows_below);
        write_newlines(tw, layout.visible_rows);
        tw.move_cursor_up(rows_below + layout.visible_rows as u16);
        tw.carriage_return();
        tw.move_cursor_right(info.cursor_col);
    }
    tw.save_cursor();
    tw.move_cursor_down(info.painted_rows - info.cursor_row);
    draw_grid(tw, state, &layout);
    tw.restore_cursor();
    tw.show_cursor();
}

// -- Pagers --

/// Most results that a pager shows.
pub const MAX_PAGER_ROWS: usize = 20;

struct PagerLayout {
    region: RenderedRegion,
    rows_back: u16,
    needs_forced_wrap: bool,
    max_results: usize,
    max_width: usize,
    scroll: usize,
}

/// What the layout of a pager depends on.
pub struct PagerInput {
    pub prefix_width: usize,
    pub query_width: usize,
    pub suffix_width: usize,
    pub query_cursor: usize,
    pub total_entries: usize,
    pub selected: usize,
    pub term_rows: u16,
    pub term_cols: u16,
}

impl PagerInput {
    /// The cursor is in one of the rows of the pager.
    pub open spec fn cursor_fits(self) -> bool {
        &&& self.prefix_width + self.query_cursor <= usize::MAX
        &&& (self.prefix_width + self.query_cursor) / self.term_cols as int <= self.header_rows()
            + self.displayed()
    }

    /// The header can be laid out: the cursor is in the query or in a row below, and the terminal
    /// has room for an entry.
    pub open spec fn ok(self) -> bool {
        &&& self.term_cols >= 2
        &&& self.query_cursor <= self.query_width || self.cursor_fits()
        &&& self.prefix_width + self.query_width + self.suffix_width + 64 <= usize::MAX
    }

    pub open spec fn header_width(self) -> int {
        self.prefix_width + self.query_width + self.suffix_width
    }

    /// Rows of the header: prefix, query and suffix.
    pub open spec fn header_rows(self) -> int {
        wraps(self.header_width(), self.term_cols as int) + 1
    }

    pub open spec fn max_results(self) -> int {
        if self.term_rows < 2 {
            0
        } else {
            smaller(self.term_rows - 2, MAX_PAGER_ROWS as int)
        }
    }

    pub open spec fn displayed(self) -> int {
        smaller(self.total_entries as int, self.max_results())
    }

    /// First entry shown: the selected one is kept in the middle where there are more than
    /// fit.
    pub open spec fn scroll(self) -> int {
        let half = self.max_results() / 2;
        if self.total_entries <= self.max_results() || self.selected < half {
            0
        } else if self.selected + half >= self.total_entries {
            self.total_entries - self.max_results()
        } else {
            self.selected - half
        }
    }

    pub open spec fn region(self) -> RenderedRegion {
        let before = self.prefix_width + self.query_cursor;
        RenderedRegion {
            painted_rows: (self.header_rows() + self.displayed()) as u16,
            cursor_row: (before / self.term_cols as int) as u16,
            cursor_col: (before % self.term_cols as int) as u16,
        }
    }

    pub open spec fn rows_back(self) -> u16 {
        let before = self.prefix_width + self.query_cursor;
        (self.header_rows() + self.displayed() - before / self.term_cols as int) as u16
    }

    pub open spec fn forced_wrap(self) -> bool {
        self.header_width() > 0 && self.header_width() % self.term_cols as int == 0
    }
}

impl PagerLayout {
    spec fn shows(self, i: PagerInput) -> bool {
        &&& self.region == i.region()
        &&& self.rows_back == i.rows_back()
        &&& self.needs_forced_wrap == i.forced_wrap()
        &&& self.max_results == i.max_results()
        &&& self.max_width == i.term_cols - 2
        &&& self.scroll == i.scroll()
    }
}

fn layout_pager(input: &PagerInput) -> (r: PagerLayout)
    requires
        input.ok(),
    ensures
        r.shows(*input),
{
    let cols = input.term_cols as usize;
    let before = input.prefix_width + input.query_cursor;
    let full = input.prefix_width + input.query_width + input.suffix_width;
    proof {
        lemma_wraps(full as int, 0, cols as int);
        if before <= full {
            lemma_wraps(full as int, before as int, cols as int);
        }
    }
    let header_rows = if full > 0 {
        (full - 1) / cols + 1
    } else {
        1
    };
    let cursor_row = before / cols;
    let cursor_col = before % cols;
    let room: usize = if input.term_rows < 2 {
        0
    } else {
        (input.term_rows - 2) as usize
    };
    let max_results = if room < MAX_PAGER_ROWS {
        room
    } else {
        MAX_PAGER_ROWS
    };
    let displayed = if input.total_entries < max_results {
        input.total_entries
    } else {
        max_results
    };
    let half = max_results / 2;
    let scroll = if input.total_entries <= max_results || input.selected < half {
        0
    } else if input.total_entries <= half || input.selected >= input.total_entries - half {
        input.total_entries - max_results
    } else {
        input.selected - half
    };
    PagerLayout {
        region: RenderedRegion {
            painted_rows: (header_rows + displayed) as u16,
            cursor_row: cursor_row as u16,
            cursor_col: cursor_col as u16,
        },
        rows_back: (header_rows + displayed - cursor_row) as u16,
        needs_forced_wrap: full > 0 && full % cols == 0,
        max_results,
        max_width: cols - 2,
        scroll,
    }
}

/// Number of characters of `s` from `i` on, after `col` columns, up to the first that does
/// not fit in `max` columns.
pub open spec fn chars_fit(s: Seq<char>, i: int, col: int, max: int) -> int
    decreases s.len() - i,
{
    if i < 0 || i >= s.len() || col + spec_char_width(s[i]) > max {
        0
    } else {
        1 + chars_fit(s, i + 1, col + spec_char_width(s[i]), max)
    }
}

/// The end of the header: the next row.
pub open spec fn header_ended(out: Seq<char>, forced_wrap: bool) -> Seq<char> {
    if forced_wrap {
        out + " \r"@ + "\x1b[K"@
    } else {
        out + "\n"@
    }
}

/// One entry of a pager, cut to the width of the terminal.
pub open spec fn entry_drawn(
    out: Seq<char>,
    text: Seq<char>,
    selected: bool,
    max_width: int,
) -> Seq<char> {
    let a = out + "\r"@ + "\x1b[K"@;
    let b = if selected {
        a + "\x1b[7m"@
    } else {
        a
    };
    let c = b + text.take(chars_fit(text, 0, 0, max_width));
    (if selected {
        c + "\x1b[0m"@
    } else {
        c
    }) + "\x1b[K"@ + "\n"@
}

/// The pager below the header cleared, and the cursor back in the query.
pub open spec fn pager_ended(out: Seq<char>, i: PagerInput) -> Seq<char> {
    out + "\x1b[J"@ + movement(i.rows_back() as nat, 'A') + "\r"@ + movement(
        i.region().cursor_col as nat,
        'C',
    ) + "\x1b[?25h"@
}

fn end_header(tw: &mut TermWriter, forced_wrap: bool)
    ensures
        final(tw)@ == header_ended(old(tw)@, forced_wrap),
{
    if forced_wrap {
        tw.write_str(" \r");
        tw.clear_to_end_of_line();
    } else {
        tw.write_str("\n");
    }
}

fn end_pager(tw: &mut TermWriter, layout: &PagerLayout, Ghost(i): Ghost<PagerInput>)
    requires
        layout.shows(i),
    ensures
        final(tw)@ == pager_ended(old(tw)@, i),
{
    tw.clear_to_end_of_screen();
    tw.move_cursor_up(layout.rows_back);
    tw.carriage_return();
    tw.move_cursor_right(layout.region.cursor_col);
    tw.show_cursor();
}

/// Number of leading characters of `s` that fit in `max` columns.
fn count_fit(s: &Vec<char>, max: usize) -> (r: usize)
    requires
        max <= u16::MAX,
    ensures
        r == chars_fit(s@, 0, 0, max as int),
        r <= s.len(),
{
    let mut i: usize = 0;
    let mut col: usize = 0;
    while i < s.len()
        invariant_except_break
            i <= s.len(),
            col <= max <= u16::MAX,
            chars_fit(s@, 0, 0, max as int) == i + chars_fit(s@, i as int, col as int, max as int),
        ensures
            i == chars_fit(s@, 0, 0, max as int),
            i <= s.len(),
        decreases s.len() - i,
    {
        let w = char_width(s[i]);
        if col + w > max {
            break;
        }
        col += w;
        i += 1;
    }
    i
}

fn draw_entry(tw: &mut TermWriter, text: &str, selected: bool, max_width: usize)
    requires
        max_width <= u16::MAX,
    ensures
        final(tw)@ == entry_drawn(old(tw)@, text@, selected, max_width as int),
{
    tw.carriage_return();
    tw.clear_to_end_of_line();
    if selected {
        tw.write_str("\x1b[7m");
    }
    let v = chars_of(text);
    let k = count_fit(&v, max_width);
    let part = substring(&v, 0, k);
    assert(part@ =~= text@.take(k as int));
    tw.write_str(part.as_str());
    if selected {
        tw.write_str("\x1b[0m");
    }
    tw.clear_to_end_of_line();
    tw.write_str("\n");
}

/// The label before the query of the file picker, as it is measured.
pub open spec fn picker_prefix(hidden: bool, query_phase: bool, query: Seq<char>) -> Seq<char> {
    if hidden {
        "find (hidden): "@
    } else if query_phase && query.len() == 0 {
        "find (ctrl+f toggle hidden): "@
    } else {
        "find: "@
    }
}

/// The label before the query of the file picker, as it is drawn.
pub open spec fn picker_label(hidden: bool, query_phase: bool, query: Seq<char>) -> Seq<char> {
    if hidden {
        "find \x1b[33m(hidden)\x1b[0;1m: "@
    } else if query_phase && query.len() == 0 {
        "find \x1b[2m(ctrl+f toggle hidden)\x1b[0;1m: "@
    } else {
        "find: "@
    }
}

/// Whether the picker says that nothing matches.
pub open spec fn picker_failed(query_phase: bool, query: Seq<char>, found: nat) -> bool {
    !query_phase && found == 0 && query.len() > 0
}

pub open spec fn picker_input(
    query: Seq<char>,
    found: nat,
    selected: int,
    term_rows: u16,
    term_cols: u16,
    query_cursor: int,
    query_phase: bool,
    hidden: bool,
) -> PagerInput {
    PagerInput {
        prefix_width: width_of(picker_prefix(hidden, query_phase, query)) as usize,
        query_width: width_of(query) as usize,
        suffix_width: (if picker_failed(query_phase, query, found) {
            width_of("  (no matches)"@)
        } else {
            0
        }) as usize,
        query_cursor: query_cursor as usize,
        total_entries: found as usize,
        selected: selected as usize,
        term_rows,
        term_cols,
    }
}

/// The shown entries from the `i`-th shown one on.
pub open spec fn picker_rows(
    out: Seq<char>,
    all_entries: Seq<(usize, String)>,
    filtered: Seq<usize>,
    input: PagerInput,
    i: int,
) -> Seq<char>
    decreases input.max_results() - i,
{
    let at = input.scroll() + i;
    if i >= input.max_results() || at >= filtered.len() {
        out
    } else {
        picker_rows(
            entry_drawn(
                out,
                all_entries[filtered[at] as int].1@,
                at == input.selected,
                input.term_cols - 2,
            ),
            all_entries,
            filtered,
            input,
            i + 1,
        )
    }
}

/// The file picker drawn over the region that was drawn before.
pub open spec fn picker_drawn(
    out: Seq<char>,
    query: Seq<char>,
    all_entries: Seq<(usize, String)>,
    filtered: Seq<usize>,
    input: PagerInput,
    query_phase: bool,
    hidden: bool,
    prev: RenderedRegion,
) -> Seq<char> {
    let a = prev.cleared(out + "\x1b[?25l"@) + "\x1b[1m"@ + picker_label(
        hidden,
        query_phase,
        query,
    ) + "\x1b[0m"@ + query;
    let b = if picker_failed(query_phase, query, filtered.len()) {
        a + "  \x1b[2m(no matches)\x1b[0m"@
    } else {
        a
    };
    pager_ended(
        picker_rows(header_ended(b, input.forced_wrap()), all_entries, filtered, input, 0),
        input,
    )
}

/// Render the file picker pager (Ctrl+F).
/// In query phase (`query_phase` true), shows "find: " prompt.
/// In results phase, shows the selectable file list.
pub fn render_file_picker(
    tw: &mut TermWriter,
    query: &str,
    all_entries: &Vec<(usize, String)>,
    filtered: &Vec<usize>,
    selected: usize,
    term_rows: u16,
    term_cols: u16,
    query_cursor: usize,
    query_phase: bool,
    hidden: bool,
    prev: RenderedRegion,
) -> (r: RenderedRegion)
    requires
        term_cols >= 2,
        query_cursor <= width_of(query@) || picker_input(
            query@,
            filtered@.len(),
            selected as int,
            term_rows,
            term_cols,
            query_cursor as int,
            query_phase,
            hidden,
        ).cursor_fits(),
        byte_len(query@) + 256 <= usize::MAX,
        forall|k: int| 0 <= k < filtered@.len() ==> (#[trigger] filtered@[k]) < all_entries@.len(),
    ensures
        ({
            let input = picker_input(
                query@,
                filtered@.len(),
                selected as int,
                term_rows,
                term_cols,
                query_cursor as int,
                query_phase,
                hidden,
            );
            &&& r == input.region()
            &&& final(tw)@ == picker_drawn(
                old(tw)@,
                query@,
                all_entries@,
                filtered@,
                input,
                query_phase,
                hidden,
                prev,
            )
        }),
{
    tw.hide_cursor();
    prev.clear(tw);
    let prefix = if hidden {
        "find (hidden): "
    } else if query_phase && query.is_empty() {
        "find (ctrl+f toggle hidden): "
    } else {
        "find: "
    };
    let failed = !query_phase && filtered.len() == 0 && !query.is_empty();
    let suffix_width = if failed {
        str_width("  (no matches)")
    } else {
        0
    };
    proof {
        reveal_strlit("find (hidden): ");
        reveal_strlit("find (ctrl+f toggle hidden): ");
        reveal_strlit("find: ");
        reveal_strlit("  (no matches)");
        vstd::utf8::is_ascii_chars_encode_utf8(prefix@);
        vstd::utf8::is_ascii_chars_encode_utf8("  (no matches)"@);
        law_width_le_bytes(prefix@);
        law_width_le_bytes("  (no matches)"@);
        law_width_le_bytes(query@);
    }
    let input = PagerInput {
        prefix_width: str_width(prefix),
        query_width: str_width(query),
        suffix_width,
        query_cursor,
        total_entries: filtered.len(),
        selected,
        term_rows,
        term_cols,
    };
    let layout = layout_pager(&input);
    tw.write_str("\x1b[1m");
    if hidden {
        tw.write_str("find \x1b[33m(hidden)\x1b[0;1m: ");
    } else if query_phase && query.is_empty() {
        tw.write_str("find \x1b[2m(ctrl+f toggle hidden)\x1b[0;1m: ");
    } else {
        tw.write_str("find: ");
    }
    tw.write_str("\x1b[0m");
    tw.write_str(query);
    if failed {
        tw.write_str("  \x1b[2m(no matches)\x1b[0m");
    }
    end_header(tw, layout.needs_forced_wrap);
    let ghost goal = picker_rows(tw@, all_entries@, filtered@, input, 0);
    let mut i: usize = 0;
    while i < layout.max_results && layout.scroll < filtered.len() && i < filtered.len()
        - layout.scroll
        invariant
            layout.shows(input),
            input.term_cols >= 2,
            input.selected == selected,
            i <= layout.max_results,
            goal == picker_rows(tw@, all_entries@, filtered@, input, i as int),
            forall|k: int|
                0 <= k < filtered@.len() ==> (#[trigger] filtered@[k]) < all_entries@.len(),
        decreases layout.max_results - i,
    {
        let at = layout.scroll + i;
        let entry = filtered[at];
        draw_entry(tw, all_entries[entry].1.as_str(), at == selected, layout.max_width);
        i += 1;
    }
    end_pager(tw, &layout, Ghost(input));
    layout.region
}

// -- The directory picker --

/// The shown directories from the `i`-th shown one on.
pub open spec fn dir_rows(out: Seq<char>, entries: Seq<Seq<char>>, input: PagerInput, i: int) -> Seq<
    char,
>
    decreases input.max_results() - i,
{
    let at = input.scroll() + i;
    if i >= input.max_results() || at >= entries.len() {
        out
    } else {
        dir_rows(
            entry_drawn(out, entries[at], at == input.selected, input.term_cols - 2),
            entries,
            input,
            i + 1,
        )
    }
}

pub open spec fn dir_input(found: nat, selected: int, term_rows: u16, term_cols: u16) -> PagerInput {
    PagerInput {
        prefix_width: width_of("cd: "@) as usize,
        query_width: 0,
        suffix_width: 0,
        query_cursor: 0,
        total_entries: found as usize,
        selected: selected as usize,
        term_rows,
        term_cols,
    }
}

/// The directory picker drawn over the region that was drawn before.
pub open spec fn dirs_drawn(
    out: Seq<char>,
    entries: Seq<Seq<char>>,
    input: PagerInput,
    prev: RenderedRegion,
) -> Seq<char> {
    let a = prev.cleared(out + "\x1b[?25l"@) + "\x1b[1m"@ + "cd: "@ + "\x1b[0m"@;
    pager_ended(dir_rows(header_ended(a, input.forced_wrap()), entries, input, 0), input)
}

/// Render the list of directories to change to.
pub fn render_dir_picker(
    tw: &mut TermWriter,
    entries: &Vec<String>,
    selected: usize,
    term_rows: u16,
    term_cols: u16,
    prev: RenderedRegion,
) -> (r: RenderedRegion)
    requires
        term_cols >= 2,
    ensures
        ({
            let input = dir_input(entries@.len(), selected as int, term_rows, term_cols);
            &&& r == input.region()
            &&& final(tw)@ == dirs_drawn(old(tw)@, strs(entries@), input, prev)
        }),
{
    tw.hide_cursor();
    prev.clear(tw);
    proof {
        reveal_strlit("cd: ");
        vstd::utf8::is_ascii_chars_encode_utf8("cd: "@);
        law_width_le_bytes("cd: "@);
    }
    let input = PagerInput {
        prefix_width: str_width("cd: "),
        query_width: 0,
        suffix_width: 0,
        query_cursor: 0,
        total_entries: entries.len(),
        selected,
        term_rows,
        term_cols,
    };
    let layout = layout_pager(&input);
    tw.write_str("\x1b[1m");
    tw.write_str("cd: ");
    tw.write_str("\x1b[0m");
    end_header(tw, layout.needs_forced_wrap);
    let ghost ev = strs(entries@);
    let ghost goal = dir_rows(tw@, ev, input, 0);
    let mut i: usize = 0;
    while i < layout.max_results && layout.scroll < entries.len() && i < entries.len()
        - layout.scroll
        invariant
            layout.shows(input),
            input.term_cols >= 2,
            input.selected == selected,
            i <= layout.max_results,
            ev == strs(entries@),
            goal == dir_rows(tw@, ev, input, i as int),
        decreases layout.max_results - i,
    {
        let at = layout.scroll + i;
        assert(ev[at as int] == entries@[at as int]@);
        draw_entry(tw, entries[at].as_str(), at == selected, layout.max_width);
        i += 1;
    }
    end_pager(tw, &layout, Ghost(input));
    layout.region
}

// -- The history pager --

/// A character, highlighted where `marked`.
pub open spec fn char_drawn(out: Seq<char>, c: char, marked: bool) -> Seq<char> {
    if marked {
        out + "\x1b[1;33m"@ + seq![c] + "\x1b[0m"@
    } else {
        out + seq![c]
    }
}

/// The characters of an entry from `i` on, after `col` columns, up to the first that does not
/// fit. Those at the matched positions from the `pi`-th on are highlighted, unless the entry
/// is the selected one.
pub open spec fn matched_drawn(
    out: Seq<char>,
    text: Seq<char>,
    m: MatchView,
    selected: bool,
    max: int,
    i: int,
    col: int,
    pi: int,
) -> Seq<char>
    decreases text.len() - i,
{
    if i < 0 || i >= text.len() || col + spec_char_width(text[i]) > max {
        out
    } else {
        let hit = pi < m.count && m.positions[pi] == i as u16;
        matched_drawn(
            char_drawn(out, text[i], hit && !selected),
            text,
            m,
            selected,
            max,
            i + 1,
            col + spec_char_width(text[i]),
            if hit {
                pi + 1
            } else {
                pi
            },
        )
    }
}

/// One entry of the history pager.
pub open spec fn history_row(
    out: Seq<char>,
    text: Seq<char>,
    m: MatchView,
    selected: bool,
    max: int,
) -> Seq<char> {
    let a = out + "\r"@ + "\x1b[K"@;
    let b = if selected {
        a + "\x1b[7m"@
    } else {
        a
    };
    let c = matched_drawn(b, text, m, selected, max, 0, 0, 0);
    (if selected {
        c + "\x1b[0m"@
    } else {
        c
    }) + "\x1b[K"@ + "\n"@
}

/// The matches from the `i`-th on.
pub open spec fn history_rows(
    out: Seq<char>,
    entries: Seq<HistoryEntryView>,
    matches: Seq<MatchView>,
    input: PagerInput,
    i: int,
) -> Seq<char>
    decreases input.max_results() - i,
{
    if i >= input.max_results() || i >= matches.len() {
        out
    } else {
        history_rows(
            history_row(
                out,
                entries[matches[i].idx].text,
                matches[i],
                i == input.selected,
                input.term_cols - 2,
            ),
            entries,
            matches,
            input,
            i + 1,
        )
    }
}

pub open spec fn history_input(
    query: Seq<char>,
    found: nat,
    selected: int,
    term_rows: u16,
    term_cols: u16,
    query_cursor: int,
) -> PagerInput {
    PagerInput {
        prefix_width: width_of("search: "@) as usize,
        query_width: width_of(query) as usize,
        suffix_width: 0,
        query_cursor: query_cursor as usize,
        total_entries: found as usize,
        selected: selected as usize,
        term_rows,
        term_cols,
    }
}

/// The history pager drawn over the region that was drawn before.
pub open spec fn history_drawn(
    out: Seq<char>,
    query: Seq<char>,
    entries: Seq<HistoryEntryView>,
    matches: Seq<MatchView>,
    input: PagerInput,
    prev: RenderedRegion,
) -> Seq<char> {
    let a = prev.cleared(out + "\x1b[?25l"@) + "\x1b[1m"@ + "search: "@ + "\x1b[0m"@ + query;
    pager_ended(
        history_rows(header_ended(a, input.forced_wrap()), entries, matches, input, 0),
        input,
    )
}

fn write_char(tw: &mut TermWriter, c: char)
    ensures
        final(tw)@ == old(tw)@ + seq![c],
{
    let mut s = String::new();
    s.push(c);
    assert(s@ =~= seq![c]);
    tw.write_str(s.as_str());
}

fn draw_history_row(
    tw: &mut TermWriter,
    text: &str,
    m: &FuzzyMatch,
    selected: bool,
    max_width: usize,
)
    requires
        max_width <= u16::MAX,
        m.match_count <= 32,
    ensures
        final(tw)@ == history_row(old(tw)@, text@, m@, selected, max_width as int),
{
    tw.carriage_return();
    tw.clear_to_end_of_line();
    if selected {
        tw.write_str("\x1b[7m");
    }
    let v = chars_of(text);
    let ghost goal = matched_drawn(tw@, text@, m@, selected, max_width as int, 0, 0, 0);
    let mut i: usize = 0;
    let mut col: usize = 0;
    let mut pi: usize = 0;
    while i < v.len()
        invariant_except_break
            i <= v.len(),
            v@ == text@,
            col <= max_width <= u16::MAX,
            pi <= m.match_count <= 32,
            goal == matched_drawn(
                tw@,
                text@,
                m@,
                selected,
                max_width as int,
                i as int,
                col as int,
                pi as int,
            ),
        ensures
            tw@ == goal,
        decreases v.len() - i,
    {
        let c = v[i];
        let w = char_width(c);
        if col + w > max_width {
            break;
        }
        col += w;
        let hit = pi < m.match_count as usize && m.match_positions[pi] == i as u16;
        if hit {
            pi += 1;
        }
        if hit && !selected {
            tw.write_str("\x1b[1;33m");
            write_char(tw, c);
            tw.write_str("\x1b[0m");
        } else {
            write_char(tw, c);
        }
        i += 1;
    }
    if selected {
        tw.write_str("\x1b[0m");
    }
    tw.clear_to_end_of_line();
    tw.write_str("\n");
}

/// Render the Ctrl+R history search pager.
pub fn render_history_pager(
    tw: &mut TermWriter,
    query: &str,
    matches: &Vec<FuzzyMatch>,
    history: &History,
    selected: usize,
    term_rows: u16,
    term_cols: u16,
    query_cursor: usize,
    prev: RenderedRegion,
) -> (r: RenderedRegion)
    requires
        term_cols >= 2,
        query_cursor <= width_of(query@) || history_input(
            query@,
            matches@.len(),
            selected as int,
            term_rows,
            term_cols,
            query_cursor as int,
        ).cursor_fits(),
        byte_len(query@) + 256 <= usize::MAX,
        forall|k: int|
            0 <= k < matches@.len() ==> (#[trigger] matches@[k]).entry_idx
                < history@.entries.len() && matches@[k].match_count <= 32,
    ensures
        ({
            let input = history_input(
                query@,
                matches@.len(),
                selected as int,
                term_rows,
                term_cols,
                query_cursor as int,
            );
            &&& r == input.region()
            &&& final(tw)@ == history_drawn(
                old(tw)@,
                query@,
                history@.entries,
                match_views(matches@),
                input,
                prev,
            )
        }),
{
    tw.hide_cursor();
    prev.clear(tw);
    proof {
        reveal_strlit("search: ");
        vstd::utf8::is_ascii_chars_encode_utf8("search: "@);
        law_width_le_bytes("search: "@);
        law_width_le_bytes(query@);
    }
    let input = PagerInput {
        prefix_width: str_width("search: "),
        query_width: str_width(query),
        suffix_width: 0,
        query_cursor,
        total_entries: matches.len(),
        selected,
        term_rows,
        term_cols,
    };
    let layout = layout_pager(&input);
    tw.write_str("\x1b[1m");
    tw.write_str("search: ");
    tw.write_str("\x1b[0m");
    tw.write_str(query);
    end_header(tw, layout.needs_forced_wrap);
    let ghost mv = match_views(matches@);
    let ghost goal = history_rows(tw@, history@.entries, mv, input, 0);
    let mut i: usize = 0;
    while i < layout.max_results && i < matches.len()
        invariant
            layout.shows(input),
            input.term_cols >= 2,
            input.selected == selected,
            i <= layout.max_results,
            mv == match_views(matches@),
            goal == history_rows(tw@, history@.entries, mv, input, i as int),
            forall|k: int|
                0 <= k < matches@.len() ==> (#[trigger] matches@[k]).entry_idx
                    < history@.entries.len() && matches@[k].match_count <= 32,
        decreases layout.max_results - i,
    {
        let m = &matches[i];
        assert(mv[i as int] == m@);
        draw_history_row(tw, history.get(m.entry_idx), m, i == selected, layout.max_width);
        i += 1;
    }
    end_pager(tw, &layout, Ghost(input));
    layout.region
}

// -- Laws --

proof fn lemma_cursor_in_lines(
    text: Seq<char>,
    at: int,
    cols: int,
    i: int,
    prefix: int,
    row: int,
    cursor: (int, int),
)
    requires
        cols > 0,
        0 <= i <= text.len(),
        0 <= at <= text.len(),
        prefix >= 0,
        row >= 0,
        at < i ==> 0 <= cursor.0 <= row && 0 <= cursor.1 < cols,
    ensures
        ({
            let g = lines_layout(text, at, cols, i, prefix, row, cursor);
            0 <= g.cursor_row <= g.last_row && 0 <= g.cursor_col < cols
        }),
    decreases text.len() - i,
{
    lemma_index_from(text, '\n', i);
    let k = index_from(text, '\n', i);
    let width = prefix + width_of(text.subrange(i, k));
    lemma_wraps(width, 0, cols);
    let mut here = cursor;
    if i <= at <= k {
        let part = prefix + width_of(text.subrange(i, at));
        lemma_width_concat(text.subrange(i, at), text.subrange(at, k));
        assert(text.subrange(i, at) + text.subrange(at, k) =~= text.subrange(i, k));
        lemma_wraps(width, part, cols);
        vstd::arithmetic::div_mod::lemma_mod_bound(part, cols);
        here = (row + part / cols, part % cols);
    }
    if k < text.len() {
        let end = row + wraps(width, cols);
        lemma_cursor_in_lines(text, at, cols, k + 1, CONT_PROMPT_LEN as int, end + 1, here);
    }
}

/// The cursor stands in one of the rows that the prompt and the line take, and in a column of the
/// terminal.
pub proof fn law_cursor_is_on_the_line(
    prompt_width: int,
    line: LineState,
    suggestion: Seq<char>,
    cols: int,
)
    requires
        prompt_width >= 0,
        cols > 0,
    ensures
        ({
            let g = line_layout(prompt_width, line, suggestion, cols);
            0 <= g.cursor_row <= g.last_row && 0 <= g.cursor_col < cols
        }),
{
    if line.text().contains('\n') {
        lemma_cursor_in_lines(
            line.text(),
            line.before.len() as int,
            cols,
            0,
            prompt_width,
            0,
            (0, 0),
        );
    } else {
        lemma_columns(line);
        let before = prompt_width + columns_before(line.text(), line.before);
        let full = prompt_width + columns_before(line.text(), line.text()) + width_of(suggestion);
        vstd::arithmetic::div_mod::lemma_div_is_ordered(before, full, cols);
        vstd::arithmetic::div_mod::lemma_mod_bound(before, cols);
        vstd::arithmetic::div_mod::lemma_div_pos_is_pos(before, cols);
    }
}

} // verus!
