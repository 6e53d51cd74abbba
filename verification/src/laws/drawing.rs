//! What the terminal shows: the text that is left without control sequences, the place of the
//! cursor, the rows that are shown and the one that stands out.
use vstd::prelude::*;

use crate::alias::AliasView;
use crate::complete::{display_name, widest, CompEntry, CompletionState, EntryView};
use crate::editor::{suggested_rest, word_color, PromptView};
use crate::fuzzy::MatchView;
use crate::history::{HistoryEntryView, HistoryView};
use crate::laws::texts::{is_word, lemma_span_is};
use crate::line::{columns_before, lemma_width_concat, spec_char_width, width_of, LineState};
use crate::render::{
    cell_drawn, cell_pad, char_drawn, chars_fit, col_width, colored, completions_drawn,
    cursor_placed, dir_input, dir_rows, dirs_drawn, entry_color, entry_drawn, grid_drawn,
    header_ended, history_drawn, history_input, history_row, history_rows, line_drawn, line_layout,
    lines_written, matched_drawn, newlines, pager_ended, picker_drawn, picker_failed, picker_input,
    picker_label, picker_prefix, picker_rows, row_drawn, scroll_start, spaces, suggested,
    visible_rows, Geometry, PagerInput, RenderedRegion,
};
use crate::session::{candidates_refiltered, mode_shown, query_column, EditorView, ModeView, Screen};
use crate::term::movement;
use crate::text::{
    byte_len, decimal, index_from, law_decimal_value, lemma_index_from, spec_is_digit,
    spec_is_whitespace,
};

verus! {

// -- What is seen --

pub open spec fn is_final(c: char) -> bool {
    '@' <= c <= '~'
}

/// What follows a control sequence.
pub open spec fn behind_control(s: Seq<char>) -> Seq<char>
    decreases s.len(),
{
    if s.len() == 0 {
        s
    } else if is_final(s[0]) {
        s.drop_first()
    } else {
        behind_control(s.drop_first())
    }
}

pub proof fn lemma_behind_control(s: Seq<char>)
    ensures
        behind_control(s).len() <= s.len(),
    decreases s.len(),
{
    if s.len() > 0 && !is_final(s[0]) {
        lemma_behind_control(s.drop_first());
    }
}

/// What is written without the control sequences in it.
pub open spec fn seen(s: Seq<char>) -> Seq<char>
    decreases s.len(),
{
    if s.len() == 0 {
        s
    } else if s[0] != '\x1b' {
        seq![s[0]] + seen(s.drop_first())
    } else if s.len() > 1 && s[1] == '[' {
        proof {
            lemma_behind_control(s.skip(2));
        }
        seen(behind_control(s.skip(2)))
    } else if s.len() > 1 {
        seen(s.skip(2))
    } else {
        Seq::empty()
    }
}

/// No control sequence is open at the end.
pub open spec fn is_closed(a: Seq<char>) -> bool {
    forall|b: Seq<char>| #[trigger] seen(a + b) == seen(a) + seen(b)
}

/// A text without control sequences.
pub open spec fn is_bare(s: Seq<char>) -> bool {
    !s.contains('\x1b')
}

proof fn lemma_bare_then(s: Seq<char>, b: Seq<char>)
    requires
        is_bare(s),
    ensures
        seen(s + b) == s + seen(b),
    decreases s.len(),
{
    if s.len() == 0 {
        assert(s + b =~= b);
        assert(s + seen(b) =~= seen(b));
    } else {
        let t = s.drop_first();
        assert(s.contains(s[0]));
        assert(is_bare(t)) by {
            if t.contains('\x1b') {
                let i = choose|i: int| 0 <= i < t.len() && t[i] == '\x1b';
                assert(s[i + 1] == '\x1b');
            }
        }
        lemma_bare_then(t, b);
        assert((s + b).drop_first() =~= t + b);
        assert((s + b)[0] == s[0]);
        assert(seq![s[0]] + (t + seen(b)) =~= s + seen(b));
    }
}

proof fn lemma_bare(s: Seq<char>)
    requires
        is_bare(s),
    ensures
        is_closed(s),
        seen(s) == s,
{
    let e = Seq::<char>::empty();
    lemma_bare_then(s, e);
    assert(s + e =~= s);
    assert(s + seen(e) =~= s);
    assert forall|b: Seq<char>| #[trigger] seen(s + b) == seen(s) + seen(b) by {
        lemma_bare_then(s, b);
    }
}

proof fn lemma_skips(body: Seq<char>, f: char, b: Seq<char>)
    requires
        is_final(f),
        forall|i: int| 0 <= i < body.len() ==> !is_final(#[trigger] body[i]),
    ensures
        behind_control(body + seq![f] + b) == b,
    decreases body.len(),
{
    let s = body + seq![f] + b;
    if body.len() == 0 {
        assert(s[0] == f);
        assert(s.drop_first() =~= b);
    } else {
        let t = body.drop_first();
        assert(s[0] == body[0]);
        assert(s.drop_first() =~= t + seq![f] + b);
        assert forall|i: int| 0 <= i < t.len() implies !is_final(#[trigger] t[i]) by {
            assert(t[i] == body[i + 1]);
        }
        lemma_skips(t, f, b);
    }
}

/// A control sequence is not seen.
proof fn lemma_control(body: Seq<char>, f: char)
    requires
        is_final(f),
        forall|i: int| 0 <= i < body.len() ==> !is_final(#[trigger] body[i]),
    ensures
        is_closed(seq!['\x1b', '['] + body + seq![f]),
        seen(seq!['\x1b', '['] + body + seq![f]) == Seq::<char>::empty(),
{
    let c = seq!['\x1b', '['] + body + seq![f];
    let e = Seq::<char>::empty();
    assert forall|b: Seq<char>| #[trigger] seen(c + b) == seen(b) by {
        lemma_skips(body, f, b);
        assert((c + b).skip(2) =~= body + seq![f] + b);
        assert((c + b)[0] == '\x1b' && (c + b)[1] == '[');
    }
    assert(c + e =~= c);
    assert(seen(c) == seen(c + e));
    assert forall|b: Seq<char>| #[trigger] seen(c + b) == seen(c) + seen(b) by {
        assert(seen(c) + seen(b) =~= seen(b));
    }
}

proof fn lemma_movement(n: nat, suffix: char)
    requires
        is_final(suffix),
    ensures
        is_closed(movement(n, suffix)),
        seen(movement(n, suffix)) == Seq::<char>::empty(),
{
    if n > 0 {
        law_decimal_value(n);
        reveal_strlit("\x1b[");
        let body = decimal(n);
        assert forall|i: int| 0 <= i < body.len() implies !is_final(#[trigger] body[i]) by {
            assert(spec_is_digit(body[i]));
        }
        lemma_control(body, suffix);
        assert("\x1b["@ =~= seq!['\x1b', '[']);
    } else {
        lemma_bare(Seq::empty());
    }
}

proof fn lemma_append(a: Seq<char>, b: Seq<char>)
    requires
        is_closed(a),
        is_closed(b),
    ensures
        is_closed(a + b),
        seen(a + b) == seen(a) + seen(b),
{
    assert forall|c: Seq<char>| #[trigger] seen((a + b) + c) == seen(a + b) + seen(c) by {
        assert((a + b) + c =~= a + (b + c));
        assert(seen(a + (b + c)) == seen(a) + seen(b + c));
        assert(seen(a) + (seen(b) + seen(c)) =~= (seen(a) + seen(b)) + seen(c));
    }
}

/// Appends something that is not seen.
proof fn lemma_append_hidden(a: Seq<char>, b: Seq<char>)
    requires
        is_closed(a),
        is_closed(b),
        seen(b).len() == 0,
    ensures
        is_closed(a + b),
        seen(a + b) == seen(a),
{
    lemma_append(a, b);
    assert(seen(a) + seen(b) =~= seen(a));
}

proof fn lemma_append_bare(a: Seq<char>, b: Seq<char>)
    requires
        is_closed(a),
        is_bare(b),
    ensures
        is_closed(a + b),
        seen(a + b) == seen(a) + b,
{
    lemma_bare(b);
    lemma_append(a, b);
}

proof fn lemma_short_control(body: Seq<char>, f: char, c: Seq<char>)
    requires
        is_final(f),
        c == seq!['\x1b', '['] + body + seq![f],
        forall|i: int| 0 <= i < body.len() ==> !is_final(#[trigger] body[i]),
    ensures
        is_closed(c),
        seen(c) == Seq::<char>::empty(),
{
    lemma_control(body, f);
}

/// None of the control sequences of the display is seen.
proof fn lemma_controls()
    ensures
        is_closed("\x1b[?25l"@) && seen("\x1b[?25l"@).len() == 0,
        is_closed("\x1b[?25h"@) && seen("\x1b[?25h"@).len() == 0,
        is_closed("\x1b[J"@) && seen("\x1b[J"@).len() == 0,
        is_closed("\x1b[K"@) && seen("\x1b[K"@).len() == 0,
        is_closed("\x1b[0m"@) && seen("\x1b[0m"@).len() == 0,
        is_closed("\x1b[1m"@) && seen("\x1b[1m"@).len() == 0,
        is_closed("\x1b[7m"@) && seen("\x1b[7m"@).len() == 0,
{
    reveal_strlit("\x1b[?25l");
    reveal_strlit("\x1b[?25h");
    reveal_strlit("\x1b[J");
    reveal_strlit("\x1b[K");
    reveal_strlit("\x1b[0m");
    reveal_strlit("\x1b[1m");
    reveal_strlit("\x1b[7m");
    let e = Seq::<char>::empty();
    let q = seq!['?', '2', '5'];
    assert("\x1b[?25l"@ =~= seq!['\x1b', '['] + q + seq!['l']);
    lemma_short_control(q, 'l', "\x1b[?25l"@);
    assert("\x1b[?25h"@ =~= seq!['\x1b', '['] + q + seq!['h']);
    lemma_short_control(q, 'h', "\x1b[?25h"@);
    assert("\x1b[J"@ =~= seq!['\x1b', '['] + e + seq!['J']);
    lemma_short_control(e, 'J', "\x1b[J"@);
    assert("\x1b[K"@ =~= seq!['\x1b', '['] + e + seq!['K']);
    lemma_short_control(e, 'K', "\x1b[K"@);
    assert("\x1b[0m"@ =~= seq!['\x1b', '['] + seq!['0'] + seq!['m']);
    lemma_short_control(seq!['0'], 'm', "\x1b[0m"@);
    assert("\x1b[1m"@ =~= seq!['\x1b', '['] + seq!['1'] + seq!['m']);
    lemma_short_control(seq!['1'], 'm', "\x1b[1m"@);
    assert("\x1b[7m"@ =~= seq!['\x1b', '['] + seq!['7'] + seq!['m']);
    lemma_short_control(seq!['7'], 'm', "\x1b[7m"@);
}

proof fn lemma_colors()
    ensures
        is_closed("\x1b[31m"@) && seen("\x1b[31m"@).len() == 0,
        is_closed("\x1b[32m"@) && seen("\x1b[32m"@).len() == 0,
        is_closed("\x1b[34m"@) && seen("\x1b[34m"@).len() == 0,
        is_closed("\x1b[35m"@) && seen("\x1b[35m"@).len() == 0,
        is_closed("\x1b[36m"@) && seen("\x1b[36m"@).len() == 0,
        is_closed("\x1b[1;33m"@) && seen("\x1b[1;33m"@).len() == 0,
        is_closed("\x1b[38;5;8m"@) && seen("\x1b[38;5;8m"@).len() == 0,
{
    reveal_strlit("\x1b[31m");
    reveal_strlit("\x1b[32m");
    reveal_strlit("\x1b[34m");
    reveal_strlit("\x1b[35m");
    reveal_strlit("\x1b[36m");
    reveal_strlit("\x1b[1;33m");
    reveal_strlit("\x1b[38;5;8m");
    assert("\x1b[31m"@ =~= seq!['\x1b', '['] + seq!['3', '1'] + seq!['m']);
    lemma_short_control(seq!['3', '1'], 'm', "\x1b[31m"@);
    assert("\x1b[32m"@ =~= seq!['\x1b', '['] + seq!['3', '2'] + seq!['m']);
    lemma_short_control(seq!['3', '2'], 'm', "\x1b[32m"@);
    assert("\x1b[34m"@ =~= seq!['\x1b', '['] + seq!['3', '4'] + seq!['m']);
    lemma_short_control(seq!['3', '4'], 'm', "\x1b[34m"@);
    assert("\x1b[35m"@ =~= seq!['\x1b', '['] + seq!['3', '5'] + seq!['m']);
    lemma_short_control(seq!['3', '5'], 'm', "\x1b[35m"@);
    assert("\x1b[36m"@ =~= seq!['\x1b', '['] + seq!['3', '6'] + seq!['m']);
    lemma_short_control(seq!['3', '6'], 'm', "\x1b[36m"@);
    let y = seq!['1', ';', '3', '3'];
    assert("\x1b[1;33m"@ =~= seq!['\x1b', '['] + y + seq!['m']);
    lemma_short_control(y, 'm', "\x1b[1;33m"@);
    let g = seq!['3', '8', ';', '5', ';', '8'];
    assert("\x1b[38;5;8m"@ =~= seq!['\x1b', '['] + g + seq!['m']);
    lemma_short_control(g, 'm', "\x1b[38;5;8m"@);
}

proof fn lemma_returns()
    ensures
        is_bare("\r"@) && "\r"@ == seq!['\r'],
        is_bare("\n"@) && "\n"@ == seq!['\n'],
        is_bare(" \r"@) && " \r"@ == seq![' ', '\r'],
        is_bare("\r\n"@) && "\r\n"@ == seq!['\r', '\n'],
        is_bare("  "@) && "  "@ == seq![' ', ' '],
{
    reveal_strlit("\r");
    reveal_strlit("\n");
    reveal_strlit(" \r");
    reveal_strlit("\r\n");
    reveal_strlit("  ");
    assert("\r"@ =~= seq!['\r']);
    assert("\n"@ =~= seq!['\n']);
    assert(" \r"@ =~= seq![' ', '\r']);
    assert("\r\n"@ =~= seq!['\r', '\n']);
    assert("  "@ =~= seq![' ', ' ']);
}

// -- The line --

proof fn lemma_part_bare(s: Seq<char>, i: int, j: int)
    requires
        is_bare(s),
        0 <= i <= j <= s.len(),
    ensures
        is_bare(s.subrange(i, j)),
{
    let t = s.subrange(i, j);
    if t.contains('\x1b') {
        let k = choose|k: int| 0 <= k < t.len() && t[k] == '\x1b';
        assert(s[i + k] == '\x1b');
    }
}

proof fn lemma_cleared(prev: RenderedRegion, out: Seq<char>)
    requires
        is_closed(out),
    ensures
        is_closed(prev.cleared(out)),
        seen(prev.cleared(out)) == seen(out) + seq!['\r'],
{
    lemma_controls();
    lemma_returns();
    let m = movement(prev.cursor_row as nat, 'A');
    lemma_movement(prev.cursor_row as nat, 'A');
    lemma_append_hidden(out, m);
    lemma_append_bare(out + m, "\r"@);
    lemma_append_hidden(out + m + "\r"@, "\x1b[J"@);
}

proof fn lemma_colored(out: Seq<char>, text: Seq<char>, color: Option<bool>)
    requires
        is_closed(out),
        is_bare(text),
    ensures
        is_closed(colored(out, text, color)),
        seen(colored(out, text, color)) == seen(out) + text,
{
    match color {
        None => {
            lemma_append_bare(out, text);
        },
        Some(valid) => {
            let n = crate::text::span_front(text, false);
            lemma_span_bounds(text);
            lemma_controls();
            lemma_colors();
            let c = if valid {
                "\x1b[32m"@
            } else {
                "\x1b[31m"@
            };
            lemma_part_bare(text, 0, n);
            lemma_part_bare(text, n, text.len() as int);
            assert(text.take(n) =~= text.subrange(0, n));
            assert(text.skip(n) =~= text.subrange(n, text.len() as int));
            lemma_append_hidden(out, c);
            lemma_append_bare(out + c, text.take(n));
            lemma_append_hidden(out + c + text.take(n), "\x1b[0m"@);
            lemma_append_bare(out + c + text.take(n) + "\x1b[0m"@, text.skip(n));
            assert(seen(out) + text.take(n) + text.skip(n) =~= seen(out) + text);
        },
    }
}

proof fn lemma_span_bounds(s: Seq<char>)
    ensures
        0 <= crate::text::span_front(s, false) <= s.len(),
    decreases s.len(),
{
    if s.len() > 0 {
        lemma_span_bounds(s.drop_first());
    }
}

proof fn lemma_suggested(out: Seq<char>, s: Seq<char>)
    requires
        is_closed(out),
        is_bare(s),
    ensures
        is_closed(suggested(out, s)),
        seen(suggested(out, s)) == seen(out) + s,
{
    if s.len() == 0 {
        assert(seen(out) + s =~= seen(out));
    } else {
        lemma_controls();
        lemma_colors();
        lemma_append_hidden(out, "\x1b[38;5;8m"@);
        lemma_append_bare(out + "\x1b[38;5;8m"@, s);
        lemma_append_hidden(out + "\x1b[38;5;8m"@ + s, "\x1b[0m"@);
    }
}

proof fn lemma_placed(out: Seq<char>, g: Geometry)
    requires
        is_closed(out),
    ensures
        is_closed(cursor_placed(out, g)),
        seen(cursor_placed(out, g)) == seen(out) + (if g.forced_wrap {
            seq![' ', '\r', '\r']
        } else {
            seq!['\r']
        }),
{
    lemma_controls();
    lemma_returns();
    let a = if g.forced_wrap {
        out + " \r"@
    } else {
        out
    };
    if g.forced_wrap {
        lemma_append_bare(out, " \r"@);
    }
    let up = movement(g.rows_back() as nat, 'A');
    let right = movement(g.region().cursor_col as nat, 'C');
    lemma_movement(g.rows_back() as nat, 'A');
    lemma_movement(g.region().cursor_col as nat, 'C');
    lemma_append_hidden(a, up);
    lemma_append_bare(a + up, "\r"@);
    lemma_append_hidden(a + up + "\r"@, right);
    lemma_append_hidden(a + up + "\r"@ + right, "\x1b[?25h"@);
    if g.forced_wrap {
        assert(seen(out) + " \r"@ + "\r"@ =~= seen(out) + seq![' ', '\r', '\r']);
    }
}

/// What is seen of a line: the prompt, the whole line and the suggestion behind it, in this order.
pub proof fn law_line_is_seen(
    out: Seq<char>,
    prompt: Seq<char>,
    width: int,
    line: LineState,
    cols: int,
    prev: RenderedRegion,
    color: Option<bool>,
    suggestion: Seq<char>,
)
    requires
        is_closed(out),
        is_bare(prompt),
        is_bare(line.text()),
        is_bare(suggestion),
        !line.text().contains('\n'),
    ensures
        ({
            let shown = seen(out) + seq!['\r'] + prompt + line.text() + suggestion;
            let drawn = seen(
                line_drawn(out, prompt, width, line, cols, prev, color, suggestion),
            );
            drawn == shown + seq!['\r'] || drawn == shown + seq![' ', '\r', '\r']
        }),
{
    lemma_controls();
    let hide = "\x1b[?25l"@;
    lemma_append_hidden(out, hide);
    lemma_cleared(prev, out + hide);
    let a = prev.cleared(out + hide);
    lemma_append_bare(a, prompt);
    lemma_colored(a + prompt, line.text(), color);
    let b = colored(a + prompt, line.text(), color);
    lemma_suggested(b, suggestion);
    lemma_placed(suggested(b, suggestion), line_layout(width, line, suggestion, cols));
}

/// Each further line of a command stands on a row of its own behind two blanks.
pub proof fn law_lines_are_seen(
    out: Seq<char>,
    first: Seq<char>,
    second: Seq<char>,
    color: Option<bool>,
)
    requires
        is_closed(out),
        is_bare(first),
        is_bare(second),
        !first.contains('\n'),
        !second.contains('\n'),
    ensures
        seen(lines_written(out, first + seq!['\n'] + second, 0, color)) == seen(out) + first + seq![
            '\r',
            '\n',
            ' ',
            ' ',
        ] + second,
{
    let t = first + seq!['\n'] + second;
    let n = first.len() as int;
    lemma_returns();
    lemma_index_from(t, '\n', 0);
    assert(t[n] == '\n');
    let k = index_from(t, '\n', 0);
    assert(k == n) by {
        if k < n {
            assert(t[k] == first[k]);
            assert(first.contains(first[k]));
        }
    }
    lemma_index_from(t, '\n', n + 1);
    let m = index_from(t, '\n', n + 1);
    assert(m == t.len()) by {
        if m < t.len() {
            assert(t[m] == second[m - n - 1]);
            assert(second.contains(second[m - n - 1]));
        }
    }
    assert(t.subrange(0, n) =~= first);
    assert(t.subrange(n + 1, t.len() as int) =~= second);
    lemma_colored(out, first, color);
    let a = colored(out, first, color);
    lemma_append_bare(a, "\r\n"@);
    lemma_append_bare(a + "\r\n"@, "  "@);
    lemma_append_bare(a + "\r\n"@ + "  "@, second);
    reveal_with_fuel(lines_written, 3);
    assert(lines_written(out, t, 0, color) == a + "\r\n"@ + "  "@ + second);
    assert(seen(out) + first + "\r\n"@ + "  "@ + second =~= seen(out) + first + seq![
        '\r',
        '\n',
        ' ',
        ' ',
    ] + second);
}

/// The first word is green where it can be run and red where it cannot; the rest of the line has no
/// color.
pub proof fn law_first_word_is_colored(out: Seq<char>, w: Seq<char>, rest: Seq<char>)
    requires
        is_word(w),
        rest.len() == 0 || spec_is_whitespace(rest[0]),
    ensures
        colored(out, w + rest, Some(true)) == out + "\x1b[32m"@ + w + "\x1b[0m"@ + rest,
        colored(out, w + rest, Some(false)) == out + "\x1b[31m"@ + w + "\x1b[0m"@ + rest,
        colored(out, w + rest, None) == out + (w + rest),
{
    lemma_span_is(w, rest, false);
    assert((w + rest).take(w.len() as int) =~= w);
    assert((w + rest).skip(w.len() as int) =~= rest);
}

/// A suggestion is shown in gray.
pub proof fn law_suggestion_is_gray(out: Seq<char>, s: Seq<char>)
    requires
        s.len() > 0,
    ensures
        suggested(out, s) == out + "\x1b[38;5;8m"@ + s + "\x1b[0m"@,
        suggested(out, Seq::empty()) == out,
{
}

/// The cursor of a line stands as many columns behind the start of the prompt as the prompt and
/// the text before the cursor take, counted over rows of the terminal's width; the rows reach to
/// the end of the suggestion.
pub proof fn law_cursor_of_line(width: int, line: LineState, suggestion: Seq<char>, cols: int)
    requires
        width >= 0,
        cols > 0,
        !line.text().contains('\n'),
    ensures
        ({
            let g = line_layout(width, line, suggestion, cols);
            let all = width + columns_before(line.text(), line.text()) + width_of(suggestion);
            &&& g.cursor_row * cols + g.cursor_col == width + columns_before(
                line.text(),
                line.before,
            )
            &&& 0 <= g.cursor_col < cols
            &&& g.last_row * cols <= all < (g.last_row + 1) * cols
            &&& g.forced_wrap == (all > 0 && g.last_row * cols == all)
        }),
{
    let b = width + columns_before(line.text(), line.before);
    let all = width + columns_before(line.text(), line.text()) + width_of(suggestion);
    vstd::arithmetic::div_mod::lemma_fundamental_div_mod(b, cols);
    vstd::arithmetic::div_mod::lemma_fundamental_div_mod(all, cols);
    vstd::arithmetic::div_mod::lemma_mod_bound(b, cols);
    vstd::arithmetic::div_mod::lemma_mod_bound(all, cols);
    assert(cols * (b / cols) == (b / cols) * cols) by (nonlinear_arith);
    assert(cols * (all / cols) == (all / cols) * cols) by (nonlinear_arith);
    assert((all / cols + 1) * cols == (all / cols) * cols + cols) by (nonlinear_arith);
}

/// The cursor is brought to its place from the end of the text: up by the rows below it, to the
/// start of the row, and right by its column.
pub proof fn law_cursor_is_brought_back(out: Seq<char>, g: Geometry)
    requires
        !g.forced_wrap,
        0 <= g.cursor_row <= g.last_row < 65535,
        0 <= g.cursor_col < 65536,
    ensures
        cursor_placed(out, g) == out + movement((g.last_row - g.cursor_row) as nat, 'A') + "\r"@
            + movement(g.cursor_col as nat, 'C') + "\x1b[?25h"@,
        g.region().painted_rows == g.last_row + 1,
        g.region().cursor_row == g.cursor_row,
        g.region().cursor_col == g.cursor_col,
{
}

/// A movement names its direction and its distance, and one by nothing is not written.
pub proof fn law_movements(n: nat, suffix: char)
    requires
        n > 0,
    ensures
        movement(n, suffix) == seq!['\x1b', '['] + decimal(n) + seq![suffix],
        movement(0, suffix).len() == 0,
{
    reveal_strlit("\x1b[");
    assert("\x1b["@ =~= seq!['\x1b', '[']);
}

/// Before a line is drawn again the cursor goes up to its first row, and all from there is cleared.
pub proof fn law_old_line_is_cleared(prev: RenderedRegion, out: Seq<char>)
    ensures
        prev.cleared(out) == out + movement(prev.cursor_row as nat, 'A') + "\r"@ + "\x1b[J"@,
{
}

// -- Lists --

/// At most twenty results are shown, two rows less than the terminal has, and the one that is
/// selected is among them.
pub proof fn law_selected_is_shown(i: PagerInput)
    requires
        i.selected < i.total_entries,
        i.term_rows > 2,
    ensures
        0 <= i.scroll() <= i.selected < i.scroll() + i.max_results(),
        i.max_results() <= 20,
        i.max_results() <= i.term_rows - 2,
        i.total_entries <= 20 && i.total_entries <= i.term_rows - 2 ==> i.scroll() == 0,
        i.total_entries > i.max_results() ==> i.scroll() + i.max_results() <= i.total_entries,
        i.displayed() <= i.total_entries,
        i.displayed() <= i.max_results(),
{
}

proof fn lemma_fit(s: Seq<char>, i: int, col: int, max: int)
    requires
        0 <= i <= s.len(),
        0 <= col <= max,
    ensures
        0 <= chars_fit(s, i, col, max) <= s.len() - i,
        col + width_of(s.subrange(i, i + chars_fit(s, i, col, max))) <= max,
        i + chars_fit(s, i, col, max) < s.len() ==> col + width_of(
            s.subrange(i, i + chars_fit(s, i, col, max) + 1),
        ) > max,
    decreases s.len() - i,
{
    if i < s.len() && col + spec_char_width(s[i]) <= max {
        lemma_fit(s, i + 1, col + spec_char_width(s[i]), max);
        let n = chars_fit(s, i + 1, col + spec_char_width(s[i]), max);
        lemma_first_width(s, i, i + 1 + n);
        if i + 1 + n < s.len() {
            lemma_first_width(s, i, i + 2 + n);
        }
    } else {
        assert(s.subrange(i, i) =~= Seq::empty());
        if i < s.len() {
            lemma_first_width(s, i, i + 1);
            assert(s.subrange(i + 1, i + 1) =~= Seq::empty());
        }
    }
}

proof fn lemma_first_width(s: Seq<char>, i: int, j: int)
    requires
        0 <= i < j <= s.len(),
    ensures
        width_of(s.subrange(i, j)) == spec_char_width(s[i]) + width_of(s.subrange(i + 1, j)),
{
    let a = seq![s[i]];
    let b = s.subrange(i + 1, j);
    lemma_width_concat(a, b);
    assert(a + b =~= s.subrange(i, j));
    assert(a.drop_last() =~= Seq::empty());
    assert(width_of(a) == spec_char_width(s[i])) by {
        reveal_with_fuel(width_of, 2);
    }
}

/// What is shown of an entry is as much of its front as fits the width.
pub proof fn law_entries_are_cut(s: Seq<char>, max: int)
    requires
        0 <= max,
    ensures
        ({
            let n = chars_fit(s, 0, 0, max);
            &&& 0 <= n <= s.len()
            &&& width_of(s.take(n)) <= max
            &&& n < s.len() ==> width_of(s.take(n + 1)) > max
        }),
{
    lemma_fit(s, 0, 0, max);
    let n = chars_fit(s, 0, 0, max);
    assert(s.subrange(0, n) =~= s.take(n));
    if n < s.len() {
        assert(s.subrange(0, n + 1) =~= s.take(n + 1));
    }
}

/// An entry stands on a row of its own; the one that is selected stands out.
pub proof fn law_selected_entry_stands_out(out: Seq<char>, text: Seq<char>, max: int)
    ensures
        entry_drawn(out, text, true, max) == out + "\r"@ + "\x1b[K"@ + "\x1b[7m"@ + text.take(
            chars_fit(text, 0, 0, max),
        ) + "\x1b[0m"@ + "\x1b[K"@ + "\n"@,
        entry_drawn(out, text, false, max) == out + "\r"@ + "\x1b[K"@ + text.take(
            chars_fit(text, 0, 0, max),
        ) + "\x1b[K"@ + "\n"@,
{
}

/// The characters of a command that the search marks are yellow, those of the selected command and
/// all others plain.
pub proof fn law_marked_characters_are_yellow(out: Seq<char>, c: char)
    ensures
        char_drawn(out, c, true) == out + "\x1b[1;33m"@ + seq![c] + "\x1b[0m"@,
        char_drawn(out, c, false) == out + seq![c],
{
}

/// What is seen of a command is as much of its front as fits, whichever characters are marked.
pub proof fn law_commands_are_seen(
    out: Seq<char>,
    text: Seq<char>,
    m: MatchView,
    selected: bool,
    max: int,
)
    requires
        is_closed(out),
        is_bare(text),
        0 <= max,
    ensures
        seen(history_row(out, text, m, selected, max)) == seen(out) + seq!['\r'] + text.take(
            chars_fit(text, 0, 0, max),
        ) + seq!['\n'],
        is_closed(history_row(out, text, m, selected, max)),
{
    lemma_controls();
    lemma_returns();
    let a = out + "\r"@ + "\x1b[K"@;
    lemma_append_bare(out, "\r"@);
    lemma_append_hidden(out + "\r"@, "\x1b[K"@);
    let b = if selected {
        a + "\x1b[7m"@
    } else {
        a
    };
    if selected {
        lemma_append_hidden(a, "\x1b[7m"@);
    }
    lemma_matched(b, text, m, selected, max, 0, 0, 0);
    lemma_fit(text, 0, 0, max);
    let n = chars_fit(text, 0, 0, max);
    assert(text.subrange(0, n) =~= text.take(n));
    let c = matched_drawn(b, text, m, selected, max, 0, 0, 0);
    let d = if selected {
        c + "\x1b[0m"@
    } else {
        c
    };
    if selected {
        lemma_append_hidden(c, "\x1b[0m"@);
    }
    lemma_append_hidden(d, "\x1b[K"@);
    lemma_append_bare(d + "\x1b[K"@, "\n"@);
}

proof fn lemma_matched(
    out: Seq<char>,
    text: Seq<char>,
    m: MatchView,
    selected: bool,
    max: int,
    i: int,
    col: int,
    pi: int,
)
    requires
        is_closed(out),
        is_bare(text),
        0 <= i <= text.len(),
        0 <= col <= max,
    ensures
        is_closed(matched_drawn(out, text, m, selected, max, i, col, pi)),
        seen(matched_drawn(out, text, m, selected, max, i, col, pi)) == seen(out) + text.subrange(
            i,
            i + chars_fit(text, i, col, max),
        ),
    decreases text.len() - i,
{
    lemma_fit(text, i, col, max);
    if i < text.len() && col + spec_char_width(text[i]) <= max {
        let hit = pi < m.count && m.positions[pi] == i as u16;
        let next = char_drawn(out, text[i], hit && !selected);
        lemma_char(out, text, i, hit && !selected);
        let w = col + spec_char_width(text[i]);
        lemma_matched(
            next,
            text,
            m,
            selected,
            max,
            i + 1,
            w,
            if hit {
                pi + 1
            } else {
                pi
            },
        );
        let n = chars_fit(text, i + 1, w, max);
        lemma_fit(text, i + 1, w, max);
        assert(seen(out) + seq![text[i]] + text.subrange(i + 1, i + 1 + n) =~= seen(out)
            + text.subrange(i, i + 1 + n));
    } else {
        assert(seen(out) + text.subrange(i, i) =~= seen(out));
    }
}

proof fn lemma_char(out: Seq<char>, text: Seq<char>, i: int, marked: bool)
    requires
        is_closed(out),
        is_bare(text),
        0 <= i < text.len(),
    ensures
        is_closed(char_drawn(out, text[i], marked)),
        seen(char_drawn(out, text[i], marked)) == seen(out) + seq![text[i]],
{
    lemma_controls();
    lemma_colors();
    let c = seq![text[i]];
    assert(is_bare(c)) by {
        if c.contains('\x1b') {
            assert(text[i] == '\x1b');
        }
    }
    if marked {
        lemma_append_hidden(out, "\x1b[1;33m"@);
        lemma_append_bare(out + "\x1b[1;33m"@, c);
        lemma_append_hidden(out + "\x1b[1;33m"@ + c, "\x1b[0m"@);
    } else {
        lemma_append_bare(out, c);
    }
}

/// The matches are listed from the best one on, each with the command that it stands for.
pub proof fn law_matches_are_listed(
    out: Seq<char>,
    entries: Seq<HistoryEntryView>,
    matches: Seq<MatchView>,
    input: PagerInput,
    i: int,
)
    requires
        0 <= i < matches.len(),
        i < input.max_results(),
    ensures
        history_rows(out, entries, matches, input, i) == history_rows(
            history_row(
                out,
                entries[matches[i].idx].text,
                matches[i],
                i == input.selected,
                input.term_cols - 2,
            ),
            entries,
            matches,
            input,
            i + 1,
        ),
        history_rows(out, entries, matches, input, input.max_results()) == out,
        history_rows(out, entries, matches, input, matches.len() as int) == out,
{
}

/// What stands before the query of each search.
pub proof fn law_labels(query: Seq<char>)
    ensures
        picker_label(true, true, query) == "find \x1b[33m(hidden)\x1b[0;1m: "@,
        picker_label(false, true, Seq::empty()) == "find \x1b[2m(ctrl+f toggle hidden)\x1b[0;1m: "@,
        query.len() > 0 ==> picker_label(false, true, query) == "find: "@,
        picker_label(false, false, query) == "find: "@,
        picker_prefix(true, true, query) == "find (hidden): "@,
        query.len() > 0 ==> picker_prefix(false, true, query) == "find: "@,
        picker_prefix(false, true, Seq::empty()) == "find (ctrl+f toggle hidden): "@,
        picker_failed(false, query, 0) == (query.len() > 0),
        !picker_failed(true, query, 0),
        !picker_failed(false, query, 1),
{
}

// -- The grid --

/// At most ten rows of candidates are shown, and the row of the selected one is among them.
pub proof fn law_selected_row_is_shown(state: CompletionState)
    requires
        state.comp.entries@.len() > 0,
        state.rows > 0,
        state.selected < state.comp.entries@.len(),
    ensures
        ({
            let row = state.selected as int % state.rows as int;
            &&& scroll_start(state) <= row < scroll_start(state) + visible_rows(state)
            &&& 0 < visible_rows(state) <= 10
            &&& visible_rows(state) <= state.rows
            &&& state.rows <= 10 ==> visible_rows(state) == state.rows
        }),
{
    vstd::arithmetic::div_mod::lemma_mod_bound(state.selected as int, state.rows as int);
}

proof fn lemma_widest(v: Seq<CompEntry>, from: int, to: int, i: int)
    requires
        0 <= from <= i < to <= v.len(),
    ensures
        v[i].spec_display_width() <= widest(v, from, to),
    decreases to - from,
{
    if i < to - 1 {
        lemma_widest(v, from, to - 1, i);
    }
}

/// The cells of a column are as wide as its widest entry, with two blanks between them and the
/// next column.
pub proof fn law_columns_are_straight(state: CompletionState, col: int, row: int)
    requires
        0 <= col,
        0 <= row < state.rows,
        col * state.rows + row < state.comp.entries@.len(),
    ensures
        ({
            let idx = col * state.rows + row;
            let w = state.comp.entries@[idx].spec_display_width();
            let next = col + 1 < state.cols && (col + 1) * state.rows + row
                < state.comp.entries@.len();
            &&& w <= col_width(state, col)
            &&& next ==> w + cell_pad(state, idx, col, row) == col_width(state, col) + 2
            &&& !next ==> w + cell_pad(state, idx, col, row) == col_width(state, col)
        }),
{
    let n = state.comp.entries@.len() as int;
    let rows = state.rows as int;
    assert((col + 1) * rows == col * rows + rows) by (nonlinear_arith);
    assert(0 <= col * rows) by (nonlinear_arith)
        requires
            0 <= col,
            0 <= rows,
    ;
    let from = crate::line::smaller(col * rows, n);
    let to = crate::line::smaller((col + 1) * rows, n);
    lemma_widest(state.comp.entries@, from, to, col * rows + row);
}

/// Hosts are magenta, links cyan, directories blue, programs green, and other files plain.
pub proof fn law_colors_of_candidates(e: EntryView)
    ensures
        e.is_host ==> entry_color(e) == "\x1b[35m"@,
        !e.is_host && e.is_link ==> entry_color(e) == "\x1b[36m"@,
        !e.is_host && !e.is_link && e.is_dir ==> entry_color(e) == "\x1b[34m"@,
        !e.is_host && !e.is_link && !e.is_dir && e.is_exec ==> entry_color(e) == "\x1b[32m"@,
        !e.is_host && !e.is_link && !e.is_dir && !e.is_exec ==> entry_color(e).len() == 0,
        e.is_dir ==> display_name(e) == e.name + "/"@,
        !e.is_dir && e.is_host ==> display_name(e) == e.name + ":"@,
        !e.is_dir && !e.is_host ==> display_name(e) == e.name,
{
}

/// What is seen of a candidate is its name, filled with blanks; the selected one stands out.
pub proof fn law_candidate_is_seen(out: Seq<char>, state: CompletionState, idx: int, col: int, row: int)
    requires
        is_closed(out),
        is_bare(display_name(state.comp@[idx])),
    ensures
        seen(cell_drawn(out, state, idx, col, row)) == seen(out) + display_name(state.comp@[idx])
            + spaces(cell_pad(state, idx, col, row)),
        is_closed(cell_drawn(out, state, idx, col, row)),
        idx == state.selected ==> (out + "\x1b[7m"@).is_prefix_of(
            cell_drawn(out, state, idx, col, row),
        ),
        idx != state.selected ==> (out + entry_color(state.comp@[idx]) + display_name(
            state.comp@[idx],
        )).is_prefix_of(cell_drawn(out, state, idx, col, row)),
{
    lemma_controls();
    lemma_colors();
    let e = state.comp@[idx];
    let sel = idx == state.selected;
    let name = display_name(e);
    let color = entry_color(e);
    assert(is_closed(color) && seen(color).len() == 0) by {
        lemma_bare(Seq::empty());
    }
    let a = if sel {
        out + "\x1b[7m"@
    } else {
        out
    };
    if sel {
        lemma_append_hidden(out, "\x1b[7m"@);
    }
    lemma_append_hidden(a, color);
    lemma_append_bare(a + color, name);
    let b = a + color + name;
    let colors = crate::render::is_colored(e);
    let c = if colors {
        b + "\x1b[0m"@
    } else {
        b
    };
    if colors {
        lemma_append_hidden(b, "\x1b[0m"@);
    }
    let d = if sel {
        c + "\x1b[0m"@
    } else {
        c
    };
    if sel {
        lemma_append_hidden(c, "\x1b[0m"@);
    }
    let p = spaces(cell_pad(state, idx, col, row));
    assert(is_bare(p)) by {
        if p.contains('\x1b') {
            let i = choose|i: int| 0 <= i < p.len() && p[i] == '\x1b';
            assert(p[i] == ' ');
        }
    }
    lemma_append_bare(d, p);
    assert(seen(out) + name + p =~= seen(out) + name + p);
}

// -- Modes --

proof fn lemma_prefix(a: Seq<char>, b: Seq<char>, c: Seq<char>)
    requires
        a.is_prefix_of(b),
        b.is_prefix_of(c),
    ensures
        a.is_prefix_of(c),
{
    assert(c.subrange(0, a.len() as int) =~= a) by {
        assert(b =~= c.subrange(0, b.len() as int));
        assert(a =~= b.subrange(0, a.len() as int));
    }
}

proof fn lemma_extends(a: Seq<char>, b: Seq<char>)
    ensures
        a.is_prefix_of(a + b),
{
    assert((a + b).subrange(0, a.len() as int) =~= a);
}

proof fn lemma_matched_extends(
    out: Seq<char>,
    text: Seq<char>,
    m: MatchView,
    selected: bool,
    max: int,
    i: int,
    col: int,
    pi: int,
)
    requires
        0 <= i <= text.len(),
    ensures
        out.is_prefix_of(matched_drawn(out, text, m, selected, max, i, col, pi)),
    decreases text.len() - i,
{
    if i < text.len() && col + spec_char_width(text[i]) <= max {
        let hit = pi < m.count && m.positions[pi] == i as u16;
        let next = char_drawn(out, text[i], hit && !selected);
        let w = col + spec_char_width(text[i]);
        let pj = if hit {
            pi + 1
        } else {
            pi
        };
        assert(out.is_prefix_of(next)) by {
            assert(next.subrange(0, out.len() as int) =~= out);
        }
        lemma_matched_extends(next, text, m, selected, max, i + 1, w, pj);
        lemma_prefix(out, next, matched_drawn(next, text, m, selected, max, i + 1, w, pj));
    } else {
        lemma_extends(out, Seq::empty());
        assert(out + Seq::<char>::empty() =~= out);
    }
}

proof fn lemma_history_extends(
    out: Seq<char>,
    entries: Seq<HistoryEntryView>,
    matches: Seq<MatchView>,
    input: PagerInput,
    i: int,
)
    requires
        0 <= i,
    ensures
        out.is_prefix_of(history_rows(out, entries, matches, input, i)),
    decreases input.max_results() - i,
{
    if i >= input.max_results() || i >= matches.len() {
        lemma_extends(out, Seq::empty());
        assert(out + Seq::<char>::empty() =~= out);
    } else {
        let text = entries[matches[i].idx].text;
        let sel = i == input.selected;
        let max = input.term_cols - 2;
        let row = history_row(out, text, matches[i], sel, max);
        let a = out + "\r"@ + "\x1b[K"@;
        let b = if sel {
            a + "\x1b[7m"@
        } else {
            a
        };
        let c = matched_drawn(b, text, matches[i], sel, max, 0, 0, 0);
        lemma_matched_extends(b, text, matches[i], sel, max, 0, 0, 0);
        assert(out.is_prefix_of(b)) by {
            assert(b.subrange(0, out.len() as int) =~= out);
        }
        lemma_prefix(out, b, c);
        assert(c.is_prefix_of(row)) by {
            assert(row.subrange(0, c.len() as int) =~= c);
        }
        lemma_prefix(out, c, row);
        lemma_history_extends(row, entries, matches, input, i + 1);
        lemma_prefix(out, row, history_rows(row, entries, matches, input, i + 1));
    }
}

proof fn lemma_entry_extends(out: Seq<char>, text: Seq<char>, selected: bool, max: int)
    ensures
        out.is_prefix_of(entry_drawn(out, text, selected, max)),
{
    assert(entry_drawn(out, text, selected, max).subrange(0, out.len() as int) =~= out);
}

proof fn lemma_picker_extends(
    out: Seq<char>,
    all: Seq<(usize, String)>,
    filtered: Seq<usize>,
    input: PagerInput,
    i: int,
)
    ensures
        out.is_prefix_of(picker_rows(out, all, filtered, input, i)),
    decreases input.max_results() - i,
{
    let at = input.scroll() + i;
    if i >= input.max_results() || at >= filtered.len() {
        lemma_extends(out, Seq::empty());
        assert(out + Seq::<char>::empty() =~= out);
    } else {
        let text = all[filtered[at] as int].1@;
        let row = entry_drawn(out, text, at == input.selected, input.term_cols - 2);
        lemma_entry_extends(out, text, at == input.selected, input.term_cols - 2);
        lemma_picker_extends(row, all, filtered, input, i + 1);
        lemma_prefix(out, row, picker_rows(row, all, filtered, input, i + 1));
    }
}

proof fn lemma_dirs_extend(out: Seq<char>, entries: Seq<Seq<char>>, input: PagerInput, i: int)
    ensures
        out.is_prefix_of(dir_rows(out, entries, input, i)),
    decreases input.max_results() - i,
{
    let at = input.scroll() + i;
    if i >= input.max_results() || at >= entries.len() {
        lemma_extends(out, Seq::empty());
        assert(out + Seq::<char>::empty() =~= out);
    } else {
        let row = entry_drawn(out, entries[at], at == input.selected, input.term_cols - 2);
        lemma_entry_extends(out, entries[at], at == input.selected, input.term_cols - 2);
        lemma_dirs_extend(row, entries, input, i + 1);
        lemma_prefix(out, row, dir_rows(row, entries, input, i + 1));
    }
}

proof fn lemma_header_extends(out: Seq<char>, wrap: bool)
    ensures
        out.is_prefix_of(header_ended(out, wrap)),
{
    assert(header_ended(out, wrap).subrange(0, out.len() as int) =~= out);
}

proof fn lemma_pager_extends(out: Seq<char>, i: PagerInput)
    ensures
        out.is_prefix_of(pager_ended(out, i)),
{
    assert(pager_ended(out, i).subrange(0, out.len() as int) =~= out);
}

/// While the history is searched the query is shown behind its label.
pub proof fn law_search_shows_query(
    out: Seq<char>,
    query: Seq<char>,
    entries: Seq<HistoryEntryView>,
    matches: Seq<MatchView>,
    input: PagerInput,
    prev: RenderedRegion,
)
    ensures
        (prev.cleared(out + "\x1b[?25l"@) + "\x1b[1m"@ + "search: "@ + "\x1b[0m"@
            + query).is_prefix_of(history_drawn(out, query, entries, matches, input, prev)),
{
    let a = prev.cleared(out + "\x1b[?25l"@) + "\x1b[1m"@ + "search: "@ + "\x1b[0m"@ + query;
    let b = header_ended(a, input.forced_wrap());
    let c = history_rows(b, entries, matches, input, 0);
    lemma_header_extends(a, input.forced_wrap());
    lemma_history_extends(b, entries, matches, input, 0);
    lemma_pager_extends(c, input);
    lemma_prefix(a, b, c);
    lemma_prefix(a, c, pager_ended(c, input));
}

/// While a file is picked the query is shown behind its label.
pub proof fn law_picker_shows_query(
    out: Seq<char>,
    query: Seq<char>,
    all: Seq<(usize, String)>,
    filtered: Seq<usize>,
    input: PagerInput,
    typing: bool,
    hidden: bool,
    prev: RenderedRegion,
)
    ensures
        (prev.cleared(out + "\x1b[?25l"@) + "\x1b[1m"@ + picker_label(hidden, typing, query)
            + "\x1b[0m"@ + query).is_prefix_of(
            picker_drawn(out, query, all, filtered, input, typing, hidden, prev),
        ),
{
    let a = prev.cleared(out + "\x1b[?25l"@) + "\x1b[1m"@ + picker_label(hidden, typing, query)
        + "\x1b[0m"@ + query;
    let b = if picker_failed(typing, query, filtered.len()) {
        a + "  \x1b[2m(no matches)\x1b[0m"@
    } else {
        a
    };
    let c = header_ended(b, input.forced_wrap());
    let d = picker_rows(c, all, filtered, input, 0);
    assert(a.is_prefix_of(b)) by {
        assert(b.subrange(0, a.len() as int) =~= a);
    }
    lemma_header_extends(b, input.forced_wrap());
    lemma_picker_extends(c, all, filtered, input, 0);
    lemma_pager_extends(d, input);
    lemma_prefix(a, b, c);
    lemma_prefix(a, c, d);
    lemma_prefix(a, d, pager_ended(d, input));
}

/// While a directory is picked the list stands below its label.
pub proof fn law_directories_are_shown(
    out: Seq<char>,
    entries: Seq<Seq<char>>,
    input: PagerInput,
    prev: RenderedRegion,
)
    ensures
        (prev.cleared(out + "\x1b[?25l"@) + "\x1b[1m"@ + "cd: "@ + "\x1b[0m"@).is_prefix_of(
            dirs_drawn(out, entries, input, prev),
        ),
{
    let a = prev.cleared(out + "\x1b[?25l"@) + "\x1b[1m"@ + "cd: "@ + "\x1b[0m"@;
    let b = header_ended(a, input.forced_wrap());
    let c = dir_rows(b, entries, input, 0);
    lemma_header_extends(a, input.forced_wrap());
    lemma_dirs_extend(b, entries, input, 0);
    lemma_pager_extends(c, input);
    lemma_prefix(a, b, c);
    lemma_prefix(a, c, pager_ended(c, input));
}

/// The files that are listed are those that were found, from the first that is shown on.
pub proof fn law_files_are_listed(
    out: Seq<char>,
    all: Seq<(usize, String)>,
    filtered: Seq<usize>,
    entries: Seq<Seq<char>>,
    input: PagerInput,
    i: int,
)
    requires
        0 <= i < input.max_results(),
        input.scroll() + i < filtered.len(),
        input.scroll() + i < entries.len(),
    ensures
        ({
            let at = input.scroll() + i;
            let sel = at == input.selected;
            let max = input.term_cols - 2;
            &&& picker_rows(out, all, filtered, input, i) == picker_rows(
                entry_drawn(out, all[filtered[at] as int].1@, sel, max),
                all,
                filtered,
                input,
                i + 1,
            )
            &&& dir_rows(out, entries, input, i) == dir_rows(
                entry_drawn(out, entries[at], sel, max),
                entries,
                input,
                i + 1,
            )
            &&& picker_rows(out, all, filtered, input, input.max_results()) == out
            &&& dir_rows(out, entries, input, input.max_results()) == out
        }),
{
}

/// Each mode shows what it holds: the line with its suggestion, the line with the candidates below
/// it, the search, the files or the directories.
pub proof fn law_mode_is_shown(
    out: Seq<char>,
    e: EditorView,
    screen: Screen,
    h: HistoryView,
    al: Seq<AliasView>,
    in_path: bool,
    prev: RenderedRegion,
)
    ensures
        ({
            let top = prev.cleared(out + "\x1b[?25l"@);
            let r = mode_shown(out, e, screen, h, al, in_path, prev).0;
            &&& e.mode matches ModeView::Search(s) ==> (top + "\x1b[1m"@ + "search: "@ + "\x1b[0m"@
                + s.query.text()).is_prefix_of(r)
            &&& e.mode matches ModeView::Files(f) ==> (top + "\x1b[1m"@ + picker_label(
                f.hidden,
                byte_len(f.query.text()) < 3,
                f.query.text(),
            ) + "\x1b[0m"@ + f.query.text()).is_prefix_of(r)
            &&& e.mode is Dirs ==> (top + "\x1b[1m"@ + "cd: "@ + "\x1b[0m"@).is_prefix_of(r)
        }),
{
    match e.mode {
        ModeView::Search(s) => {
            let input = history_input(
                s.query.text(),
                s.matches.len(),
                s.selected,
                screen.rows,
                screen.cols,
                query_column(s.query),
            );
            law_search_shows_query(out, s.query.text(), h.entries, s.matches, input, prev);
        },
        ModeView::Files(f) => {
            let query = f.query.text();
            let typing = byte_len(query) < 3;
            let input = picker_input(
                query,
                f.filtered.len(),
                f.selected,
                screen.rows,
                screen.cols,
                query_column(f.query),
                typing,
                f.hidden,
            );
            law_picker_shows_query(out, query, f.all, f.filtered, input, typing, f.hidden, prev);
        },
        ModeView::Dirs { entries, selected } => {
            let input = dir_input(entries.len(), selected, screen.rows, screen.cols);
            law_directories_are_shown(out, entries, input, prev);
        },
        _ => {},
    }
}

/// What is seen at the prompt is the prompt, the line, and the rest of the entry that is suggested.
pub proof fn law_prompt_is_seen(
    out: Seq<char>,
    e: EditorView,
    screen: Screen,
    h: HistoryView,
    al: Seq<AliasView>,
    in_path: bool,
    prev: RenderedRegion,
)
    requires
        is_closed(out),
        e.mode is Normal,
        is_bare(screen.prompt@),
        is_bare(e.prompt.line.text()),
        is_bare(suggested_rest(e.prompt.line, h)),
        !e.prompt.line.text().contains('\n'),
    ensures
        ({
            let shown = seen(out) + seq!['\r'] + screen.prompt@ + e.prompt.line.text()
                + suggested_rest(e.prompt.line, h);
            let drawn = seen(mode_shown(out, e, screen, h, al, in_path, prev).0);
            drawn == shown + seq!['\r'] || drawn == shown + seq![' ', '\r', '\r']
        }),
{
    law_line_is_seen(
        out,
        screen.prompt@,
        screen.prompt_width as int,
        e.prompt.line,
        screen.cols as int,
        prev,
        word_color(e.prompt.line, al, in_path),
        suggested_rest(e.prompt.line, h),
    );
}

/// The cursor of a search stands in its query.
pub proof fn law_cursor_of_query(i: PagerInput)
    requires
        i.term_cols > 0,
        (i.prefix_width + i.query_cursor) / i.term_cols as int <= u16::MAX,
        i.header_rows() + i.displayed() <= u16::MAX,
    ensures
        i.region().cursor_row * i.term_cols + i.region().cursor_col == i.prefix_width
            + i.query_cursor,
        i.region().cursor_col < i.term_cols,
        i.region().painted_rows == i.header_rows() + i.displayed(),
{
    let b = i.prefix_width + i.query_cursor;
    let cols = i.term_cols as int;
    vstd::arithmetic::div_mod::lemma_fundamental_div_mod(b, cols);
    vstd::arithmetic::div_mod::lemma_mod_bound(b, cols);
    assert(cols * (b / cols) == (b / cols) * cols) by (nonlinear_arith);
    assert(0 <= b / cols) by (nonlinear_arith)
        requires
            b >= 0,
            cols > 0,
    ;
}

/// The columns before the cursor of a query of ASCII characters are as many as the characters.
pub proof fn law_query_column(q: LineState)
    requires
        vstd::utf8::is_ascii_chars(q.text()),
        width_of(q.text()) >= q.before.len(),
    ensures
        query_column(q) == q.before.len(),
{
}

/// When the candidates are looked for anew the selection stays where it is, as far as there are so
/// many; where there is none the line comes back as it was typed.
pub proof fn law_candidates_again(
    p: PromptView,
    selected: usize,
    state: CompletionState,
    base: LineState,
)
    ensures
        ({
            let n = state.comp@.len();
            let r = candidates_refiltered(p, selected, state, base);
            &&& n == 0 ==> r.mode is Normal && r.prompt.line == base
            &&& n > 0 ==> (r.mode matches ModeView::Completion { state: s, base: b } && b == base
                && s.comp == state.comp && (selected < n ==> s.selected == selected) && (selected
                == usize::MAX ==> s.selected == usize::MAX) && (n <= selected < usize::MAX && n
                <= usize::MAX ==> s.selected == n - 1))
        }),
{
}

/// The grid drawn below the line starts with the line.
pub proof fn law_grid_is_below_line(
    out: Seq<char>,
    state: CompletionState,
    info: RenderedRegion,
    initial: bool,
)
    requires
        visible_rows(state) > 0,
        info.cursor_row < info.painted_rows,
    ensures
        ({
            let rows = visible_rows(state);
            let below = info.painted_rows - 1 - info.cursor_row;
            let made = out + "\x1b[?25l"@ + movement(below as nat, 'B') + newlines(rows) + movement(
                (below + rows) as nat,
                'A',
            ) + "\r"@ + movement(info.cursor_col as nat, 'C');
            let start = if initial {
                made
            } else {
                out + "\x1b[?25l"@
            };
            completions_drawn(out, state, info, initial) == grid_drawn(
                start + "\x1b7"@ + movement((below + 1) as nat, 'B'),
                state,
                0,
            ) + "\x1b8"@ + "\x1b[?25h"@
        }),
        newlines(visible_rows(state)).len() == visible_rows(state),
{
}

/// The rows of the grid hold the candidates column by column.
pub proof fn law_rows_of_grid(out: Seq<char>, state: CompletionState, row: int, col: int, vr: int)
    requires
        0 <= col < state.cols,
        col * state.rows + row < state.comp.entries@.len(),
        0 <= vr < visible_rows(state),
    ensures
        row_drawn(out, state, row, col) == row_drawn(
            cell_drawn(out, state, col * state.rows + row, col, row),
            state,
            row,
            col + 1,
        ),
        row_drawn(out, state, row, state.cols as int) == out,
        vr + 1 == visible_rows(state) ==> grid_drawn(out, state, vr) == row_drawn(
            out + "\r"@ + "\x1b[K"@,
            state,
            scroll_start(state) + vr,
            0,
        ),
        vr + 1 < visible_rows(state) ==> grid_drawn(out, state, vr) == grid_drawn(
            row_drawn(out + "\r"@ + "\x1b[K"@, state, scroll_start(state) + vr, 0) + "\n"@,
            state,
            vr + 1,
        ),
{
    reveal_with_fuel(grid_drawn, 2);
}

// -- Widths --

/// How many columns a character takes: none for control and combining characters, two for
/// ideographs, kana, Hangul, full-width forms and pictures, one for ASCII, Latin, Greek and Cyrillic
/// letters.
pub proof fn law_character_widths(c: char)
    ensures
        ({
            let n = c as u32;
            &&& 0x20 <= n < 0x7F ==> spec_char_width(c) == 1
            &&& n < 0x20 || n == 0x7F ==> spec_char_width(c) == 0
            &&& 0x300 <= n <= 0x36F ==> spec_char_width(c) == 0
            &&& n == 0x200B || n == 0x200D || n == 0xFEFF ==> spec_char_width(c) == 0
            &&& 0xA1 <= n < 0x300 && n != 0xAD ==> spec_char_width(c) == 1
            &&& 0x370 <= n < 0x1100 ==> spec_char_width(c) == 1
            &&& 0x1100 <= n <= 0x115F ==> spec_char_width(c) == 2
            &&& 0x2E80 <= n <= 0x303E ==> spec_char_width(c) == 2
            &&& 0x3040 <= n <= 0x33BF ==> spec_char_width(c) == 2
            &&& 0x3400 <= n <= 0x4DBF ==> spec_char_width(c) == 2
            &&& 0x4E00 <= n <= 0xA4CF ==> spec_char_width(c) == 2
            &&& 0xAC00 <= n <= 0xD7A3 ==> spec_char_width(c) == 2
            &&& 0xF900 <= n <= 0xFAFF ==> spec_char_width(c) == 2
            &&& 0xFF01 <= n <= 0xFF60 ==> spec_char_width(c) == 2
            &&& 0xFF61 <= n <= 0xFFDC ==> spec_char_width(c) == 1
            &&& 0x1F300 <= n <= 0x1F9FF ==> spec_char_width(c) == 2
            &&& 0x20000 <= n <= 0x2FA1F ==> spec_char_width(c) == 2
        }),
{
}

/// The width of a text is that of its characters together.
pub proof fn law_widths_add_up(a: Seq<char>, c: char, b: Seq<char>)
    ensures
        width_of(a + b) == width_of(a) + width_of(b),
        width_of(a.push(c)) == width_of(a) + spec_char_width(c),
        width_of(Seq::empty()) == 0,
{
    lemma_width_concat(a, b);
    assert(a.push(c).drop_last() =~= a);
}

/// The cursor in the second line of a command stands below the rows of the first, behind the two
/// blanks and the text before it.
pub proof fn law_cursor_of_second_line(
    width: int,
    first: Seq<char>,
    x: Seq<char>,
    y: Seq<char>,
    kill: Seq<char>,
    cols: int,
)
    requires
        width >= 0,
        cols > 0,
        !first.contains('\n'),
        !x.contains('\n'),
        !y.contains('\n'),
    ensures
        ({
            let line = LineState { before: first + seq!['\n'] + x, after: y, kill };
            let g = line_layout(width, line, Seq::empty(), cols);
            let top = width + width_of(first);
            let rows: int = if top > 0 {
                (top - 1) / cols + 1
            } else {
                1
            };
            let w = 2 + width_of(x);
            &&& g.cursor_row == rows + w as int / cols
            &&& g.cursor_col == w as int % cols
        }),
{
    let line = LineState { before: first + seq!['\n'] + x, after: y, kill };
    let t = line.text();
    let n = first.len() as int;
    let at = line.before.len() as int;
    assert(t =~= first + seq!['\n'] + (x + y));
    assert(t[n] == '\n');
    lemma_index_from(t, '\n', 0);
    let k = index_from(t, '\n', 0);
    assert(k == n) by {
        if k < n {
            assert(t[k] == first[k]);
            assert(first.contains(first[k]));
        }
    }
    lemma_index_from(t, '\n', n + 1);
    let m = index_from(t, '\n', n + 1);
    assert(m == t.len()) by {
        if m < t.len() {
            let j = m - n - 1;
            if j < x.len() {
                assert(t[m] == x[j]);
                assert(x.contains(x[j]));
            } else {
                assert(t[m] == y[j - x.len()]);
                assert(y.contains(y[j - x.len()]));
            }
        }
    }
    assert(t.subrange(0, n) =~= first);
    assert(t.subrange(n + 1, at) =~= x);
    assert(t.contains('\n'));
    reveal_with_fuel(crate::render::lines_layout, 3);
}

} // verus!
