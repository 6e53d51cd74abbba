use ish::complete::{CompletionState, Completions};
use ish::history::History;
use ish::line::{str_width, LineBuffer};
use ish::render::{
    draw_grid, layout_completion_grid, render_completions, render_dir_picker, render_file_picker,
    render_history_pager, render_line, RenderOpts, RenderedRegion,
};
use ish::term::TermWriter;

fn make_line(s: &str) -> LineBuffer {
    let mut lb = LineBuffer::new();
    for c in s.chars() {
        lb.insert_char(c);
    }
    lb
}

fn render_simple(prompt: &str, text: &str, cols: u16) -> (RenderedRegion, Vec<u8>) {
    render_with_suggestion(prompt, text, "", cols)
}

fn render_with_suggestion(
    prompt: &str,
    text: &str,
    suggestion: &str,
    cols: u16,
) -> (RenderedRegion, Vec<u8>) {
    let mut tw = TermWriter::new();
    let line = make_line(text);
    let pdl = str_width(prompt);
    let opts = RenderOpts { suggestion, ..Default::default() };
    let info =
        render_line(&mut tw, prompt, pdl, &line, cols, RenderedRegion::default(), &opts);
    let buf = tw.as_bytes().to_vec();
    (info, buf)
}

fn render_history_query(query: &str, cols: u16, query_cursor: usize) -> (RenderedRegion, Vec<u8>) {
    let mut tw = TermWriter::new();
    let hist = History::new(1);
    let info = render_history_pager(
        &mut tw,
        query,
        &Vec::new(),
        &hist,
        0,
        24,
        cols,
        query_cursor,
        RenderedRegion::default(),
    );
    (info, tw.as_bytes().to_vec())
}

fn render_file_query(
    query: &str,
    cols: u16,
    query_cursor: usize,
    query_phase: bool,
    hidden: bool,
) -> (RenderedRegion, Vec<u8>) {
    let mut tw = TermWriter::new();
    let info = render_file_picker(
        &mut tw,
        query,
        &Vec::new(),
        &Vec::new(),
        0,
        24,
        cols,
        query_cursor,
        query_phase,
        hidden,
        RenderedRegion::default(),
    );
    (info, tw.as_bytes().to_vec())
}

fn completion_state(entries: &[&str], cols: usize, rows: usize) -> CompletionState {
    let mut comp = Completions::new();
    for entry in entries {
        comp.push(entry, false, false, false);
    }
    CompletionState {
        comp,
        selected: usize::MAX,
        cols,
        rows,
        scroll: 0,
        dir_prefix: String::new(),
        in_quote: false,
    }
}

// When total display width is NOT a multiple of cols, no force-wrap needed.
#[test]
fn prompt_info_no_wrap() {
    // "$ " (2) + "hi" (2) = 4 in 10-col terminal → row 0
    let (info, buf) = render_simple("$ ", "hi", 10);
    assert_eq!(info.painted_rows, 1);
    assert_eq!(info.cursor_row, 0);
    assert_eq!(info.cursor_col, 4);
    assert!(
        !buf.windows(2).any(|w| w == b" \r"),
        "should not force-wrap"
    );
}

// When total display width wraps but doesn't land on exact boundary.
#[test]
fn prompt_info_partial_wrap() {
    // "$ " (2) + 9 chars = 11 in 10-col terminal → rows 0-1
    let (info, _) = render_simple("$ ", "123456789", 10);
    assert_eq!(info.painted_rows, 2);
    assert_eq!(info.cursor_row, 1);
    assert_eq!(info.cursor_col, 1);
}

// Exact multiple of cols → force-wrap triggers, painted_rows accounts for it.
#[test]
fn prompt_info_exact_boundary() {
    // "$ " (2) + "12345678" (8) = 10 in 10-col terminal → fills row 0 exactly
    let (info, buf) = render_simple("$ ", "12345678", 10);
    // Force-wrap adds an extra row for the cursor
    assert_eq!(info.painted_rows, 2);
    assert_eq!(info.cursor_row, 1);
    assert_eq!(info.cursor_col, 0);
    assert!(buf.windows(2).any(|w| w == b" \r"), "should force-wrap");
}

// Exact multiple with suggestion — cursor in the middle, not at pending-wrap.
#[test]
fn prompt_info_exact_boundary_with_suggestion() {
    // "$ " (2) + "ab" (2) = 4 before cursor; + suggestion "123456" (6) → 10 total
    let (info, buf) = render_with_suggestion("$ ", "ab", "123456", 10);
    assert_eq!(info.painted_rows, 2);
    // Cursor at position 4 → row 0, col 4
    assert_eq!(info.cursor_row, 0);
    assert_eq!(info.cursor_col, 4);
    assert!(buf.windows(2).any(|w| w == b" \r"), "should force-wrap");
}

// Two full rows (2 * cols) — force-wrap triggers.
#[test]
fn prompt_info_two_full_rows() {
    // "$ " (2) + 18 chars = 20, cols = 10 → 2 full rows
    let (info, buf) = render_simple("$ ", "abcdefghijklmnopqr", 10);
    assert_eq!(info.painted_rows, 3); // 2 content rows + 1 cursor row from force-wrap
    assert_eq!(info.cursor_row, 2);
    assert_eq!(info.cursor_col, 0);
    assert!(buf.windows(2).any(|w| w == b" \r"), "should force-wrap");
}

// Multiline buffer with last segment filling exact boundary.
#[test]
fn multiline_exact_boundary() {
    // First segment: "$ " (2) + "ab" (2) = 4, then newline
    // Second segment: "  " (2) + "12345678" (8) = 10 fills cols exactly
    let mut tw = TermWriter::new();
    let line = make_line("ab\n12345678");
    let info = render_line(
        &mut tw,
        "$ ",
        2,
        &line,
        10,
        RenderedRegion::default(),
        &RenderOpts::default(),
    );
    let buf = tw.as_bytes();
    // Row 0: "$ ab" (4 cols), row 1: "  12345678" (10 cols, exact boundary)
    // Force-wrap adds row 2 for the cursor
    assert_eq!(info.painted_rows, 3);
    assert!(buf.windows(2).any(|w| w == b" \r"), "should force-wrap");
}

// Multiline buffer where last segment does NOT hit exact boundary → no force-wrap.
#[test]
fn multiline_no_force_wrap() {
    let mut tw = TermWriter::new();
    let line = make_line("ab\n1234567");
    let info = render_line(
        &mut tw,
        "$ ",
        2,
        &line,
        10,
        RenderedRegion::default(),
        &RenderOpts::default(),
    );
    let buf = tw.as_bytes();
    // Row 0: "$ ab" (4), row 1: "  1234567" (9) — no exact boundary
    assert_eq!(info.painted_rows, 2);
    assert!(
        !buf.windows(2).any(|w| w == b" \r"),
        "should not force-wrap"
    );
}

#[test]
fn history_pager_tracks_wrapped_query_cursor_row() {
    let (info, _) = render_history_query("abc", 10, 3);
    assert_eq!(info.cursor_row, 1);
    assert_eq!(info.cursor_col, 1);
}

#[test]
fn history_pager_clears_from_top_on_wrapped_rerender() {
    let mut tw = TermWriter::new();
    let hist = History::new(1);
    let info = render_history_pager(
        &mut tw,
        "abc",
        &Vec::new(),
        &hist,
        0,
        24,
        10,
        3,
        RenderedRegion { painted_rows: 2, cursor_row: 1, cursor_col: 0 },
    );
    let buf = tw.as_bytes();
    assert_eq!(info.cursor_row, 1);
    assert!(
        buf.windows(4).any(|w| w == b"\x1b[1A"),
        "expected rerender to move back to the top first"
    );
}

#[test]
fn file_picker_tracks_wrapped_query_cursor_row() {
    let (info, _) = render_file_query("abcdef", 10, 6, false, false);
    assert_eq!(info.cursor_row, 1);
    assert_eq!(info.cursor_col, 2);
}

#[test]
fn file_picker_uses_visible_prefix_widths() {
    let (info, _) = render_file_query("", 80, 0, true, true);
    assert_eq!(info.cursor_row, 0);
    assert_eq!(info.cursor_col, 15);
}

#[test]
fn completion_grid_does_not_pad_last_column() {
    let state = completion_state(&["12345678"], 1, 1);
    let mut tw = TermWriter::new();
    let layout = layout_completion_grid(&state);
    draw_grid(&mut tw, &state, &layout);
    assert!(
        tw.as_bytes().ends_with(b"12345678"),
        "last column should not add trailing padding"
    );
}

#[test]
fn grid_is_drawn_by_columns() {
    let state = completion_state(&["a", "b", "c"], 2, 2);
    let mut tw = TermWriter::new();
    render_completions(&mut tw, &state, RenderedRegion::default(), true);
    let text = String::from_utf8(tw.as_bytes().to_vec()).unwrap();
    let a = text.find('a').unwrap();
    let c = text.rfind('c').unwrap();
    let b = text.rfind('b').unwrap();
    assert!(a < c && c < b, "{text:?}");
}

#[test]
fn picker_shows_what_is_filtered() {
    let mut tw = TermWriter::new();
    let all = vec![(1, "one.rs".to_string()), (1, "two.rs".to_string())];
    render_file_picker(
        &mut tw,
        "tw",
        &all,
        &vec![1],
        0,
        24,
        80,
        2,
        false,
        false,
        RenderedRegion::default(),
    );
    let text = String::from_utf8(tw.as_bytes().to_vec()).unwrap();
    assert!(text.contains("two.rs") && !text.contains("one.rs"), "{text:?}");
}

#[test]
fn directories_are_shown_for_picking() {
    let mut tw = TermWriter::new();
    let info = render_dir_picker(
        &mut tw,
        &vec!["/a".to_string(), "/b".to_string()],
        1,
        24,
        80,
        RenderedRegion::default(),
    );
    let text = String::from_utf8(tw.as_bytes().to_vec()).unwrap();
    assert!(text.contains("/a") && text.contains("/b"), "{text:?}");
    assert!(info.painted_rows >= 3);
}
