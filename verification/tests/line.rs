use ish::line::{char_width, str_width, LineBuffer};

#[test]
fn char_widths() {
    // ASCII
    assert_eq!(char_width('a'), 1);
    assert_eq!(char_width(' '), 1);
    // Control
    assert_eq!(char_width('\0'), 0);
    assert_eq!(char_width('\x1b'), 0);
    // Fullwidth
    assert_eq!(char_width('｜'), 2); // U+FF5C fullwidth vertical bar
    assert_eq!(char_width('Ａ'), 2); // U+FF21 fullwidth A
    // CJK
    assert_eq!(char_width('漢'), 2);
    assert_eq!(char_width('ア'), 2); // katakana
    // Regular non-ASCII (Latin extended, etc.)
    assert_eq!(char_width('é'), 1);
    assert_eq!(char_width('ñ'), 1);
    // Combining marks
    assert_eq!(char_width('\u{0301}'), 0); // combining acute accent
}

#[test]
fn str_widths() {
    assert_eq!(str_width("hello"), 5);
    assert_eq!(str_width("a｜b"), 4); // 1 + 2 + 1
    assert_eq!(str_width("漢字"), 4);
    assert_eq!(str_width("café"), 4); // all width-1
}

#[test]
fn display_with_fullwidth() {
    let mut lb = LineBuffer::new();
    lb.set("a｜b"); // 'a'(1) + '｜'(2) + 'b'(1) = 4 columns
    assert_eq!(lb.display_len(), 4);
    assert_eq!(lb.display_cursor_pos(), 4); // cursor at end
    lb.move_left(); // before 'b'
    assert_eq!(lb.display_cursor_pos(), 3); // 1 + 2 = 3
    lb.move_left(); // before '｜'
    assert_eq!(lb.display_cursor_pos(), 1); // just 'a' = 1
}

#[test]
fn insert_and_cursor() {
    let mut lb = LineBuffer::new();
    lb.insert_char('h');
    lb.insert_char('i');
    assert_eq!(lb.text(), "hi");
    assert_eq!(lb.cursor(), 2);
    assert_eq!(lb.display_cursor_pos(), 2);
}

#[test]
fn set_with_cursor_position() {
    let mut lb = LineBuffer::new();
    lb.set_with_cursor("hello world", 5);
    assert_eq!(lb.text(), "hello world");
    assert_eq!(lb.cursor(), 5);
    // Clamp to end
    lb.set_with_cursor("hi", 100);
    assert_eq!(lb.cursor(), 2);
    // Position 0
    lb.set_with_cursor("test", 0);
    assert_eq!(lb.cursor(), 0);
}

#[test]
fn delete_back() {
    let mut lb = LineBuffer::new();
    lb.insert_str("hello");
    assert!(lb.delete_back());
    assert_eq!(lb.text(), "hell");
}

#[test]
fn move_word() {
    let mut lb = LineBuffer::new();
    lb.set("hello world");
    lb.move_word_left();
    assert_eq!(lb.display_cursor_pos(), 6);
    lb.move_word_left();
    assert_eq!(lb.display_cursor_pos(), 0);
    lb.move_word_right();
    assert_eq!(lb.display_cursor_pos(), 6);
}

#[test]
fn kill_word_back() {
    let mut lb = LineBuffer::new();
    lb.set("hello world");
    lb.kill_word_back();
    assert_eq!(lb.text(), "hello ");
}

#[test]
fn kill_to_start_and_yank() {
    let mut lb = LineBuffer::new();
    lb.set("hello world");
    lb.move_home();
    lb.move_word_right();
    // move_word_right skips non-ws then ws, cursor is at 'w' (pos 6)
    lb.kill_to_start();
    assert_eq!(lb.text(), "world");
    lb.move_end();
    lb.yank();
    assert_eq!(lb.text(), "worldhello ");
}

#[test]
fn kills_are_undone_by_yanking() {
    let mut lb = LineBuffer::new();
    lb.set("one two");
    lb.kill_word_back();
    assert_eq!(lb.text(), "one ");
    lb.yank();
    assert_eq!(lb.text(), "one two");
    lb.move_home();
    lb.kill_to_end();
    assert!(lb.is_empty());
    lb.yank();
    assert_eq!(lb.text(), "one two");
}

#[test]
fn deleting_undoes_inserting() {
    let mut lb = LineBuffer::new();
    lb.set_with_cursor("añb", 1);
    lb.insert_char('漢');
    assert_eq!(lb.text(), "a漢ñb");
    assert!(lb.delete_back());
    assert_eq!(lb.text(), "añb");
    assert_eq!(lb.cursor(), 1);
    assert!(lb.delete_forward());
    assert_eq!(lb.text(), "ab");
}

#[test]
fn moves_stop_at_the_ends() {
    let mut lb = LineBuffer::new();
    lb.set("ab");
    assert!(!lb.move_right());
    assert!(lb.move_left());
    assert!(lb.move_right());
    lb.move_home();
    assert!(!lb.move_left());
    assert!(!lb.delete_back());
    lb.move_end();
    assert!(!lb.delete_forward());
}

#[test]
fn lines_are_moved_between() {
    let mut lb = LineBuffer::new();
    lb.set("ab\ncd");
    assert!(lb.has_newlines());
    assert!(lb.on_last_line() && !lb.on_first_line());
    assert!(lb.move_line_up());
    assert_eq!(lb.before_cursor(), "ab");
    assert_eq!(lb.after_cursor(), "\ncd");
    assert!(!lb.move_line_up());
    assert!(lb.move_line_down());
    assert_eq!(lb.before_cursor(), "ab\ncd");
}

#[test]
fn columns_count_characters() {
    let mut lb = LineBuffer::new();
    lb.set_with_cursor("é\nab", 4);
    assert_eq!(lb.before_cursor(), "é\na");
    assert!(lb.move_line_up());
    assert_eq!(lb.cursor(), 2);
    assert!(lb.move_line_down());
    assert_eq!(lb.cursor(), 4);
    lb.set_with_cursor("ab\né\nabc", 2);
    assert!(lb.move_line_down());
    assert_eq!(lb.before_cursor(), "ab\né");
}
