use ish::input::{modifier_from_param, InputEvent, InputReader, Key, KeyEvent, PASTE_LIMIT};

#[test]
fn modifier_parsing() {
    let m = modifier_from_param(5); // 1 + ctrl(4)
    assert!(m.ctrl);
    assert!(!m.alt);
    assert!(!m.shift);

    let m = modifier_from_param(3); // 1 + alt(2)
    assert!(!m.ctrl);
    assert!(m.alt);
    assert!(!m.shift);
}

#[test]
fn csi_delete_with_ctrl_modifier_maps_to_ctrl_delete() {
    let mut reader = InputReader::new();
    let key = reader.csi_to_key(b'~', &vec![3, 5]).expect("ctrl-delete");
    assert_eq!(key.key, Key::Delete);
    assert!(key.mods.ctrl);
    assert!(!key.mods.alt);
}

#[test]
fn csi_delete_with_caret_suffix_maps_to_ctrl_delete() {
    let mut reader = InputReader::new();
    let key = reader.csi_to_key(b'^', &vec![3]).expect("ctrl-delete");
    assert_eq!(key.key, Key::Delete);
    assert!(key.mods.ctrl);
    assert!(!key.mods.alt);
}

#[test]
fn paste_start_end_resets_state() {
    let mut reader = InputReader::new();

    assert!(!reader.in_paste());

    // CSI 200~ starts a paste and clears the accumulated buffer.
    assert!(reader.csi_to_key(b'~', &vec![200]).is_none());
    assert!(reader.in_paste());
    assert!(reader.paste_text().is_empty());
    assert!(!reader.paste_limit_hit());

    // CSI 201~ ends the paste.
    assert!(reader.csi_to_key(b'~', &vec![201]).is_none());
    assert!(!reader.in_paste());
    assert!(!reader.paste_limit_hit());
}

#[test]
fn paste_accumulation_stops_at_limit() {
    let mut reader = InputReader::new();

    // Start paste.
    reader.csi_to_key(b'~', &vec![200]);
    assert!(reader.in_paste());

    // Accumulate characters up to PASTE_LIMIT — flag stays clear.
    for c in "a".repeat(PASTE_LIMIT).chars() {
        reader.accumulate_paste_key(KeyEvent::char(c));
    }
    assert_eq!(reader.paste_text().len(), PASTE_LIMIT);
    assert!(!reader.paste_limit_hit());

    // One more character pushes us over.
    reader.accumulate_paste_key(KeyEvent::char('x'));
    assert!(reader.paste_text().is_empty());
    assert!(reader.paste_limit_hit());

    // End paste — flag stays set until consumed.
    reader.csi_to_key(b'~', &vec![201]);
    assert!(!reader.in_paste());
    assert!(reader.paste_limit_hit());
}

fn events(bytes: &[u8]) -> Vec<InputEvent> {
    let mut reader = InputReader::new();
    bytes.iter().filter_map(|&b| reader.feed(b)).collect()
}

fn keys(bytes: &[u8]) -> Vec<KeyEvent> {
    events(bytes)
        .into_iter()
        .map(|e| match e {
            InputEvent::Key(k) => k,
            _ => unreachable!(),
        })
        .collect()
}

#[test]
fn typed_characters_arrive() {
    let text = "aé漢😀";
    let got: Vec<Key> = keys(text.as_bytes()).iter().map(|k| k.key).collect();
    let want: Vec<Key> = text.chars().map(Key::Char).collect();
    assert_eq!(got, want);
}

#[test]
fn escape_sequences_are_decoded() {
    let k = keys(b"\x1b[A\x1b[1;5C\x1bf\x01\x7f\r\t");
    assert_eq!(k[0].key, Key::Up);
    assert_eq!(k[1].key, Key::Right);
    assert!(k[1].mods.ctrl);
    assert_eq!(k[2].key, Key::Char('f'));
    assert!(k[2].mods.alt);
    assert_eq!(k[3].key, Key::Char('a'));
    assert!(k[3].mods.ctrl);
    assert_eq!(k[4].key, Key::Backspace);
    assert_eq!(k[5].key, Key::Enter);
    assert_eq!(k[6].key, Key::Tab);
}

#[test]
fn lone_escape_ends_with_the_wait() {
    let mut reader = InputReader::new();
    assert!(reader.feed(0x1b).is_none());
    assert!(reader.is_mid_sequence());
    match reader.timeout() {
        Some(InputEvent::Key(k)) => assert_eq!(k.key, Key::Escape),
        _ => unreachable!(),
    }
    assert!(!reader.is_mid_sequence());
}

#[test]
fn paste_arrives_whole() {
    let got = events(b"\x1b[200~two\nlines\x1b[201~");
    assert_eq!(got.len(), 1);
    match &got[0] {
        InputEvent::Paste(text) => assert_eq!(text, "two\nlines"),
        _ => unreachable!(),
    }
}

#[test]
fn large_paste_is_rejected() {
    let mut bytes = b"\x1b[200~".to_vec();
    bytes.extend(std::iter::repeat(b'x').take(PASTE_LIMIT + 10));
    bytes.extend_from_slice(b"\x1b[201~q");
    let got = events(&bytes);
    assert!(matches!(got[0], InputEvent::PasteRejected));
    match got.last().unwrap() {
        InputEvent::Key(k) => assert_eq!(k.key, Key::Char('q')),
        _ => unreachable!(),
    }
    assert_eq!(got.len(), 2);
}
