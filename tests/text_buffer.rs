use editor::text_buffer::{BufferError, TextBuffer};

#[test]
fn test_empty_buffer() {
    let buf = TextBuffer::empty();
    assert_eq!(buf.line_count(), 1);
    assert_eq!(buf.char_count(), 0);
}

#[test]
fn test_line_get_set() {
    let mut buf = TextBuffer::empty();
    buf.set_line(0, "Hello world\n").unwrap();
    assert_eq!(buf.get_line(0).unwrap(), "Hello world\n");
}

#[test]
fn test_file_io() {
    let mut buf = TextBuffer::from_contents(Some("notes.txt".to_string()), "Line one\nLine two");
    assert_eq!(buf.line_count(), 2);
    assert!(buf.get_line(1).unwrap().starts_with("Line two"));

    buf.set_line(1, "Changed line\n").unwrap();
    let (path, saved) = buf.prepare_save().unwrap();
    assert_eq!(path, "notes.txt");
    assert!(saved.contains("Changed line"));
}

#[test]
fn test_normalize_newlines() {
    let mut buf = TextBuffer::empty();
    buf.set_line(0, "Hello\r\nWorld\r\n").unwrap();
    buf.normalize_newlines();

    assert_eq!(buf.line_count(), 2);
    assert_eq!(buf.get_line(0).unwrap(), "Hello\n");
    assert_eq!(buf.get_line(1).unwrap(), "World\n");
    assert_eq!(buf.get_line(2), None);
}

#[test]
fn test_insert_append_remove() {
    let mut buf = TextBuffer::empty();
    buf.set_line(0, "Alpha\n").unwrap();
    buf.append_line("Beta").unwrap();
    buf.insert_line(1, "Insert").unwrap();

    assert_eq!(buf.line_count(), 3);
    assert_eq!(buf.get_line(0).unwrap(), "Alpha\n");
    assert_eq!(buf.get_line(1).unwrap(), "Insert\n");
    assert_eq!(buf.get_line(2).unwrap(), "Beta\n");
    assert_eq!(buf.get_line(3), None);

    buf.remove_line(1).unwrap();
    assert_eq!(buf.line_count(), 2);
    assert_eq!(buf.get_line(1).unwrap(), "Beta\n");
    assert_eq!(buf.get_line(2), None);
}

#[test]
fn line_count_is_positive_for_any_text() {
    assert_eq!(TextBuffer::empty().line_count(), 1);
    assert_eq!(TextBuffer::from_contents(None, "").line_count(), 1);
    assert_eq!(TextBuffer::from_contents(None, "a").line_count(), 1);
    assert_eq!(TextBuffer::from_contents(None, "a\n").line_count(), 1);
    assert_eq!(TextBuffer::from_contents(None, "a\nb").line_count(), 2);
    assert_eq!(TextBuffer::from_contents(None, "\n\n\n").line_count(), 3);
}

#[test]
fn set_then_get_returns_text_written() {
    let mut buf = TextBuffer::from_contents(None, "one\ntwo\nthree");
    buf.set_line(1, "TWO\n").unwrap();
    assert_eq!(buf.get_line(1).unwrap(), "TWO\n");
    buf.set_line(2, "last").unwrap();
    assert_eq!(buf.get_line(2).unwrap(), "last");
    assert_eq!(buf.char_count(), "one\nTWO\nlast".chars().count());
}

#[test]
fn set_line_keeps_text_as_given() {
    let mut buf = TextBuffer::from_contents(None, "a\nb\nc");
    buf.set_line(0, "x").unwrap();
    assert_eq!(buf.line_count(), 2);
    assert_eq!(buf.get_line(1).unwrap(), "c");
    assert_eq!(buf.get_line(0).unwrap(), "xb\n");
}

#[test]
fn insert_line_adds_terminator_and_shifts() {
    let mut buf = TextBuffer::from_contents(None, "a\nb\nc");
    buf.insert_line(1, "new").unwrap();
    assert_eq!(buf.line_count(), 4);
    assert_eq!(buf.get_line(0).unwrap(), "a\n");
    assert_eq!(buf.get_line(1).unwrap(), "new\n");
    assert_eq!(buf.get_line(2).unwrap(), "b\n");
    assert_eq!(buf.get_line(3).unwrap(), "c");
}

#[test]
fn insert_line_keeps_existing_terminator() {
    let mut buf = TextBuffer::from_contents(None, "a\n");
    buf.insert_line(0, "z\n").unwrap();
    assert_eq!(buf.get_line(0).unwrap(), "z\n");
    assert_eq!(buf.line_count(), 2);
}

#[test]
fn insert_line_at_end_is_accepted() {
    let mut buf = TextBuffer::from_contents(None, "a\n");
    buf.insert_line(1, "b").unwrap();
    assert_eq!(buf.line_count(), 2);
    assert_eq!(buf.get_line(1).unwrap(), "b\n");
    assert_eq!(buf.insert_line(3, "c"), Err(BufferError::LineOutOfBounds));

    let mut open = TextBuffer::from_contents(None, "a");
    open.insert_line(1, "x").unwrap();
    assert_eq!(open.line_count(), 2);
    assert_eq!(open.get_line(0).unwrap(), "a\n");
    assert_eq!(open.get_line(1).unwrap(), "x\n");
}

#[test]
fn remove_line_drops_line_and_terminator() {
    let mut buf = TextBuffer::from_contents(None, "a\nbb\nc");
    buf.remove_line(1).unwrap();
    assert_eq!(buf.line_count(), 2);
    assert_eq!(buf.char_count(), 3);
    assert_eq!(buf.get_line(0).unwrap(), "a\n");
    assert_eq!(buf.get_line(1).unwrap(), "c");
    buf.remove_line(1).unwrap();
    assert_eq!(buf.line_count(), 1);
    assert_eq!(buf.get_line(0).unwrap(), "a\n");
}

#[test]
fn out_of_bounds_leaves_document_unchanged() {
    let mut buf = TextBuffer::from_contents(None, "a\nb");
    let lines = buf.line_count();
    let chars = buf.char_count();
    assert_eq!(buf.set_line(2, "x"), Err(BufferError::LineOutOfBounds));
    let mut ended = TextBuffer::from_contents(None, "a\n");
    assert_eq!(ended.get_line(1), None);
    assert_eq!(ended.remove_line(1), Err(BufferError::LineOutOfBounds));
    assert_eq!(buf.insert_line(3, "x"), Err(BufferError::LineOutOfBounds));
    assert_eq!(buf.remove_line(2), Err(BufferError::LineOutOfBounds));
    assert_eq!(buf.get_line(2), None);
    assert_eq!(buf.line_count(), lines);
    assert_eq!(buf.char_count(), chars);
}

#[test]
fn normalize_is_idempotent_and_noop_without_crlf() {
    let mut buf = TextBuffer::from_contents(None, "a\r\nb\rc\r\n");
    buf.normalize_newlines();
    assert_eq!(buf.char_count(), 6);
    assert_eq!(buf.get_line(1).unwrap(), "b\rc\n");
    buf.normalize_newlines();
    assert_eq!(buf.char_count(), 6);
    assert_eq!(buf.get_line(0).unwrap(), "a\n");

    let mut plain = TextBuffer::from_contents(None, "x\ny");
    plain.normalize_newlines();
    assert_eq!(plain.char_count(), 3);
    assert_eq!(plain.get_line(0).unwrap(), "x\n");
}

#[test]
fn save_without_trailing_newline_drops_final_terminators() {
    let mut buf = TextBuffer::from_contents(Some("f.txt".to_string()), "one\ntwo\n");
    buf.set_trailing_newline(false);
    assert!(!buf.has_trailing_newline());
    buf.append_line("three").unwrap();
    let (_, saved) = buf.prepare_save().unwrap();
    assert_eq!(saved, "one\ntwo\nthree");
    let reloaded = TextBuffer::from_contents(None, &saved);
    assert!(!reloaded.has_trailing_newline());
}

#[test]
fn save_with_trailing_newline_ends_in_exactly_one() {
    let mut buf = TextBuffer::from_contents(Some("f.txt".to_string()), "one\n");
    assert!(buf.has_trailing_newline());
    let (_, saved) = buf.prepare_save().unwrap();
    assert_eq!(saved, "one\n");
    buf.set_line(0, "one").unwrap();
    let (_, saved) = buf.prepare_save().unwrap();
    assert_eq!(saved, "one\n");
    buf.set_trailing_newline(false);
    buf.set_line(0, "one\n").unwrap();
    let (_, saved) = buf.prepare_save().unwrap();
    assert_eq!(saved, "one");
}

#[test]
fn save_keeps_blank_lines_but_drops_last_terminator() {
    let mut buf = TextBuffer::from_contents(Some("f.txt".to_string()), "one\n\n");
    let (_, saved) = buf.prepare_save().unwrap();
    assert_eq!(saved, "one\n\n");
    buf.set_trailing_newline(false);
    let (_, saved) = buf.prepare_save().unwrap();
    assert_eq!(saved, "one\n");
}

#[test]
fn save_drops_a_two_character_terminator() {
    let mut buf = TextBuffer::from_contents(Some("f.txt".to_string()), "x\r\n");
    buf.set_trailing_newline(false);
    assert_eq!(buf.prepare_save().unwrap().1, "x");
    buf.set_trailing_newline(true);
    assert_eq!(buf.prepare_save().unwrap().1, "x\n");
}

#[test]
fn normalize_leaves_no_crlf() {
    let mut buf = TextBuffer::from_contents(None, "a\r\r\nb");
    buf.normalize_newlines();
    assert_eq!(buf.get_line(0).unwrap(), "a\n");
    assert_eq!(buf.char_count(), 3);
    buf.normalize_newlines();
    assert_eq!(buf.char_count(), 3);
    assert_eq!(buf.get_line(1).unwrap(), "b");
}

#[test]
fn save_requires_a_path() {
    let mut buf = TextBuffer::empty();
    assert_eq!(buf.prepare_save(), Err(BufferError::NoPath));
    buf.set_line(0, "hi").unwrap();
    let (path, saved) = buf.prepare_save_as("out.txt".to_string()).unwrap();
    assert_eq!(path, "out.txt");
    assert_eq!(saved, "hi");
    assert_eq!(buf.prepare_save().unwrap().0, "out.txt");
}

#[test]
fn hello_world_example() {
    let mut buf = TextBuffer::empty();
    buf.set_line(0, "Hello world\n").unwrap();
    assert_eq!(buf.get_line(0).unwrap(), "Hello world\n");
    assert_eq!(buf.line_count(), 1);
    assert_eq!(buf.get_line(1), None);
}

#[test]
fn save_and_reload_keeps_lines() {
    for flag in [false, true] {
        let mut buf = TextBuffer::from_contents(Some("f.txt".to_string()), "a\nb\nc\n");
        buf.set_trailing_newline(flag);
        let (_, saved) = buf.prepare_save().unwrap();
        let back = TextBuffer::from_contents(None, &saved);
        assert_eq!(back.has_trailing_newline(), flag);
        assert_eq!(back.line_count(), buf.line_count());
        for i in 0..buf.line_count() {
            let a = buf.get_line(i).unwrap();
            let b = back.get_line(i).unwrap();
            assert_eq!(a.trim_end_matches('\n'), b.trim_end_matches('\n'));
        }
    }
}
