use code_journal::editor::{Cursor, Direction, Editor, ScreenDimensions, SAMPLE_TEXT};

fn dims(rows: u16, cols: u16) -> ScreenDimensions {
    ScreenDimensions { row: 0, column: 0, max_rows: rows, max_cols: cols }
}

fn editor_with(text: &str, rows: u16, cols: u16) -> Editor {
    let mut e = Editor::with_text(dims(rows, cols), String::from("[Code Journal]"), "");
    for ch in text.chars() {
        e.insert_ch(ch);
    }
    e
}

fn shape(e: &Editor, limit: u16) -> Vec<(usize, u16, Vec<u16>)> {
    e.get_line_map(limit).iter().map(|l| (l.index, l.len, l.tabs.clone())).collect()
}

fn text_of(e: &Editor) -> String {
    e.contents().into_iter().collect()
}

#[test]
fn empty_editor_has_one_empty_line() {
    let e = Editor::with_text(dims(10, 20), String::from("t"), "");
    assert_eq!(shape(&e, 16), vec![(0, 0, vec![])]);
    assert_eq!(e.cursor(), Cursor { row: 0, column: 0 });
    assert_eq!(e.editor_dim(), ScreenDimensions { row: 2, column: 2, max_rows: 6, max_cols: 16 });
    assert_eq!(e.title(), "t");
}

#[test]
fn tab_and_newline_give_trailing_empty_line() {
    let e = editor_with("a\tb\n", 10, 20);
    assert_eq!(shape(&e, 16), vec![(0, 3, vec![1]), (4, 0, vec![])]);
    assert_eq!(e.line_map().len(), 2);
    assert_eq!(e.cursor(), Cursor { row: 1, column: 0 });
}

#[test]
fn hello_world_breaks_at_the_space() {
    let e = editor_with("hello world", 10, 20);
    let lines = shape(&e, 5);
    assert_eq!(lines, vec![(0, 5, vec![]), (6, 5, vec![])]);
    let chars = e.contents();
    let first: String = chars[0..5].iter().collect();
    let second: String = chars[6..11].iter().collect();
    assert_eq!(first, "hello");
    assert_eq!(second, "world");
}

#[test]
fn full_line_is_cut_after_its_last_space() {
    let e = editor_with("aaa bbbbb", 10, 20);
    assert_eq!(shape(&e, 6), vec![(0, 4, vec![]), (4, 5, vec![])]);
}

#[test]
fn one_character_left_is_not_wrapped_back() {
    let e = editor_with("aaa bbx", 10, 20);
    assert_eq!(shape(&e, 6), vec![(0, 6, vec![]), (6, 1, vec![])]);
}

#[test]
fn tab_that_does_not_fit_starts_next_line() {
    let e = editor_with("ab\tcd", 10, 20);
    assert_eq!(shape(&e, 5), vec![(0, 2, vec![]), (2, 2, vec![0]), (4, 1, vec![])]);
}

#[test]
fn lines_never_exceed_wrap_width() {
    let e = editor_with("a\tbc de\tfgh ij klmnopqrst uv\twx\n\tyz", 10, 40);
    for limit in 4u16..12 {
        for l in e.get_line_map(limit).iter() {
            assert!(l.len as usize + 3 * l.tabs.len() <= limit as usize);
        }
    }
}

#[test]
fn line_chunk_reports_break_kind() {
    let e = editor_with("ab\ncd ef gh", 10, 20);
    let c = e.get_line_chunk(0, 10);
    assert_eq!((c.len, c.end_of_line, c.wrapped_at_space), (2, true, false));
    let c = e.get_line_chunk(3, 2);
    assert_eq!((c.len, c.end_of_line, c.wrapped_at_space), (2, false, true));
    let c = e.get_line_chunk(3, 4);
    assert_eq!((c.len, c.end_of_line, c.wrapped_at_space), (3, false, false));
}

#[test]
fn delete_at_offset_zero_changes_nothing() {
    let mut e = editor_with("abc", 10, 20);
    for _ in 0..5 {
        e.move_cursor(Direction::LEFT, 1);
    }
    assert_eq!(e.cursor(), Cursor { row: 0, column: 0 });
    e.delete_ch();
    assert_eq!(text_of(&e), "abc");
    assert_eq!(e.contents().len(), 3);
    assert_eq!(e.cursor(), Cursor { row: 0, column: 0 });
}

#[test]
fn delete_removes_character_before_cursor() {
    let mut e = editor_with("abcd", 10, 20);
    e.move_cursor(Direction::LEFT, 1);
    e.delete_ch();
    assert_eq!(text_of(&e), "abd");
    assert_eq!(e.cursor(), Cursor { row: 0, column: 2 });
}

#[test]
fn insert_then_delete_restores_text_and_cursor() {
    let mut e = editor_with("a\tbc", 10, 20);
    e.move_cursor(Direction::LEFT, 1);
    e.move_cursor(Direction::LEFT, 1);
    let before = e.cursor();
    e.insert_ch('x');
    assert_eq!(text_of(&e), "a\txbc");
    e.delete_ch();
    assert_eq!(text_of(&e), "a\tbc");
    assert_eq!(e.cursor(), before);
}

#[test]
fn cursor_columns_expand_tabs() {
    let mut e = editor_with("a\tb", 10, 20);
    assert_eq!(e.cursor().column, 6);
    e.move_cursor(Direction::LEFT, 1);
    assert_eq!(e.cursor().column, 5);
    e.move_cursor(Direction::LEFT, 1);
    assert_eq!(e.cursor().column, 1);
    e.move_cursor(Direction::LEFT, 1);
    assert_eq!(e.cursor().column, 0);
    e.move_cursor(Direction::RIGHT, 1);
    assert_eq!(e.cursor().column, 1);
    e.move_cursor(Direction::RIGHT, 1);
    assert_eq!(e.cursor().column, 5);
    e.move_cursor(Direction::RIGHT, 1);
    e.move_cursor(Direction::RIGHT, 1);
    assert_eq!(e.cursor().column, 6);
}

#[test]
fn column_in_first_half_of_tab_snaps_to_its_start() {
    let mut e = editor_with("abc\n\tx", 10, 20);
    e.move_cursor(Direction::UP, 1);
    e.move_cursor(Direction::LEFT, 1);
    e.move_cursor(Direction::LEFT, 1);
    assert_eq!(e.cursor(), Cursor { row: 0, column: 1 });
    e.move_cursor(Direction::DOWN, 1);
    assert_eq!(e.cursor(), Cursor { row: 1, column: 1 });
    assert_eq!(e.screen_cursor(), (2, 3));
    e.insert_ch('Z');
    assert_eq!(text_of(&e), "abc\nZ\tx");
}

#[test]
fn column_in_second_half_of_tab_snaps_to_its_end() {
    let mut e = editor_with("abc\n\tx", 10, 20);
    e.move_cursor(Direction::UP, 1);
    assert_eq!(e.cursor(), Cursor { row: 0, column: 5 });
    e.move_cursor(Direction::LEFT, 1);
    assert_eq!(e.cursor(), Cursor { row: 0, column: 2 });
    e.move_cursor(Direction::RIGHT, 1);
    assert_eq!(e.cursor(), Cursor { row: 0, column: 3 });
    e.move_cursor(Direction::DOWN, 1);
    assert_eq!(e.screen_cursor(), (6, 3));
    e.insert_ch('Z');
    assert_eq!(text_of(&e), "abc\n\tZx");
}

#[test]
fn offsets_round_trip_through_cursor() {
    let mut e = editor_with("\ta\t\tb\ncd\te", 10, 30);
    for _ in 0..20 {
        e.move_cursor(Direction::LEFT, 1);
    }
    let mut count = 0;
    loop {
        let before = e.cursor();
        e.move_cursor(Direction::RIGHT, 1);
        if e.cursor() == before {
            break;
        }
        count += 1;
        let after = e.cursor();
        e.move_cursor(Direction::LEFT, 1);
        assert_eq!(e.cursor(), before);
        e.move_cursor(Direction::RIGHT, 1);
        assert_eq!(e.cursor(), after);
    }
    assert_eq!(count, 10);
    assert_eq!(e.cursor(), Cursor { row: 1, column: 7 });
}

#[test]
fn visible_lines_expand_tabs() {
    let e = editor_with("a\tb\ncd", 10, 20);
    let lines: Vec<String> = e.visible_lines().into_iter().map(|l| l.into_iter().collect()).collect();
    assert_eq!(lines, vec![String::from("a    b"), String::from("cd")]);
}

#[test]
fn typing_past_last_row_scrolls_by_one() {
    let mut e = editor_with("1\n2\n3\n4\n5", 9, 20);
    assert_eq!(e.line_offset(), 0);
    assert_eq!(e.cursor(), Cursor { row: 4, column: 1 });
    e.insert_ch('\n');
    assert_eq!(e.line_offset(), 1);
    assert_eq!(e.cursor(), Cursor { row: 4, column: 0 });
    e.move_cursor(Direction::UP, 1);
    e.move_cursor(Direction::UP, 1);
    e.move_cursor(Direction::UP, 1);
    e.move_cursor(Direction::UP, 1);
    assert_eq!(e.cursor().row, 0);
    e.move_cursor(Direction::UP, 1);
    assert_eq!(e.line_offset(), 0);
    assert_eq!(e.cursor().row, 0);
    e.move_cursor(Direction::UP, 1);
    assert_eq!(e.line_offset(), 0);
    for _ in 0..4 {
        e.move_cursor(Direction::DOWN, 1);
    }
    assert_eq!((e.line_offset(), e.cursor().row), (0, 4));
    e.move_cursor(Direction::DOWN, 1);
    assert_eq!((e.line_offset(), e.cursor().row), (1, 4));
    e.move_cursor(Direction::DOWN, 1);
    assert_eq!((e.line_offset(), e.cursor().row), (1, 4));
}

#[test]
fn narrowing_resize_rewraps_and_keeps_cursor_visible() {
    let text = "the quick brown fox jumps over the lazy dog and runs away again";
    let mut e = editor_with(text, 10, 70);
    let wide = e.line_map().len();
    assert_eq!(wide, 1);
    e.resize_redraw(dims(8, 14));
    let narrow = e.line_map().len();
    assert!(narrow > wide);
    for l in e.line_map().iter() {
        assert!(l.len <= 10);
    }
    let rows = e.editor_dim().max_rows as usize;
    assert_eq!(rows, 4);
    let cursor = e.cursor();
    assert!(cursor.row < rows);
    assert_eq!(e.line_offset() + cursor.row, narrow - 1);
    assert_eq!(text_of(&e), text);
    e.insert_ch('!');
    assert!(text_of(&e).ends_with("again!"));
}

#[test]
fn widening_resize_pulls_view_back() {
    let text = "aa bb cc dd ee ff gg hh ii jj";
    let mut e = editor_with(text, 7, 8);
    assert!(e.line_offset() > 0);
    e.resize_redraw(dims(7, 40));
    assert_eq!(e.line_map().len(), 1);
    assert_eq!(e.line_offset(), 0);
    assert_eq!(e.cursor(), Cursor { row: 0, column: 29 });
    assert_eq!(e.window_dim(), dims(7, 40));
}

#[test]
fn new_editor_holds_sample_paragraph() {
    let e = Editor::new(dims(24, 80), String::from("[Code Journal]"));
    assert_eq!(text_of(&e), SAMPLE_TEXT);
    assert_eq!(e.contents().len(), 970);
    assert_eq!(e.cursor(), Cursor { row: 0, column: 0 });
    assert_eq!(e.line_offset(), 0);
    assert!(e.line_map().len() > 10);
    assert!(text_of(&e).starts_with("But I must explain"));
}

#[test]
fn with_text_places_cursor_at_start() {
    let mut e = Editor::with_text(dims(10, 20), String::from("t"), "a\tb\ncd");
    assert_eq!(e.cursor(), Cursor { row: 0, column: 0 });
    e.insert_ch('>');
    assert_eq!(text_of(&e), ">a\tb\ncd");
    assert_eq!(e.cursor(), Cursor { row: 0, column: 1 });
}

#[test]
fn full_line_before_newline_is_cut_after_its_last_space() {
    let e = editor_with("ab cd\nef", 10, 20);
    assert_eq!(shape(&e, 5), vec![(0, 3, vec![]), (3, 2, vec![]), (6, 2, vec![])]);
    let c = e.get_line_chunk(0, 5);
    assert_eq!((c.len, c.end_of_line, c.wrapped_at_space), (3, false, false));
    let c = e.get_line_chunk(3, 5);
    assert_eq!((c.len, c.end_of_line, c.wrapped_at_space), (2, true, false));
}

#[test]
fn full_line_leaves_its_newline_to_the_next_line() {
    let e = editor_with("abcde\nf", 10, 20);
    assert_eq!(shape(&e, 5), vec![(0, 5, vec![]), (5, 0, vec![]), (6, 1, vec![])]);
    let c = e.get_line_chunk(0, 5);
    assert_eq!((c.len, c.end_of_line, c.wrapped_at_space), (5, false, false));
}

#[test]
fn full_line_ending_in_space_before_newline() {
    let e = editor_with("ab \ncd", 10, 20);
    assert_eq!(shape(&e, 3), vec![(0, 3, vec![]), (3, 0, vec![]), (4, 2, vec![])]);
    let c = e.get_line_chunk(0, 3);
    assert_eq!((c.len, c.end_of_line, c.wrapped_at_space), (3, false, false));
    let c = e.get_line_chunk(3, 3);
    assert_eq!((c.len, c.end_of_line, c.wrapped_at_space), (0, true, false));
}

#[test]
fn full_last_line_before_final_newline() {
    let e = editor_with("abc\n", 10, 20);
    assert_eq!(shape(&e, 3), vec![(0, 3, vec![]), (3, 0, vec![]), (4, 0, vec![])]);
}
