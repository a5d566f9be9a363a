use code_journal::gap_buffer::{BufferError, TextGapBuffer};

fn contents(b: &TextGapBuffer) -> String {
    let mut s = String::new();
    for i in 0..b.len() {
        s.push(b.get(i).unwrap());
    }
    s
}

#[test]
fn new_buffer_is_empty() {
    let b = TextGapBuffer::new();
    assert_eq!(b.len(), 0);
    assert_eq!(b.get(0), Err(BufferError::OutOfRange));
}

#[test]
fn inserts_at_any_positions_keep_count_and_order() {
    let mut b = TextGapBuffer::new_in(4, 2);
    let ops: Vec<(usize, char)> = vec![(0, 'c'), (0, 'a'), (1, 'b'), (3, 'e'), (3, 'd'), (99, 'f'), (0, '>')];
    for (pos, ch) in ops.iter() {
        b.move_window(*pos);
        b.insert_ch(*ch);
    }
    assert_eq!(b.len(), ops.len());
    assert_eq!(contents(&b), ">abcdef");
}

#[test]
fn many_inserts_grow_the_block() {
    let mut b = TextGapBuffer::new_in(3, 1);
    for i in 0..200u32 {
        b.insert_ch(char::from(b'a' + (i % 26) as u8));
    }
    assert_eq!(b.len(), 200);
    for i in 0..200usize {
        assert_eq!(b.get(i), Ok(char::from(b'a' + (i % 26) as u8)));
    }
    assert_eq!(b.get(200), Err(BufferError::OutOfRange));
}

#[test]
fn insert_then_delete_restores_text() {
    let mut b = TextGapBuffer::new_in(8, 2);
    for ch in "hello".chars() {
        b.insert_ch(ch);
    }
    b.move_window(2);
    b.insert_ch('X');
    assert_eq!(contents(&b), "heXllo");
    b.delete_ch();
    assert_eq!(contents(&b), "hello");
    assert_eq!(b.len(), 5);
}

#[test]
fn delete_at_start_does_nothing() {
    let mut b = TextGapBuffer::new();
    for ch in "abc".chars() {
        b.insert_ch(ch);
    }
    b.move_window(0);
    b.delete_ch();
    assert_eq!(contents(&b), "abc");
    assert_eq!(b.len(), 3);
}

#[test]
fn move_window_keeps_content() {
    let mut b = TextGapBuffer::new_in(16, 3);
    for ch in "abcdefghij".chars() {
        b.insert_ch(ch);
    }
    for pos in [0usize, 7, 3, 10, 1, 50, 5] {
        b.move_window(pos);
        assert_eq!(contents(&b), "abcdefghij");
        assert_eq!(b.len(), 10);
    }
}

#[test]
fn absolute_and_relative_indices() {
    let mut b = TextGapBuffer::new_in(10, 4);
    for ch in "abcdef".chars() {
        b.insert_ch(ch);
    }
    b.move_window(2);
    let gap_end = b.get_absolute_index(2).unwrap();
    assert!(gap_end > 2);
    assert_eq!(b.get_absolute_index(1), Ok(1));
    assert_eq!(b.get_relative_index(gap_end), Ok(2));
    assert_eq!(b.get_relative_index(1), Ok(1));
    assert_eq!(b.get_relative_index(2), Err(BufferError::OutOfRange));
    assert_eq!(b.get_absolute_index(6), Err(BufferError::OutOfRange));
}
