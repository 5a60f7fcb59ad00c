use tape_machine::interpreter::basic::BasicMemoryBank;
use tape_machine::interpreter::semicolon_compressed::{magnitude, CompressedMemoryBank};
use tape_machine::interpreter::{InputBuffer, TapeSize};

fn size(cells: usize) -> TapeSize {
    TapeSize::new(cells).unwrap()
}

#[test]
fn tape_size_is_never_zero() {
    assert!(TapeSize::new(0).is_none());
    assert_eq!(TapeSize::new(1).unwrap().get(), 1);
    assert_eq!(TapeSize::new(30000).unwrap().get(), 30000);
    assert_eq!(TapeSize::new(usize::MAX).unwrap().get(), usize::MAX);
}

#[test]
fn fresh_basic_tape_is_blank() {
    let tape = BasicMemoryBank::new(size(4));
    assert_eq!(tape.len(), 4);
    assert_eq!(tape.position(), 0);
    for at in 0..4 {
        assert_eq!(tape.cell(at), Some(0));
    }
    assert_eq!(tape.cell(4), None);
    assert!(tape.is_zero());
    assert_eq!(tape.output(), '\0');
}

#[test]
fn basic_cell_wraps_upwards() {
    let mut tape = BasicMemoryBank::new(size(2));
    tape.increment();
    tape.increment();
    tape.increment();
    assert_eq!(tape.cell(0), Some(3));
    for _ in 0..253 {
        tape.increment();
    }
    assert_eq!(tape.cell(0), Some(0));
    assert!(tape.is_zero());
    assert_eq!(tape.cell(1), Some(0));
}

#[test]
fn basic_cell_returns_after_256_increments() {
    for start in [0u32, 1, 65, 200, 255] {
        let mut tape = BasicMemoryBank::new(size(1));
        for _ in 0..start {
            tape.increment();
        }
        let before = tape.cell(0);
        assert_eq!(before, Some(start as u8));
        for _ in 0..256 {
            tape.increment();
        }
        assert_eq!(tape.cell(0), before);
    }
}

#[test]
fn basic_cell_wraps_downwards() {
    let mut tape = BasicMemoryBank::new(size(1));
    tape.decrement();
    assert_eq!(tape.cell(0), Some(255));
    assert!(!tape.is_zero());
    assert_eq!(tape.output(), '\u{ff}');
    tape.increment();
    assert_eq!(tape.cell(0), Some(0));
}

#[test]
fn basic_head_wraps_both_ways() {
    let mut tape = BasicMemoryBank::new(size(3));
    tape.move_left();
    assert_eq!(tape.position(), 2);
    tape.move_right();
    assert_eq!(tape.position(), 0);
    tape.move_right();
    tape.move_right();
    assert_eq!(tape.position(), 2);
    tape.move_right();
    assert_eq!(tape.position(), 0);
}

#[test]
fn basic_head_comes_round_after_as_many_steps_as_cells() {
    for cells in [1usize, 2, 5, 16] {
        let mut tape = BasicMemoryBank::new(size(cells));
        tape.move_right();
        let start = tape.position();
        for _ in 0..cells {
            tape.move_right();
        }
        assert_eq!(tape.position(), start);
        for _ in 0..cells {
            tape.move_left();
        }
        assert_eq!(tape.position(), start);
        for _ in 0..cells + 1 {
            tape.move_right();
        }
        assert_eq!(tape.position(), (start + 1) % cells);
        assert_eq!(tape.position() == start, cells == 1);
    }
}

#[test]
fn basic_head_on_a_single_cell_stays() {
    let mut tape = BasicMemoryBank::new(size(1));
    tape.move_left();
    assert_eq!(tape.position(), 0);
    tape.move_right();
    tape.move_right();
    assert_eq!(tape.position(), 0);
}

#[test]
fn basic_input_stores_ordinals_below_127() {
    let mut tape = BasicMemoryBank::new(size(1));
    tape.input('A');
    assert_eq!(tape.cell(0), Some(65));
    assert_eq!(tape.output(), 'A');
    tape.input('~');
    assert_eq!(tape.cell(0), Some(126));
    tape.input('\0');
    assert_eq!(tape.cell(0), Some(0));
}

#[test]
fn basic_input_stores_zero_from_127_on() {
    let mut tape = BasicMemoryBank::new(size(1));
    for c in ['\u{7f}', '\u{80}', 'é', '\u{141}', '\u{10ffff}'] {
        tape.input('x');
        assert_eq!(tape.cell(0), Some(120));
        tape.input(c);
        assert_eq!(tape.cell(0), Some(0));
        assert!(tape.is_zero());
    }
}

#[test]
fn basic_cells_are_apart() {
    let mut tape = BasicMemoryBank::new(size(3));
    tape.increment();
    tape.move_right();
    tape.decrement();
    tape.move_right();
    tape.input('!');
    assert_eq!(tape.cell(0), Some(1));
    assert_eq!(tape.cell(1), Some(255));
    assert_eq!(tape.cell(2), Some(33));
    assert_eq!(tape.position(), 2);
}

#[test]
fn fresh_compressed_tape_is_blank() {
    let tape = CompressedMemoryBank::new(size(3));
    assert_eq!(tape.len(), 3);
    assert_eq!(tape.position(), 0);
    for at in 0..3 {
        assert_eq!(tape.cell(at), Some(0));
    }
    assert_eq!(tape.cell(3), None);
    assert!(tape.is_zero());
    assert_eq!(tape.output(), '\0');
}

#[test]
fn compressed_change_adds_deltas() {
    let mut tape = CompressedMemoryBank::new(size(1));
    tape.change(5);
    assert_eq!(tape.cell(0), Some(5));
    tape.change(-7);
    assert_eq!(tape.cell(0), Some(-2));
    tape.change(0);
    assert_eq!(tape.cell(0), Some(-2));
    tape.change(2);
    assert!(tape.is_zero());
}

#[test]
fn compressed_change_wraps_at_sixteen_bits() {
    let mut tape = CompressedMemoryBank::new(size(1));
    tape.change(32767);
    assert_eq!(tape.cell(0), Some(32767));
    tape.change(1);
    assert_eq!(tape.cell(0), Some(-32768));
    tape.change(-1);
    assert_eq!(tape.cell(0), Some(32767));
    let mut tape = CompressedMemoryBank::new(size(1));
    tape.change(70000);
    assert_eq!(tape.cell(0), Some(4464));
    tape.change(-70000);
    assert_eq!(tape.cell(0), Some(0));
    tape.change(65536);
    assert!(tape.is_zero());
    tape.change(i32::MAX);
    assert_eq!(tape.cell(0), Some(-1));
    tape.change(i32::MIN);
    assert_eq!(tape.cell(0), Some(-1));
}

#[test]
fn compressed_move_wraps_forward() {
    let mut tape = CompressedMemoryBank::new(size(5));
    tape.move_pointer(3);
    assert_eq!(tape.position(), 3);
    tape.move_pointer(3);
    assert_eq!(tape.position(), 1);
    tape.move_pointer(0);
    assert_eq!(tape.position(), 1);
    tape.move_pointer(5);
    assert_eq!(tape.position(), 1);
    tape.move_pointer(6);
    assert_eq!(tape.position(), 2);
    tape.move_pointer(i32::MAX);
    assert_eq!(tape.position(), (2 + 2147483647usize) % 5);
}

#[test]
fn compressed_move_wraps_backward() {
    let mut tape = CompressedMemoryBank::new(size(3));
    tape.move_pointer(-1);
    assert_eq!(tape.position(), 2);
    tape.move_pointer(-2);
    assert_eq!(tape.position(), 0);
    tape.move_pointer(-4);
    assert_eq!(tape.position(), 2);
    tape.move_pointer(-3);
    assert_eq!(tape.position(), 2);
    tape.move_pointer(-300);
    assert_eq!(tape.position(), 2);
    tape.move_pointer(-301);
    assert_eq!(tape.position(), 1);
    tape.move_pointer(i32::MIN);
    // 2^31 leaves 2 when divided by 3
    assert_eq!(tape.position(), 2);
}

#[test]
fn compressed_move_comes_round() {
    for cells in [1i32, 2, 7, 30000] {
        let mut tape = CompressedMemoryBank::new(size(cells as usize));
        tape.move_pointer(cells);
        assert_eq!(tape.position(), 0);
        tape.move_pointer(-cells);
        assert_eq!(tape.position(), 0);
        tape.move_pointer(cells + 1);
        assert_eq!(tape.position(), 1 % cells as usize);
    }
}

#[test]
fn compressed_input_stores_ordinals_below_127() {
    let mut tape = CompressedMemoryBank::new(size(1));
    tape.input('B');
    assert_eq!(tape.cell(0), Some(66));
    assert_eq!(tape.output(), 'B');
    for c in ['\u{7f}', 'ÿ', '\u{142}', '\u{10ffff}'] {
        tape.input('x');
        tape.input(c);
        assert_eq!(tape.cell(0), Some(0));
    }
}

#[test]
fn compressed_output_is_the_low_byte() {
    let mut tape = CompressedMemoryBank::new(size(1));
    tape.change(-1);
    assert_eq!(tape.output(), '\u{ff}');
    tape.change(1 + 256 + 65);
    assert_eq!(tape.cell(0), Some(321));
    assert_eq!(tape.output(), 'A');
    tape.change(-321 - 32768);
    assert_eq!(tape.cell(0), Some(-32768));
    assert_eq!(tape.output(), '\0');
    assert!(!tape.is_zero());
}

#[test]
fn magnitude_is_the_absolute_value() {
    assert_eq!(magnitude(0), 0);
    assert_eq!(magnitude(17), 17);
    assert_eq!(magnitude(-17), 17);
    assert_eq!(magnitude(i32::MAX), 2147483647);
    assert_eq!(magnitude(i32::MIN), 2147483648);
}

#[test]
fn input_buffer_drains_front_to_back() {
    let mut input = InputBuffer::new("hé!");
    assert_eq!(input.take(), 'h');
    assert_eq!(input.take(), 'é');
    assert_eq!(input.take(), '!');
    assert_eq!(input.take(), '\0');
    assert_eq!(input.take(), '\0');
    let mut empty = InputBuffer::new("");
    assert_eq!(empty.take(), '\0');
}
