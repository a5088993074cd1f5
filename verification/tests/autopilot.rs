//! Scenario tests for the autopilot scanner and tracker.

use dino_autopilot::pilot::{action_bytes, Autopilot};
use dino_autopilot::state::Action;

/// Pad a chunk with blanks so that the next byte lands at column `col`.
fn pad_to(chunk: &mut Vec<u8>, col: usize) {
    while chunk.len() < col {
        chunk.push(b' ');
    }
}

#[test]
fn new_state_is_clean() {
    let pilot = Autopilot::new();
    assert_eq!(pilot.current_row(), 0);
    assert_eq!(pilot.player_column(), None);
    assert!(!pilot.obstacle_flagged());
}

#[test]
fn row_parsed_from_full_cursor_payload() {
    let mut pilot = Autopilot::new();
    let acts = pilot.process_chunk(b"\x1b[16;5H");
    assert!(acts.is_empty());
    assert_eq!(pilot.current_row(), 16);
}

#[test]
fn row_parsed_without_column_part() {
    let mut pilot = Autopilot::new();
    pilot.process_chunk(b"\x1b[7H");
    assert_eq!(pilot.current_row(), 7);
}

#[test]
fn digitless_cursor_payload_keeps_row_but_resets_frame() {
    let mut pilot = Autopilot::new();
    pilot.process_chunk(b"\x1b[9H");
    pilot.process_chunk(b"\x1b[47m");
    assert_eq!(pilot.current_row(), 9);
    assert_eq!(pilot.player_column(), Some(0));
    pilot.process_chunk(b"\x1b[;H");
    assert_eq!(pilot.current_row(), 9);
    assert_eq!(pilot.player_column(), None);
    assert!(!pilot.obstacle_flagged());
}

#[test]
fn player_marker_records_escape_column() {
    let mut pilot = Autopilot::new();
    let mut chunk = Vec::new();
    pad_to(&mut chunk, 10);
    chunk.extend_from_slice(b"\x1b[47m");
    pilot.process_chunk(&chunk);
    assert_eq!(pilot.player_column(), Some(10));
}

#[test]
fn ground_row_obstacle_jumps_up() {
    let mut pilot = Autopilot::new();
    let mut chunk = Vec::new();
    chunk.extend_from_slice(b"\x1b[16;1H");
    pad_to(&mut chunk, 10);
    chunk.extend_from_slice(b"\x1b[47m");
    pad_to(&mut chunk, 25);
    chunk.extend_from_slice(b"\x1b[41m");
    let acts = pilot.process_chunk(&chunk);
    assert_eq!(acts, vec![Action::JumpUp]);
    assert_eq!(action_bytes(&acts[0]), b"\x1b[A".to_vec());
}

#[test]
fn other_row_obstacle_jumps_down() {
    let mut pilot = Autopilot::new();
    let mut chunk = Vec::new();
    chunk.extend_from_slice(b"\x1b[20;1H");
    pad_to(&mut chunk, 10);
    chunk.extend_from_slice(b"\x1b[47m");
    pad_to(&mut chunk, 25);
    chunk.extend_from_slice(b"\x1b[41m");
    let acts = pilot.process_chunk(&chunk);
    assert_eq!(acts, vec![Action::JumpDown]);
    assert_eq!(action_bytes(&acts[0]), b"\x1b[B".to_vec());
}

#[test]
fn far_obstacle_flags_frame_without_jump() {
    let mut pilot = Autopilot::new();
    let mut chunk = Vec::new();
    chunk.extend_from_slice(b"\x1b[16;1H");
    pad_to(&mut chunk, 10);
    chunk.extend_from_slice(b"\x1b[47m");
    pad_to(&mut chunk, 45);
    chunk.extend_from_slice(b"\x1b[41m");
    let acts = pilot.process_chunk(&chunk);
    assert!(acts.is_empty());
    assert!(pilot.obstacle_flagged());
    // A later obstacle in the same frame stays ignored.
    let mut more = Vec::new();
    pad_to(&mut more, 50);
    more.extend_from_slice(b"\x1b[41m");
    let acts2 = pilot.process_chunk(&more);
    assert!(acts2.is_empty());
    assert!(pilot.obstacle_flagged());
}

#[test]
fn game_over_byte_quits_once_per_occurrence() {
    let mut pilot = Autopilot::new();
    let acts = pilot.process_chunk(b"ab g cd g");
    assert_eq!(acts, vec![Action::GameOver, Action::GameOver]);
    assert_eq!(action_bytes(&acts[0]), b"q".to_vec());
}

#[test]
fn obstacle_behind_player_flags_without_jump() {
    let mut pilot = Autopilot::new();
    let mut first = Vec::new();
    pad_to(&mut first, 10);
    first.extend_from_slice(b"\x1b[47m");
    pilot.process_chunk(&first);
    assert_eq!(pilot.player_column(), Some(10));
    // The obstacle marker opens at column 0 of the next chunk.
    let acts = pilot.process_chunk(b"\x1b[41m");
    assert!(acts.is_empty());
    assert!(pilot.obstacle_flagged());
}

#[test]
fn replaying_a_chunk_gives_the_same_actions() {
    let mut chunk = Vec::new();
    chunk.extend_from_slice(b"\x1b[16;1H");
    pad_to(&mut chunk, 10);
    chunk.extend_from_slice(b"\x1b[47m");
    pad_to(&mut chunk, 25);
    chunk.extend_from_slice(b"\x1b[41m");
    let mut pilot = Autopilot::new();
    let first = pilot.process_chunk(&chunk);
    let second = pilot.process_chunk(&chunk);
    assert_eq!(first, second);
    assert_eq!(first, vec![Action::JumpUp]);
}

#[test]
fn distance_of_exactly_thirty_jumps() {
    let mut pilot = Autopilot::new();
    let mut chunk = Vec::new();
    chunk.extend_from_slice(b"\x1b[16;1H");
    pad_to(&mut chunk, 10);
    chunk.extend_from_slice(b"\x1b[47m");
    pad_to(&mut chunk, 40);
    chunk.extend_from_slice(b"\x1b[41m");
    let acts = pilot.process_chunk(&chunk);
    assert_eq!(acts, vec![Action::JumpUp]);
}

#[test]
fn distance_of_thirty_one_does_not_jump() {
    let mut pilot = Autopilot::new();
    let mut chunk = Vec::new();
    chunk.extend_from_slice(b"\x1b[16;1H");
    pad_to(&mut chunk, 10);
    chunk.extend_from_slice(b"\x1b[47m");
    pad_to(&mut chunk, 41);
    chunk.extend_from_slice(b"\x1b[41m");
    let acts = pilot.process_chunk(&chunk);
    assert!(acts.is_empty());
    assert!(pilot.obstacle_flagged());
}

#[test]
fn sequence_split_across_chunks_keeps_opening_column() {
    let mut pilot = Autopilot::new();
    pilot.process_chunk(b"\x1b[4");
    assert_eq!(pilot.player_column(), None);
    pilot.process_chunk(b"7m");
    // The column comes from the chunk that held the ESC byte.
    assert_eq!(pilot.player_column(), Some(0));
}

#[test]
fn new_escape_discards_the_open_sequence() {
    let mut pilot = Autopilot::new();
    pilot.process_chunk(b"\x1b[4\x1b[47m");
    assert_eq!(pilot.player_column(), Some(3));
}

#[test]
fn alternate_terminator_closes_without_reset() {
    let mut pilot = Autopilot::new();
    pilot.process_chunk(b"\x1b[5H");
    pilot.process_chunk(b"\x1b[47m");
    pilot.process_chunk(b"\x1b[2;2f");
    // An `f`-terminated sequence closes but resets nothing.
    assert_eq!(pilot.current_row(), 5);
    assert_eq!(pilot.player_column(), Some(0));
}

#[test]
fn obstacle_without_player_neither_jumps_nor_flags() {
    let mut pilot = Autopilot::new();
    let acts = pilot.process_chunk(b"\x1b[41m");
    assert!(acts.is_empty());
    assert!(!pilot.obstacle_flagged());
    // The frame is still live: a player and a close obstacle jump.
    let mut chunk = Vec::new();
    chunk.extend_from_slice(b"\x1b[47m");
    pad_to(&mut chunk, 20);
    chunk.extend_from_slice(b"\x1b[41m");
    let acts2 = pilot.process_chunk(&chunk);
    assert_eq!(acts2, vec![Action::JumpDown]);
}

#[test]
fn actions_come_in_stream_order() {
    let mut pilot = Autopilot::new();
    let mut chunk = Vec::new();
    chunk.extend_from_slice(b"\x1b[16;1H\x1b[47m");
    pad_to(&mut chunk, 20);
    chunk.extend_from_slice(b"\x1b[41m");
    chunk.push(b'g');
    let acts = pilot.process_chunk(&chunk);
    assert_eq!(acts, vec![Action::JumpUp, Action::GameOver]);
}

#[test]
fn overlong_row_number_saturates() {
    let mut pilot = Autopilot::new();
    pilot.process_chunk(b"\x1b[99999999999999999999999999H");
    assert_eq!(pilot.current_row(), u64::MAX);
}

#[test]
fn keystroke_bytes_are_exact() {
    assert_eq!(action_bytes(&Action::JumpUp), vec![0x1b, b'[', b'A']);
    assert_eq!(action_bytes(&Action::JumpDown), vec![0x1b, b'[', b'B']);
    assert_eq!(action_bytes(&Action::GameOver), vec![b'q']);
}
