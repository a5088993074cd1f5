//! The mathematical model of the scanner and tracker.
//!
//! Every byte the game writes is fed, with its column inside the current
//! read chunk, through [`step`]. The model keeps the one open escape
//! sequence, the player's last recorded column, the obstacle flag for the
//! current frame and the current row; a step may also emit one [`Action`]
//! to send back to the game.

use vstd::prelude::*;

verus! {

/// The escape character that opens a control sequence.
pub const ESC: u8 = 0x1b;

/// Terminator of a Select Graphic Rendition (colour) sequence.
pub const SGR_END: u8 = 109; // b'm'

/// Terminator of a cursor-position sequence.
pub const CUP_END: u8 = 72; // b'H'

/// Alternate terminator of a cursor-position sequence; closes the open
/// sequence but carries no row update.
pub const CUP_ALT_END: u8 = 102; // b'f'

/// The byte this game writes when the run is over.
pub const GAME_OVER_BYTE: u8 = 103; // b'g'

/// The row the game keeps the player on while it is on the ground.
pub const GROUND_ROW: u64 = 16;

/// Largest column distance between player and obstacle that still
/// triggers a jump.
pub const JUMP_DISTANCE: usize = 30;

/// A keystroke the autopilot sends into the game's input channel.
#[derive(Clone, Copy, Debug, PartialEq, Eq, Structural)]
pub enum Action {
    /// Move the player a lane up (`ESC [ A`).
    JumpUp,
    /// Move the player a lane down (`ESC [ B`).
    JumpDown,
    /// Ask the game to quit or restart (`q`).
    GameOver,
}

/// The scanner and tracker state, as the contracts speak of it.
pub ghost struct ScanModel {
    /// The open escape sequence, if any: the column of its `ESC` byte
    /// inside the chunk that held it, and the bytes accumulated since.
    pub escape: Option<(nat, Seq<u8>)>,
    /// Column at which the player's colour marker was last seen this frame.
    pub player: Option<nat>,
    /// Whether an obstacle has already been reacted to this frame.
    pub obstacle: bool,
    /// Row last reported by a cursor-position sequence.
    pub row: nat,
}

/// The state the scanner starts in: nothing open, nothing seen, row zero.
pub open spec fn initial_model() -> ScanModel {
    ScanModel { escape: None, player: None, obstacle: false, row: 0 }
}

/// The accumulated bytes of the player's colour marker, `[47m`.
pub open spec fn player_code() -> Seq<u8> {
    seq![91u8, 52u8, 55u8, 109u8]
}

/// The accumulated bytes of the obstacle's colour marker, `[41m`.
pub open spec fn obstacle_code() -> Seq<u8> {
    seq![91u8, 52u8, 49u8, 109u8]
}

/// ASCII decimal digit.
pub open spec fn is_digit(b: u8) -> bool {
    48 <= b <= 57
}

/// Length of the leading run of ASCII digits of `s`.
pub open spec fn digit_run_len(s: Seq<u8>) -> nat
    decreases s.len(),
{
    if s.len() > 0 && is_digit(s[0]) {
        1 + digit_run_len(s.skip(1))
    } else {
        0
    }
}

/// Value of a sequence of ASCII digits, most significant first.
pub open spec fn digits_value(s: Seq<u8>) -> nat
    decreases s.len(),
{
    if s.len() == 0 {
        0
    } else {
        digits_value(s.drop_last()) * 10 + ((s.last() - 48) as nat)
    }
}

/// Row number carried by a cursor-position payload: the value of the
/// leading digit run found after the opening byte (the bracket), `None`
/// when that run is empty.
pub open spec fn row_of_payload(payload: Seq<u8>) -> Option<nat> {
    if payload.len() == 0 {
        None
    } else {
        let d = payload.skip(1);
        let run = digit_run_len(d) as int;
        if run == 0 {
            None
        } else {
            Some(digits_value(d.take(run)))
        }
    }
}

/// Clamp an unbounded row value into the machine word that holds it.
pub open spec fn sat_u64(n: nat) -> nat {
    if n > u64::MAX {
        u64::MAX as nat
    } else {
        n
    }
}

/// The row after a cursor-position payload: updated when the payload
/// carries digits, otherwise the previous row.
pub open spec fn row_update(payload: Seq<u8>, prev: nat) -> nat {
    match row_of_payload(payload) {
        Some(v) => sat_u64(v),
        None => prev,
    }
}

/// Which lane-change keystroke to send: up from the ground row, else down.
pub open spec fn jump_action(row: nat) -> Action {
    if row == GROUND_ROW {
        Action::JumpUp
    } else {
        Action::JumpDown
    }
}

/// A completed colour sequence, whose `ESC` stood at `col`, reaches the
/// tracker. The player marker records the column; the first obstacle
/// marker of a frame seen after the player may trigger a jump and always
/// flags the frame, even when the obstacle stands behind the player or
/// too far ahead.
pub open spec fn sgr_event(s: ScanModel, col: nat, code: Seq<u8>) -> (ScanModel, Option<Action>) {
    if code == player_code() {
        (ScanModel { player: Some(col), ..s }, None)
    } else if code == obstacle_code() && !s.obstacle {
        match s.player {
            Some(p) => (
                ScanModel { obstacle: true, ..s },
                if p <= col && col - p <= JUMP_DISTANCE {
                    Some(jump_action(s.row))
                } else {
                    None
                },
            ),
            None => (s, None),
        }
    } else {
        (s, None)
    }
}

/// A completed cursor-position sequence reaches the tracker: it marks a
/// new frame, so the player column and the obstacle flag are cleared,
/// and the row is updated when the payload carries one.
pub open spec fn cursor_event(s: ScanModel, payload: Seq<u8>) -> ScanModel {
    ScanModel {
        player: None,
        obstacle: false,
        row: row_update(payload, s.row),
        ..s
    }
}

/// The escape-bookkeeping part of one byte: `ESC` opens a fresh sequence,
/// discarding any open one; any other byte is appended to the open
/// sequence, and the two recognised terminators dispatch to the tracker.
pub open spec fn step_escape(s: ScanModel, col: nat, byte: u8) -> (ScanModel, Option<Action>) {
    if byte == ESC {
        (ScanModel { escape: Some((col, Seq::empty())), ..s }, None)
    } else {
        match s.escape {
            Some((start, acc)) => {
                let acc2 = acc.push(byte);
                let s_open = ScanModel { escape: Some((start, acc2)), ..s };
                if byte == SGR_END {
                    sgr_event(s_open, start, acc2)
                } else if byte == CUP_END {
                    (cursor_event(s_open, acc2), None)
                } else {
                    (s_open, None)
                }
            },
            None => (s, None),
        }
    }
}

/// One byte of the game's output at column `col` of the current chunk:
/// escape bookkeeping, then any terminator closes the open sequence, and
/// the game-over byte emits its action independently of all of it.
pub open spec fn step(s: ScanModel, col: nat, byte: u8) -> (ScanModel, Option<Action>) {
    let (s1, act) = step_escape(s, col, byte);
    let s2 = if byte == SGR_END || byte == CUP_END || byte == CUP_ALT_END {
        ScanModel { escape: None, ..s1 }
    } else {
        s1
    };
    let act2 = if byte == GAME_OVER_BYTE {
        Some(Action::GameOver)
    } else {
        act
    };
    (s2, act2)
}

/// Scan the bytes of `chunk` at columns `i` (inclusive) to `j`
/// (exclusive), collecting the actions in stream order.
pub open spec fn scan_range(s: ScanModel, chunk: Seq<u8>, i: nat, j: nat) -> (ScanModel, Seq<
    Action,
>)
    decreases j - i,
{
    if i >= j || i >= chunk.len() {
        (s, Seq::empty())
    } else {
        let (s1, act) = step(s, i, chunk[i as int]);
        let (s2, acts) = scan_range(s1, chunk, i + 1, j);
        match act {
            Some(a) => (s2, seq![a] + acts),
            None => (s2, acts),
        }
    }
}

/// Scan one whole chunk, column zero onward.
pub open spec fn scan(s: ScanModel, chunk: Seq<u8>) -> (ScanModel, Seq<Action>) {
    scan_range(s, chunk, 0, chunk.len())
}

/// A position bounding a digit run from both sides is its length.
pub proof fn lemma_digit_run_len_exact(d: Seq<u8>, k: nat)
    requires
        k <= d.len(),
        forall|j: int| 0 <= j < k ==> is_digit(#[trigger] d[j]),
        k < d.len() ==> !is_digit(d[k as int]),
    ensures
        digit_run_len(d) == k,
    decreases d.len(),
{
    if k == 0 {
    } else {
        assert(is_digit(d[0]));
        assert forall|j: int| 0 <= j < k - 1 implies is_digit(#[trigger] d.skip(1)[j]) by {
            assert(d.skip(1)[j] == d[j + 1]);
        }
        if k < d.len() {
            assert(d.skip(1)[k as int - 1] == d[k as int]);
        }
        lemma_digit_run_len_exact(d.skip(1), (k - 1) as nat);
    }
}

/// Appending one digit multiplies the value by ten and adds the digit.
pub proof fn lemma_digits_value_push(s: Seq<u8>, b: u8)
    ensures
        digits_value(s.push(b)) == digits_value(s) * 10 + ((b - 48) as nat),
{
    assert(s.push(b).drop_last() =~= s);
    assert(s.push(b).last() == b);
}

/// Scanning a range is scanning up to a midpoint and then onward from
/// the state the midpoint left, with the actions concatenated.
pub proof fn lemma_scan_range_split(s: ScanModel, chunk: Seq<u8>, i: nat, j: nat, k: nat)
    requires
        i <= j <= k,
    ensures
        scan_range(s, chunk, i, k).0 == scan_range(scan_range(s, chunk, i, j).0, chunk, j, k).0,
        scan_range(s, chunk, i, k).1 == scan_range(s, chunk, i, j).1 + scan_range(
            scan_range(s, chunk, i, j).0,
            chunk,
            j,
            k,
        ).1,
    decreases j - i,
{
    if i >= j || i >= chunk.len() {
        assert(scan_range(s, chunk, i, j).0 == s);
        if i >= chunk.len() {
            assert(scan_range(s, chunk, i, k).1 =~= Seq::<Action>::empty() + scan_range(
                s,
                chunk,
                j,
                k,
            ).1);
            assert(scan_range(s, chunk, j, k).0 == s && scan_range(s, chunk, j, k).1
                =~= Seq::<Action>::empty()) by {
                lemma_scan_range_empty(s, chunk, j, k);
            }
        } else {
            assert(scan_range(s, chunk, i, k).1 =~= scan_range(s, chunk, i, j).1 + scan_range(
                s,
                chunk,
                j,
                k,
            ).1);
        }
    } else {
        let (s1, act) = step(s, i, chunk[i as int]);
        lemma_scan_range_split(s1, chunk, i + 1, j, k);
        match act {
            Some(a) => {
                assert(seq![a] + scan_range(s1, chunk, i + 1, k).1 =~= (seq![a] + scan_range(
                    s1,
                    chunk,
                    i + 1,
                    j,
                ).1) + scan_range(scan_range(s, chunk, i, j).0, chunk, j, k).1);
            },
            None => {},
        }
    }
}

/// Past the end of the chunk nothing changes and nothing is emitted.
pub proof fn lemma_scan_range_empty(s: ScanModel, chunk: Seq<u8>, j: nat, k: nat)
    requires
        j >= chunk.len() || j >= k,
    ensures
        scan_range(s, chunk, j, k).0 == s,
        scan_range(s, chunk, j, k).1 == Seq::<Action>::empty(),
{
}

/// The bytes a keystroke puts on the game's input channel.
pub open spec fn action_bytes_spec(a: Action) -> Seq<u8> {
    match a {
        Action::JumpUp => seq![27u8, 91u8, 65u8],
        Action::JumpDown => seq![27u8, 91u8, 66u8],
        Action::GameOver => seq![113u8],
    }
}

} // verus!
