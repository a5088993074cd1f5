//! Properties of the scanner and tracker, proved once and for all.

use vstd::prelude::*;
use crate::state::{
    cursor_event, digit_run_len, digits_value, is_digit, jump_action, lemma_digit_run_len_exact,
    lemma_scan_range_empty, lemma_scan_range_split, obstacle_code, player_code, row_update,
    sat_u64, scan, scan_range, sgr_event, step, Action, ScanModel, CUP_END, ESC, GAME_OVER_BYTE,
    JUMP_DISTANCE,
};

verus! {

/// The two colour markers differ.
proof fn lemma_codes_differ()
    ensures
        player_code() != obstacle_code(),
{
    assert(player_code()[2] == 55);
    assert(obstacle_code()[2] == 49);
}

/// The frame state after a cursor-position event and then a player
/// marker whose `ESC` stood at column `p`.
pub open spec fn frame_after_player(s: ScanModel, payload: Seq<u8>, p: nat) -> ScanModel {
    sgr_event(cursor_event(s, payload), p, player_code()).0
}

/// Within one frame — a cursor-position event, then a player marker at
/// column `p`, then an obstacle marker at column `o` — the jump fires
/// exactly when the obstacle is at or ahead of the player by at most the
/// jump distance; its direction is chosen by the row the frame carries;
/// and the frame is flagged whether or not the jump fired.
pub proof fn lemma_frame_jump_decision(s: ScanModel, payload: Seq<u8>, p: nat, o: nat)
    ensures
        sgr_event(frame_after_player(s, payload, p), o, obstacle_code()).1 is Some <==> (p <= o
            && o - p <= JUMP_DISTANCE),
        (p <= o && o - p <= JUMP_DISTANCE) ==> sgr_event(
            frame_after_player(s, payload, p),
            o,
            obstacle_code(),
        ).1 == Some(jump_action(row_update(payload, s.row))),
        sgr_event(frame_after_player(s, payload, p), o, obstacle_code()).0.obstacle,
{
    lemma_codes_differ();
    let s1 = cursor_event(s, payload);
    let s2 = frame_after_player(s, payload, p);
    assert(s2.player == Some(p));
    assert(!s2.obstacle);
    assert(s2.row == row_update(payload, s.row));
}

/// A sequence of completed colour events, folded through the tracker in
/// order, with the actions they emit.
pub open spec fn sgr_fold(s: ScanModel, evs: Seq<(nat, Seq<u8>)>) -> (ScanModel, Seq<Action>)
    decreases evs.len(),
{
    if evs.len() == 0 {
        (s, Seq::empty())
    } else {
        let (s1, act) = sgr_event(s, evs[0].0, evs[0].1);
        let (s2, acts) = sgr_fold(s1, evs.skip(1));
        match act {
            Some(a) => (s2, seq![a] + acts),
            None => (s2, acts),
        }
    }
}

/// Once a frame is flagged, no colour event of that frame — however many
/// follow, obstacle markers included — emits a further action, and the
/// flag stands until the next cursor-position event.
pub proof fn lemma_flagged_frame_is_quiet(s: ScanModel, evs: Seq<(nat, Seq<u8>)>)
    requires
        s.obstacle,
    ensures
        sgr_fold(s, evs).1 == Seq::<Action>::empty(),
        sgr_fold(s, evs).0.obstacle,
    decreases evs.len(),
{
    if evs.len() == 0 {
    } else {
        let (s1, act) = sgr_event(s, evs[0].0, evs[0].1);
        assert(act is None);
        assert(s1.obstacle);
        lemma_flagged_frame_is_quiet(s1, evs.skip(1));
    }
}

/// An obstacle marker that stands behind the player fires no jump but
/// still flags the frame.
pub proof fn lemma_obstacle_behind_player(s: ScanModel, col: nat, p: nat)
    requires
        s.player == Some(p),
        !s.obstacle,
        col < p,
    ensures
        sgr_event(s, col, obstacle_code()).1 is None,
        sgr_event(s, col, obstacle_code()).0.obstacle,
{
    lemma_codes_differ();
}

proof fn lemma_marker_suffix(s: ScanModel, chunk: Seq<u8>, j: nat, i: nat)
    requires
        j <= i,
        chunk.len() == i + 5,
        chunk[i as int] == ESC,
        chunk[i as int + 1] == 91,
        chunk[i as int + 2] == 52,
        chunk[i as int + 3] == 55,
        chunk[i as int + 4] == 109,
    ensures
        scan_range(s, chunk, j, chunk.len()).0.player == Some(i),
    decreases i - j,
{
    if j < i {
        let (s1, _) = step(s, j, chunk[j as int]);
        lemma_marker_suffix(s1, chunk, j + 1, i);
    } else {
        let n = chunk.len();
        let (t1, _) = step(s, i, ESC);
        assert(t1.escape == Some((i, Seq::<u8>::empty())));
        let (t2, _) = step(t1, i + 1, 91);
        assert(t2.escape == Some((i, Seq::<u8>::empty().push(91))));
        let (t3, _) = step(t2, i + 2, 52);
        assert(t3.escape == Some((i, Seq::<u8>::empty().push(91).push(52))));
        let (t4, _) = step(t3, i + 3, 55);
        assert(t4.escape == Some((i, Seq::<u8>::empty().push(91).push(52).push(55))));
        let (t5, _) = step(t4, i + 4, 109);
        assert(Seq::<u8>::empty().push(91).push(52).push(55).push(109) =~= player_code());
        assert(t5.player == Some(i));
        assert(scan_range(s, chunk, i, n).0 == scan_range(t1, chunk, i + 1, n).0);
        assert(scan_range(t1, chunk, i + 1, n).0 == scan_range(t2, chunk, i + 2, n).0);
        assert(scan_range(t2, chunk, i + 2, n).0 == scan_range(t3, chunk, i + 3, n).0);
        assert(scan_range(t3, chunk, i + 3, n).0 == scan_range(t4, chunk, i + 4, n).0);
        assert(scan_range(t4, chunk, i + 4, n).0 == scan_range(t5, chunk, i + 5, n).0);
        lemma_scan_range_empty(t5, chunk, i + 5, n);
    }
}

/// A complete player marker — `ESC [ 4 7 m` standing whole inside one
/// chunk — leaves the player column at its `ESC`'s column once the
/// terminator has been scanned, whatever came before it.
pub proof fn lemma_player_marker_sets_column(s: ScanModel, chunk: Seq<u8>, i: nat)
    requires
        i + 5 <= chunk.len(),
        chunk[i as int] == ESC,
        chunk[i as int + 1] == 91,
        chunk[i as int + 2] == 52,
        chunk[i as int + 3] == 55,
        chunk[i as int + 4] == 109,
    ensures
        scan(s, chunk.take(i as int + 5)).0.player == Some(i),
{
    let pre = chunk.take(i as int + 5);
    assert(pre[i as int] == ESC);
    assert(pre[i as int + 1] == 91);
    assert(pre[i as int + 2] == 52);
    assert(pre[i as int + 3] == 55);
    assert(pre[i as int + 4] == 109);
    lemma_marker_suffix(s, pre, 0, i);
}

/// How many of the emitted keystrokes are the game-over keystroke.
pub open spec fn game_over_count(acts: Seq<Action>) -> nat
    decreases acts.len(),
{
    if acts.len() == 0 {
        0
    } else {
        (if acts[0] == Action::GameOver {
            1nat
        } else {
            0nat
        }) + game_over_count(acts.skip(1))
    }
}

/// How many bytes of the chunk, from column `i` on, equal `b`.
pub open spec fn byte_count(chunk: Seq<u8>, b: u8, i: nat) -> nat
    decreases chunk.len() - i,
{
    if i >= chunk.len() {
        0
    } else {
        (if chunk[i as int] == b {
            1nat
        } else {
            0nat
        }) + byte_count(chunk, b, i + 1)
    }
}

proof fn lemma_game_over_count_cons(a: Action, acts: Seq<Action>)
    ensures
        game_over_count(seq![a] + acts) == (if a == Action::GameOver {
            1nat
        } else {
            0nat
        }) + game_over_count(acts),
{
    assert((seq![a] + acts)[0] == a);
    assert((seq![a] + acts).skip(1) =~= acts);
}

proof fn lemma_game_over_suffix(s: ScanModel, chunk: Seq<u8>, i: nat)
    ensures
        game_over_count(scan_range(s, chunk, i, chunk.len()).1) == byte_count(
            chunk,
            GAME_OVER_BYTE,
            i,
        ),
    decreases chunk.len() - i,
{
    if i >= chunk.len() {
    } else {
        let byte = chunk[i as int];
        let (s1, act) = step(s, i, byte);
        lemma_game_over_suffix(s1, chunk, i + 1);
        match act {
            Some(a) => {
                lemma_game_over_count_cons(a, scan_range(s1, chunk, i + 1, chunk.len()).1);
                if byte == GAME_OVER_BYTE {
                    assert(a == Action::GameOver);
                } else {
                    assert(a != Action::GameOver);
                }
            },
            None => {
                assert(byte != GAME_OVER_BYTE);
            },
        }
    }
}

/// The state every row-bearing cursor reset leaves behind: no sequence
/// open, no player seen, no obstacle flagged.
pub open spec fn frame_reset(row: nat) -> ScanModel {
    ScanModel { escape: None, player: None, obstacle: false, row }
}

/// A row-bearing cursor-position sequence, `ESC [ <digits> H`.
pub open spec fn cursor_reset_seq(digits: Seq<u8>) -> Seq<u8> {
    seq![ESC, 91u8] + digits + seq![CUP_END]
}

proof fn lemma_digit_bytes_appended(
    s: ScanModel,
    chunk: Seq<u8>,
    i: nat,
    end: nat,
    start: nat,
    acc: Seq<u8>,
)
    requires
        s.escape == Some((start, acc)),
        i <= end <= chunk.len(),
        forall|j: int| i <= j < end ==> is_digit(#[trigger] chunk[j]),
    ensures
        scan_range(s, chunk, i, end).0 == (ScanModel {
            escape: Some((start, acc + chunk.subrange(i as int, end as int))),
            ..s
        }),
        scan_range(s, chunk, i, end).1 == Seq::<Action>::empty(),
    decreases end - i,
{
    if i >= end {
        assert(acc + chunk.subrange(i as int, end as int) =~= acc);
    } else {
        let byte = chunk[i as int];
        assert(is_digit(byte));
        let (s1, act) = step(s, i, byte);
        assert(act is None);
        assert(s1 == (ScanModel { escape: Some((start, acc.push(byte))), ..s }));
        lemma_digit_bytes_appended(s1, chunk, i + 1, end, start, acc.push(byte));
        assert(acc.push(byte) + chunk.subrange(i as int + 1, end as int) =~= acc + chunk.subrange(
            i as int,
            end as int,
        ));
    }
}

/// A whole row-bearing cursor reset at the head of a chunk drives the
/// scanner into one fixed state — the reset frame with the row the
/// digits spell — whatever state it started from, and emits nothing.
pub proof fn lemma_cursor_reset_determines_state(s: ScanModel, chunk: Seq<u8>, digits: Seq<u8>)
    requires
        digits.len() >= 1,
        forall|j: int| 0 <= j < digits.len() ==> is_digit(#[trigger] digits[j]),
        digits.len() + 3 <= chunk.len(),
        chunk.take(digits.len() as int + 3) == cursor_reset_seq(digits),
    ensures
        scan_range(s, chunk, 0, digits.len() + 3).0 == frame_reset(
            sat_u64(digits_value(digits)),
        ),
        scan_range(s, chunk, 0, digits.len() + 3).1 == Seq::<Action>::empty(),
{
    let dlen = digits.len();
    let k = dlen + 3;
    assert forall|j: int| 0 <= j < k implies chunk[j] == cursor_reset_seq(digits)[j] by {
        assert(chunk.take(k as int)[j] == chunk[j]);
    }
    assert(chunk[0] == ESC);
    assert(chunk[1] == 91);
    assert forall|j: int| 2 <= j < k - 1 implies is_digit(#[trigger] chunk[j]) by {
        assert(cursor_reset_seq(digits)[j] == digits[j - 2]);
    }
    assert(chunk[k as int - 1] == CUP_END);

    let (u1, a1) = step(s, 0, ESC);
    assert(u1.escape == Some((0nat, Seq::<u8>::empty())) && a1 is None);
    let (u2, a2) = step(u1, 1, 91);
    assert(u2.escape == Some((0nat, Seq::<u8>::empty().push(91))) && a2 is None);
    lemma_digit_bytes_appended(u2, chunk, 2, (k - 1) as nat, 0, Seq::<u8>::empty().push(91));
    let u3 = scan_range(u2, chunk, 2, (k - 1) as nat).0;
    let acc3 = Seq::<u8>::empty().push(91) + chunk.subrange(2, k as int - 1);
    assert(chunk.subrange(2, k as int - 1) =~= digits);
    assert(u3.escape == Some((0nat, acc3)));
    assert(u3.player == s.player && u3.obstacle == s.obstacle && u3.row == s.row);

    let (u4, a4) = step(u3, (k - 1) as nat, CUP_END);
    let payload = acc3.push(CUP_END);
    assert(payload.skip(1) =~= digits + seq![CUP_END]);
    lemma_digit_run_len_exact(digits + seq![CUP_END], dlen);
    assert((digits + seq![CUP_END]).take(dlen as int) =~= digits);
    assert(u4 == frame_reset(sat_u64(digits_value(digits))));
    assert(a4 is None);

    lemma_scan_range_split(u2, chunk, 2, (k - 1) as nat, k);
    lemma_scan_range_empty(u4, chunk, k, k);
    assert(scan_range(u3, chunk, (k - 1) as nat, k).0 == u4);
    assert(scan_range(u3, chunk, (k - 1) as nat, k).1 =~= Seq::<Action>::empty());
    assert(scan_range(u2, chunk, 2, k).0 == u4);
    assert(scan_range(u2, chunk, 2, k).1 =~= Seq::<Action>::empty());
    assert(scan_range(u1, chunk, 1, k).0 == u4);
    assert(scan_range(s, chunk, 0, k).0 == u4);
    assert(scan_range(s, chunk, 0, k).1 =~= Seq::<Action>::empty());
}

/// Replaying one identical chunk twice, each pass its own frame opened
/// by the same row-bearing cursor reset at the head of the chunk, emits
/// the same keystrokes both times and ends in the same state.
pub proof fn lemma_replay_is_idempotent(s: ScanModel, chunk: Seq<u8>, digits: Seq<u8>)
    requires
        digits.len() >= 1,
        forall|j: int| 0 <= j < digits.len() ==> is_digit(#[trigger] digits[j]),
        digits.len() + 3 <= chunk.len(),
        chunk.take(digits.len() as int + 3) == cursor_reset_seq(digits),
    ensures
        scan(scan(s, chunk).0, chunk).1 == scan(s, chunk).1,
        scan(scan(s, chunk).0, chunk).0 == scan(s, chunk).0,
{
    let k = digits.len() + 3;
    let t = scan(s, chunk).0;
    let reset = frame_reset(sat_u64(digits_value(digits)));
    lemma_cursor_reset_determines_state(s, chunk, digits);
    lemma_cursor_reset_determines_state(t, chunk, digits);
    lemma_scan_range_split(s, chunk, 0, k, chunk.len());
    lemma_scan_range_split(t, chunk, 0, k, chunk.len());
    assert(Seq::<Action>::empty() + scan_range(reset, chunk, k, chunk.len()).1 =~= scan_range(
        reset,
        chunk,
        k,
        chunk.len(),
    ).1);
}

/// Each occurrence of the game-over byte in a chunk puts exactly one
/// game-over keystroke among the emitted actions, whatever else the
/// chunk holds and whatever state the scanner was in.
pub proof fn lemma_game_over_once_per_occurrence(s: ScanModel, chunk: Seq<u8>)
    ensures
        game_over_count(scan(s, chunk).1) == byte_count(chunk, GAME_OVER_BYTE, 0),
{
    lemma_game_over_suffix(s, chunk, 0);
}

} // verus!
