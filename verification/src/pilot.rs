//! The executable scanner, tracker and controller.
//!
//! An [`Autopilot`] holds the cross-chunk state; [`Autopilot::process_chunk`]
//! is fed every chunk the game writes and returns, in stream order, the
//! keystrokes to send back into the game's input channel.

use vstd::prelude::*;
use crate::state::{
    Action, ScanModel, action_bytes_spec, digit_run_len, digits_value, initial_model, is_digit,
    lemma_digit_run_len_exact, lemma_digits_value_push, lemma_scan_range_split,
    lemma_scan_range_empty, obstacle_code, player_code, row_of_payload, sat_u64, scan, scan_range,
    step, CUP_ALT_END, CUP_END, ESC, GAME_OVER_BYTE, GROUND_ROW, JUMP_DISTANCE, SGR_END,
};

verus! {

/// The scanner's cross-chunk state: the open escape sequence, and the
/// frame state derived from completed sequences.
pub struct Autopilot {
    escape: Option<(usize, Vec<u8>)>,
    player: Option<usize>,
    obstacle: bool,
    row: u64,
}

impl View for Autopilot {
    type V = ScanModel;

    closed spec fn view(&self) -> ScanModel {
        ScanModel {
            escape: match self.escape {
                Some((c, v)) => Some((c as nat, v@)),
                None => None,
            },
            player: match self.player {
                Some(p) => Some(p as nat),
                None => None,
            },
            obstacle: self.obstacle,
            row: self.row as nat,
        }
    }
}

/// The player colour marker, `[47m`, as accumulated bytes.
fn is_player_code(v: &Vec<u8>) -> (r: bool)
    ensures
        r == (v@ == player_code()),
{
    let r = v.len() == 4 && v[0] == 91 && v[1] == 52 && v[2] == 55 && v[3] == 109;
    proof {
        if r {
            assert(v@ =~= player_code());
        } else if v@ == player_code() {
            assert(v@.len() == 4);
            assert(v@[0] == 91 && v@[1] == 52 && v@[2] == 55 && v@[3] == 109);
        }
    }
    r
}

/// The obstacle colour marker, `[41m`, as accumulated bytes.
fn is_obstacle_code(v: &Vec<u8>) -> (r: bool)
    ensures
        r == (v@ == obstacle_code()),
{
    let r = v.len() == 4 && v[0] == 91 && v[1] == 52 && v[2] == 49 && v[3] == 109;
    proof {
        if r {
            assert(v@ =~= obstacle_code());
        } else if v@ == obstacle_code() {
            assert(v@.len() == 4);
            assert(v@[0] == 91 && v@[1] == 52 && v@[2] == 49 && v@[3] == 109);
        }
    }
    r
}

/// Row number of a cursor-position payload, saturated into a `u64`;
/// `None` when the payload carries no digits.
fn parse_row_payload(payload: &Vec<u8>) -> (r: Option<u64>)
    ensures
        r == match row_of_payload(payload@) {
            Some(v) => Some(sat_u64(v) as u64),
            None => None::<u64>,
        },
{
    if payload.len() == 0 {
        return None;
    }
    let ghost d = payload@.skip(1);
    let mut i: usize = 1;
    let mut val: u64 = 0;
    while i < payload.len() && 48 <= payload[i] && payload[i] <= 57
        invariant
            1 <= i <= payload@.len(),
            d == payload@.skip(1),
            forall|j: int| 0 <= j < i - 1 ==> is_digit(#[trigger] d[j]),
            val as nat == sat_u64(digits_value(d.take(i - 1))),
        decreases payload@.len() - i,
    {
        let b = payload[i];
        let dd = (b - 48) as u64;
        proof {
            assert(d[i - 1] == payload@[i as int]);
            assert(d.take(i as int) =~= d.take(i - 1).push(b));
            lemma_digits_value_push(d.take(i - 1), b);
        }
        let ghost whole: nat = digits_value(d.take(i as int));
        let ghost prev: nat = digits_value(d.take(i - 1));
        if val <= (u64::MAX - dd) / 10 {
            proof {
                assert(val * 10 + dd <= u64::MAX) by (nonlinear_arith)
                    requires
                        val <= (u64::MAX - dd) / 10,
                        dd <= 9,
                ;
                assert(prev <= u64::MAX);
                assert(whole == prev * 10 + dd);
            }
            val = val * 10 + dd;
        } else {
            proof {
                assert(val as nat * 10 + dd > u64::MAX) by (nonlinear_arith)
                    requires
                        val > (u64::MAX - dd) / 10,
                        dd <= 9,
                ;
                if prev <= u64::MAX {
                    assert(whole > u64::MAX);
                } else {
                    assert(whole >= prev * 10) by (nonlinear_arith)
                        requires
                            whole == prev * 10 + dd,
                    ;
                    assert(whole > u64::MAX);
                }
            }
            val = u64::MAX;
        }
        i = i + 1;
    }
    proof {
        if i < payload@.len() {
            assert(d[i - 1] == payload@[i as int]);
        }
        lemma_digit_run_len_exact(d, (i - 1) as nat);
        assert(d.take(digit_run_len(d) as int) == d.take(i - 1));
    }
    if i == 1 {
        None
    } else {
        Some(val)
    }
}

impl Autopilot {
    /// A scanner that has seen nothing yet.
    pub fn new() -> (s: Self)
        ensures
            s@ == initial_model(),
    {
        Autopilot { escape: None, player: None, obstacle: false, row: 0 }
    }

    /// Feed one byte of the game's output, read at column `col` of the
    /// current chunk; returns the keystroke it calls for, if any.
    pub fn process_byte(&mut self, col: usize, byte: u8) -> (act: Option<Action>)
        ensures
            final(self)@ == step(old(self)@, col as nat, byte).0,
            act == step(old(self)@, col as nat, byte).1,
    {
        let mut act: Option<Action> = None;
        if byte == ESC {
            let fresh: Vec<u8> = Vec::new();
            proof {
                assert(fresh@ =~= Seq::<u8>::empty());
            }
            self.escape = Some((col, fresh));
        } else {
            let taken = self.escape.take();
            match taken {
                Some(pair) => {
                    let (start, mut acc) = pair;
                    acc.push(byte);
                    if byte == SGR_END {
                        if is_player_code(&acc) {
                            self.player = Some(start);
                        } else {
                            let ob = is_obstacle_code(&acc);
                            if ob && !self.obstacle {
                                match self.player {
                                    Some(p) => {
                                        if p <= start && start - p <= JUMP_DISTANCE {
                                            act = Some(
                                                if self.row == GROUND_ROW {
                                                    Action::JumpUp
                                                } else {
                                                    Action::JumpDown
                                                },
                                            );
                                        }
                                        self.obstacle = true;
                                    },
                                    None => {},
                                }
                            }
                        }
                    } else if byte == CUP_END {
                        let parsed = parse_row_payload(&acc);
                        match parsed {
                            Some(v) => {
                                self.row = v;
                            },
                            None => {},
                        }
                        self.player = None;
                        self.obstacle = false;
                    }
                    self.escape = Some((start, acc));
                },
                None => {},
            }
        }
        if byte == SGR_END || byte == CUP_END || byte == CUP_ALT_END {
            self.escape = None;
        }
        if byte == GAME_OVER_BYTE {
            act = Some(Action::GameOver);
        }
        act
    }

    /// Feed one whole chunk of the game's output, byte by byte from
    /// column zero, and collect the keystrokes it calls for in stream
    /// order. Columns are measured inside this chunk alone; a sequence
    /// opened in an earlier chunk keeps the column its `ESC` had there.
    pub fn process_chunk(&mut self, chunk: &[u8]) -> (acts: Vec<Action>)
        ensures
            final(self)@ == scan(old(self)@, chunk@).0,
            acts@ == scan(old(self)@, chunk@).1,
    {
        let ghost s0 = self@;
        let mut acts: Vec<Action> = Vec::new();
        let mut i: usize = 0;
        while i < chunk.len()
            invariant
                i <= chunk@.len(),
                self@ == scan_range(s0, chunk@, 0, i as nat).0,
                acts@ == scan_range(s0, chunk@, 0, i as nat).1,
            decreases chunk@.len() - i,
        {
            let byte = chunk[i];
            proof {
                lemma_scan_range_split(s0, chunk@, 0, i as nat, (i + 1) as nat);
            }
            let ghost mid = self@;
            let a = self.process_byte(i, byte);
            proof {
                assert(chunk@[i as int] == byte);
                lemma_scan_range_empty(
                    step(mid, i as nat, byte).0,
                    chunk@,
                    (i + 1) as nat,
                    (i + 1) as nat,
                );
                assert(scan_range(mid, chunk@, i as nat, (i + 1) as nat).0 == step(
                    mid,
                    i as nat,
                    byte,
                ).0);
                match step(mid, i as nat, byte).1 {
                    Some(x) => {
                        assert(scan_range(mid, chunk@, i as nat, (i + 1) as nat).1 =~= seq![x]);
                        assert(acts@.push(x) =~= scan_range(s0, chunk@, 0, i as nat).1 + seq![x]);
                    },
                    None => {
                        assert(scan_range(mid, chunk@, i as nat, (i + 1) as nat).1
                            =~= Seq::<Action>::empty());
                        assert(acts@ =~= scan_range(s0, chunk@, 0, i as nat).1
                            + Seq::<Action>::empty());
                    },
                }
            }
            match a {
                Some(x) => acts.push(x),
                None => {},
            }
            i = i + 1;
        }
        acts
    }
}

/// An optional machine-word column, as the model holds it.
pub open spec fn column_view(c: Option<usize>) -> Option<nat> {
    match c {
        Some(p) => Some(p as nat),
        None => None,
    }
}

impl Autopilot {
    /// Row last reported by a cursor-position sequence.
    pub fn current_row(&self) -> (r: u64)
        ensures
            r as nat == self@.row,
    {
        self.row
    }

    /// Column at which the player's marker was last seen this frame.
    pub fn player_column(&self) -> (r: Option<usize>)
        ensures
            column_view(r) == self@.player,
    {
        self.player
    }

    /// Whether an obstacle has already been reacted to this frame.
    pub fn obstacle_flagged(&self) -> (r: bool)
        ensures
            r == self@.obstacle,
    {
        self.obstacle
    }
}

/// The bytes that realise one keystroke on the game's input channel.
pub fn action_bytes(a: &Action) -> (r: Vec<u8>)
    ensures
        r@ == action_bytes_spec(*a),
{
    let r: Vec<u8> = match a {
        Action::JumpUp => vec![27u8, 91u8, 65u8],
        Action::JumpDown => vec![27u8, 91u8, 66u8],
        Action::GameOver => vec![113u8],
    };
    proof {
        assert(r@ =~= action_bytes_spec(*a));
    }
    r
}

} // verus!
