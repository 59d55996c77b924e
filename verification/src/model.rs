use vstd::prelude::*;

verus! {

/// Number of tableau columns on every board.
pub const NUM_COLUMNS: usize = 8;

/// Number of distinct card face values.
pub const NUM_RANKS: usize = 10;

/// Cards of one value that make a complete run, and the cap used when
/// measuring a column's top run.
pub const RUN_SIZE: usize = 4;

/// Mathematical model of a board: the card sequences of the columns and of
/// the holding slots.  In each sequence the last element is the top card.
pub ghost struct BoardView {
    pub stacks: Seq<Seq<u8>>,
    pub slots: Seq<Seq<u8>>,
}

/// A reference to one pile of a board: a tableau column or a holding slot.
#[derive(Clone, Copy, Debug, PartialEq, Eq, Structural)]
pub enum Location {
    Column(usize),
    Slot(usize),
}

/// Moving `count` cards as a unit from the top of `from` onto `to`.
#[derive(Clone, Copy, Debug, PartialEq, Eq, Structural)]
pub struct Move {
    pub from: Location,
    pub to: Location,
    pub count: usize,
}

/// Length of the maximal run of equal cards counted from the top of a pile,
/// without any cap.
pub open spec fn top_run(s: Seq<u8>) -> nat
    decreases s.len(),
{
    if s.len() == 0 {
        0nat
    } else if s.len() >= 2 && s[s.len() - 2] == s[s.len() - 1] {
        (1 + top_run(s.drop_last())) as nat
    } else {
        1nat
    }
}

/// The top-run length capped at `RUN_SIZE`.
pub open spec fn capped_run(s: Seq<u8>) -> nat {
    if top_run(s) >= RUN_SIZE {
        RUN_SIZE as nat
    } else {
        top_run(s)
    }
}

/// A completed, locked run: a column of exactly `RUN_SIZE` equal cards.
/// Such a column is inert: it is never a move source.
pub open spec fn is_locked(s: Seq<u8>) -> bool {
    s.len() == RUN_SIZE && capped_run(s) == RUN_SIZE
}

/// Every card of the pile has a value below `NUM_RANKS`.
pub open spec fn card_seq_ok(s: Seq<u8>) -> bool {
    forall|j: int| 0 <= j < s.len() ==> (#[trigger] s[j]) < NUM_RANKS as u8
}

/// Well-formedness of a board: the fixed column count, card values in range,
/// and no slot fuller than one complete run.
pub open spec fn board_wf(v: BoardView) -> bool {
    &&& v.stacks.len() == NUM_COLUMNS
    &&& forall|i: int| 0 <= i < v.stacks.len() ==> card_seq_ok(#[trigger] v.stacks[i])
    &&& forall|i: int| 0 <= i < v.slots.len() ==> card_seq_ok(#[trigger] v.slots[i])
    &&& forall|i: int| 0 <= i < v.slots.len() ==> (#[trigger] v.slots[i]).len() <= RUN_SIZE
}

/// Number of cards a location holds.
pub open spec fn loc_len(v: BoardView, l: Location) -> nat {
    match l {
        Location::Column(f) => v.stacks[f as int].len(),
        Location::Slot(s) => v.slots[s as int].len(),
    }
}

/// Exactly the moves the rules allow:
/// - column to column: a non-empty, non-locked source; a distinct destination
///   that is empty or whose top card equals the source's top card; any count
///   up to the source's capped top run;
/// - column to slot: a non-empty, non-locked source and an empty slot; one
///   card, or a whole run of `RUN_SIZE` when the source's capped run is full;
/// - slot to column: a slot holding exactly one card; a destination that is
///   empty or whose top card equals it; one card.
/// No other move exists; in particular a slot holding two or more cards is
/// never a source, and slot-to-slot moves do not exist.
pub open spec fn move_legal(v: BoardView, m: Move) -> bool {
    match (m.from, m.to) {
        (Location::Column(f), Location::Column(t)) => {
            &&& f < v.stacks.len()
            &&& t < v.stacks.len()
            &&& f != t
            &&& v.stacks[f as int].len() > 0
            &&& !is_locked(v.stacks[f as int])
            &&& (v.stacks[t as int].len() == 0 || v.stacks[t as int].last()
                == v.stacks[f as int].last())
            &&& 1 <= m.count
            &&& m.count <= capped_run(v.stacks[f as int])
        },
        (Location::Column(f), Location::Slot(s)) => {
            &&& f < v.stacks.len()
            &&& s < v.slots.len()
            &&& v.stacks[f as int].len() > 0
            &&& !is_locked(v.stacks[f as int])
            &&& v.slots[s as int].len() == 0
            &&& (m.count == 1 || (m.count == RUN_SIZE && capped_run(v.stacks[f as int])
                == RUN_SIZE))
        },
        (Location::Slot(s), Location::Column(t)) => {
            &&& s < v.slots.len()
            &&& t < v.stacks.len()
            &&& v.slots[s as int].len() == 1
            &&& (v.stacks[t as int].len() == 0 || v.stacks[t as int].last()
                == v.slots[s as int][0])
            &&& m.count == 1
        },
        (Location::Slot(_), Location::Slot(_)) => false,
    }
}

/// The board after a legal move: `count` cards leave the top of `from` and
/// arrive, in the same relative order, on top of `to`.
pub open spec fn apply_move(v: BoardView, m: Move) -> BoardView
    recommends
        move_legal(v, m),
{
    match (m.from, m.to) {
        (Location::Column(f), Location::Column(t)) => {
            let src = v.stacks[f as int];
            let cut = src.len() - m.count;
            BoardView {
                stacks: v.stacks.update(f as int, src.take(cut)).update(
                    t as int,
                    v.stacks[t as int] + src.skip(cut),
                ),
                slots: v.slots,
            }
        },
        (Location::Column(f), Location::Slot(s)) => {
            let src = v.stacks[f as int];
            let cut = src.len() - m.count;
            BoardView {
                stacks: v.stacks.update(f as int, src.take(cut)),
                slots: v.slots.update(s as int, v.slots[s as int] + src.skip(cut)),
            }
        },
        (Location::Slot(s), Location::Column(t)) => {
            BoardView {
                stacks: v.stacks.update(t as int, v.stacks[t as int] + v.slots[s as int]),
                slots: v.slots.update(s as int, Seq::empty()),
            }
        },
        (Location::Slot(_), Location::Slot(_)) => v,
    }
}

/// Two to the power `k`.
pub open spec fn pow2(k: nat) -> nat
    decreases k,
{
    if k == 0 {
        1nat
    } else {
        2 * pow2((k - 1) as nat)
    }
}

/// Sum of the columns' score terms: each column contributes two to the power
/// of its capped top-run length.
pub open spec fn col_scores_sum(stacks: Seq<Seq<u8>>) -> nat
    decreases stacks.len(),
{
    if stacks.len() == 0 {
        0nat
    } else {
        col_scores_sum(stacks.drop_last()) + pow2(capped_run(stacks.last()))
    }
}

/// Sum of the slots' score terms: each slot contributes two to the power of
/// the number of cards it holds.
pub open spec fn slot_scores_sum(slots: Seq<Seq<u8>>) -> nat
    decreases slots.len(),
{
    if slots.len() == 0 {
        0nat
    } else {
        slot_scores_sum(slots.drop_last()) + pow2(slots.last().len())
    }
}

/// The heuristic desirability of a board.
pub open spec fn score_spec(v: BoardView) -> nat {
    col_scores_sum(v.stacks) + slot_scores_sum(v.slots)
}

/// Total number of cards a list of piles holds.
pub open spec fn cards_sum(xs: Seq<Seq<u8>>) -> nat
    decreases xs.len(),
{
    if xs.len() == 0 {
        0nat
    } else {
        cards_sum(xs.drop_last()) + xs.last().len()
    }
}

/// Total number of cards on a board.
pub open spec fn card_count(v: BoardView) -> nat {
    cards_sum(v.stacks) + cards_sum(v.slots)
}

/// The score of a fully organized board with the given slot count: every
/// column is a complete locked run, the leftover runs fill as many slots as
/// the shape allows, and every remaining slot is empty.  Each full column or
/// full slot contributes two to the power `RUN_SIZE`; each empty slot
/// contributes one.
pub open spec fn win_threshold_spec(slot_count: nat) -> nat {
    let leftover = (NUM_RANKS - NUM_COLUMNS) as nat;
    let full_slots = if slot_count <= leftover {
        slot_count
    } else {
        leftover
    };
    pow2(RUN_SIZE as nat) * (NUM_COLUMNS as nat) + pow2(RUN_SIZE as nat) * full_slots + (slot_count
        - full_slots) as nat
}

/// A pile whose cards are all equal.
pub open spec fn all_equal(s: Seq<u8>) -> bool {
    forall|i: int, j: int| 0 <= i < s.len() && 0 <= j < s.len() ==> s[i] == s[j]
}

/// Every move of the sequence is legal in the board it is applied to.
pub open spec fn path_ok(v: BoardView, ms: Seq<Move>) -> bool
    decreases ms.len(),
{
    ms.len() == 0 || (move_legal(v, ms[0]) && path_ok(apply_move(v, ms[0]), ms.skip(1)))
}

/// The board a move sequence leads to.
pub open spec fn path_end(v: BoardView, ms: Seq<Move>) -> BoardView
    decreases ms.len(),
{
    if ms.len() == 0 {
        v
    } else {
        path_end(apply_move(v, ms[0]), ms.skip(1))
    }
}

} // verus!
