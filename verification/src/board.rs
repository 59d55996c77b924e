use vstd::prelude::*;

use crate::model::BoardView;
use crate::model::Location;
use crate::model::Move;
use crate::model::NUM_COLUMNS;
use crate::model::NUM_RANKS;
use crate::model::RUN_SIZE;
use crate::model::all_equal;
use crate::model::apply_move;
use crate::model::board_wf;
use crate::model::capped_run;
use crate::model::card_count;
use crate::model::card_seq_ok;
use crate::model::cards_sum;
use crate::model::col_scores_sum;
use crate::model::is_locked;
use crate::model::move_legal;
use crate::model::pow2;
use crate::model::score_spec;
use crate::model::slot_scores_sum;
use crate::model::top_run;
use crate::model::win_threshold_spec;

verus! {

/// The difficulty the game was started with; it fixes the number of holding
/// slots.
#[derive(Clone, Copy, Debug, PartialEq, Eq, Structural)]
pub enum Difficulty {
    Easy,
    Medium,
    Hard,
    Expert,
}

/// Screen position of a difficulty's menu entry.
pub open spec fn coords_spec(d: Difficulty) -> (i32, i32) {
    match d {
        Difficulty::Easy => (2845i32, 555i32),
        Difficulty::Medium => (3035i32, 555i32),
        Difficulty::Hard => (2845i32, 685i32),
        Difficulty::Expert => (3035i32, 685i32),
    }
}

/// Number of holding slots a difficulty grants.
pub open spec fn slot_count_spec(d: Difficulty) -> nat {
    match d {
        Difficulty::Easy => 4nat,
        Difficulty::Medium => 3nat,
        Difficulty::Hard => 2nat,
        Difficulty::Expert => 1nat,
    }
}

impl Difficulty {
    /// Where the menu entry for this difficulty sits on the screen.
    pub fn get_coords(&self) -> (r: (i32, i32))
        ensures
            r == coords_spec(*self),
    {
        match *self {
            Difficulty::Easy => (2845, 555),
            Difficulty::Medium => (3035, 555),
            Difficulty::Hard => (2845, 685),
            Difficulty::Expert => (3035, 685),
        }
    }

    /// How many holding slots a board of this difficulty has.
    pub fn slot_count(&self) -> (r: usize)
        ensures
            r == slot_count_spec(*self),
    {
        match *self {
            Difficulty::Easy => 4,
            Difficulty::Medium => 3,
            Difficulty::Hard => 2,
            Difficulty::Expert => 1,
        }
    }
}

/// View of a list of piles as a sequence of card sequences.
pub open spec fn dv(s: Seq<Vec<u8>>) -> Seq<Seq<u8>> {
    s.map_values(|v: Vec<u8>| v@)
}

/// A board snapshot: the eight tableau columns, the holding slots, and the
/// difficulty the game was started with.
pub struct Matrix {
    pub stacks: Vec<Vec<u8>>,
    pub difficulty: Difficulty,
    pub slots: Vec<Vec<u8>>,
}

impl View for Matrix {
    type V = BoardView;

    open spec fn view(&self) -> BoardView {
        BoardView { stacks: dv(self.stacks@), slots: dv(self.slots@) }
    }
}

impl Matrix {
    /// A well-formed snapshot: a well-formed board whose slot count matches
    /// its difficulty.
    pub open spec fn wf(self) -> bool {
        &&& board_wf(self@)
        &&& self@.slots.len() == slot_count_spec(self.difficulty)
    }

    /// Builds the initial snapshot from the recognized column contents; every
    /// slot starts empty.
    pub fn new(stacks: Vec<Vec<u8>>, difficulty: Difficulty) -> (r: Matrix)
        requires
            stacks@.len() == NUM_COLUMNS,
            forall|i: int| 0 <= i < stacks@.len() ==> card_seq_ok(#[trigger] stacks@[i]@),
        ensures
            r.wf(),
            r@.stacks == dv(stacks@),
            r@.slots.len() == slot_count_spec(difficulty),
            forall|i: int| 0 <= i < r@.slots.len() ==> (#[trigger] r@.slots[i]).len() == 0,
            r.difficulty == difficulty,
    {
        let n = difficulty.slot_count();
        let mut slots: Vec<Vec<u8>> = Vec::new();
        let mut i: usize = 0;
        while i < n
            invariant
                i <= n,
                slots@.len() == i,
                forall|j: int| 0 <= j < i ==> (#[trigger] slots@[j]@).len() == 0,
            decreases n - i,
        {
            slots.push(Vec::new());
            i += 1;
        }
        let r = Matrix { stacks, difficulty, slots };
        proof {
            assert(forall|i: int| 0 <= i < r@.stacks.len() ==> card_seq_ok(#[trigger] r@.stacks[i]));
            assert(forall|i: int| 0 <= i < r@.slots.len() ==> (#[trigger] r@.slots[i]).len() == 0);
        }
        r
    }
}

/// `top_run` is at least one on a non-empty pile, never exceeds the pile's
/// length, covers only cards equal to the top card, and stops at the first
/// unequal card.
pub proof fn lemma_top_run_props(s: Seq<u8>)
    ensures
        top_run(s) <= s.len(),
        s.len() > 0 ==> 1 <= top_run(s),
        forall|j: int| s.len() - top_run(s) <= j < s.len() ==> #[trigger] s[j] == s[s.len() - 1],
        top_run(s) < s.len() ==> s[s.len() - 1 - top_run(s)] != s[s.len() - 1],
    decreases s.len(),
{
    if s.len() >= 2 && s[s.len() - 2] == s[s.len() - 1] {
        let t = s.drop_last();
        lemma_top_run_props(t);
        assert(top_run(s) == 1 + top_run(t));
        assert forall|j: int| s.len() - top_run(s) <= j < s.len() implies #[trigger] s[j]
            == s[s.len() - 1] by {
            if j < s.len() - 1 {
                assert(s[j] == t[j]);
                assert(t[j] == t[t.len() - 1]);
            }
        }
        if top_run(s) < s.len() {
            assert(s[s.len() - 1 - top_run(s)] == t[t.len() - 1 - top_run(t)]);
        }
    }
}

/// A pile of equal cards has a top run as long as the pile.
pub proof fn lemma_all_equal_top_run(s: Seq<u8>)
    requires
        all_equal(s),
    ensures
        top_run(s) == s.len(),
{
    lemma_top_run_props(s);
    if top_run(s) < s.len() {
        assert(s[s.len() - 1 - top_run(s)] == s[s.len() - 1]);
    }
}

/// Replaces pile `i` and states how the total card count changes.
pub proof fn lemma_cards_sum_update(xs: Seq<Seq<u8>>, i: int, p: Seq<u8>)
    requires
        0 <= i < xs.len(),
    ensures
        cards_sum(xs.update(i, p)) + xs[i].len() == cards_sum(xs) + p.len(),
    decreases xs.len(),
{
    let ys = xs.update(i, p);
    if i == xs.len() - 1 {
        assert(ys.drop_last() =~= xs.drop_last());
        assert(ys.last() == p);
    } else {
        assert(ys.drop_last() =~= xs.drop_last().update(i, p));
        assert(ys.last() == xs.last());
        lemma_cards_sum_update(xs.drop_last(), i, p);
    }
}

/// Card conservation: a legal move never creates or destroys a card.
pub proof fn lemma_card_conservation(v: BoardView, m: Move)
    requires
        move_legal(v, m),
    ensures
        card_count(apply_move(v, m)) == card_count(v),
{
    match (m.from, m.to) {
        (Location::Column(f), Location::Column(t)) => {
            let src = v.stacks[f as int];
            lemma_top_run_props(src);
            let cut = src.len() - m.count;
            let once = v.stacks.update(f as int, src.take(cut as int));
            lemma_cards_sum_update(v.stacks, f as int, src.take(cut as int));
            assert(once[t as int] == v.stacks[t as int]);
            lemma_cards_sum_update(once, t as int, v.stacks[t as int] + src.skip(cut as int));
        },
        (Location::Column(f), Location::Slot(s)) => {
            let src = v.stacks[f as int];
            lemma_top_run_props(src);
            let cut = src.len() - m.count;
            lemma_cards_sum_update(v.stacks, f as int, src.take(cut as int));
            lemma_cards_sum_update(
                v.slots,
                s as int,
                v.slots[s as int] + src.skip(cut as int),
            );
        },
        (Location::Slot(s), Location::Column(t)) => {
            lemma_cards_sum_update(v.slots, s as int, Seq::empty());
            lemma_cards_sum_update(v.stacks, t as int, v.stacks[t as int] + v.slots[s as int]);
        },
        (Location::Slot(_), Location::Slot(_)) => {},
    }
}

/// A legal move keeps the board well formed and keeps the board's shape.
pub proof fn lemma_apply_move_wf(v: BoardView, m: Move)
    requires
        board_wf(v),
        move_legal(v, m),
    ensures
        board_wf(apply_move(v, m)),
        apply_move(v, m).stacks.len() == v.stacks.len(),
        apply_move(v, m).slots.len() == v.slots.len(),
{
    let w = apply_move(v, m);
    match (m.from, m.to) {
        (Location::Column(f), Location::Column(t)) => {
            let src = v.stacks[f as int];
            lemma_top_run_props(src);
            let cut = src.len() - m.count;
            let dest = v.stacks[t as int];
            assert(card_seq_ok(src));
            assert(card_seq_ok(dest));
            assert forall|i: int| 0 <= i < w.stacks.len() implies card_seq_ok(
                #[trigger] w.stacks[i],
            ) by {
                assert forall|j: int| 0 <= j < w.stacks[i].len() implies (#[trigger] w.stacks[i][j])
                    < NUM_RANKS as u8 by {
                    if i == t {
                        if j < dest.len() {
                            assert(w.stacks[i][j] == dest[j]);
                        } else {
                            assert(w.stacks[i][j] == src[cut + (j - dest.len())]);
                        }
                    } else if i == f {
                        assert(w.stacks[i][j] == src[j]);
                    } else {
                        assert(w.stacks[i] == v.stacks[i]);
                        assert(card_seq_ok(v.stacks[i]));
                    }
                }
            }
        },
        (Location::Column(f), Location::Slot(s)) => {
            let src = v.stacks[f as int];
            lemma_top_run_props(src);
            let cut = src.len() - m.count;
            assert(m.count <= src.len());
            assert(card_seq_ok(src));
            assert forall|i: int| 0 <= i < w.stacks.len() implies card_seq_ok(
                #[trigger] w.stacks[i],
            ) by {
                assert forall|j: int| 0 <= j < w.stacks[i].len() implies (#[trigger] w.stacks[i][j])
                    < NUM_RANKS as u8 by {
                    if i == f {
                        assert(w.stacks[i][j] == src[j]);
                    } else {
                        assert(w.stacks[i] == v.stacks[i]);
                        assert(card_seq_ok(v.stacks[i]));
                    }
                }
            }
            assert forall|i: int| 0 <= i < w.slots.len() implies card_seq_ok(#[trigger] w.slots[i])
                && w.slots[i].len() <= RUN_SIZE by {
                assert(card_seq_ok(v.slots[i]));
                if i == s {
                    assert(v.slots[i].len() == 0);
                    assert(w.slots[i] =~= src.skip(cut as int));
                    assert forall|j: int| 0 <= j < w.slots[i].len() implies (
                    #[trigger] w.slots[i][j]) < NUM_RANKS as u8 by {
                        assert(w.slots[i][j] == src[cut + j]);
                    }
                }
            }
        },
        (Location::Slot(s), Location::Column(t)) => {
            let dest = v.stacks[t as int];
            let moved = v.slots[s as int];
            assert(card_seq_ok(dest));
            assert(card_seq_ok(moved));
            assert forall|i: int| 0 <= i < w.stacks.len() implies card_seq_ok(
                #[trigger] w.stacks[i],
            ) by {
                assert forall|j: int| 0 <= j < w.stacks[i].len() implies (#[trigger] w.stacks[i][j])
                    < NUM_RANKS as u8 by {
                    if i == t {
                        if j < dest.len() {
                            assert(w.stacks[i][j] == dest[j]);
                        } else {
                            assert(w.stacks[i][j] == moved[j - dest.len()]);
                        }
                    } else {
                        assert(w.stacks[i] == v.stacks[i]);
                        assert(card_seq_ok(v.stacks[i]));
                    }
                }
            }
            assert forall|i: int| 0 <= i < w.slots.len() implies card_seq_ok(#[trigger] w.slots[i])
                && w.slots[i].len() <= RUN_SIZE by {
                assert(card_seq_ok(v.slots[i]));
                if i == s {
                    assert(w.slots[i].len() == 0);
                }
            }
        },
        (Location::Slot(_), Location::Slot(_)) => {},
    }
}

/// Copies one pile.
fn copy_cards(v: &Vec<u8>) -> (r: Vec<u8>)
    ensures
        r@ == v@,
{
    let mut r: Vec<u8> = Vec::new();
    let mut i: usize = 0;
    while i < v.len()
        invariant
            i <= v@.len(),
            r@ == v@.take(i as int),
        decreases v@.len() - i,
    {
        r.push(v[i]);
        proof {
            assert(v@.take(i + 1) =~= v@.take(i as int).push(v@[i as int]));
        }
        i += 1;
    }
    proof {
        assert(v@.take(v@.len() as int) =~= v@);
    }
    r
}

/// The first `n` cards of a pile.
fn take_prefix(v: &Vec<u8>, n: usize) -> (r: Vec<u8>)
    requires
        n <= v@.len(),
    ensures
        r@ == v@.take(n as int),
{
    let mut r: Vec<u8> = Vec::new();
    let mut i: usize = 0;
    while i < n
        invariant
            i <= n <= v@.len(),
            r@ == v@.take(i as int),
        decreases n - i,
    {
        r.push(v[i]);
        proof {
            assert(v@.take(i + 1) =~= v@.take(i as int).push(v@[i as int]));
        }
        i += 1;
    }
    r
}

/// The cards of a pile from position `n` on.
fn suffix_from(v: &Vec<u8>, n: usize) -> (r: Vec<u8>)
    requires
        n <= v@.len(),
    ensures
        r@ == v@.skip(n as int),
{
    let mut r: Vec<u8> = Vec::new();
    let mut i: usize = n;
    while i < v.len()
        invariant
            n <= i <= v@.len(),
            r@ == v@.subrange(n as int, i as int),
        decreases v@.len() - i,
    {
        r.push(v[i]);
        proof {
            assert(v@.subrange(n as int, i + 1) =~= v@.subrange(n as int, i as int).push(
                v@[i as int],
            ));
        }
        i += 1;
    }
    proof {
        assert(v@.subrange(n as int, v@.len() as int) =~= v@.skip(n as int));
    }
    r
}

/// One pile followed by another.
fn concat_cards(a: &Vec<u8>, b: &Vec<u8>) -> (r: Vec<u8>)
    ensures
        r@ == a@ + b@,
{
    let mut r = copy_cards(a);
    let mut i: usize = 0;
    while i < b.len()
        invariant
            i <= b@.len(),
            r@ == a@ + b@.take(i as int),
        decreases b@.len() - i,
    {
        r.push(b[i]);
        proof {
            assert(b@.take(i + 1) =~= b@.take(i as int).push(b@[i as int]));
            assert(a@ + b@.take(i + 1) =~= (a@ + b@.take(i as int)).push(b@[i as int]));
        }
        i += 1;
    }
    proof {
        assert(b@.take(b@.len() as int) =~= b@);
    }
    r
}

/// A list of piles with pile `i` replaced.
fn set_pile(xs: &Vec<Vec<u8>>, i: usize, p: &Vec<u8>) -> (r: Vec<Vec<u8>>)
    requires
        i < xs@.len(),
    ensures
        dv(r@) == dv(xs@).update(i as int, p@),
{
    let mut r: Vec<Vec<u8>> = Vec::new();
    let mut j: usize = 0;
    while j < xs.len()
        invariant
            j <= xs@.len(),
            i < xs@.len(),
            r@.len() == j,
            forall|k: int| 0 <= k < j && k != i ==> (#[trigger] r@[k]@) == xs@[k]@,
            i < j ==> r@[i as int]@ == p@,
        decreases xs@.len() - j,
    {
        if j == i {
            r.push(copy_cards(p));
        } else {
            r.push(copy_cards(&xs[j]));
        }
        j += 1;
    }
    proof {
        assert(dv(r@) =~= dv(xs@).update(i as int, p@));
    }
    r
}

impl Matrix {
    /// The length, capped at `RUN_SIZE`, of the run of equal cards at the top
    /// of a pile.
    pub fn run_len(stack: &Vec<u8>) -> (r: usize)
        ensures
            r == capped_run(stack@),
    {
        proof {
            lemma_top_run_props(stack@);
        }
        let n = stack.len();
        if n == 0 {
            return 0;
        }
        let top = stack[n - 1];
        let cap = if n < RUN_SIZE {
            n
        } else {
            RUN_SIZE
        };
        let mut i: usize = 0;
        while i < cap
            invariant
                cap <= n == stack@.len(),
                n > 0,
                cap <= RUN_SIZE,
                n < RUN_SIZE ==> cap == n,
                n >= RUN_SIZE ==> cap == RUN_SIZE,
                i <= cap,
                top == stack@[n - 1],
                forall|j: int| 0 <= j < i ==> #[trigger] stack@[n - 1 - j] == top,
            decreases cap - i,
        {
            if stack[n - 1 - i] != top {
                proof {
                    lemma_top_run_props(stack@);
                    if top_run(stack@) > i {
                        assert(stack@[n - 1 - i as int] == stack@[n - 1]);
                    }
                    if top_run(stack@) < i {
                        assert(stack@[n - 1 - top_run(stack@)] == top);
                    }
                }
                return i;
            }
            i += 1;
        }
        proof {
            lemma_top_run_props(stack@);
            if top_run(stack@) < cap {
                assert(stack@[n - 1 - top_run(stack@)] == top);
            }
        }
        cap
    }

    /// The heuristic score of this board: each column contributes two to the
    /// power of its capped top-run length, each slot two to the power of the
    /// number of cards it holds.
    pub fn score(&self) -> (r: usize)
        requires
            self.wf(),
        ensures
            r == score_spec(self@),
    {
        let mut acc: usize = 0;
        let mut i: usize = 0;
        proof {
            assert(dv(self.stacks@).take(0) =~= Seq::<Seq<u8>>::empty());
        }
        while i < self.stacks.len()
            invariant
                self.wf(),
                i <= self.stacks@.len(),
                acc == col_scores_sum(dv(self.stacks@).take(i as int)),
                acc <= 16 * i,
            decreases self.stacks@.len() - i,
        {
            let k = Self::run_len(&self.stacks[i]);
            let term = pow2_small(k);
            proof {
                lemma_pow2_bound();
                lemma_top_run_props(self.stacks@[i as int]@);
                let pre = dv(self.stacks@).take(i as int);
                let post = dv(self.stacks@).take(i + 1);
                assert(post.drop_last() =~= pre);
                assert(post.last() == dv(self.stacks@)[i as int]);
            }
            acc = acc + term;
            i += 1;
        }
        proof {
            assert(dv(self.stacks@).take(self.stacks@.len() as int) =~= dv(self.stacks@));
            assert(dv(self.slots@).take(0) =~= Seq::<Seq<u8>>::empty());
        }
        let mut j: usize = 0;
        while j < self.slots.len()
            invariant
                self.wf(),
                j <= self.slots@.len(),
                acc == col_scores_sum(dv(self.stacks@)) + slot_scores_sum(
                    dv(self.slots@).take(j as int),
                ),
                acc <= 16 * NUM_COLUMNS + 16 * j,
            decreases self.slots@.len() - j,
        {
            proof {
                assert(self@.slots[j as int] == self.slots@[j as int]@);
                assert(self@.slots[j as int].len() <= RUN_SIZE);
            }
            let term = pow2_small(self.slots[j].len());
            proof {
                lemma_pow2_bound();
                let pre = dv(self.slots@).take(j as int);
                let post = dv(self.slots@).take(j + 1);
                assert(post.drop_last() =~= pre);
                assert(post.last() == dv(self.slots@)[j as int]);
            }
            acc = acc + term;
            j += 1;
        }
        proof {
            assert(dv(self.slots@).take(self.slots@.len() as int) =~= dv(self.slots@));
        }
        acc
    }

    /// The board after a legal move: `count` cards leave the top of `from`
    /// and arrive, in the same relative order, on top of `to`.  The caller
    /// guarantees legality; card count is conserved.
    pub fn make_move(&self, game_move: Move) -> (r: Self)
        requires
            self.wf(),
            move_legal(self@, game_move),
        ensures
            r.wf(),
            r@ == apply_move(self@, game_move),
            r.difficulty == self.difficulty,
            card_count(r@) == card_count(self@),
    {
        proof {
            lemma_apply_move_wf(self@, game_move);
            lemma_card_conservation(self@, game_move);
        }
        match (game_move.from, game_move.to) {
            (Location::Column(f), Location::Column(t)) => {
                proof {
                    lemma_top_run_props(self@.stacks[f as int]);
                }
                let src = &self.stacks[f];
                let cut = src.len() - game_move.count;
                let moved = suffix_from(src, cut);
                let kept = take_prefix(src, cut);
                let grown = concat_cards(&self.stacks[t], &moved);
                let once = set_pile(&self.stacks, f, &kept);
                let stacks = set_pile(&once, t, &grown);
                let r = Matrix { stacks, difficulty: self.difficulty, slots: copy_piles(&self.slots) };
                proof {
                    assert(r@.stacks =~= apply_move(self@, game_move).stacks);
                    assert(r@.slots =~= apply_move(self@, game_move).slots);
                    assert(r@ == apply_move(self@, game_move));
                }
                r
            },
            (Location::Column(f), Location::Slot(s)) => {
                proof {
                    lemma_top_run_props(self@.stacks[f as int]);
                }
                let src = &self.stacks[f];
                let cut = src.len() - game_move.count;
                let moved = suffix_from(src, cut);
                let kept = take_prefix(src, cut);
                let filled = concat_cards(&self.slots[s], &moved);
                let stacks = set_pile(&self.stacks, f, &kept);
                let slots = set_pile(&self.slots, s, &filled);
                let r = Matrix { stacks, difficulty: self.difficulty, slots };
                proof {
                    assert(r@.stacks =~= apply_move(self@, game_move).stacks);
                    assert(r@.slots =~= apply_move(self@, game_move).slots);
                    assert(r@ == apply_move(self@, game_move));
                }
                r
            },
            (Location::Slot(s), Location::Column(t)) => {
                let grown = concat_cards(&self.stacks[t], &self.slots[s]);
                let emptied: Vec<u8> = Vec::new();
                let stacks = set_pile(&self.stacks, t, &grown);
                let slots = set_pile(&self.slots, s, &emptied);
                let r = Matrix { stacks, difficulty: self.difficulty, slots };
                proof {
                    assert(r@.stacks =~= apply_move(self@, game_move).stacks);
                    assert(r@.slots =~= apply_move(self@, game_move).slots);
                    assert(r@ == apply_move(self@, game_move));
                }
                r
            },
            (Location::Slot(_), Location::Slot(_)) => {
                proof {
                    assert(false);
                }
                Matrix {
                    stacks: copy_piles(&self.stacks),
                    difficulty: self.difficulty,
                    slots: copy_piles(&self.slots),
                }
            },
        }
    }
}

/// Scorer contribution of one column: taking column `i` out of the board
/// lowers the columns' sum by exactly two to the power of that column's
/// capped top-run length.
pub proof fn lemma_column_contribution(stacks: Seq<Seq<u8>>, i: int)
    requires
        0 <= i < stacks.len(),
    ensures
        col_scores_sum(stacks) == col_scores_sum(stacks.remove(i)) + pow2(capped_run(stacks[i])),
    decreases stacks.len(),
{
    if i == stacks.len() - 1 {
        assert(stacks.remove(i) =~= stacks.drop_last());
    } else {
        assert(stacks.remove(i).drop_last() =~= stacks.drop_last().remove(i));
        assert(stacks.remove(i).last() == stacks.last());
        lemma_column_contribution(stacks.drop_last(), i);
    }
}

/// Scorer contribution of one slot: taking slot `i` out of the board lowers
/// the slots' sum by exactly two to the power of the number of cards it
/// holds; in particular an empty slot contributes exactly one.
pub proof fn lemma_slot_contribution(slots: Seq<Seq<u8>>, i: int)
    requires
        0 <= i < slots.len(),
    ensures
        slot_scores_sum(slots) == slot_scores_sum(slots.remove(i)) + pow2(slots[i].len()),
        slots[i].len() == 0 ==> slot_scores_sum(slots) == slot_scores_sum(slots.remove(i)) + 1,
    decreases slots.len(),
{
    if i == slots.len() - 1 {
        assert(slots.remove(i) =~= slots.drop_last());
    } else {
        assert(slots.remove(i).drop_last() =~= slots.drop_last().remove(i));
        assert(slots.remove(i).last() == slots.last());
        lemma_slot_contribution(slots.drop_last(), i);
    }
}

/// Copies a list of piles.
fn copy_piles(xs: &Vec<Vec<u8>>) -> (r: Vec<Vec<u8>>)
    ensures
        dv(r@) == dv(xs@),
{
    let mut r: Vec<Vec<u8>> = Vec::new();
    let mut j: usize = 0;
    while j < xs.len()
        invariant
            j <= xs@.len(),
            r@.len() == j,
            forall|k: int| 0 <= k < j ==> (#[trigger] r@[k]@) == xs@[k]@,
        decreases xs@.len() - j,
    {
        r.push(copy_cards(&xs[j]));
        j += 1;
    }
    proof {
        assert(dv(r@) =~= dv(xs@));
    }
    r
}

/// `pow2` of each exponent up to `RUN_SIZE`.
pub proof fn lemma_pow2_bound()
    ensures
        pow2(0) == 1,
        pow2(1) == 2,
        pow2(2) == 4,
        pow2(3) == 8,
        pow2(4) == 16,
        forall|k: nat| k <= 4 ==> #[trigger] pow2(k) <= 16,
{
    assert(pow2(0) == 1);
    assert(pow2(1) == 2);
    assert(pow2(2) == 4);
    assert(pow2(3) == 8);
    assert(pow2(4) == 16);
    assert forall|k: nat| k <= 4 implies #[trigger] pow2(k) <= 16 by {
        if k == 0 {
        } else if k == 1 {
        } else if k == 2 {
        } else if k == 3 {
        } else {
            assert(k == 4);
        }
    }
}

/// Two to a small power.
fn pow2_small(k: usize) -> (r: usize)
    requires
        k <= RUN_SIZE,
    ensures
        r == pow2(k as nat),
{
    proof {
        lemma_pow2_bound();
    }
    if k == 0 {
        1
    } else if k == 1 {
        2
    } else if k == 2 {
        4
    } else if k == 3 {
        8
    } else {
        16
    }
}

/// The score a fully organized board of this difficulty reaches: the win
/// threshold, derived from the board shape rather than hard-coded.
pub fn win_threshold(difficulty: Difficulty) -> (r: usize)
    ensures
        r == win_threshold_spec(slot_count_spec(difficulty)),
{
    proof {
        lemma_pow2_bound();
    }
    let slots = difficulty.slot_count();
    let leftover = NUM_RANKS - NUM_COLUMNS;
    let full_slots = if slots <= leftover {
        slots
    } else {
        leftover
    };
    16 * NUM_COLUMNS + 16 * full_slots + (slots - full_slots)
}

} // verus!
