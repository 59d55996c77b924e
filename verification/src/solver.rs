use vstd::arithmetic::power::lemma_pow0;
use vstd::arithmetic::power::lemma_pow1;
use vstd::arithmetic::power::lemma_pow_adds;
use vstd::arithmetic::power::lemma_pow_increases;
use vstd::arithmetic::power::lemma_pow_positive;
use vstd::arithmetic::power::pow;
use vstd::prelude::*;
use vstd::set_lib::lemma_int_range;
use vstd::set_lib::lemma_len_subset;
use vstd::set_lib::set_int_range;

use crate::board::Difficulty;
use crate::board::Matrix;
use crate::board::dv;
use crate::board::slot_count_spec;
use crate::board::win_threshold;
use crate::canon::bytes_eq;
use crate::canon::canon_bytes;
use crate::model::BoardView;
use crate::model::Move;
use crate::model::apply_move;
use crate::model::move_legal;
use crate::model::path_end;
use crate::model::path_ok;
use crate::model::score_spec;
use crate::model::win_threshold_spec;

verus! {

/// An injective numeric code for a byte string, used only to bound how many
/// distinct keys a visited set can ever hold.
spec fn key_code(s: Seq<u8>) -> int
    decreases s.len(),
{
    if s.len() == 0 {
        0
    } else {
        1 + s[0] + 257 * key_code(s.skip(1))
    }
}

proof fn lemma_key_code_nonneg(s: Seq<u8>)
    ensures
        key_code(s) >= 0,
    decreases s.len(),
{
    if s.len() > 0 {
        lemma_key_code_nonneg(s.skip(1));
    }
}

proof fn lemma_key_code_bound(s: Seq<u8>)
    ensures
        key_code(s) < pow(257, s.len()),
    decreases s.len(),
{
    if s.len() == 0 {
        lemma_pow0(257);
    } else {
        let e = key_code(s.skip(1));
        lemma_key_code_bound(s.skip(1));
        lemma_key_code_nonneg(s.skip(1));
        let p1 = pow(257, (s.len() - 1) as nat);
        lemma_pow_adds(257, 1nat, (s.len() - 1) as nat);
        lemma_pow1(257);
        assert(pow(257, s.len()) == 257 * p1);
        assert(s[0] < 256);
        assert(e <= p1 - 1);
        assert(1 + s[0] + 257 * e < 257 * p1) by (nonlinear_arith)
            requires
                s[0] < 256,
                0 <= e,
                e <= p1 - 1,
        {}
    }
}

proof fn lemma_key_code_inj(a: Seq<u8>, b: Seq<u8>)
    requires
        key_code(a) == key_code(b),
    ensures
        a == b,
    decreases a.len(),
{
    if a.len() == 0 {
        if b.len() > 0 {
            lemma_key_code_nonneg(b.skip(1));
        }
        assert(b.len() == 0);
        assert(a =~= b);
    } else if b.len() == 0 {
        lemma_key_code_nonneg(a.skip(1));
        assert(false);
    } else {
        let x = key_code(a.skip(1));
        let y = key_code(b.skip(1));
        lemma_key_code_nonneg(a.skip(1));
        lemma_key_code_nonneg(b.skip(1));
        assert(a[0] == b[0] && x == y) by (nonlinear_arith)
            requires
                1 + a[0] + 257 * x == 1 + b[0] + 257 * y,
                0 <= a[0] < 256,
                0 <= b[0] < 256,
                0 <= x,
                0 <= y,
        {}
        lemma_key_code_inj(a.skip(1), b.skip(1));
        assert(a =~= b) by {
            assert(a.skip(1) =~= b.skip(1));
            assert(a.skip(1).len() == a.len() - 1);
            assert(b.skip(1).len() == b.len() - 1);
            assert(forall|i: int|
                1 <= i < a.len() ==> #[trigger] a[i] == a.skip(1)[i - 1] && b[i] == b.skip(1)[i
                    - 1]);
        }
    }
}

/// Upper bound on the number of distinct byte strings a visited set can
/// hold.
spec fn universe_size() -> int {
    pow(257, (usize::MAX as nat) + 1)
}

/// A list of distinct byte strings of machine-representable lengths cannot
/// be longer than the number of such strings.
proof fn lemma_distinct_keys_bound(keys: Seq<Seq<u8>>)
    requires
        keys.no_duplicates(),
        forall|i: int| 0 <= i < keys.len() ==> (#[trigger] keys[i]).len() <= usize::MAX as nat,
    ensures
        keys.len() <= universe_size(),
{
    let f = |s: Seq<u8>| key_code(s);
    let enc = keys.map_values(f);
    assert forall|i: int, j: int|
        0 <= i < enc.len() && 0 <= j < enc.len() && i != j implies enc[i] != enc[j] by {
        if enc[i] == enc[j] {
            assert(key_code(keys[i]) == key_code(keys[j]));
            lemma_key_code_inj(keys[i], keys[j]);
        }
    }
    assert(enc.no_duplicates());
    enc.unique_seq_to_set();
    let rng = set_int_range(0, universe_size());
    lemma_pow_positive(257, (usize::MAX as nat) + 1);
    lemma_int_range(0, universe_size());
    assert forall|x: int| enc.to_set().contains(x) implies rng.contains(x) by {
        let i = choose|i: int| 0 <= i < enc.len() && enc[i] == x;
        assert(x == key_code(keys[i]));
        lemma_key_code_nonneg(keys[i]);
        lemma_key_code_bound(keys[i]);
        lemma_pow_increases(257, keys[i].len(), (usize::MAX as nat) + 1);
    }
    assert(enc.to_set().subset_of(rng));
    lemma_len_subset(enc.to_set(), rng);
}

/// The set of canonical keys of the boards already expanded by the search.
/// A key is only ever added, never removed; the solver expands a board only
/// if its key was absent, and inserts it at that moment, so no key is
/// expanded twice.
pub struct VisitedSet {
    keys: Vec<Vec<u8>>,
}

impl View for VisitedSet {
    type V = Set<Seq<u8>>;

    closed spec fn view(&self) -> Set<Seq<u8>> {
        dv(self.keys@).to_set()
    }
}

impl VisitedSet {
    /// The stored keys in insertion order.
    pub closed spec fn key_seq(self) -> Seq<Seq<u8>> {
        dv(self.keys@)
    }

    /// No key is stored twice, and every key has a machine length.
    pub open spec fn inv(self) -> bool {
        &&& self.key_seq().no_duplicates()
        &&& forall|i: int|
            0 <= i < self.key_seq().len() ==> (#[trigger] self.key_seq()[i]).len()
                <= usize::MAX as nat
    }

    /// An empty visited set.
    pub fn new() -> (r: VisitedSet)
        ensures
            r@ == Set::<Seq<u8>>::empty(),
            r.inv(),
    {
        let r = VisitedSet { keys: Vec::new() };
        proof {
            assert(r.key_seq().len() == 0);
            assert forall|x: Seq<u8>| !(#[trigger] r@.contains(x)) by {
                assert(!r.key_seq().contains(x));
            }
            assert(r@ =~= Set::<Seq<u8>>::empty());
        }
        r
    }

    /// Whether a key was already inserted.
    pub fn contains_key(&self, k: &Vec<u8>) -> (r: bool)
        ensures
            r == self@.contains(k@),
    {
        let mut i: usize = 0;
        while i < self.keys.len()
            invariant
                i <= self.keys@.len(),
                forall|j: int| 0 <= j < i ==> #[trigger] self.keys@[j]@ != k@,
            decreases self.keys@.len() - i,
        {
            if bytes_eq(&self.keys[i], k) {
                proof {
                    assert(self.key_seq()[i as int] == k@);
                    assert(self.key_seq().contains(k@));
                }
                return true;
            }
            i += 1;
        }
        proof {
            assert(!self.key_seq().contains(k@));
        }
        false
    }

    /// Inserts a key; keys never leave the set.
    pub fn insert_key(&mut self, k: Vec<u8>)
        requires
            old(self).inv(),
        ensures
            final(self).inv(),
            final(self)@ == old(self)@.insert(k@),
            old(self)@.contains(k@) ==> final(self).key_seq() == old(self).key_seq(),
            !old(self)@.contains(k@) ==> final(self).key_seq() == old(self).key_seq().push(k@),
    {
        if self.contains_key(&k) {
            proof {
                assert(self@ =~= old(self)@.insert(k@));
            }
            return ;
        }
        let n = k.len();
        proof {
            assert(!old(self).key_seq().contains(k@));
        }
        self.keys.push(k);
        proof {
            let pre = old(self).key_seq();
            let post = self.key_seq();
            assert(post =~= pre.push(k@));
            assert(post[pre.len() as int] == k@);
            assert forall|i: int, j: int|
                0 <= i < post.len() && 0 <= j < post.len() && i != j implies post[i] != post[j] by {
                if i < pre.len() && j < pre.len() {
                    assert(pre[i] == post[i] && pre[j] == post[j]);
                } else if i < pre.len() {
                    assert(post[j] == k@);
                    assert(pre.contains(pre[i]) == pre.contains(post[i]));
                    if post[i] == k@ {
                        assert(pre.contains(k@));
                    }
                } else {
                    assert(post[i] == k@);
                    if post[j] == k@ {
                        assert(pre.contains(k@));
                    }
                }
            }
            assert(post.no_duplicates());
            assert(k@.len() == n <= usize::MAX as nat);
            assert(self@ =~= old(self)@.insert(k@)) by {
                assert forall|x: Seq<u8>| post.contains(x) implies pre.contains(x) || x == k@ by {
                    let i = choose|i: int| 0 <= i < post.len() && post[i] == x;
                    if i < pre.len() {
                        assert(pre[i] == x);
                    }
                }
                assert forall|x: Seq<u8>| pre.contains(x) implies post.contains(x) by {
                    let i = choose|i: int| 0 <= i < pre.len() && pre[i] == x;
                    assert(post[i] == x);
                }
            }
        }
    }
}

/// How much room the visited set has left before it would hold every
/// possible key; it shrinks with every genuinely new key, which bounds the
/// search.
spec fn headroom(vs: VisitedSet) -> nat {
    if vs.key_seq().len() <= universe_size() {
        (universe_size() - vs.key_seq().len()) as nat
    } else {
        0nat
    }
}

/// A candidate successor: the board after one legal move, with its score.
struct Cand {
    state: Matrix,
    score: usize,
    mv: Move,
}

/// A successor is sound for a parent board when its move is legal there, its
/// board is the one that move produces, and its score is that board's score.
spec fn cand_ok(v: BoardView, d: Difficulty, c: Cand) -> bool {
    &&& move_legal(v, c.mv)
    &&& c.state@ == apply_move(v, c.mv)
    &&& c.state.wf()
    &&& c.state.difficulty == d
    &&& c.score == score_spec(c.state@)
}

/// One level of the depth-first search: a board and its still-unexplored
/// candidates, best first.
struct Frame {
    state: Matrix,
    cands: Vec<Cand>,
}

/// Total work still stacked up: frames plus their unexplored candidates.
spec fn pending(s: Seq<Frame>) -> nat
    decreases s.len(),
{
    if s.len() == 0 {
        0nat
    } else {
        pending(s.drop_last()) + s.last().cands@.len() + 1
    }
}

proof fn lemma_pending_push(s: Seq<Frame>, fr: Frame)
    ensures
        pending(s.push(fr)) == pending(s) + fr.cands@.len() + 1,
{
    assert(s.push(fr).drop_last() =~= s);
    assert(s.push(fr).last() == fr);
}

/// Inserting an element anywhere adds exactly it to a sequence's multiset.
proof fn lemma_cand_multiset_insert(s: Seq<Cand>, j: int, x: Cand)
    requires
        0 <= j <= s.len(),
    ensures
        s.insert(j, x).to_multiset() == s.to_multiset().insert(x),
{
    broadcast use vstd::seq_lib::group_to_multiset_ensures;

    let t = s.insert(j, x);
    assert(t =~= s.take(j).push(x) + s.skip(j));
    vstd::seq_lib::lemma_multiset_commutative(s.take(j).push(x), s.skip(j));
    assert(s =~= s.take(j) + s.skip(j));
    vstd::seq_lib::lemma_multiset_commutative(s.take(j), s.skip(j));
    assert(s.take(j).push(x).to_multiset() == s.take(j).to_multiset().insert(x));
    assert(t.to_multiset() =~= s.to_multiset().insert(x));
}

proof fn lemma_cand_multiset_remove(s: Seq<Cand>, j: int)
    requires
        0 <= j < s.len(),
    ensures
        s.remove(j).to_multiset() == s.to_multiset().remove(s[j]),
        s.to_multiset().count(s[j]) > 0,
{
    broadcast use vstd::seq_lib::group_to_multiset_ensures;

    assert(s.contains(s[j]));
}

/// Candidates stand in order of weakly decreasing score.
spec fn scores_sorted(s: Seq<Cand>) -> bool {
    forall|p: int, q: int| 0 <= p < q < s.len() ==> #[trigger] s[p].score >= #[trigger] s[q].score
}

/// Sorts candidates by score, best first; ties keep their generation order.
fn sort_cands(v: &mut Vec<Cand>)
    ensures
        final(v)@.to_multiset() == old(v)@.to_multiset(),
        final(v)@.len() == old(v)@.len(),
        scores_sorted(final(v)@),
{
    broadcast use vstd::seq_lib::group_to_multiset_ensures;

    let ghost orig = old(v)@;
    let mut i: usize = 1;
    while i < v.len()
        invariant
            1 <= i,
            v@.len() > 0 ==> i <= v@.len(),
            v@.len() == orig.len(),
            v@.to_multiset() == orig.to_multiset(),
            v@.len() > 0 ==> scores_sorted(v@.take(i as int)),
        decreases v@.len() - i,
    {
        let ghost before = v@;
        let mut j: usize = i;
        while j > 0 && v[j - 1].score < v[i].score
            invariant
                0 <= j <= i < v@.len(),
                v@ == before,
                forall|k: int| j <= k < i ==> before[i as int].score > (#[trigger] before[k]).score,
            decreases j,
        {
            j -= 1;
        }
        let x = v.remove(i);
        let ghost removed = v@;
        v.insert(j, x);
        proof {
            assert(removed =~= before.remove(i as int));
            assert(v@ =~= removed.insert(j as int, x));
            lemma_cand_multiset_remove(before, i as int);
            lemma_cand_multiset_insert(removed, j as int, x);
            assert(v@.to_multiset() =~= before.to_multiset());
            let now = v@;
            let pre = before.take(i as int);
            assert(forall|k: int| 0 <= k < i ==> #[trigger] pre[k] == before[k]);
            assert(x == before[i as int]);
            assert forall|p: int, q: int| 0 <= p < q < i + 1 implies #[trigger] now[p].score
                >= #[trigger] now[q].score by {
                if q < j {
                    assert(pre[p].score >= pre[q].score);
                } else if p < j && q == j {
                    assert(now[q] == x);
                    assert(now[p] == before[p]);
                    assert(before[j - 1].score >= x.score);
                    if p < j - 1 {
                        assert(pre[p].score >= pre[j - 1].score);
                    }
                } else if p < j && q > j {
                    assert(now[p] == before[p] && now[q] == before[q - 1]);
                    assert(pre[p].score >= pre[q - 1].score);
                } else if p == j {
                    assert(now[p] == x);
                    assert(now[q] == before[q - 1]);
                    assert(j <= q - 1 < i);
                    assert(x.score > before[q - 1].score);
                } else {
                    assert(now[p] == before[p - 1] && now[q] == before[q - 1]);
                    assert(pre[p - 1].score >= pre[q - 1].score);
                }
            }
            assert(scores_sorted(v@.take(i + 1)));
        }
        i += 1;
    }
    proof {
        if v@.len() > 0 {
            assert(v@.take(v@.len() as int) =~= v@);
        }
    }
}


/// The legal successors of a board that the visited set does not already
/// hold, each with its score, sorted best first: every entry is a sound
/// unvisited successor, every legal move to an unvisited board is
/// represented, and scores weakly decrease.  When the board has no legal
/// move at all the result is empty.
fn candidates(m: &Matrix, visited: &VisitedSet) -> (r: Vec<Cand>)
    requires
        m.wf(),
    ensures
        forall|i: int| 0 <= i < r@.len() ==> cand_ok(m@, m.difficulty, #[trigger] r@[i]),
        forall|mv: Move|
            move_legal(m@, mv) && !visited@.contains(canon_bytes(apply_move(m@, mv)))
                ==> exists|w: int| 0 <= w < r@.len() && (#[trigger] r@[w]).mv == mv,
        scores_sorted(r@),
        (forall|mv: Move| !move_legal(m@, mv)) ==> r@.len() == 0,
{
    broadcast use vstd::seq_lib::group_to_multiset_ensures;

    let moves = m.available_moves();
    let mut cands: Vec<Cand> = Vec::new();
    let mut i: usize = 0;
    while i < moves.len()
        invariant
            m.wf(),
            i <= moves@.len(),
            forall|n: int| 0 <= n < moves@.len() ==> move_legal(m@, #[trigger] moves@[n]),
            forall|n: int| 0 <= n < cands@.len() ==> cand_ok(m@, m.difficulty, #[trigger] cands@[n]),
            forall|n: int|
                0 <= n < i && !visited@.contains(canon_bytes(apply_move(m@, #[trigger] moves@[n])))
                    ==> exists|w: int| 0 <= w < cands@.len() && (#[trigger] cands@[w]).mv
                    == moves@[n],
            cands@.len() <= i,
        decreases moves@.len() - i,
    {
        let ghost cands_pre = cands@;
        let mv = moves[i];
        let s2 = m.make_move(mv);
        let key = s2.key_bytes();
        if !visited.contains_key(&key) {
            let sc = s2.score();
            cands.push(Cand { state: s2, score: sc, mv });
            proof {
                assert(cands@[cands@.len() - 1].mv == moves@[i as int]);
            }
        }
        proof {
            assert forall|n: int|
                0 <= n < i + 1 && !visited@.contains(
                    canon_bytes(apply_move(m@, #[trigger] moves@[n])),
                ) implies exists|w: int| 0 <= w < cands@.len() && (#[trigger] cands@[w]).mv
                == moves@[n] by {
                if n < i {
                    let w = choose|w: int|
                        0 <= w < cands_pre.len() && (#[trigger] cands_pre[w]).mv == moves@[n];
                    assert(cands@[w].mv == moves@[n]);
                }
            }
        }
        i += 1;
    }
    let ghost unsorted = cands@;
    sort_cands(&mut cands);
    proof {
        assert forall|n: int| 0 <= n < cands@.len() implies cand_ok(
            m@,
            m.difficulty,
            #[trigger] cands@[n],
        ) by {
            assert(cands@.contains(cands@[n]));
            assert(cands@.to_multiset().count(cands@[n]) > 0);
            assert(unsorted.contains(cands@[n]));
            let w = choose|w: int| 0 <= w < unsorted.len() && unsorted[w] == cands@[n];
            assert(cand_ok(m@, m.difficulty, unsorted[w]));
        }
        assert forall|mv: Move|
            move_legal(m@, mv) && !visited@.contains(canon_bytes(apply_move(m@, mv)))
            implies exists|w: int| 0 <= w < cands@.len() && (#[trigger] cands@[w]).mv == mv by {
            assert(moves@.contains(mv));
            let n = choose|n: int| 0 <= n < moves@.len() && moves@[n] == mv;
            let u = choose|u: int|
                0 <= u < unsorted.len() && (#[trigger] unsorted[u]).mv == moves@[n];
            assert(unsorted.contains(unsorted[u]));
            assert(unsorted.to_multiset().count(unsorted[u]) > 0);
            assert(cands@.contains(unsorted[u]));
            let w = choose|w: int| 0 <= w < cands@.len() && cands@[w] == unsorted[u];
            assert(cands@[w].mv == mv);
        }
        if forall|mv: Move| !move_legal(m@, mv) {
            if moves@.len() > 0 {
                assert(move_legal(m@, moves@[0]));
            }
            assert(unsorted.len() == 0);
        }
    }
    cands
}

/// A pointwise chain of legal steps is a replayable path.
proof fn lemma_chain_path(states: Seq<BoardView>, ms: Seq<Move>)
    requires
        states.len() == ms.len() + 1,
        forall|i: int|
            0 <= i < ms.len() ==> move_legal(states[i], #[trigger] ms[i]) && states[i + 1]
                == apply_move(states[i], ms[i]),
    ensures
        path_ok(states[0], ms),
        path_end(states[0], ms) == states[states.len() - 1],
    decreases ms.len(),
{
    if ms.len() == 0 {
        assert(path_end(states[0], ms) == states[0]);
    } else {
        let st2 = states.skip(1);
        let ms2 = ms.skip(1);
        assert(st2.len() == ms2.len() + 1);
        assert forall|i: int| 0 <= i < ms2.len() implies move_legal(st2[i], #[trigger] ms2[i])
            && st2[i + 1] == apply_move(st2[i], ms2[i]) by {
            assert(st2[i] == states[i + 1]);
            assert(st2[i + 1] == states[i + 2]);
            assert(ms2[i] == ms[i + 1]);
            assert(move_legal(states[i + 1], ms[i + 1]));
        }
        lemma_chain_path(st2, ms2);
        assert(st2[0] == states[1]);
        assert(states[1] == apply_move(states[0], ms[0]));
        assert(path_ok(states[0], ms));
        assert(path_end(states[0], ms) == path_end(apply_move(states[0], ms[0]), ms.skip(1)));
        assert(st2[st2.len() - 1] == states[states.len() - 1]);
    }
}

/// Copies a move list.
fn copy_moves(v: &Vec<Move>) -> (r: Vec<Move>)
    ensures
        r@ == v@,
{
    let mut r: Vec<Move> = Vec::new();
    let mut i: usize = 0;
    while i < v.len()
        invariant
            i <= v@.len(),
            r@ == v@.take(i as int),
        decreases v@.len() - i,
    {
        r.push(v[i]);
        proof {
            assert(v@.take(i + 1) =~= v@.take(i as int).push(v@[i as int]));
        }
        i += 1;
    }
    proof {
        assert(v@.take(v@.len() as int) =~= v@);
    }
    r
}

/// The moves recorded beyond `past_moves` replay the boards still on the
/// search stack, one legal step at a time.
spec fn chain_ok(stack: Seq<Frame>, path: Seq<Move>, pl: nat) -> bool {
    forall|i: int|
        0 <= i < stack.len() - 1 ==> move_legal(stack[i].state@, #[trigger] path[pl + i])
            && stack[i + 1].state@ == apply_move(stack[i].state@, path[pl + i])
}

/// Every stacked board is well formed and keeps the game's difficulty.
spec fn frames_ok(stack: Seq<Frame>, mdiff: Difficulty) -> bool {
    forall|i: int|
        0 <= i < stack.len() ==> (#[trigger] stack[i]).state.wf() && stack[i].state.difficulty
            == mdiff
}

/// Every stacked candidate is a sound successor of its frame's board.
spec fn cands_ok(stack: Seq<Frame>, mdiff: Difficulty) -> bool {
    forall|i: int, j: int|
        0 <= i < stack.len() && 0 <= j < (#[trigger] stack[i]).cands@.len() ==> cand_ok(
            stack[i].state@,
            mdiff,
            #[trigger] stack[i].cands@[j],
        )
}

/// A candidate taken from the top frame closes the recorded moves into a
/// replayable path from the bottom board to the candidate's board.
proof fn lemma_stack_path(
    stack: Seq<Frame>,
    path: Seq<Move>,
    pl: nat,
    mdiff: Difficulty,
    cand: Cand,
)
    requires
        stack.len() > 0,
        path.len() == pl + stack.len(),
        chain_ok(stack, path, pl),
        path[path.len() - 1] == cand.mv,
        cand_ok(stack[stack.len() - 1].state@, mdiff, cand),
    ensures
        path_ok(stack[0].state@, path.skip(pl as int)),
        path_end(stack[0].state@, path.skip(pl as int)) == cand.state@,
        path.skip(pl as int).len() > 0,
        move_legal(stack[0].state@, path.skip(pl as int)[0]),
{
    let states = stack.map_values(|f: Frame| f.state@).push(cand.state@);
    let ms = path.skip(pl as int);
    assert(ms.len() == stack.len());
    assert(states.len() == ms.len() + 1);
    assert forall|i: int| 0 <= i < ms.len() implies move_legal(states[i], #[trigger] ms[i])
        && states[i + 1] == apply_move(states[i], ms[i]) by {
        assert(ms[i] == path[pl + i]);
        assert(states[i] == stack[i].state@);
        if i < ms.len() - 1 {
            assert(states[i + 1] == stack[i + 1].state@);
            assert(move_legal(stack[i].state@, path[pl + i]));
        } else {
            assert(states[i + 1] == cand.state@);
            assert(path[pl + i] == cand.mv);
        }
    }
    lemma_chain_path(states, ms);
    assert(states[0] == stack[0].state@);
    assert(move_legal(states[0], ms[0]));
}

/// Pushing the candidate's board and move extends the replay chain.
proof fn lemma_chain_extend(
    stack_mid: Seq<Frame>,
    stack: Seq<Frame>,
    path_pre: Seq<Move>,
    path: Seq<Move>,
    pl: nat,
    mdiff: Difficulty,
    cand: Cand,
)
    requires
        stack_mid.len() > 0,
        stack.len() == stack_mid.len() + 1,
        forall|i: int| 0 <= i < stack_mid.len() ==> #[trigger] stack[i] == stack_mid[i],
        stack[stack.len() - 1].state@ == cand.state@,
        path == path_pre.push(cand.mv),
        path_pre.len() == pl + stack_mid.len() - 1,
        chain_ok(stack_mid, path_pre, pl),
        cand_ok(stack_mid[stack_mid.len() - 1].state@, mdiff, cand),
    ensures
        chain_ok(stack, path, pl),
{
    assert forall|i: int| 0 <= i < stack.len() - 1 implies move_legal(
        stack[i].state@,
        #[trigger] path[pl + i],
    ) && stack[i + 1].state@ == apply_move(stack[i].state@, path[pl + i]) by {
        if i < stack.len() - 2 {
            assert(path[pl + i] == path_pre[pl + i]);
            assert(stack[i] == stack_mid[i]);
            assert(stack[i + 1] == stack_mid[i + 1]);
            assert(move_legal(stack_mid[i].state@, path_pre[pl + i]));
        } else {
            assert(stack[i] == stack_mid[stack_mid.len() - 1]);
            assert(path[pl + i] == cand.mv);
        }
    }
}

/// Taking the first candidate off the top frame leaves every stacked fact
/// intact.
proof fn lemma_frame_advance(
    stack_pre: Seq<Frame>,
    stack: Seq<Frame>,
    path: Seq<Move>,
    pl: nat,
    mdiff: Difficulty,
)
    requires
        stack_pre.len() > 0,
        stack.len() == stack_pre.len(),
        forall|i: int| 0 <= i < stack.len() - 1 ==> #[trigger] stack[i] == stack_pre[i],
        stack[stack.len() - 1].state == stack_pre[stack.len() - 1].state,
        stack_pre[stack.len() - 1].cands@.len() > 0,
        stack[stack.len() - 1].cands@.len() == stack_pre[stack.len() - 1].cands@.len() - 1,
        forall|j: int|
            0 <= j < stack[stack.len() - 1].cands@.len() ==> #[trigger] stack[stack.len()
                - 1].cands@[j] == stack_pre[stack.len() - 1].cands@[j + 1],
        chain_ok(stack_pre, path, pl),
        frames_ok(stack_pre, mdiff),
        cands_ok(stack_pre, mdiff),
    ensures
        chain_ok(stack, path, pl),
        frames_ok(stack, mdiff),
        cands_ok(stack, mdiff),
{
    assert forall|i: int| 0 <= i < stack.len() - 1 implies move_legal(
        stack[i].state@,
        #[trigger] path[pl + i],
    ) && stack[i + 1].state@ == apply_move(stack[i].state@, path[pl + i]) by {
        assert(stack[i] == stack_pre[i]);
        assert(move_legal(stack_pre[i].state@, path[pl + i]));
        if i + 1 < stack.len() - 1 {
            assert(stack[i + 1] == stack_pre[i + 1]);
        } else {
            assert(stack[i + 1].state == stack_pre[i + 1].state);
        }
    }
    assert forall|i: int| 0 <= i < stack.len() implies (#[trigger] stack[i]).state.wf() && stack[
        i
    ].state.difficulty == mdiff by {
        if i < stack.len() - 1 {
            assert(stack[i] == stack_pre[i]);
        }
        assert(stack[i].state == stack_pre[i].state);
        assert(stack_pre[i].state.wf());
    }
    assert forall|i: int, j: int|
        0 <= i < stack.len() && 0 <= j < (#[trigger] stack[i]).cands@.len() implies cand_ok(
        stack[i].state@,
        mdiff,
        #[trigger] stack[i].cands@[j],
    ) by {
        if i < stack.len() - 1 {
            assert(stack[i] == stack_pre[i]);
            assert(cand_ok(stack_pre[i].state@, mdiff, stack_pre[i].cands@[j]));
        } else {
            assert(stack[i].cands@[j] == stack_pre[i].cands@[j + 1]);
            assert(cand_ok(stack_pre[i].state@, mdiff, stack_pre[i].cands@[j + 1]));
        }
    }
}

/// Some legal move leads, in one step, to a board whose canonical key the
/// visited set does not hold and whose score is the win threshold.
pub open spec fn winnable_now(v: BoardView, d: Difficulty, visited: Set<Seq<u8>>) -> bool {
    exists|mv: Move|
        #[trigger] move_legal(v, mv) && !visited.contains(canon_bytes(apply_move(v, mv)))
            && score_spec(apply_move(v, mv)) == win_threshold_spec(slot_count_spec(d))
}

/// `k` is the canonical key of a board that a sequence of legal moves
/// reaches from `v`.
pub open spec fn reachable_key(v: BoardView, k: Seq<u8>) -> bool {
    exists|ms: Seq<Move>| #[trigger] path_ok(v, ms) && canon_bytes(path_end(v, ms)) == k
}

proof fn lemma_sets_chain(keys: Seq<Seq<u8>>, sets: Seq<Set<Seq<u8>>>, i: int, j: int)
    requires
        sets.len() == keys.len(),
        forall|n: int|
            0 <= n < keys.len() - 1 ==> (#[trigger] sets[n]).insert(keys[n]).subset_of(
                sets[n + 1],
            ),
        0 <= i < j < sets.len(),
    ensures
        sets[i].insert(keys[i]).subset_of(sets[j]),
    decreases j - i,
{
    if j > i + 1 {
        lemma_sets_chain(keys, sets, i, j - 1);
        assert(sets[j - 1].insert(keys[j - 1]).subset_of(sets[j]));
        assert forall|x: Seq<u8>| sets[i].insert(keys[i]).contains(x) implies sets[j].contains(
            x,
        ) by {
            assert(sets[j - 1].contains(x));
            assert(sets[j - 1].insert(keys[j - 1]).contains(x));
        }
    }
}

/// Visited-set discipline: along one search, `keys` lists the canonical keys
/// expanded, in order, and `sets[n]` the visited set at the moment key `n`
/// was expanded.  When every expansion finds its key absent, records it, and
/// the visited set only grows from each expansion to the next, then no
/// canonical key is expanded twice.  The solver's loop establishes exactly
/// these premises for its expansion log.
pub proof fn lemma_visited_discipline(keys: Seq<Seq<u8>>, sets: Seq<Set<Seq<u8>>>)
    requires
        sets.len() == keys.len(),
        forall|n: int| 0 <= n < keys.len() ==> !(#[trigger] sets[n]).contains(keys[n]),
        forall|n: int|
            0 <= n < keys.len() - 1 ==> (#[trigger] sets[n]).insert(keys[n]).subset_of(
                sets[n + 1],
            ),
    ensures
        keys.no_duplicates(),
{
    assert forall|i: int, j: int|
        0 <= i < keys.len() && 0 <= j < keys.len() && i != j implies keys[i] != keys[j] by {
        if i < j {
            lemma_sets_chain(keys, sets, i, j);
            assert(sets[i].insert(keys[i]).contains(keys[i]));
            assert(sets[j].contains(keys[i]));
        } else {
            lemma_sets_chain(keys, sets, j, i);
            assert(sets[j].insert(keys[j]).contains(keys[j]));
            assert(sets[i].contains(keys[j]));
        }
    }
}

/// Depth-first search with greedy move ordering and global deduplication.
///
/// Candidates of each board are its unvisited legal successors, tried best
/// score first; a successor whose score is the win threshold ends the search
/// at once.  A board is expanded only if its canonical key is not yet in
/// `past_matrices`, and the key is inserted at that moment and never
/// removed, so no canonical key is expanded twice in one search (the shape
/// of argument that `lemma_visited_discipline` states).  Every key the
/// search adds to `past_matrices` is the canonical key of a board reached
/// from `matrix` by legal moves, and a winning unvisited successor of
/// `matrix` itself guarantees a solution.  The
/// returned path, when there is one, extends `past_moves` with a sequence of
/// moves that replays legally from `matrix` to a board whose score is the
/// win threshold; a board with no legal move at all yields `None`.
#[verifier::rlimit(100)]
#[verifier::loop_isolation(false)]
pub fn solve(matrix: Matrix, past_matrices: &mut VisitedSet, past_moves: &Vec<Move>) -> (r: Option<
    Vec<Move>,
>)
    requires
        matrix.wf(),
        old(past_matrices).inv(),
    ensures
        final(past_matrices).inv(),
        forall|k: Seq<u8>|
            old(past_matrices)@.contains(k) ==> #[trigger] final(past_matrices)@.contains(k),
        forall|k: Seq<u8>|
            #[trigger] final(past_matrices)@.contains(k) && !old(past_matrices)@.contains(k)
                ==> reachable_key(matrix@, k),
        (forall|mv: Move| !move_legal(matrix@, mv)) ==> r is None,
        winnable_now(matrix@, matrix.difficulty, old(past_matrices)@) ==> r is Some,
        (r matches Some(p) ==> p@.len() > past_moves@.len() && p@.take(past_moves@.len() as int)
            == past_moves@ && path_ok(matrix@, p@.skip(past_moves@.len() as int)) && score_spec(
            path_end(matrix@, p@.skip(past_moves@.len() as int)),
        ) == win_threshold_spec(slot_count_spec(matrix.difficulty))),
{
    let ghost mview = matrix@;
    let ghost mdiff = matrix.difficulty;
    let ghost pl = past_moves@.len();
    let win_t = win_threshold(matrix.difficulty);
    let root_cands = candidates(&matrix, past_matrices);
    let ghost rootc = root_cands@;
    let mut stack: Vec<Frame> = Vec::new();
    stack.push(Frame { state: matrix, cands: root_cands });
    let mut path: Vec<Move> = copy_moves(past_moves);
    let ghost mut expanded: Seq<Seq<u8>> = Seq::empty();
    let ghost mut snaps: Seq<Set<Seq<u8>>> = Seq::empty();
    proof {
        assert(path@.take(pl as int) =~= past_moves@);
        assert(stack@[0].cands@ == rootc);
        if winnable_now(mview, mdiff, old(past_matrices)@) {
            let mv = choose|mv: Move|
                #[trigger] move_legal(mview, mv) && !old(past_matrices)@.contains(
                    canon_bytes(apply_move(mview, mv)),
                ) && score_spec(apply_move(mview, mv)) == win_threshold_spec(
                    slot_count_spec(mdiff),
                );
            let w = choose|w: int| 0 <= w < rootc.len() && (#[trigger] rootc[w]).mv == mv;
            assert(cand_ok(mview, mdiff, rootc[w]));
            assert(rootc[w].state@ == apply_move(mview, mv));
            assert(stack@[0].cands@[w].score == win_t);
        }
    }
    while stack.len() > 0
        invariant
            past_matrices.inv(),
            forall|k: Seq<u8>|
                old(past_matrices)@.contains(k) ==> #[trigger] past_matrices@.contains(k),
            stack@.len() > 0 ==> stack@[0].state@ == mview,
            stack@.len() > 0 ==> path@.len() == pl + stack@.len() - 1,
            path@.len() >= pl,
            path@.take(pl as int) == past_moves@,
            frames_ok(stack@, mdiff),
            chain_ok(stack@, path@, pl),
            cands_ok(stack@, mdiff),
            expanded.no_duplicates(),
            snaps.len() == expanded.len(),
            forall|n: int|
                0 <= n < expanded.len() ==> !(#[trigger] snaps[n]).contains(expanded[n]),
            forall|n: int|
                0 <= n < expanded.len() - 1 ==> (#[trigger] snaps[n]).insert(
                    expanded[n],
                ).subset_of(snaps[n + 1]),
            expanded.len() > 0 ==> snaps[expanded.len() - 1].insert(
                expanded[expanded.len() - 1],
            ).subset_of(past_matrices@),
            forall|k: Seq<u8>|
                #[trigger] past_matrices@.contains(k) && !old(past_matrices)@.contains(k)
                    ==> reachable_key(mview, k),
            winnable_now(mview, mdiff, old(past_matrices)@) ==> (stack@.len() > 0 && exists|j: int|
                0 <= j < stack@[0].cands@.len() && (#[trigger] stack@[0].cands@[j]).score
                    == win_t),
        decreases headroom(*past_matrices), pending(stack@),
    {
        let ghost stack_pre = stack@;
        let mut fr = stack.pop().unwrap();
        proof {
            assert(fr == stack_pre[stack_pre.len() - 1]);
            assert(stack@ =~= stack_pre.drop_last());
        }
        if fr.cands.len() > 0 {
            let ghost fr_pre = fr;
            let cand = fr.cands.remove(0);
            let ghost fr_state_v = fr.state@;
            proof {
                assert(cand == fr_pre.cands@[0]);
                assert(cand_ok(fr_state_v, mdiff, cand));
            }
            stack.push(fr);
            proof {
                assert(stack@.len() == stack_pre.len());
                assert(stack@[stack@.len() - 1] == fr);
                assert(forall|i: int|
                    0 <= i < stack@.len() - 1 ==> #[trigger] stack@[i] == stack_pre[i]);
                lemma_frame_advance(stack_pre, stack@, path@, pl, mdiff);
                assert(stack@.drop_last() =~= stack_pre.drop_last());
                assert(pending(stack@) + 1 == pending(stack_pre));
            }
            if cand.score == win_t {
                let ghost path_pre = path@;
                path.push(cand.mv);
                proof {
                    assert(path@ =~= path_pre.push(cand.mv));
                    assert forall|i: int| 0 <= i < stack@.len() - 1 implies move_legal(
                        stack@[i].state@,
                        #[trigger] path@[pl + i],
                    ) && stack@[i + 1].state@ == apply_move(stack@[i].state@, path@[pl + i]) by {
                        assert(path@[pl + i] == path_pre[pl + i]);
                        assert(move_legal(stack@[i].state@, path_pre[pl + i]));
                    }
                    lemma_stack_path(stack@, path@, pl, mdiff, cand);
                    assert(path_ok(mview, path@.skip(pl as int)));
                    assert(path_end(mview, path@.skip(pl as int)) == cand.state@);
                    assert(score_spec(cand.state@) == win_threshold_spec(slot_count_spec(mdiff)));
                    assert(path@.take(pl as int) =~= path_pre.take(pl as int));
                    assert(move_legal(mview, path@.skip(pl as int)[0]));
                }
                return Some(path);
            }
            proof {
                if winnable_now(mview, mdiff, old(past_matrices)@) {
                    let j = choose|j: int|
                        0 <= j < stack_pre[0].cands@.len() && (
                        #[trigger] stack_pre[0].cands@[j]).score == win_t;
                    if stack_pre.len() == 1 {
                        assert(fr_pre == stack_pre[0]);
                        assert(j != 0);
                        assert(stack@[0] == fr);
                        assert(fr.cands@[j - 1] == fr_pre.cands@[j]);
                        assert(stack@[0].cands@[j - 1].score == win_t);
                    } else {
                        assert(stack@[0] == stack_pre[0]);
                        assert(stack@[0].cands@[j].score == win_t);
                    }
                }
            }
            let key = cand.state.key_bytes();
            let ghost kview = key@;
            let already = past_matrices.contains_key(&key);
            if !already {
                let ghost visited_pre = *past_matrices;
                past_matrices.insert_key(key);
                proof {
                    assert(past_matrices.key_seq() =~= visited_pre.key_seq().push(kview));
                    lemma_distinct_keys_bound(past_matrices.key_seq());
                    assert(past_matrices.key_seq().len() <= universe_size());
                    assert(headroom(*past_matrices) < headroom(visited_pre));
                    // log this expansion: key and the visited set of its moment
                    let expanded_pre = expanded;
                    let snaps_pre = snaps;
                    expanded = expanded.push(kview);
                    snaps = snaps.push(visited_pre@);
                    assert(!visited_pre@.contains(kview));
                    assert forall|n: int| 0 <= n < expanded.len() implies !(
                    #[trigger] snaps[n]).contains(expanded[n]) by {
                        if n < expanded_pre.len() {
                            assert(snaps[n] == snaps_pre[n]);
                            assert(expanded[n] == expanded_pre[n]);
                        }
                    }
                    assert forall|n: int| 0 <= n < expanded.len() - 1 implies (
                    #[trigger] snaps[n]).insert(expanded[n]).subset_of(snaps[n + 1]) by {
                        assert(snaps[n] == snaps_pre[n]);
                        assert(expanded[n] == expanded_pre[n]);
                        if n < expanded_pre.len() - 1 {
                            assert(snaps[n + 1] == snaps_pre[n + 1]);
                            assert(snaps_pre[n].insert(expanded_pre[n]).subset_of(
                                snaps_pre[n + 1],
                            ));
                        } else {
                            assert(snaps[n + 1] == visited_pre@);
                        }
                    }
                    lemma_visited_discipline(expanded, snaps);
                    assert(snaps[expanded.len() - 1] == visited_pre@);
                    assert(expanded[expanded.len() - 1] == kview);
                    assert(visited_pre@.insert(kview).subset_of(past_matrices@));
                    // the inserted key names a board reached by legal moves
                    let full = path@.push(cand.mv);
                    assert forall|i: int| 0 <= i < stack@.len() - 1 implies move_legal(
                        stack@[i].state@,
                        #[trigger] full[pl + i],
                    ) && stack@[i + 1].state@ == apply_move(stack@[i].state@, full[pl + i]) by {
                        assert(full[pl + i] == path@[pl + i]);
                        assert(move_legal(stack@[i].state@, path@[pl + i]));
                    }
                    assert(full[full.len() - 1] == cand.mv);
                    lemma_stack_path(stack@, full, pl, mdiff, cand);
                    assert(path_ok(mview, full.skip(pl as int)));
                    assert(path_end(mview, full.skip(pl as int)) == cand.state@);
                    assert(reachable_key(mview, kview));
                    assert forall|k: Seq<u8>|
                        #[trigger] past_matrices@.contains(k) && !old(
                            past_matrices,
                        )@.contains(k) implies reachable_key(mview, k) by {
                        if k != kview {
                            assert(visited_pre@.contains(k));
                        }
                    }
                }
                let newc = candidates(&cand.state, past_matrices);
                let ghost path_pre = path@;
                path.push(cand.mv);
                let ghost stack_mid = stack@;
                stack.push(Frame { state: cand.state, cands: newc });
                proof {
                    assert(path@ =~= path_pre.push(cand.mv));
                    assert(path@.take(pl as int) =~= path_pre.take(pl as int));
                    assert(forall|i: int|
                        0 <= i < stack_mid.len() ==> #[trigger] stack@[i] == stack_mid[i]);
                    assert(stack@[stack@.len() - 1].state@ == cand.state@);
                    lemma_chain_extend(stack_mid, stack@, path_pre, path@, pl, mdiff, cand);
                    assert(stack@[0] == stack_mid[0]);
                    if winnable_now(mview, mdiff, old(past_matrices)@) {
                        let j = choose|j: int|
                            0 <= j < stack_mid[0].cands@.len() && (
                            #[trigger] stack_mid[0].cands@[j]).score == win_t;
                        assert(stack@[0].cands@[j].score == win_t);
                    }
                }
            }
        } else {
            if stack.len() > 0 {
                let ghost path_pre = path@;
                let _ = path.pop();
                proof {
                    assert(path@ =~= path_pre.drop_last());
                    assert(path@.take(pl as int) =~= path_pre.take(pl as int));
                    assert forall|i: int| 0 <= i < stack@.len() - 1 implies move_legal(
                        stack@[i].state@,
                        #[trigger] path@[pl + i],
                    ) && stack@[i + 1].state@ == apply_move(stack@[i].state@, path@[pl + i]) by {
                        assert(path@[pl + i] == path_pre[pl + i]);
                        assert(stack@[i] == stack_pre[i]);
                        assert(stack@[i + 1] == stack_pre[i + 1]);
                        assert(move_legal(stack_pre[i].state@, path_pre[pl + i]));
                    }
                }
            }
            proof {
                assert(forall|i: int|
                    0 <= i < stack@.len() ==> #[trigger] stack@[i] == stack_pre[i]);
                assert(pending(stack_pre) == pending(stack@) + fr.cands@.len() + 1);
                if winnable_now(mview, mdiff, old(past_matrices)@) {
                    let j = choose|j: int|
                        0 <= j < stack_pre[0].cands@.len() && (
                        #[trigger] stack_pre[0].cands@[j]).score == win_t;
                    if stack_pre.len() == 1 {
                        assert(stack_pre[0] == fr);
                        assert(false);
                    }
                    assert(stack@[0] == stack_pre[0]);
                    assert(stack@[0].cands@[j].score == win_t);
                }
            }
        }
    }
    None
}

} // verus!
