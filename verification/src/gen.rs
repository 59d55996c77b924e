use vstd::prelude::*;

use crate::board::Matrix;
use crate::board::lemma_all_equal_top_run;
use crate::board::lemma_top_run_props;
use crate::model::BoardView;
use crate::model::Location;
use crate::model::Move;
use crate::model::NUM_COLUMNS;
use crate::model::RUN_SIZE;
use crate::model::all_equal;
use crate::model::capped_run;
use crate::model::is_locked;
use crate::model::loc_len;
use crate::model::move_legal;

verus! {

/// Move generator safety: every legal move carries between one and
/// `RUN_SIZE` cards, and its source holds at least that many.
pub proof fn lemma_move_safety(v: BoardView, m: Move)
    requires
        move_legal(v, m),
    ensures
        1 <= m.count,
        m.count <= RUN_SIZE,
        m.count <= loc_len(v, m.from),
        loc_len(v, m.from) > 0,
{
    match m.from {
        Location::Column(f) => {
            lemma_top_run_props(v.stacks[f as int]);
        },
        Location::Slot(_) => {},
    }
}

/// Locked-run inertness: a column of exactly `RUN_SIZE` equal cards is never
/// the source of a legal move.
pub proof fn lemma_locked_run_inert(v: BoardView, m: Move, f: usize)
    requires
        move_legal(v, m),
        f < v.stacks.len(),
        v.stacks[f as int].len() == RUN_SIZE,
        all_equal(v.stacks[f as int]),
    ensures
        m.from != Location::Column(f),
{
    lemma_all_equal_top_run(v.stacks[f as int]);
    assert(is_locked(v.stacks[f as int]));
    if m.from == Location::Column(f) {
        match m.to {
            Location::Column(_) => {
                assert(!move_legal(v, m));
            },
            Location::Slot(_) => {
                assert(!move_legal(v, m));
            },
        }
    }
}

/// The move's source is a column with index below `n`.
pub open spec fn col_src_below(mv: Move, n: usize) -> bool {
    match mv.from {
        Location::Column(f) => f < n,
        Location::Slot(_) => false,
    }
}

/// The move's source is a slot with index below `n`.
pub open spec fn slot_src_below(mv: Move, n: usize) -> bool {
    match mv.from {
        Location::Column(_) => false,
        Location::Slot(s) => s < n,
    }
}

/// Pushing keeps every element of a move list reachable.
proof fn lemma_push_contains(s: Seq<Move>, x: Move)
    ensures
        forall|y: Move| s.contains(y) ==> #[trigger] s.push(x).contains(y),
        s.push(x).contains(x),
{
    assert forall|y: Move| s.contains(y) implies #[trigger] s.push(x).contains(y) by {
        let i = choose|i: int| 0 <= i < s.len() && s[i] == y;
        assert(s.push(x)[i] == y);
    }
    assert(s.push(x)[s.len() as int] == x);
}

/// Emits every legal move whose source is column `from`.
fn column_source_moves(m: &Matrix, from: usize, moves: &mut Vec<Move>)
    requires
        m.wf(),
        from < NUM_COLUMNS,
    ensures
        final(moves)@.len() >= old(moves)@.len(),
        forall|i: int| 0 <= i < old(moves)@.len() ==> final(moves)@[i] == old(moves)@[i],
        forall|i: int|
            old(moves)@.len() <= i < final(moves)@.len() ==> move_legal(
                m@,
                #[trigger] final(moves)@[i],
            ),
        forall|mv: Move|
            move_legal(m@, mv) && mv.from == Location::Column(from) ==> final(moves)@.contains(mv),
{
    let stack_from = &m.stacks[from];
    proof {
        assert(stack_from@ == m@.stacks[from as int]);
    }
    if stack_from.len() == 0 {
        proof {
            assert forall|mv: Move| mv.from == Location::Column(from) implies !move_legal(
                m@,
                mv,
            ) by {
                match mv.to {
                    Location::Column(_) => {},
                    Location::Slot(_) => {},
                }
            }
        }
        return ;
    }
    let maxc = Matrix::run_len(stack_from);
    if maxc == RUN_SIZE && stack_from.len() == RUN_SIZE {
        proof {
            assert(is_locked(m@.stacks[from as int]));
            assert forall|mv: Move| mv.from == Location::Column(from) implies !move_legal(
                m@,
                mv,
            ) by {
                match mv.to {
                    Location::Column(_) => {},
                    Location::Slot(_) => {},
                }
            }
        }
        return ;
    }
    proof {
        assert(!is_locked(m@.stacks[from as int]));
        lemma_top_run_props(m@.stacks[from as int]);
    }
    let top_from = stack_from[stack_from.len() - 1];
    // column destinations
    let mut to: usize = 0;
    while to < NUM_COLUMNS
        invariant
            m.wf(),
            from < NUM_COLUMNS,
            to <= NUM_COLUMNS,
            stack_from@ == m@.stacks[from as int],
            stack_from@.len() > 0,
            top_from == m@.stacks[from as int].last(),
            maxc == capped_run(m@.stacks[from as int]),
            !is_locked(m@.stacks[from as int]),
            moves@.len() >= old(moves)@.len(),
            forall|i: int| 0 <= i < old(moves)@.len() ==> moves@[i] == old(moves)@[i],
            forall|i: int|
                old(moves)@.len() <= i < moves@.len() ==> move_legal(m@, #[trigger] moves@[i]),
            forall|t: usize, c: usize|
                t < to && move_legal(
                    m@,
                    Move { from: Location::Column(from), to: Location::Column(t), count: c },
                ) ==> #[trigger] moves@.contains(
                    Move {
                        from: Location::Column(from),
                        to: Location::Column(t),
                        count: c,
                    },
                ),
        decreases NUM_COLUMNS - to,
    {
        if to != from {
            let stack_to = &m.stacks[to];
            proof {
                assert(stack_to@ == m@.stacks[to as int]);
            }
            if stack_to.len() == 0 || stack_to[stack_to.len() - 1] == top_from {
                let mut c: usize = 1;
                while c <= maxc
                    invariant
                        m.wf(),
                        from < NUM_COLUMNS,
                        to < NUM_COLUMNS,
                        to != from,
                        1 <= c <= maxc + 1,
                        stack_from@ == m@.stacks[from as int],
                        stack_from@.len() > 0,
                        top_from == m@.stacks[from as int].last(),
                        maxc == capped_run(m@.stacks[from as int]),
                        !is_locked(m@.stacks[from as int]),
                        m@.stacks[to as int].len() == 0 || m@.stacks[to as int].last()
                            == m@.stacks[from as int].last(),
                        moves@.len() >= old(moves)@.len(),
                        forall|i: int| 0 <= i < old(moves)@.len() ==> moves@[i] == old(moves)@[i],
                        forall|i: int|
                            old(moves)@.len() <= i < moves@.len() ==> move_legal(
                                m@,
                                #[trigger] moves@[i],
                            ),
                        forall|t: usize, cc: usize|
                            t < to && move_legal(
                                m@,
                                Move {
                                    from: Location::Column(from),
                                    to: Location::Column(t),
                                    count: cc,
                                },
                            ) ==> #[trigger] moves@.contains(
                                Move {
                                    from: Location::Column(from),
                                    to: Location::Column(t),
                                    count: cc,
                                },
                            ),
                        forall|cc: usize|
                            1 <= cc < c ==> #[trigger] moves@.contains(
                                Move {
                                    from: Location::Column(from),
                                    to: Location::Column(to),
                                    count: cc,
                                },
                            ),
                    decreases maxc + 1 - c,
                {
                    let mv = Move { from: Location::Column(from), to: Location::Column(to), count: c };
                    proof {
                        assert(move_legal(m@, mv));
                        lemma_push_contains(moves@, mv);
                    }
                    moves.push(mv);
                    c += 1;
                }
                proof {
                    assert forall|cc: usize|
                        move_legal(
                            m@,
                            Move {
                                from: Location::Column(from),
                                to: Location::Column(to),
                                count: cc,
                            },
                        ) implies moves@.contains(
                        Move { from: Location::Column(from), to: Location::Column(to), count: cc },
                    ) by {
                        assert(1 <= cc && cc <= maxc);
                    }
                }
            } else {
                proof {
                    assert forall|cc: usize|
                        move_legal(
                            m@,
                            Move {
                                from: Location::Column(from),
                                to: Location::Column(to),
                                count: cc,
                            },
                        ) implies moves@.contains(
                        Move { from: Location::Column(from), to: Location::Column(to), count: cc },
                    ) by {}
                }
            }
        } else {
            proof {
                assert forall|cc: usize|
                    move_legal(
                        m@,
                        Move { from: Location::Column(from), to: Location::Column(to), count: cc },
                    ) implies moves@.contains(
                    Move { from: Location::Column(from), to: Location::Column(to), count: cc },
                ) by {}
            }
        }
        to += 1;
    }
    // slot destinations
    let mut s_i: usize = 0;
    while s_i < m.slots.len()
        invariant
            m.wf(),
            from < NUM_COLUMNS,
            s_i <= m@.slots.len(),
            m.slots@.len() == m@.slots.len(),
            stack_from@ == m@.stacks[from as int],
            stack_from@.len() > 0,
            maxc == capped_run(m@.stacks[from as int]),
            !is_locked(m@.stacks[from as int]),
            moves@.len() >= old(moves)@.len(),
            forall|i: int| 0 <= i < old(moves)@.len() ==> moves@[i] == old(moves)@[i],
            forall|i: int|
                old(moves)@.len() <= i < moves@.len() ==> move_legal(m@, #[trigger] moves@[i]),
            forall|t: usize, c: usize|
                move_legal(
                    m@,
                    Move { from: Location::Column(from), to: Location::Column(t), count: c },
                ) ==> #[trigger] moves@.contains(
                    Move {
                        from: Location::Column(from),
                        to: Location::Column(t),
                        count: c,
                    },
                ),
            forall|s: usize, c: usize|
                s < s_i && move_legal(
                    m@,
                    Move { from: Location::Column(from), to: Location::Slot(s), count: c },
                ) ==> #[trigger] moves@.contains(
                    Move {
                        from: Location::Column(from),
                        to: Location::Slot(s),
                        count: c,
                    },
                ),
        decreases m@.slots.len() - s_i,
    {
        proof {
            assert(m.slots@[s_i as int]@ == m@.slots[s_i as int]);
        }
        if m.slots[s_i].len() == 0 {
            let mv1 = Move { from: Location::Column(from), to: Location::Slot(s_i), count: 1 };
            proof {
                assert(move_legal(m@, mv1));
                lemma_push_contains(moves@, mv1);
            }
            moves.push(mv1);
            if maxc == RUN_SIZE {
                let mv4 = Move {
                    from: Location::Column(from),
                    to: Location::Slot(s_i),
                    count: RUN_SIZE,
                };
                proof {
                    assert(move_legal(m@, mv4));
                    lemma_push_contains(moves@, mv4);
                }
                moves.push(mv4);
            }
            proof {
                assert forall|c: usize|
                    move_legal(
                        m@,
                        Move { from: Location::Column(from), to: Location::Slot(s_i), count: c },
                    ) implies moves@.contains(
                    Move { from: Location::Column(from), to: Location::Slot(s_i), count: c },
                ) by {
                    assert(c == 1 || c == RUN_SIZE);
                }
            }
        } else {
            proof {
                assert forall|c: usize|
                    move_legal(
                        m@,
                        Move { from: Location::Column(from), to: Location::Slot(s_i), count: c },
                    ) implies moves@.contains(
                    Move { from: Location::Column(from), to: Location::Slot(s_i), count: c },
                ) by {}
            }
        }
        s_i += 1;
    }
    proof {
        assert forall|mv: Move|
            move_legal(m@, mv) && mv.from == Location::Column(from) implies moves@.contains(
            mv,
        ) by {
            match mv.to {
                Location::Column(t) => {
                    assert(mv == Move {
                        from: Location::Column(from),
                        to: Location::Column(t),
                        count: mv.count,
                    });
                },
                Location::Slot(s) => {
                    assert(s < m@.slots.len());
                    assert(mv == Move {
                        from: Location::Column(from),
                        to: Location::Slot(s),
                        count: mv.count,
                    });
                },
            }
        }
    }
}

/// Emits every legal move whose source is slot `s`.
fn slot_source_moves(m: &Matrix, s: usize, moves: &mut Vec<Move>)
    requires
        m.wf(),
        s < m@.slots.len(),
    ensures
        final(moves)@.len() >= old(moves)@.len(),
        forall|i: int| 0 <= i < old(moves)@.len() ==> final(moves)@[i] == old(moves)@[i],
        forall|i: int|
            old(moves)@.len() <= i < final(moves)@.len() ==> move_legal(
                m@,
                #[trigger] final(moves)@[i],
            ),
        forall|mv: Move|
            move_legal(m@, mv) && mv.from == Location::Slot(s) ==> final(moves)@.contains(mv),
{
    proof {
        assert(m.slots@[s as int]@ == m@.slots[s as int]);
    }
    if m.slots[s].len() != 1 {
        proof {
            assert forall|mv: Move| mv.from == Location::Slot(s) implies !move_legal(m@, mv) by {
                match mv.to {
                    Location::Column(_) => {},
                    Location::Slot(_) => {},
                }
            }
        }
        return ;
    }
    let card = m.slots[s][0];
    let mut t: usize = 0;
    while t < NUM_COLUMNS
        invariant
            m.wf(),
            s < m@.slots.len(),
            t <= NUM_COLUMNS,
            m@.slots[s as int].len() == 1,
            card == m@.slots[s as int][0],
            moves@.len() >= old(moves)@.len(),
            forall|i: int| 0 <= i < old(moves)@.len() ==> moves@[i] == old(moves)@[i],
            forall|i: int|
                old(moves)@.len() <= i < moves@.len() ==> move_legal(m@, #[trigger] moves@[i]),
            forall|tt: usize, c: usize|
                tt < t && move_legal(
                    m@,
                    Move { from: Location::Slot(s), to: Location::Column(tt), count: c },
                ) ==> #[trigger] moves@.contains(
                    Move {
                        from: Location::Slot(s),
                        to: Location::Column(tt),
                        count: c,
                    },
                ),
        decreases NUM_COLUMNS - t,
    {
        let stack_to = &m.stacks[t];
        proof {
            assert(stack_to@ == m@.stacks[t as int]);
        }
        if stack_to.len() == 0 || stack_to[stack_to.len() - 1] == card {
            let mv = Move { from: Location::Slot(s), to: Location::Column(t), count: 1 };
            proof {
                assert(move_legal(m@, mv));
                lemma_push_contains(moves@, mv);
            }
            moves.push(mv);
        }
        proof {
            assert forall|c: usize|
                move_legal(
                    m@,
                    Move { from: Location::Slot(s), to: Location::Column(t), count: c },
                ) implies moves@.contains(
                Move { from: Location::Slot(s), to: Location::Column(t), count: c },
            ) by {
                assert(c == 1);
            }
        }
        t += 1;
    }
    proof {
        assert forall|mv: Move|
            move_legal(m@, mv) && mv.from == Location::Slot(s) implies moves@.contains(mv) by {
            match mv.to {
                Location::Column(t) => {
                    assert(mv == Move {
                        from: Location::Slot(s),
                        to: Location::Column(t),
                        count: mv.count,
                    });
                },
                Location::Slot(_) => {},
            }
        }
    }
}

impl Matrix {
    /// Enumerates exactly the legal moves of this board: every element of the
    /// result is legal, and every legal move appears in the result.
    pub fn available_moves(&self) -> (r: Vec<Move>)
        requires
            self.wf(),
        ensures
            forall|i: int| 0 <= i < r@.len() ==> move_legal(self@, #[trigger] r@[i]),
            forall|mv: Move| move_legal(self@, mv) ==> r@.contains(mv),
    {
        let mut moves: Vec<Move> = Vec::new();
        let mut from: usize = 0;
        while from < NUM_COLUMNS
            invariant
                self.wf(),
                from <= NUM_COLUMNS,
                forall|i: int| 0 <= i < moves@.len() ==> move_legal(self@, #[trigger] moves@[i]),
                forall|mv: Move|
                    move_legal(self@, mv) && col_src_below(mv, from) ==> moves@.contains(mv),
            decreases NUM_COLUMNS - from,
        {
            let ghost pre = moves@;
            column_source_moves(self, from, &mut moves);
            proof {
                assert forall|mv: Move|
                    move_legal(self@, mv) && col_src_below(mv, (from + 1) as usize)
                    implies moves@.contains(mv) by {
                    if col_src_below(mv, from) {
                        assert(pre.contains(mv));
                        let i = choose|i: int| 0 <= i < pre.len() && pre[i] == mv;
                        assert(moves@[i] == mv);
                    } else {
                        assert(mv.from == Location::Column(from));
                    }
                }
            }
            from += 1;
        }
        let mut s: usize = 0;
        while s < self.slots.len()
            invariant
                self.wf(),
                s <= self@.slots.len(),
                self.slots@.len() == self@.slots.len(),
                forall|i: int| 0 <= i < moves@.len() ==> move_legal(self@, #[trigger] moves@[i]),
                forall|mv: Move|
                    move_legal(self@, mv) && col_src_below(mv, NUM_COLUMNS) ==> moves@.contains(
                        mv,
                    ),
                forall|mv: Move|
                    move_legal(self@, mv) && slot_src_below(mv, s) ==> moves@.contains(mv),
            decreases self@.slots.len() - s,
        {
            let ghost pre = moves@;
            slot_source_moves(self, s, &mut moves);
            proof {
                assert forall|mv: Move|
                    move_legal(self@, mv) && col_src_below(mv, NUM_COLUMNS) implies moves@.contains(
                    mv,
                ) by {
                    assert(pre.contains(mv));
                    let i = choose|i: int| 0 <= i < pre.len() && pre[i] == mv;
                    assert(moves@[i] == mv);
                }
                assert forall|mv: Move|
                    move_legal(self@, mv) && slot_src_below(mv, (s + 1) as usize)
                    implies moves@.contains(mv) by {
                    if slot_src_below(mv, s) {
                        assert(pre.contains(mv));
                        let i = choose|i: int| 0 <= i < pre.len() && pre[i] == mv;
                        assert(moves@[i] == mv);
                    } else {
                        assert(mv.from == Location::Slot(s));
                    }
                }
            }
            s += 1;
        }
        proof {
            assert forall|mv: Move| move_legal(self@, mv) implies moves@.contains(mv) by {
                match mv.from {
                    Location::Column(f) => {
                        assert(f < self@.stacks.len());
                        assert(col_src_below(mv, NUM_COLUMNS));
                    },
                    Location::Slot(ss) => {
                        assert(ss < self@.slots.len());
                        assert(slot_src_below(mv, s));
                    },
                }
            }
        }
        moves
    }
}

} // verus!
