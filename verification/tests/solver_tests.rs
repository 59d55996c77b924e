use tableau_solver::Difficulty;
use tableau_solver::Location;
use tableau_solver::Matrix;
use tableau_solver::Move;
use tableau_solver::VisitedSet;
use tableau_solver::solve;

fn board(stacks: Vec<Vec<u8>>, slots: Vec<Vec<u8>>, difficulty: Difficulty) -> Matrix {
    Matrix { stacks, difficulty, slots }
}

fn empty_cols(n: usize) -> Vec<Vec<u8>> {
    let mut v: Vec<Vec<u8>> = Vec::new();
    for _ in 0..n {
        v.push(Vec::new());
    }
    v
}

fn source_of(mv: &Move) -> Location {
    mv.from
}

#[test]
fn two_equal_tops_give_column_to_column_move() {
    // two columns [A], [A] and one empty slot
    let a: u8 = 6;
    let mut stacks = empty_cols(8);
    stacks[0] = vec![a];
    stacks[1] = vec![a];
    let m = board(stacks, empty_cols(1), Difficulty::Expert);
    let moves = m.available_moves();
    let wanted = Move { from: Location::Column(0), to: Location::Column(1), count: 1 };
    assert!(moves.contains(&wanted));
    let next = m.make_move(wanted);
    assert!(next.stacks[0].is_empty());
    assert_eq!(next.stacks[1], vec![a, a]);
}

#[test]
fn locked_run_is_never_a_source() {
    // a column of four equal cards and another column whose top equals them
    let x: u8 = 5;
    let mut stacks = empty_cols(8);
    stacks[0] = vec![x, x, x, x];
    stacks[1] = vec![x];
    let m = board(stacks, empty_cols(4), Difficulty::Easy);
    let moves = m.available_moves();
    for mv in &moves {
        assert_ne!(source_of(mv), Location::Column(0));
    }
    // the locked run may still be a destination
    let onto_locked = Move { from: Location::Column(1), to: Location::Column(0), count: 1 };
    assert!(moves.contains(&onto_locked));
}

#[test]
fn single_card_slot_moves_onto_matching_column() {
    let y: u8 = 3;
    let mut stacks = empty_cols(8);
    stacks[0] = vec![y];
    stacks[1] = vec![2, 2];
    let mut slots = empty_cols(4);
    slots[0] = vec![y];
    let m = board(stacks, slots, Difficulty::Easy);
    let moves = m.available_moves();
    let wanted = Move { from: Location::Slot(0), to: Location::Column(0), count: 1 };
    assert!(moves.contains(&wanted));
    let next = m.make_move(wanted);
    assert!(next.slots[0].is_empty());
    assert_eq!(next.stacks[0], vec![y, y]);
}

#[test]
fn slot_with_two_cards_is_never_a_source() {
    let y: u8 = 9;
    let mut stacks = empty_cols(8);
    stacks[0] = vec![y];
    stacks[1] = vec![y, y];
    let mut slots = empty_cols(4);
    slots[0] = vec![y, y];
    let m = board(stacks, slots, Difficulty::Easy);
    for mv in &m.available_moves() {
        assert_ne!(source_of(mv), Location::Slot(0));
    }
}

#[test]
fn generated_moves_are_safe() {
    let mut stacks = empty_cols(8);
    stacks[0] = vec![1, 2, 2];
    stacks[1] = vec![2];
    stacks[2] = vec![0, 0, 0, 0, 0];
    let mut slots = empty_cols(4);
    slots[0] = vec![7];
    let m = board(stacks, slots, Difficulty::Easy);
    for mv in &m.available_moves() {
        assert!(mv.count >= 1 && mv.count <= 4);
        let held = match mv.from {
            Location::Column(f) => m.stacks[f].len(),
            Location::Slot(s) => m.slots[s].len(),
        };
        assert!(held >= mv.count);
    }
}

#[test]
fn dead_board_below_threshold_is_exhausted() {
    // every column a locked run: no legal move exists, score 132 < 162
    let mut stacks: Vec<Vec<u8>> = Vec::new();
    for r in 0..8u8 {
        stacks.push(vec![r, r, r, r]);
    }
    let m = board(stacks, empty_cols(4), Difficulty::Easy);
    assert!(m.available_moves().is_empty());
    assert!(m.score() < 162);
    let mut visited = VisitedSet::new();
    visited.insert_key(m.key_bytes());
    let solution = solve(m, &mut visited, &Vec::new());
    assert!(solution.is_none());
}

fn one_move_from_won() -> Matrix {
    // columns 0..6 locked; column 7 holds three nines; slot 0 holds the
    // fourth nine; slots 1 and 2 hold retired runs; slot 3 is empty
    let mut stacks: Vec<Vec<u8>> = Vec::new();
    for r in 0..7u8 {
        stacks.push(vec![r, r, r, r]);
    }
    stacks.push(vec![9, 9, 9]);
    let slots = vec![vec![9], vec![8, 8, 8, 8], vec![7, 7, 7, 7], Vec::new()];
    board(stacks, slots, Difficulty::Easy)
}

#[test]
fn solver_finds_the_winning_move() {
    let m = one_move_from_won();
    let mut visited = VisitedSet::new();
    visited.insert_key(m.key_bytes());
    let solution = solve(m, &mut visited, &Vec::new());
    let path = solution.expect("a winning path exists");
    // replay the path on a fresh copy of the board
    let mut cur = one_move_from_won();
    for mv in &path {
        cur = cur.make_move(*mv);
    }
    assert_eq!(cur.score(), 162);
}

#[test]
fn solver_keeps_the_given_move_prefix() {
    let m = one_move_from_won();
    let mut visited = VisitedSet::new();
    let prefix = vec![Move { from: Location::Column(0), to: Location::Column(1), count: 1 }];
    let solution = solve(m, &mut visited, &prefix);
    let path = solution.expect("a winning path exists");
    assert!(path.len() > 1);
    assert_eq!(path[0], prefix[0]);
}

#[test]
fn visited_successors_are_pruned() {
    // the only successors' keys are already visited, so the search is
    // exhausted at once even though legal moves exist
    let mut stacks = empty_cols(8);
    stacks[0] = vec![4];
    let m = board(stacks, empty_cols(1), Difficulty::Expert);
    let moves = m.available_moves();
    assert!(!moves.is_empty());
    let mut visited = VisitedSet::new();
    visited.insert_key(m.key_bytes());
    for mv in &moves {
        let succ = m.make_move(*mv);
        visited.insert_key(succ.key_bytes());
    }
    let solution = solve(m, &mut visited, &Vec::new());
    assert!(solution.is_none());
}

#[test]
fn empty_slots_take_single_cards() {
    let mut stacks = empty_cols(8);
    stacks[0] = vec![1, 3];
    let m = board(stacks, empty_cols(2), Difficulty::Hard);
    let moves = m.available_moves();
    assert!(moves.contains(&Move { from: Location::Column(0), to: Location::Slot(0), count: 1 }));
    assert!(moves.contains(&Move { from: Location::Column(0), to: Location::Slot(1), count: 1 }));
    // a filled slot takes nothing
    let next = m.make_move(Move { from: Location::Column(0), to: Location::Slot(0), count: 1 });
    for mv in &next.available_moves() {
        assert_ne!(mv.to, Location::Slot(0));
    }
}
