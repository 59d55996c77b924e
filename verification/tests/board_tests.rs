use tableau_solver::Difficulty;
use tableau_solver::Location;
use tableau_solver::Matrix;
use tableau_solver::Move;
use tableau_solver::win_threshold;

fn board(stacks: Vec<Vec<u8>>, slots: Vec<Vec<u8>>, difficulty: Difficulty) -> Matrix {
    Matrix { stacks, difficulty, slots }
}

fn empty_cols(n: usize) -> Vec<Vec<u8>> {
    let mut v: Vec<Vec<u8>> = Vec::new();
    for _ in 0..n {
        v.push(Vec::new());
    }
    v
}

#[test]
fn get_coords_per_difficulty() {
    assert_eq!(Difficulty::Easy.get_coords(), (2845, 555));
    assert_eq!(Difficulty::Medium.get_coords(), (3035, 555));
    assert_eq!(Difficulty::Hard.get_coords(), (2845, 685));
    assert_eq!(Difficulty::Expert.get_coords(), (3035, 685));
}

#[test]
fn slot_count_per_difficulty() {
    assert_eq!(Difficulty::Easy.slot_count(), 4);
    assert_eq!(Difficulty::Medium.slot_count(), 3);
    assert_eq!(Difficulty::Hard.slot_count(), 2);
    assert_eq!(Difficulty::Expert.slot_count(), 1);
}

#[test]
fn win_threshold_per_shape() {
    // eight locked columns and two retired runs, the rest of the slots empty
    assert_eq!(win_threshold(Difficulty::Easy), 162);
    assert_eq!(win_threshold(Difficulty::Medium), 161);
    assert_eq!(win_threshold(Difficulty::Hard), 160);
    // a single slot can retire only one run
    assert_eq!(win_threshold(Difficulty::Expert), 144);
}

#[test]
fn score_of_empty_board() {
    let m = board(empty_cols(8), empty_cols(4), Difficulty::Easy);
    // every empty column and every empty slot contributes exactly one
    assert_eq!(m.score(), 12);
}

#[test]
fn score_counts_runs_and_slots() {
    let mut stacks = empty_cols(8);
    stacks[0] = vec![3, 3];
    stacks[1] = vec![2, 5, 5, 5, 5];
    let mut slots = empty_cols(4);
    slots[0] = vec![7];
    slots[1] = vec![9, 9, 9, 9];
    let m = board(stacks, slots, Difficulty::Easy);
    // columns: 4 + 16 + 6 * 1; slots: 2 + 16 + 1 + 1
    assert_eq!(m.score(), 46);
}

#[test]
fn score_caps_runs_at_four() {
    let mut stacks = empty_cols(8);
    stacks[0] = vec![6, 6, 6, 6, 6, 6];
    let m = board(stacks, empty_cols(1), Difficulty::Expert);
    assert_eq!(m.score(), 16 + 7 + 1);
}

#[test]
fn hash_string_renders_sorted_piles() {
    let mut stacks = empty_cols(8);
    stacks[3] = vec![1, 2];
    let m = board(stacks, empty_cols(1), Difficulty::Expert);
    assert_eq!(m.to_hash_string(), "12TTTTTTTTT".to_string());
}

#[test]
fn hash_string_ignores_column_and_slot_order() {
    let mut stacks_a = empty_cols(8);
    stacks_a[0] = vec![1, 2];
    stacks_a[1] = vec![3];
    let mut slots_a = empty_cols(4);
    slots_a[0] = vec![4];
    let a = board(stacks_a, slots_a, Difficulty::Easy);

    let mut stacks_b = empty_cols(8);
    stacks_b[7] = vec![1, 2];
    stacks_b[2] = vec![3];
    let mut slots_b = empty_cols(4);
    slots_b[3] = vec![4];
    let b = board(stacks_b, slots_b, Difficulty::Easy);

    assert_eq!(a.to_hash_string(), b.to_hash_string());
}

#[test]
fn hash_string_tells_boards_apart() {
    let mut stacks_a = empty_cols(8);
    stacks_a[0] = vec![1, 2];
    let a = board(stacks_a, empty_cols(4), Difficulty::Easy);

    let mut stacks_b = empty_cols(8);
    stacks_b[0] = vec![2, 1];
    let b = board(stacks_b, empty_cols(4), Difficulty::Easy);

    assert_ne!(a.to_hash_string(), b.to_hash_string());
}

#[test]
fn hash_string_keeps_slots_separate_from_columns() {
    // one column holding [5] versus one slot holding [5]
    let mut stacks_a = empty_cols(8);
    stacks_a[0] = vec![5];
    let a = board(stacks_a, empty_cols(4), Difficulty::Easy);

    let mut slots_b = empty_cols(4);
    slots_b[0] = vec![5];
    let b = board(empty_cols(8), slots_b, Difficulty::Easy);

    assert_ne!(a.to_hash_string(), b.to_hash_string());
}

#[test]
fn new_builds_empty_slots() {
    let mut stacks = empty_cols(8);
    stacks[0] = vec![1, 1, 2];
    let m = Matrix::new(stacks, Difficulty::Medium);
    assert_eq!(m.slots.len(), 3);
    for s in &m.slots {
        assert!(s.is_empty());
    }
    assert_eq!(m.stacks[0], vec![1, 1, 2]);
}

fn total_cards(m: &Matrix) -> usize {
    let mut n = 0;
    for s in &m.stacks {
        n += s.len();
    }
    for s in &m.slots {
        n += s.len();
    }
    n
}

#[test]
fn make_move_conserves_cards() {
    let mut stacks = empty_cols(8);
    stacks[0] = vec![9, 4, 4];
    stacks[1] = vec![4];
    let m = board(stacks, empty_cols(4), Difficulty::Easy);
    let before = total_cards(&m);
    let next = m.make_move(Move { from: Location::Column(0), to: Location::Column(1), count: 2 });
    assert_eq!(total_cards(&next), before);
    assert_eq!(next.stacks[0], vec![9]);
    assert_eq!(next.stacks[1], vec![4, 4, 4]);
}

#[test]
fn make_move_retires_full_run_to_slot() {
    let mut stacks = empty_cols(8);
    stacks[0] = vec![1, 4, 4, 4, 4];
    let m = board(stacks, empty_cols(4), Difficulty::Easy);
    let moves = m.available_moves();
    let retire = Move { from: Location::Column(0), to: Location::Slot(0), count: 4 };
    assert!(moves.contains(&retire));
    let next = m.make_move(retire);
    assert_eq!(next.stacks[0], vec![1]);
    assert_eq!(next.slots[0], vec![4, 4, 4, 4]);
    assert_eq!(total_cards(&next), 5);
}
