use dg_go::{Board, Color, FastBoard, Transform, BLACK, CELLS, CHW, EMPTY, WHITE};

#[test]
fn lone_stone_has_four_liberties() {
    let mut board = Board::new(15);
    board.play(Color::Black, 180);
    let mut memo = board.inner.new_memo();
    assert_eq!(board.inner.get_num_liberties(180, &mut memo), 4);
    // the count is recorded and served again
    assert_eq!(memo[180], 4);
    assert_eq!(board.inner.get_num_liberties(180, &mut memo), 4);
}

#[test]
fn adjacent_move_shares_a_liberty() {
    let mut board = Board::new(15);
    board.play(Color::Black, 180);
    let mut memo = board.inner.new_memo();
    assert_eq!(board.inner.get_num_liberties_if(Color::White, 181, &mut memo), 3);
    // the board itself is left alone
    assert_eq!(board.inner.cells[181], EMPTY);
}

#[test]
fn block_liberties_are_shared() {
    let mut board = Board::new(15);
    board.play(Color::Black, 180);
    board.play(Color::Black, 181);
    board.play(Color::White, 199);
    let mut memo = board.inner.new_memo();
    assert_eq!(board.inner.get_num_liberties(180, &mut memo), 5);
    assert_eq!(memo[181], 5);
    assert_eq!(board.inner.count_liberties(181), 5);
    assert_eq!(board.inner.count_liberties(199), 3);
}

#[test]
fn block_at_follows_same_color() {
    let mut board = FastBoard::new();
    board.cells[0] = BLACK;
    board.cells[1] = BLACK;
    board.cells[21] = BLACK;
    board.cells[2] = WHITE;
    let marks = board.block_at(0);
    assert!(marks[0] && marks[1]);
    assert!(!marks[21] && !marks[2]);
    assert_eq!(marks.iter().filter(|m| **m).count(), 2);
    // across the row boundary is no neighbor
    board.cells[18] = BLACK;
    board.cells[19] = BLACK;
    let marks = board.block_at(18);
    assert!(marks[18] && !marks[19]);
}

#[test]
fn capture_empties_the_block() {
    let mut board = FastBoard::new();
    board.cells[0] = WHITE;
    board.cells[1] = WHITE;
    board.cells[5] = WHITE;
    board.capture(0);
    assert_eq!(board.cells[0], EMPTY);
    assert_eq!(board.cells[1], EMPTY);
    assert_eq!(board.cells[5], WHITE);
}

#[test]
fn suicide_is_illegal() {
    let mut board = Board::new(15);
    board.play(Color::Black, 1);
    board.play(Color::Black, 19);
    let mut memo = board.inner.new_memo();
    assert!(!board.inner.is_valid(Color::White, 0, &mut memo));
    assert!(board.inner.is_valid(Color::Black, 0, &mut memo));
    assert!(board.inner.is_valid(Color::White, 2, &mut memo));
    let f = board.get_features::<CHW>(Color::White, Transform::Identity, &vec![false; CELLS], &vec![false; CELLS]);
    assert_eq!(f[13 * CELLS], 0);
    assert_eq!(f[29 * CELLS], 30);
}

#[test]
fn capturing_move_is_legal_and_removes_stones() {
    let mut board = Board::new(15);
    board.play(Color::White, 0);
    board.play(Color::Black, 1);
    board.play(Color::White, 20);
    board.play(Color::White, 38);
    board.play(Color::Black, 18);
    // black at 19 would be surrounded, but it captures the white stone at 0
    board.play(Color::Black, 37);
    let mut memo = board.inner.new_memo();
    assert!(board.inner.is_valid(Color::Black, 19, &mut memo));
    assert_eq!(board.inner.get_num_liberties_if(Color::Black, 19, &mut memo), 1);
    board.play(Color::Black, 19);
    assert_eq!(board.inner.cells[0], EMPTY);
    assert_eq!(board.inner.cells[19], BLACK);
}

#[test]
fn joining_friend_with_spare_liberty_is_legal() {
    let mut board = Board::new(15);
    board.play(Color::Black, 1);
    board.play(Color::White, 2);
    board.play(Color::White, 20);
    board.play(Color::White, 18);
    let mut memo = board.inner.new_memo();
    // black at 0 joins the stone at 1, which has the liberty 0 and no other
    assert!(board.inner.is_valid(Color::Black, 0, &mut memo));
    assert_eq!(board.inner.get_num_liberties_if(Color::Black, 0, &mut memo), 1);
}

#[test]
fn simulation_matches_playing() {
    let mut board = Board::new(15);
    board.play(Color::Black, 100);
    board.play(Color::White, 101);
    board.play(Color::Black, 120);
    let mut memo = board.inner.new_memo();
    for index in [119usize, 102, 81, 0, 360] {
        let simulated = board.inner.get_num_liberties_if(Color::Black, index, &mut memo);
        let mut played = board.inner.duplicate();
        played.cells[index] = BLACK;
        let mut fresh = played.new_memo();
        assert_eq!(played.get_num_liberties(index, &mut fresh), simulated);
    }
}

#[test]
fn recapture_is_ko() {
    let mut board = Board::new(15);
    board.play(Color::Black, 1);
    board.play(Color::White, 2);
    board.play(Color::Black, 19);
    board.play(Color::White, 20);
    board.play(Color::Black, 39);
    board.play(Color::White, 40);
    board.play(Color::White, 22);
    board.play(Color::Black, 21);
    assert_eq!(board.inner.cells[20], EMPTY);
    assert!(board.is_ko(Color::White, 20));
    assert!(!board.is_ko(Color::White, 100));
    let f = board.get_features::<CHW>(Color::White, Transform::Identity, &vec![false; CELLS], &vec![false; CELLS]);
    assert_eq!(f[37 * CELLS + 20], 30);
    assert_eq!(f[2 * CELLS + 300], 30);
}

#[test]
fn symmetry_tables_are_permutations() {
    let all = [
        Transform::Identity,
        Transform::FlipLR,
        Transform::FlipUD,
        Transform::Transpose,
        Transform::TransposeAnti,
        Transform::Rot90,
        Transform::Rot180,
        Transform::Rot270,
    ];
    for t in all.iter() {
        let table = t.get_table();
        let mut seen = vec![false; CELLS];
        for i in 0..CELLS {
            assert!(!seen[table[i]]);
            seen[table[i]] = true;
        }
    }
    assert_eq!(Transform::Rot90.apply(0), 18);
    assert_eq!(Transform::FlipLR.apply(0), 18);
    assert_eq!(Transform::FlipUD.apply(0), 342);
    assert_eq!(Transform::Transpose.apply(1), 19);
    assert_eq!(Transform::Rot180.apply(0), 360);
}

fn scattered_board() -> Board {
    let mut board = Board::new(15);
    let mut seed: usize = 7;
    for _ in 0..150 {
        seed = (seed * 1103515245 + 12345) % 2147483648;
        let index = (seed / 65536) % CELLS;
        let color = if (seed / 16) % 2 == 0 { Color::Black } else { Color::White };
        if board.inner.cells[index] == EMPTY {
            let mut memo = board.inner.new_memo();
            if board.inner.is_valid(color, index, &mut memo) {
                board.play(color, index);
            }
        }
    }
    board
}

fn neighbors(i: usize) -> Vec<usize> {
    let (r, c) = (i / 19, i % 19);
    let mut out = Vec::new();
    if r > 0 {
        out.push(i - 19);
    }
    if r < 18 {
        out.push(i + 19);
    }
    if c > 0 {
        out.push(i - 1);
    }
    if c < 18 {
        out.push(i + 1);
    }
    out
}

fn brute_force_liberties(cells: &[u8], start: usize) -> usize {
    let mut seen = vec![false; CELLS];
    let mut libs = vec![false; CELLS];
    let mut todo = vec![start];
    seen[start] = true;
    while let Some(x) = todo.pop() {
        for n in neighbors(x) {
            if cells[n] == EMPTY {
                libs[n] = true;
            } else if cells[n] == cells[start] && !seen[n] {
                seen[n] = true;
                todo.push(n);
            }
        }
    }
    libs.iter().filter(|l| **l).count()
}

#[test]
fn liberties_match_brute_force() {
    let board = scattered_board();
    let mut memo = board.inner.new_memo();
    let mut stones = 0;
    for i in 0..CELLS {
        if board.inner.cells[i] != EMPTY {
            stones += 1;
            let expected = brute_force_liberties(&board.inner.cells, i);
            assert_eq!(board.inner.get_num_liberties(i, &mut memo), expected);
            assert_eq!(board.inner.count_liberties(i), expected);
        }
    }
    assert!(stones > 50);
}

#[test]
fn legal_exactly_when_a_liberty_remains() {
    let board = scattered_board();
    let mut memo = board.inner.new_memo();
    for i in 0..CELLS {
        if board.inner.cells[i] == EMPTY {
            for color in [Color::Black, Color::White] {
                let valid = board.inner.is_valid(color, i, &mut memo);
                let after = board.inner.get_num_liberties_if(color, i, &mut memo);
                assert_eq!(valid, after >= 1);
                let played = board.inner.play_on(color, i, &mut memo);
                let mut fresh = played.new_memo();
                assert_eq!(played.get_num_liberties(i, &mut fresh), after);
            }
        }
    }
}
