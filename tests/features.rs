use dg_go::{Board, Color, Transform, CHW, HWC, CELLS, EMPTY, FEATURE_SIZE, FEATURE_ONE, NUM_FEATURES};

fn no_ladders() -> Vec<bool> {
    vec![false; CELLS]
}

fn chw(c: usize, i: usize) -> usize {
    c * CELLS + i
}

fn hwc(c: usize, i: usize) -> usize {
    NUM_FEATURES * i + c
}

#[test]
fn check_features_chw() {
    let features = Board::new(1).get_features::<CHW>(Color::Black, Transform::Identity, &no_ladders(), &no_ladders());

    assert_eq!(features.len(), FEATURE_SIZE);
}

#[test]
fn check_features_hwc() {
    let features = Board::new(1).get_features::<HWC>(Color::Black, Transform::Identity, &no_ladders(), &no_ladders());

    assert_eq!(features.len(), FEATURE_SIZE);
}

#[test]
fn empty_board_planes() {
    // komi 6.5 is 13 half points: 0.5 + 6.5 / 15 = 28 / 30
    let board = Board::new(13);
    let f = board.get_features::<CHW>(Color::Black, Transform::Identity, &no_ladders(), &no_ladders());
    for i in 0..CELLS {
        assert_eq!(f[chw(0, i)], 28);
        assert_eq!(f[chw(1, i)], 0);
        assert_eq!(f[chw(2, i)], 0);
        assert_eq!(f[chw(3, i)], 0);
        assert_eq!(f[chw(4, i)], 0);
        for c in 5..13 {
            assert_eq!(f[chw(c, i)], 0);
        }
        for c in 21..29 {
            assert_eq!(f[chw(c, i)], 0);
        }
        // every empty point is legal and keeps at least two liberties
        assert_eq!(f[chw(13, i)], FEATURE_ONE);
        assert_eq!(f[chw(14, i)], FEATURE_ONE);
        assert_eq!(f[chw(37, i)], 0);
    }
    assert!((f[chw(0, 0)] as f32 / FEATURE_ONE as f32 - 0.9333).abs() < 0.001);
}

#[test]
fn white_to_move_uses_second_plane() {
    let board = Board::new(13);
    let f = board.get_features::<CHW>(Color::White, Transform::Identity, &no_ladders(), &no_ladders());
    assert_eq!(f[chw(0, 5)], 0);
    assert_eq!(f[chw(1, 5)], 28);
}

#[test]
fn komi_is_clamped() {
    let high = Board::new(100).get_features::<CHW>(Color::Black, Transform::Identity, &no_ladders(), &no_ladders());
    assert_eq!(high[chw(0, 7)], FEATURE_ONE);
    let low = Board::new(-100).get_features::<CHW>(Color::Black, Transform::Identity, &no_ladders(), &no_ladders());
    assert_eq!(low[chw(0, 7)], 0);
    let zero = Board::new(0).get_features::<CHW>(Color::Black, Transform::Identity, &no_ladders(), &no_ladders());
    assert_eq!(zero[chw(0, 7)], 15);
}

#[test]
fn last_moves_are_one_hot() {
    let mut board = Board::new(15);
    board.play(Color::Black, 60);
    board.play(Color::White, 200);
    let f = board.get_features::<CHW>(Color::Black, Transform::Identity, &no_ladders(), &no_ladders());
    assert_eq!(f[chw(3, 200)], FEATURE_ONE);
    assert_eq!(f[chw(4, 60)], FEATURE_ONE);
    assert_eq!(f[chw(3, 60)], 0);
    let total: usize = (0..CELLS).map(|i| f[chw(3, i)] as usize + f[chw(4, i)] as usize).sum();
    assert_eq!(total, 2 * FEATURE_ONE as usize);
}

#[test]
fn pass_is_skipped_in_history_planes() {
    let mut board = Board::new(15);
    board.play(Color::Black, 60);
    board.pass();
    let f = board.get_features::<CHW>(Color::Black, Transform::Identity, &no_ladders(), &no_ladders());
    let last: usize = (0..CELLS).map(|i| f[chw(3, i)] as usize).sum();
    assert_eq!(last, 0);
    assert_eq!(f[chw(4, 60)], FEATURE_ONE);
}

#[test]
fn stone_liberty_planes() {
    let mut board = Board::new(15);
    board.play(Color::Black, 180);
    board.play(Color::White, 0);
    let f = board.get_features::<CHW>(Color::Black, Transform::Identity, &no_ladders(), &no_ladders());
    // our stone has four liberties
    for c in 5..9 {
        assert_eq!(f[chw(c, 180)], FEATURE_ONE);
    }
    for c in 9..13 {
        assert_eq!(f[chw(c, 180)], 0);
    }
    // the opponent's corner stone has two
    assert_eq!(f[chw(21, 0)], FEATURE_ONE);
    assert_eq!(f[chw(22, 0)], FEATURE_ONE);
    assert_eq!(f[chw(23, 0)], 0);
    assert_eq!(f[chw(21, 180)], 0);
}

#[test]
fn corner_move_has_two_liberties() {
    let board = Board::new(15);
    let mut memo = board.inner.new_memo();
    assert_eq!(board.inner.get_num_liberties_if(Color::Black, 0, &mut memo), 2);
    assert_eq!(board.inner.get_num_liberties_if(Color::White, 360, &mut memo), 2);
    let f = board.get_features::<CHW>(Color::Black, Transform::Identity, &no_ladders(), &no_ladders());
    assert_eq!(f[chw(13, 0)], FEATURE_ONE);
    assert_eq!(f[chw(14, 0)], FEATURE_ONE);
    for c in 15..21 {
        assert_eq!(f[chw(c, 0)], 0);
    }
}

#[test]
fn features_are_deterministic() {
    let mut board = Board::new(13);
    board.play(Color::Black, 72);
    board.play(Color::White, 73);
    board.play(Color::Black, 100);
    let a = board.get_features::<HWC>(Color::White, Transform::Rot90, &no_ladders(), &no_ladders());
    let b = board.get_features::<HWC>(Color::White, Transform::Rot90, &no_ladders(), &no_ladders());
    assert_eq!(a, b);
}

#[test]
fn features_follow_every_symmetry() {
    let mut board = Board::new(13);
    board.play(Color::Black, 3);
    board.play(Color::White, 4);
    board.play(Color::Black, 45);
    board.play(Color::White, 22);
    let plain = board.get_features::<CHW>(Color::Black, Transform::Identity, &no_ladders(), &no_ladders());
    let all = [
        Transform::Identity,
        Transform::FlipLR,
        Transform::FlipUD,
        Transform::Transpose,
        Transform::TransposeAnti,
        Transform::Rot90,
        Transform::Rot180,
        Transform::Rot270,
    ];
    for t in all.iter() {
        let moved = board.get_features::<CHW>(Color::Black, *t, &no_ladders(), &no_ladders());
        let table = t.get_table();
        for c in 0..NUM_FEATURES {
            for i in 0..CELLS {
                assert_eq!(moved[chw(c, table[i])], plain[chw(c, i)]);
            }
        }
    }
}

#[test]
fn layouts_hold_the_same_values() {
    let mut board = Board::new(13);
    board.play(Color::Black, 100);
    let a = board.get_features::<CHW>(Color::White, Transform::Identity, &no_ladders(), &no_ladders());
    let b = board.get_features::<HWC>(Color::White, Transform::Identity, &no_ladders(), &no_ladders());
    for c in 0..NUM_FEATURES {
        for i in 0..CELLS {
            assert_eq!(a[chw(c, i)], b[hwc(c, i)]);
        }
    }
}

#[test]
fn ladder_answers_fill_their_planes() {
    let board = Board::new(13);
    let mut capture = no_ladders();
    let mut escape = no_ladders();
    capture[10] = true;
    escape[11] = true;
    let f = board.get_features::<CHW>(Color::Black, Transform::Identity, &capture, &escape);
    assert_eq!(f[chw(38, 10)], FEATURE_ONE);
    assert_eq!(f[chw(39, 11)], FEATURE_ONE);
    assert_eq!(f[chw(38, 11)], 0);
    assert_eq!(f[chw(39, 10)], 0);
    assert_eq!(board.inner.cells[10], EMPTY);
}

#[test]
fn transform_layer_changes_layout() {
    let mut board = Board::new(13);
    board.play(Color::Black, 100);
    let a = board.get_features::<CHW>(Color::White, Transform::Identity, &no_ladders(), &no_ladders());
    let b = board.get_features::<HWC>(Color::White, Transform::Identity, &no_ladders(), &no_ladders());
    let layer = dg_go::layers::Transform::new();
    assert_eq!(layer.forward::<CHW, HWC>(&a), b);
    assert_eq!(layer.forward::<HWC, CHW>(&b), a);
    assert_eq!(layer.forward::<CHW, CHW>(&a), a);
}
