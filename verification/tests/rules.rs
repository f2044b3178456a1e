use dobutsu_count::encoding::{get_hand, get_sq, set_hand, set_sq};
use dobutsu_count::rules::{black_can_reach, black_offsets, find_white_lion, generate_successors_canonical, initial_position, is_terminal, white_lion_present};
use dobutsu_count::symmetry::{canonical, flip_perspective, reflect_lr};
use dobutsu_count::solve::{classify_position, has_both_lions};
use dobutsu_count::{Pos, NUM_SQ, STATUS_LOSE, STATUS_UNKNOWN, STATUS_WIN};

/// Black lion in the middle of its back rank, White lion in the middle of the top rank.
fn lions_only() -> Pos {
    set_sq(set_sq(0, 13, 1), 1, 6)
}

#[test]
fn initial_layout() {
    let p = initial_position();
    let expected: [u32; 15] = [8, 6, 7, 0, 9, 0, 0, 0, 0, 0, 4, 0, 2, 1, 3];
    for sq in 0..NUM_SQ {
        assert_eq!(get_sq(p, sq), expected[sq]);
    }
    for idx in 0..6 {
        assert_eq!(get_hand(p, idx), 0);
    }
    let value: Pos = (1u128 << 52) | (2u128 << 48) | (3u128 << 56) | (4u128 << 40) | (6u128 << 4) | 8 | (7u128 << 8) | (9u128 << 16);
    assert_eq!(canonical(p), 0x213040000090867);
    assert_eq!(p, value);
}

#[test]
fn offsets_of_each_piece() {
    assert_eq!(black_offsets(1), &[(-1, -1), (-1, 0), (-1, 1), (0, -1), (0, 1), (1, -1), (1, 0), (1, 1)]);
    assert_eq!(black_offsets(2), &[(-1, -1), (-1, 1), (1, -1), (1, 1)]);
    assert_eq!(black_offsets(3), &[(-1, 0), (1, 0), (0, -1), (0, 1)]);
    assert_eq!(black_offsets(4), &[(-1, 0)]);
    assert_eq!(black_offsets(5), &[(-1, -1), (-1, 0), (-1, 1), (0, -1), (0, 1), (1, 0)]);
    assert!(black_offsets(0).is_empty());
    assert!(black_offsets(6).is_empty());
    assert!(black_offsets(9).is_empty());
}

#[test]
fn white_lion_is_found() {
    assert_eq!(find_white_lion(initial_position()), 1);
    assert_eq!(find_white_lion(set_sq(set_sq(0, 2, 1), 12, 6)), 12);
}

#[test]
fn reach_of_black_pieces() {
    let p = initial_position();
    assert!(!black_can_reach(p, 1));
    assert!(black_can_reach(p, 9));
    assert!(black_can_reach(p, 7));
    assert!(!black_can_reach(p, 8));
    let giraffe_below = set_sq(lions_only(), 4, 3);
    assert!(black_can_reach(giraffe_below, 1));
}

#[test]
fn terminal_positions() {
    assert!(!is_terminal(initial_position()));
    assert!(!is_terminal(lions_only()));
    let capture = set_sq(lions_only(), 4, 3);
    assert!(is_terminal(capture));
    let try_rule = set_sq(set_sq(0, 2, 1), 12, 6);
    assert!(is_terminal(try_rule));
}

#[test]
fn classification_of_positions() {
    assert_eq!(classify_position(initial_position()), (STATUS_UNKNOWN, 4));
    assert_eq!(classify_position(set_sq(lions_only(), 4, 3)), (STATUS_WIN, 0));
    assert_eq!(classify_position(set_sq(set_sq(0, 2, 1), 12, 6)), (STATUS_LOSE, 0));
}

#[test]
fn lions_on_board() {
    assert!(has_both_lions(initial_position()));
    assert!(has_both_lions(lions_only()));
    assert!(!has_both_lions(set_sq(0, 13, 1)));
    assert!(!has_both_lions(set_sq(0, 1, 6)));
    assert!(!has_both_lions(0));
}

#[test]
fn initial_position_has_four_moves() {
    let p = initial_position();
    let mut out = Vec::new();
    generate_successors_canonical(p, &mut out);
    assert_eq!(out.len(), 4);
    for &s in &out {
        assert_eq!(canonical(s), s);
    }
    let chick_step = set_sq(set_sq(p, 10, 0), 7, 4);
    assert!(out.contains(&canonical(flip_perspective(chick_step))));
    let lion_left = set_sq(set_sq(p, 13, 0), 9, 1);
    assert!(out.contains(&canonical(flip_perspective(lion_left))));
}

#[test]
fn successors_are_appended() {
    let p = initial_position();
    let mut out = vec![42];
    generate_successors_canonical(p, &mut out);
    assert_eq!(out.len(), 5);
    assert_eq!(out[0], 42);
}

#[test]
fn capture_goes_to_hand() {
    let p = set_sq(set_sq(lions_only(), 7, 4), 4, 9);
    let mut out = Vec::new();
    generate_successors_canonical(p, &mut out);
    let captured = set_hand(set_sq(set_sq(p, 7, 0), 4, 4), 2, 1);
    assert!(out.contains(&canonical(flip_perspective(captured))));
}

#[test]
fn captured_hen_returns_as_chick() {
    let p = set_sq(set_sq(lions_only(), 7, 4), 4, 10);
    let mut out = Vec::new();
    generate_successors_canonical(p, &mut out);
    let captured = set_hand(set_sq(set_sq(p, 7, 0), 4, 4), 2, 1);
    assert!(out.contains(&canonical(flip_perspective(captured))));
}

#[test]
fn chick_promotes_on_last_rank() {
    let p = set_sq(set_sq(set_sq(0, 13, 1), 2, 6), 3, 4);
    let mut out = Vec::new();
    generate_successors_canonical(p, &mut out);
    let promoted = set_sq(set_sq(p, 3, 0), 0, 5);
    assert!(out.contains(&canonical(flip_perspective(promoted))));
    let unpromoted = set_sq(set_sq(p, 3, 0), 0, 4);
    assert!(!out.contains(&canonical(flip_perspective(unpromoted))));
}

#[test]
fn pieces_in_hand_drop_on_empty_squares() {
    let p = set_hand(lions_only(), 1, 1);
    let mut out = Vec::new();
    generate_successors_canonical(p, &mut out);
    // 13 empty squares for the giraffe, 5 lion moves.
    assert_eq!(out.len(), 18);
    let dropped = set_hand(set_sq(p, 7, 3), 1, 0);
    assert!(out.contains(&canonical(flip_perspective(dropped))));
}

#[test]
fn lion_does_not_step_on_lion_or_own_piece() {
    let p = set_sq(set_sq(0, 4, 1), 1, 6);
    let mut out = Vec::new();
    generate_successors_canonical(p, &mut out);
    // The lion in the middle of row 1 has eight neighbours, one of them the White lion.
    assert_eq!(out.len(), 7);
}

#[test]
fn reflection_mirrors_columns() {
    assert_eq!(reflect_lr(set_sq(0, 0, 7)), set_sq(0, 2, 7));
    assert_eq!(reflect_lr(set_sq(0, 4, 9)), set_sq(0, 4, 9));
    assert_eq!(reflect_lr(set_hand(0, 1, 2)), set_hand(0, 1, 2));
    let p = set_hand(initial_position(), 3, 1);
    assert_eq!(reflect_lr(reflect_lr(p)), p);
}

#[test]
fn canonical_is_the_smaller_mirror() {
    assert_eq!(canonical(set_sq(0, 2, 7)), set_sq(0, 0, 7));
    assert_eq!(canonical(set_sq(0, 0, 7)), set_sq(0, 0, 7));
    let p = initial_position();
    let c = canonical(p);
    assert_eq!(c, p.min(reflect_lr(p)));
    assert_eq!(canonical(c), c);
    assert_eq!(canonical(reflect_lr(p)), c);
}

#[test]
fn flip_swaps_sides() {
    assert_eq!(flip_perspective(set_sq(0, 13, 1)), set_sq(0, 1, 6));
    assert_eq!(flip_perspective(set_sq(0, 5, 10)), set_sq(0, 11, 5));
    assert_eq!(flip_perspective(set_hand(0, 0, 2)), set_hand(0, 3, 2));
    assert_eq!(flip_perspective(set_hand(0, 5, 1)), set_hand(0, 2, 1));
    let p = set_hand(initial_position(), 2, 1);
    assert_eq!(flip_perspective(flip_perspective(p)), p);
    assert_eq!(flip_perspective(initial_position()), reflect_lr(initial_position()));
}

#[test]
fn flip_and_reflection_commute() {
    let p = set_hand(set_sq(initial_position(), 9, 5), 4, 1);
    assert_eq!(flip_perspective(reflect_lr(p)), reflect_lr(flip_perspective(p)));
}

/// Pieces of each kind (lion, elephant, giraffe, chick) on the board and in both hands.
fn material(p: Pos) -> [u32; 4] {
    let mut m = [0u32; 4];
    for sq in 0..NUM_SQ {
        match get_sq(p, sq) {
            1 | 6 => m[0] += 1,
            2 | 7 => m[1] += 1,
            3 | 8 => m[2] += 1,
            4 | 5 | 9 | 10 => m[3] += 1,
            _ => {}
        }
    }
    for i in 0..3 {
        m[i + 1] += get_hand(p, i) + get_hand(p, i + 3);
    }
    m
}

#[test]
fn moves_keep_two_pieces_of_each_kind() {
    let mut frontier = vec![canonical(initial_position())];
    let mut out = Vec::new();
    for _ in 0..3 {
        let mut next = Vec::new();
        for &p in &frontier {
            assert_eq!(material(p), [2, 2, 2, 2]);
            if is_terminal(p) {
                continue;
            }
            out.clear();
            generate_successors_canonical(p, &mut out);
            next.extend_from_slice(&out);
        }
        frontier = next;
    }
    for &p in &frontier {
        assert_eq!(material(p), [2, 2, 2, 2]);
    }
}

#[test]
fn mirror_images_have_the_same_successors() {
    let positions = [
        initial_position(),
        set_hand(set_sq(set_sq(lions_only(), 3, 4), 8, 7), 1, 1),
        set_sq(set_sq(set_sq(0, 12, 1), 0, 6), 5, 9),
    ];
    for &p in positions.iter() {
        let mut a = Vec::new();
        let mut b = Vec::new();
        generate_successors_canonical(p, &mut a);
        generate_successors_canonical(reflect_lr(p), &mut b);
        a.sort_unstable();
        a.dedup();
        b.sort_unstable();
        b.dedup();
        assert_eq!(a, b);
    }
}

#[test]
fn mirror_images_have_the_same_successor_counts() {
    let positions = [
        initial_position(),
        set_hand(set_sq(set_sq(lions_only(), 3, 4), 8, 7), 1, 1),
        set_sq(set_sq(set_sq(0, 12, 1), 0, 6), 5, 9),
        set_hand(set_hand(lions_only(), 0, 2), 2, 1),
    ];
    for &p in positions.iter() {
        let mut a = Vec::new();
        let mut b = Vec::new();
        generate_successors_canonical(p, &mut a);
        generate_successors_canonical(reflect_lr(p), &mut b);
        assert_eq!(a.len(), b.len());
        a.sort_unstable();
        b.sort_unstable();
        assert_eq!(a, b);
    }
}

/// Pieces on the board plus pieces in both hands.
fn piece_total(p: Pos) -> u32 {
    let mut n = 0;
    for sq in 0..NUM_SQ {
        if get_sq(p, sq) != 0 {
            n += 1;
        }
    }
    for i in 0..6 {
        n += get_hand(p, i);
    }
    n
}

/// Squares holding exactly `code`.
fn code_total(p: Pos, code: u32) -> u32 {
    (0..NUM_SQ).filter(|&sq| get_sq(p, sq) == code).count() as u32
}

#[test]
fn moves_keep_the_number_of_pieces() {
    let positions = [
        lions_only(),
        set_hand(set_sq(set_sq(lions_only(), 7, 4), 4, 9), 0, 1),
        set_hand(set_sq(set_sq(lions_only(), 10, 2), 5, 8), 5, 1),
        set_sq(set_sq(set_sq(0, 12, 1), 0, 6), 9, 9),
        set_hand(lions_only(), 4, 2),
    ];
    for &p in positions.iter() {
        let mut out = Vec::new();
        generate_successors_canonical(p, &mut out);
        assert!(!out.is_empty());
        for &s in &out {
            assert_eq!(piece_total(s), piece_total(p));
        }
    }
}

#[test]
fn moves_swap_the_lion_counts() {
    let positions = [
        initial_position(),
        lions_only(),
        set_sq(0, 7, 1),
        set_sq(set_sq(set_sq(0, 12, 1), 0, 6), 9, 9),
    ];
    for &p in positions.iter() {
        let mut out = Vec::new();
        generate_successors_canonical(p, &mut out);
        assert!(!out.is_empty());
        for &s in &out {
            assert_eq!(code_total(s, 1), code_total(p, 6));
            assert_eq!(code_total(s, 6), code_total(p, 1));
        }
    }
}

#[test]
fn white_lion_presence() {
    assert!(white_lion_present(lions_only()));
    assert!(white_lion_present(initial_position()));
    assert!(!white_lion_present(set_sq(0, 13, 1)));
    assert!(!white_lion_present(0));
    assert!(white_lion_present(set_sq(0, 14, 6)));
}
