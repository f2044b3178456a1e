use dobutsu_count::codec::{pos_from_bytes, pos_to_bytes};
use dobutsu_count::{get_hand, get_sq, initial_position, set_hand, set_sq, sq_idx, Pos, COLS, HAND_SHIFT, HOME_ROW, NUM_SQ, ROWS};

#[test]
fn board_constants_agree() {
    assert_eq!(NUM_SQ, (ROWS * COLS) as usize);
    assert_eq!(HAND_SHIFT, NUM_SQ * 4);
    assert_eq!(HOME_ROW, (ROWS - 1) as usize);
}

#[test]
fn square_index_is_row_major() {
    assert_eq!(sq_idx(0, 0), 0);
    assert_eq!(sq_idx(2, 1), 7);
    assert_eq!(sq_idx(4, 2), 14);
}

#[test]
fn set_square_writes_one_nibble() {
    assert_eq!(set_sq(0, 1, 6), 96);
    assert_eq!(set_sq(0, 14, 9), 9u128 << 56);
    assert_eq!(set_sq(0xFFu128, 0, 3), 0xF3u128);
}

#[test]
fn get_square_reads_one_nibble() {
    assert_eq!(get_sq(0xF0, 1), 15);
    assert_eq!(get_sq(0xF0, 0), 0);
    assert_eq!(get_sq(9u128 << 56, 14), 9);
}

#[test]
fn read_after_write_square() {
    let p = initial_position();
    for sq in 0..NUM_SQ {
        for val in 0..16u32 {
            let q = set_sq(p, sq, val);
            assert_eq!(get_sq(q, sq), val);
            for other in 0..NUM_SQ {
                if other != sq {
                    assert_eq!(get_sq(q, other), get_sq(p, other));
                }
            }
            for idx in 0..6 {
                assert_eq!(get_hand(q, idx), get_hand(p, idx));
            }
        }
    }
}

#[test]
fn hand_fields_sit_above_the_board() {
    assert_eq!(set_hand(0, 0, 1), 1u128 << 60);
    assert_eq!(set_hand(0, 5, 3), 3u128 << 70);
    assert_eq!(get_hand(2u128 << 62, 1), 2);
}

#[test]
fn read_after_write_hand() {
    let p = set_hand(initial_position(), 4, 2);
    for idx in 0..6 {
        for val in 0..4u32 {
            let q = set_hand(p, idx, val);
            assert_eq!(get_hand(q, idx), val);
            for other in 0..6 {
                if other != idx {
                    assert_eq!(get_hand(q, other), get_hand(p, other));
                }
            }
            for sq in 0..NUM_SQ {
                assert_eq!(get_sq(q, sq), get_sq(p, sq));
            }
        }
    }
}

#[test]
fn writing_what_is_there_changes_nothing() {
    let p = set_hand(initial_position(), 2, 1);
    for sq in 0..NUM_SQ {
        assert_eq!(set_sq(p, sq, get_sq(p, sq)), p);
    }
    for idx in 0..6 {
        assert_eq!(set_hand(p, idx, get_hand(p, idx)), p);
    }
}

#[test]
fn bytes_are_little_endian() {
    let values: [Pos; 5] = [0, 1, 0x0102_0304_0506_0708_090A_0B0C_0D0E_0F10, u128::MAX, initial_position()];
    for &v in values.iter() {
        assert_eq!(pos_to_bytes(v), v.to_le_bytes());
        assert_eq!(pos_from_bytes(&v.to_le_bytes()), v);
        assert_eq!(pos_from_bytes(&pos_to_bytes(v)), v);
    }
    assert_eq!(pos_to_bytes(0x0102)[0], 0x02);
    assert_eq!(pos_to_bytes(0x0102)[1], 0x01);
    assert_eq!(pos_to_bytes(0x0102)[2], 0x00);
}

#[test]
fn bytes_round_trip() {
    let mut b = [0u8; 16];
    for i in 0..16 {
        b[i] = (i as u8).wrapping_mul(17).wrapping_add(3);
    }
    assert_eq!(pos_to_bytes(pos_from_bytes(&b)), b);
}
