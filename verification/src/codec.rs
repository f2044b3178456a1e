use vstd::prelude::*;
use crate::Pos;

verus! {

/// Byte `i` of `pos`, least significant first: the `i`-th byte a position occupies on disk.
pub open spec fn pos_byte(pos: Pos, i: int) -> u8 {
    ((pos >> ((8 * i) as u128)) & 0xff) as u8
}

/// The bit facts the byte encoding rests on: the bytes of a value assembled from sixteen
/// bytes are those bytes, and a position is determined by its sixteen bytes.
proof fn lemma_byte_fields(
    p: u128,
    q: u128,
    x0: u8,
    x1: u8,
    x2: u8,
    x3: u8,
    x4: u8,
    x5: u8,
    x6: u8,
    x7: u8,
    x8: u8,
    x9: u8,
    x10: u8,
    x11: u8,
    x12: u8,
    x13: u8,
    x14: u8,
    x15: u8,
)
    by (bit_vector)
    ensures
        ({
            let r = (x0 as u128) | ((x1 as u128) << 8u128) | ((x2 as u128) << 16u128) | ((x3 as u128) << 24u128)
                | ((x4 as u128) << 32u128) | ((x5 as u128) << 40u128) | ((x6 as u128) << 48u128) | ((x7 as u128) << 56u128)
                | ((x8 as u128) << 64u128) | ((x9 as u128) << 72u128) | ((x10 as u128) << 80u128) | ((x11 as u128) << 88u128)
                | ((x12 as u128) << 96u128) | ((x13 as u128) << 104u128) | ((x14 as u128) << 112u128) | ((x15 as u128) << 120u128);
            &&& ((r >> 0u128) & 0xff) as u8 == x0
            &&& ((r >> 8u128) & 0xff) as u8 == x1
            &&& ((r >> 16u128) & 0xff) as u8 == x2
            &&& ((r >> 24u128) & 0xff) as u8 == x3
            &&& ((r >> 32u128) & 0xff) as u8 == x4
            &&& ((r >> 40u128) & 0xff) as u8 == x5
            &&& ((r >> 48u128) & 0xff) as u8 == x6
            &&& ((r >> 56u128) & 0xff) as u8 == x7
            &&& ((r >> 64u128) & 0xff) as u8 == x8
            &&& ((r >> 72u128) & 0xff) as u8 == x9
            &&& ((r >> 80u128) & 0xff) as u8 == x10
            &&& ((r >> 88u128) & 0xff) as u8 == x11
            &&& ((r >> 96u128) & 0xff) as u8 == x12
            &&& ((r >> 104u128) & 0xff) as u8 == x13
            &&& ((r >> 112u128) & 0xff) as u8 == x14
            &&& ((r >> 120u128) & 0xff) as u8 == x15
        }),
        (((p >> 0u128) & 0xff) as u8 == ((q >> 0u128) & 0xff) as u8
            && ((p >> 8u128) & 0xff) as u8 == ((q >> 8u128) & 0xff) as u8
            && ((p >> 16u128) & 0xff) as u8 == ((q >> 16u128) & 0xff) as u8
            && ((p >> 24u128) & 0xff) as u8 == ((q >> 24u128) & 0xff) as u8
            && ((p >> 32u128) & 0xff) as u8 == ((q >> 32u128) & 0xff) as u8
            && ((p >> 40u128) & 0xff) as u8 == ((q >> 40u128) & 0xff) as u8
            && ((p >> 48u128) & 0xff) as u8 == ((q >> 48u128) & 0xff) as u8
            && ((p >> 56u128) & 0xff) as u8 == ((q >> 56u128) & 0xff) as u8
            && ((p >> 64u128) & 0xff) as u8 == ((q >> 64u128) & 0xff) as u8
            && ((p >> 72u128) & 0xff) as u8 == ((q >> 72u128) & 0xff) as u8
            && ((p >> 80u128) & 0xff) as u8 == ((q >> 80u128) & 0xff) as u8
            && ((p >> 88u128) & 0xff) as u8 == ((q >> 88u128) & 0xff) as u8
            && ((p >> 96u128) & 0xff) as u8 == ((q >> 96u128) & 0xff) as u8
            && ((p >> 104u128) & 0xff) as u8 == ((q >> 104u128) & 0xff) as u8
            && ((p >> 112u128) & 0xff) as u8 == ((q >> 112u128) & 0xff) as u8
            && ((p >> 120u128) & 0xff) as u8 == ((q >> 120u128) & 0xff) as u8) ==> p == q,
{
}

/// A position is determined by its sixteen bytes.
pub proof fn lemma_pos_bytes_ext(p: Pos, q: Pos)
    requires
        forall|i: int| 0 <= i < 16 ==> #[trigger] pos_byte(p, i) == pos_byte(q, i),
    ensures
        p == q,
{
    assert(pos_byte(p, 0) == pos_byte(q, 0));
    assert(pos_byte(p, 1) == pos_byte(q, 1));
    assert(pos_byte(p, 2) == pos_byte(q, 2));
    assert(pos_byte(p, 3) == pos_byte(q, 3));
    assert(pos_byte(p, 4) == pos_byte(q, 4));
    assert(pos_byte(p, 5) == pos_byte(q, 5));
    assert(pos_byte(p, 6) == pos_byte(q, 6));
    assert(pos_byte(p, 7) == pos_byte(q, 7));
    assert(pos_byte(p, 8) == pos_byte(q, 8));
    assert(pos_byte(p, 9) == pos_byte(q, 9));
    assert(pos_byte(p, 10) == pos_byte(q, 10));
    assert(pos_byte(p, 11) == pos_byte(q, 11));
    assert(pos_byte(p, 12) == pos_byte(q, 12));
    assert(pos_byte(p, 13) == pos_byte(q, 13));
    assert(pos_byte(p, 14) == pos_byte(q, 14));
    assert(pos_byte(p, 15) == pos_byte(q, 15));
    lemma_byte_fields(p, q, 0, 0, 0, 0, 0, 0, 0, 0, 0, 0, 0, 0, 0, 0, 0, 0);
}

/// The sixteen bytes of `pos`, least significant first (its on-disk form).
pub fn pos_to_bytes(pos: Pos) -> (b: [u8; 16])
    ensures
        forall|i: int| 0 <= i < 16 ==> #[trigger] b@[i] == pos_byte(pos, i),
{
    [
        ((pos >> 0u128) & 0xff) as u8,
        ((pos >> 8u128) & 0xff) as u8,
        ((pos >> 16u128) & 0xff) as u8,
        ((pos >> 24u128) & 0xff) as u8,
        ((pos >> 32u128) & 0xff) as u8,
        ((pos >> 40u128) & 0xff) as u8,
        ((pos >> 48u128) & 0xff) as u8,
        ((pos >> 56u128) & 0xff) as u8,
        ((pos >> 64u128) & 0xff) as u8,
        ((pos >> 72u128) & 0xff) as u8,
        ((pos >> 80u128) & 0xff) as u8,
        ((pos >> 88u128) & 0xff) as u8,
        ((pos >> 96u128) & 0xff) as u8,
        ((pos >> 104u128) & 0xff) as u8,
        ((pos >> 112u128) & 0xff) as u8,
        ((pos >> 120u128) & 0xff) as u8,
    ]
}

/// The position whose sixteen bytes, least significant first, are `b`.
pub fn pos_from_bytes(b: &[u8; 16]) -> (pos: Pos)
    ensures
        forall|i: int| 0 <= i < 16 ==> #[trigger] pos_byte(pos, i) == b@[i],
{
    let r = (b[0] as u128) | ((b[1] as u128) << 8u128) | ((b[2] as u128) << 16u128) | ((b[3] as u128) << 24u128)
        | ((b[4] as u128) << 32u128) | ((b[5] as u128) << 40u128) | ((b[6] as u128) << 48u128) | ((b[7] as u128) << 56u128)
        | ((b[8] as u128) << 64u128) | ((b[9] as u128) << 72u128) | ((b[10] as u128) << 80u128) | ((b[11] as u128) << 88u128)
        | ((b[12] as u128) << 96u128) | ((b[13] as u128) << 104u128) | ((b[14] as u128) << 112u128) | ((b[15] as u128) << 120u128);
    proof {
        lemma_byte_fields(0, 0, b[0], b[1], b[2], b[3], b[4], b[5], b[6], b[7], b[8], b[9], b[10], b[11], b[12], b[13], b[14], b[15]);
        assert forall|i: int| 0 <= i < 16 implies #[trigger] pos_byte(r, i) == b@[i] by {
            assert(b@[i] == b[i]);
        }
    }
    r
}

/// Writing a position's bytes and reading them back gives the position again.
pub proof fn lemma_bytes_round_trip(pos: Pos, b: [u8; 16], back: Pos)
    requires
        forall|i: int| 0 <= i < 16 ==> #[trigger] b@[i] == pos_byte(pos, i),
        forall|i: int| 0 <= i < 16 ==> #[trigger] pos_byte(back, i) == b@[i],
    ensures
        back == pos,
{
    assert forall|i: int| 0 <= i < 16 implies #[trigger] pos_byte(back, i) == pos_byte(pos, i) by {
        assert(b@[i] == pos_byte(pos, i));
    }
    lemma_pos_bytes_ext(back, pos);
}

} // verus!
