//! Variable-length integer encoding (LEB128-style).
//!
//! Used for frame length fields in the veil-front wire protocol.
//! Supports values 0..=2^64-1, but practically frames are < 64KB.

use vstd::prelude::*;

verus! {

/// Maximum number of bytes a varint can occupy.
/// LEB128 uses 7 bits per byte, so u64::MAX needs ceil(64/7) = 10 bytes.
pub const VARINT_MAX_BYTES: usize = 10;

/// The encoding of a number: seven bits to a byte, the lowest first; every byte but the last has
/// its top bit set.
pub open spec fn varint_of(value: nat) -> Seq<u8>
    decreases value,
{
    if value < 128 {
        seq![value as u8]
    } else {
        seq![(value % 128 + 128) as u8] + varint_of(value / 128)
    }
}

/// 128 to the power of `k`.
pub open spec fn place(k: nat) -> nat
    decreases k,
{
    if k == 0 {
        1
    } else {
        128 * place((k - 1) as nat)
    }
}

/// The number that the low seven bits of some bytes spell, the lowest first.
pub open spec fn spelled(bytes: Seq<u8>) -> nat
    decreases bytes.len(),
{
    if bytes.len() == 0 {
        0
    } else {
        spelled(bytes.drop_last()) + (bytes.last() as nat % 128) * place((bytes.len() - 1) as nat)
    }
}

/// How many bytes at the front have their top bit set.
pub open spec fn continued(bytes: Seq<u8>) -> nat
    decreases bytes.len(),
{
    if bytes.len() == 0 || bytes[0] < 128 {
        0
    } else {
        1 + continued(bytes.skip(1))
    }
}

/// What there is to read at the front of some bytes: the number, with what does not fit 64 bits cut
/// off, and the length of its encoding. Nothing if the last byte is missing or comes too late.
pub open spec fn varint_at(bytes: Seq<u8>) -> Option<(u64, usize)> {
    let n = continued(bytes);
    if n < bytes.len() && n < VARINT_MAX_BYTES {
        Some(
            (
                (spelled(bytes.take(n as int + 1)) % 0x1_0000_0000_0000_0000) as u64,
                (n + 1) as usize,
            ),
        )
    } else {
        None
    }
}

/// How many bytes are read in the attempt: the encoding, or all there is, but never more than one
/// byte beyond the longest encoding.
pub open spec fn bytes_taken(bytes: Seq<u8>) -> int {
    let n = continued(bytes);
    if n < bytes.len() && n < VARINT_MAX_BYTES {
        n as int + 1
    } else if bytes.len() <= VARINT_MAX_BYTES {
        bytes.len() as int
    } else {
        VARINT_MAX_BYTES + 1
    }
}

/// Encode a u64 as a LEB128 varint into the given buffer.
///
/// Returns the number of bytes written (1 to 10).
pub fn encode_varint(value: u64, buf: &mut Vec<u8>) -> (r: usize)
    ensures
        final(buf)@ == old(buf)@ + varint_of(value as nat),
        r == varint_of(value as nat).len(),
        1 <= r <= VARINT_MAX_BYTES,
{
    let mut left: u64 = value;
    let mut len: usize = 0;
    proof {
        assert(place(10) > u64::MAX) by {
            reveal_with_fuel(place, 11);
        }
        lemma_varint_len(value as nat, 10);
    }
    while left >= 128
        invariant
            buf@ + varint_of(left as nat) == old(buf)@ + varint_of(value as nat),
            len + varint_of(left as nat).len() == varint_of(value as nat).len(),
            varint_of(value as nat).len() <= VARINT_MAX_BYTES,
        decreases left,
    {
        let ghost before = buf@;
        let byte: u8 = (left % 128) as u8 + 128;  // continuation bit
        proof {
            assert(varint_of(left as nat) == seq![byte] + varint_of(left as nat / 128));
            assert(before.push(byte) + varint_of(left as nat / 128) =~= before + (seq![byte]
                + varint_of(left as nat / 128)));
        }
        buf.push(byte);
        left = left / 128;
        len = len + 1;
    }
    assert(varint_of(left as nat) =~= seq![left as u8]);
    assert(buf@.push(left as u8) =~= buf@ + varint_of(left as nat));
    buf.push(left as u8);
    len + 1
}

/// A number below 128 to the power of `k` needs no more than `k` bytes, and one at least.
proof fn lemma_varint_len(value: nat, k: nat)
    requires
        k > 0,
        value < place(k),
    ensures
        1 <= varint_of(value).len() <= k,
    decreases k,
{
    if value >= 128 {
        assert(place(1) == 128) by {
            reveal_with_fuel(place, 2);
        }
        assert(k > 1);
        assert(value / 128 < place((k - 1) as nat));
        lemma_varint_len(value / 128, (k - 1) as nat);
    }
}

/// Decode a LEB128 varint from the front of the given bytes, and take off what was read.
///
/// Returns `Some((value, bytes_read))` or `None` if the bytes are too few or the varint is
/// malformed (too many continuation bytes).
pub fn decode_varint(buf: &mut &[u8]) -> (r: Option<(u64, usize)>)
    ensures
        r == varint_at(old(buf)@),
        final(buf)@ == old(buf)@.skip(bytes_taken(old(buf)@)),
        0 <= bytes_taken(old(buf)@) <= old(buf)@.len(),
{
    let data: &[u8] = *buf;
    let mut result: u128 = 0;
    let mut scale: u128 = 1;
    let mut i: usize = 0;
    proof {
        lemma_continued(data@, 0);
    }
    while i < data.len() && i < VARINT_MAX_BYTES
        invariant
            data@ == old(buf)@,
            i <= data@.len(),
            i <= VARINT_MAX_BYTES,
            i <= continued(data@) <= data@.len(),
            result == spelled(data@.take(i as int)),
            scale == place(i as nat),
            result < scale,
            scale <= 0x40_0000_0000_0000_0000,
            forall|k: int| 0 <= k < i ==> data@[k] >= 128,
        decreases data@.len() - i,
    {
        let byte: u8 = data[i];
        let low: u128 = (byte % 128) as u128;
        proof {
            lemma_continued(data@, i as int);
            assert(data@.take(i + 1).drop_last() =~= data@.take(i as int));
            lemma_place_bound(i as nat);
            assert(low * scale + scale <= 128 * scale) by (nonlinear_arith)
                requires
                    low <= 127,
                    scale >= 0,
            ;
            assert(low * scale >= 0) by (nonlinear_arith)
                requires
                    low >= 0,
                    scale >= 0,
            ;
        }
        result = result + low * scale;
        i = i + 1;
        if byte < 128 {
            proof {
                assert(continued(data@) == i - 1);
                assert(result as u64 == result % 0x1_0000_0000_0000_0000) by (bit_vector);
            }
            *buf = vstd::slice::slice_subrange(data, i, data.len());
            assert(buf@ =~= data@.skip(i as int));
            return Some((result as u64, i));
        }
        scale = scale * 128;
    }
    proof {
        lemma_continued(data@, i as int);
    }
    let taken: usize = if data.len() <= VARINT_MAX_BYTES {
        data.len()
    } else {
        VARINT_MAX_BYTES + 1
    };
    *buf = vstd::slice::slice_subrange(data, taken, data.len());
    assert(buf@ =~= data@.skip(taken as int));
    None
}

/// What `continued` counts: a prefix of bytes with their top bit set, up to one without.
proof fn lemma_continued(bytes: Seq<u8>, i: int)
    requires
        0 <= i <= bytes.len(),
        forall|k: int| 0 <= k < i ==> bytes[k] >= 128,
    ensures
        i <= continued(bytes) <= bytes.len(),
        i < bytes.len() && bytes[i] < 128 ==> continued(bytes) == i,
        i < bytes.len() && bytes[i] >= 128 ==> continued(bytes) > i,
    decreases bytes.len(),
{
    if bytes.len() > 0 && bytes[0] >= 128 {
        let rest = bytes.skip(1);
        if i > 0 {
            assert forall|k: int| 0 <= k < i - 1 implies rest[k] >= 128 by {
                assert(rest[k] == bytes[k + 1]);
            }
            lemma_continued(rest, i - 1);
        } else {
            lemma_continued(rest, 0);
        }
    }
}

/// Reading gives back what was written, whatever follows it: the number, the length of its
/// encoding, and the bytes behind it.
pub proof fn law_reading_gives_back_what_was_written(value: u64, behind: Seq<u8>)
    ensures
        ({
            let wire = varint_of(value as nat) + behind;
            &&& varint_at(wire) == Some((value, varint_of(value as nat).len() as usize))
            &&& wire.skip(bytes_taken(wire)) == behind
        }),
{
    let code = varint_of(value as nat);
    let wire = code + behind;
    assert(place(10) > u64::MAX) by {
        reveal_with_fuel(place, 11);
    }
    lemma_varint_len(value as nat, 10);
    lemma_code_shape(value as nat);
    let n = code.len() - 1;
    assert forall|k: int| 0 <= k < n implies wire[k] >= 128 by {
        assert(code[k] >= 128);
    }
    assert(wire[n] < 128);
    lemma_continued(wire, n);
    assert(wire.take(n + 1) =~= code);
    assert(wire.skip(n + 1) =~= behind);
}

/// Every byte of an encoding but the last has its top bit set, and the bytes spell the number.
proof fn lemma_code_shape(value: nat)
    ensures
        varint_of(value).len() > 0,
        varint_of(value).last() < 128,
        forall|k: int| 0 <= k < varint_of(value).len() - 1 ==> varint_of(value)[k] >= 128,
        spelled(varint_of(value)) == value,
    decreases value,
{
    reveal_with_fuel(spelled, 2);
    if value >= 128 {
        let rest = varint_of(value / 128);
        let byte = (value % 128 + 128) as u8;
        lemma_code_shape(value / 128);
        lemma_spelled_front(byte, rest);
        assert forall|k: int| 0 <= k < varint_of(value).len() - 1 implies varint_of(value)[k]
            >= 128 by {
            if k > 0 {
                assert(varint_of(value)[k] == rest[k - 1]);
            }
        }
        assert(byte as nat % 128 == value % 128);
    } else {
        assert(varint_of(value).drop_last() =~= Seq::empty());
        assert(place(0) == 1);
        assert(spelled(varint_of(value)) == value * place(0));
    }
}

proof fn lemma_spelled_front(byte: u8, rest: Seq<u8>)
    ensures
        spelled(seq![byte] + rest) == byte as nat % 128 + 128 * spelled(rest),
    decreases rest.len(),
{
    reveal_with_fuel(spelled, 2);
    reveal_with_fuel(place, 2);
    let all = seq![byte] + rest;
    if rest.len() == 0 {
        assert(all.drop_last() =~= Seq::empty());
        assert(all.last() == byte);
        assert(place(0) == 1 && spelled(rest) == 0);
        assert(spelled(all) == (byte as nat % 128) * place(0));
    } else {
        let front = rest.drop_last();
        lemma_spelled_front(byte, front);
        assert(all.drop_last() =~= seq![byte] + front);
        let (low, p) = (rest.last() as nat % 128, place((rest.len() - 1) as nat));
        assert(place((all.len() - 1) as nat) == 128 * p);
        assert(low * (128 * p) == 128 * (low * p)) by (nonlinear_arith);
        assert(all.last() == rest.last());
        assert(spelled(all) == spelled(seq![byte] + front) + low * (128 * p));
        assert(spelled(rest) == spelled(front) + low * p);
    }
}

proof fn lemma_place_bound(k: nat)
    requires
        k < 10,
    ensures
        1 <= place(k) <= 0x8000_0000_0000_0000,
{
    reveal_with_fuel(place, 11);
}

/// Decode a varint from a byte slice and leave the slice as it is.
/// Returns `Some((value, bytes_read))` or `None`.
pub fn decode_varint_slice(data: &[u8]) -> (r: Option<(u64, usize)>)
    ensures
        r == varint_at(data@),
{
    let mut slice: &[u8] = data;
    decode_varint(&mut slice)
}

/// Encode a varint and return the resulting bytes.
pub fn encode_varint_vec(value: u64) -> (r: Vec<u8>)
    ensures
        r@ == varint_of(value as nat),
        1 <= r@.len() <= VARINT_MAX_BYTES,
{
    let mut buf: Vec<u8> = Vec::with_capacity(VARINT_MAX_BYTES);
    let ghost empty = buf@;
    encode_varint(value, &mut buf);
    assert(empty + varint_of(value as nat) =~= varint_of(value as nat));
    buf
}

/// A number is written from its low end: a byte of its low seven bits, with the top bit set exactly
/// if more follows, and behind it what is left of the number.
pub proof fn law_a_number_is_written_seven_bits_at_a_time(value: nat)
    ensures
        value < 128 ==> varint_of(value) == seq![value as u8],
        value >= 128 ==> varint_of(value)[0] == 128 + value % 128 && varint_of(value).skip(1)
            == varint_of(value / 128),
{
    if value >= 128 {
        assert(varint_of(value).skip(1) =~= varint_of(value / 128));
    }
}

/// A number is read from its low end: a first byte below 128 is the number, and one byte is read.
/// A higher one stands for its low seven bits, and the number behind it, of up to nine bytes, counts
/// 128 times, what does not fit 64 bits cut off; where nothing can be read behind it, nothing can be
/// read at all. Without a byte there is no number.
pub proof fn law_a_number_is_read_byte_by_byte(bytes: Seq<u8>)
    ensures
        bytes.len() == 0 ==> varint_at(bytes) is None && bytes_taken(bytes) == 0,
        bytes.len() > 0 && bytes[0] < 128 ==> varint_at(bytes) == Some((bytes[0] as u64, 1usize))
            && bytes_taken(bytes) == 1,
        bytes.len() > 0 && bytes[0] >= 128 ==> match varint_at(bytes.skip(1)) {
            None => varint_at(bytes) is None,
            Some((value, n)) => if n < 10 {
                &&& varint_at(bytes) == Some(
                    (
                        ((bytes[0] - 128 + 128 * value) % 0x1_0000_0000_0000_0000) as u64,
                        (n + 1) as usize,
                    ),
                )
                &&& bytes_taken(bytes) == n + 1
            } else {
                varint_at(bytes) is None
            },
        },
{
    if bytes.len() > 0 && bytes[0] < 128 {
        let one = bytes.take(1);
        assert(one.drop_last() =~= Seq::empty());
        assert(spelled(one.drop_last()) == 0);
        assert(place(0) == 1);
        assert(one.last() == bytes[0]);
        assert(spelled(one) == (bytes[0] as nat % 128) * place(0));
    }
    if bytes.len() > 0 && bytes[0] >= 128 {
        let rest = bytes.skip(1);
        let n = continued(rest);
        if n < rest.len() && n < 10 {
            let tail = rest.take(n as int + 1);
            assert(bytes.take(n as int + 2) =~= seq![bytes[0]] + tail);
            lemma_spelled_front(bytes[0], tail);
            let (low, all) = (bytes[0] as int - 128, spelled(tail) as int);
            assert(bytes[0] as nat % 128 == low);
            assert((low + 128 * all) % 0x1_0000_0000_0000_0000 == (low + 128 * (all
                % 0x1_0000_0000_0000_0000)) % 0x1_0000_0000_0000_0000);
        }
    }
}

/// Ten bytes are the most that a number takes: where the first ten all have their top bit set there
/// is none, and the attempt reads on for one byte more at most.
pub proof fn law_a_number_takes_ten_bytes_at_most(bytes: Seq<u8>)
    ensures
        bytes.len() >= 10 && (forall|i: int| 0 <= i < 10 ==> #[trigger] bytes[i] >= 128) ==> {
            &&& varint_at(bytes) is None
            &&& bytes_taken(bytes) == if bytes.len() > 10 {
                11int
            } else {
                10
            }
        },
        (forall|i: int| 0 <= i < bytes.len() ==> #[trigger] bytes[i] >= 128) && bytes.len() <= 10
            ==> varint_at(bytes) is None && bytes_taken(bytes) == bytes.len(),
        varint_at(bytes) matches Some((_, n)) ==> 1 <= n <= 10 && n <= bytes.len() && bytes[n - 1]
            < 128,
{
    lemma_continued_run(bytes);
}

proof fn lemma_continued_run(bytes: Seq<u8>)
    ensures
        continued(bytes) <= bytes.len(),
        forall|i: int| 0 <= i < continued(bytes) ==> #[trigger] bytes[i] >= 128,
        continued(bytes) < bytes.len() ==> bytes[continued(bytes) as int] < 128,
    decreases bytes.len(),
{
    if bytes.len() > 0 && bytes[0] >= 128 {
        let rest = bytes.skip(1);
        lemma_continued_run(rest);
        assert forall|i: int| 0 <= i < continued(bytes) implies #[trigger] bytes[i] >= 128 by {
            if i > 0 {
                assert(rest[i - 1] == bytes[i]);
            }
        }
    }
}

}
