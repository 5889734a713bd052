use crate::codes::is_bit_string;
use crate::error::HuffmanError;
use vstd::prelude::*;
use vstd::std_specs::iter::IteratorSpec;

verus! {

broadcast use vstd::string::group_string_axioms;

/// The bit at position `i` of a bit string: one for `'1'`, zero for any other
/// character and for a position behind the end.
pub open spec fn bit_value(bits: Seq<char>, i: int) -> int {
    if 0 <= i < bits.len() && bits[i] == '1' {
        1
    } else {
        0
    }
}

/// The number that the `count` bits from position `start` on spell in binary,
/// the first bit being the highest.
pub open spec fn binary_value(bits: Seq<char>, start: int, count: nat) -> int
    decreases count,
{
    if count == 0 {
        0
    } else {
        2 * binary_value(bits, start, (count - 1) as nat) + bit_value(bits, start + count - 1)
    }
}

/// The `k`-th data byte of a packed bit string: its bits `8k` to `8k + 7`,
/// the first of them highest, with zeros where the string has ended.
pub open spec fn packed_byte(bits: Seq<char>, k: int) -> u8 {
    binary_value(bits, 8 * k, 8) as u8
}

/// The payload of a bit string: a header byte that holds the length modulo 8,
/// then the bits in groups of eight, the last group filled up with zeros.
pub open spec fn packed(bits: Seq<char>) -> Seq<u8> {
    seq![(bits.len() % 8) as u8] + Seq::new(
        ((bits.len() + 7) / 8) as nat,
        |k: int| packed_byte(bits, k),
    )
}

/// What the bit at place `j` of a byte counts for, place 0 being the highest.
pub open spec fn place_value(j: int) -> int {
    if j <= 0 {
        128
    } else if j == 1 {
        64
    } else if j == 2 {
        32
    } else if j == 3 {
        16
    } else if j == 4 {
        8
    } else if j == 5 {
        4
    } else if j == 6 {
        2
    } else {
        1
    }
}

/// The character for the bit at place `j` of `byte`.
pub open spec fn bit_of(byte: u8, j: int) -> char {
    if (byte as int / place_value(j)) % 2 == 1 {
        '1'
    } else {
        '0'
    }
}

/// A payload has a header byte, and the header is below 8.
pub open spec fn valid_payload(payload: Seq<u8>) -> bool {
    &&& payload.len() >= 1
    &&& payload[0] < 8
}

/// The number of bits that a payload holds: eight for each data byte, but for
/// the last one only as many as the header says, where it is not zero. A
/// payload without a data byte holds no bits, whatever its header says.
pub open spec fn unpacked_len(payload: Seq<u8>) -> int {
    if payload.len() < 2 {
        0
    } else if payload[0] == 0 {
        8 * (payload.len() - 1)
    } else {
        8 * (payload.len() - 2) + payload[0]
    }
}

/// The bit string of a payload.
pub open spec fn unpacked(payload: Seq<u8>) -> Seq<char> {
    Seq::new(unpacked_len(payload) as nat, |i: int| bit_of(payload[1 + i / 8], i % 8))
}

/// Fewer than nine bits spell a number below 256.
pub proof fn lemma_binary_value_bound(bits: Seq<char>, start: int, count: nat)
    requires
        count <= 8,
    ensures
        0 <= binary_value(bits, start, count) < 256,
        count < 8 ==> binary_value(bits, start, count) < 128,
{
    reveal_with_fuel(binary_value, 9);
}

/// Each bit of a packed byte is the bit of the string that it was made from.
pub proof fn lemma_bit_of_packed_byte(bits: Seq<char>, k: int, j: int)
    requires
        0 <= j < 8,
    ensures
        (packed_byte(bits, k) as int / place_value(j)) % 2 == bit_value(bits, 8 * k + j),
{
    reveal_with_fuel(binary_value, 9);
    let b0 = bit_value(bits, 8 * k);
    let b1 = bit_value(bits, 8 * k + 1);
    let b2 = bit_value(bits, 8 * k + 2);
    let b3 = bit_value(bits, 8 * k + 3);
    let b4 = bit_value(bits, 8 * k + 4);
    let b5 = bit_value(bits, 8 * k + 5);
    let b6 = bit_value(bits, 8 * k + 6);
    let b7 = bit_value(bits, 8 * k + 7);
    let v = binary_value(bits, 8 * k, 8);
    assert(v == 128 * b0 + 64 * b1 + 32 * b2 + 16 * b3 + 8 * b4 + 4 * b5 + 2 * b6 + b7);
    assert(packed_byte(bits, k) as int == v);
    if j == 0 {
        assert((v / 128) % 2 == b0);
    } else if j == 1 {
        assert((v / 64) % 2 == b1);
    } else if j == 2 {
        assert((v / 32) % 2 == b2);
    } else if j == 3 {
        assert((v / 16) % 2 == b3);
    } else if j == 4 {
        assert((v / 8) % 2 == b4);
    } else if j == 5 {
        assert((v / 4) % 2 == b5);
    } else if j == 6 {
        assert((v / 2) % 2 == b6);
    } else {
        assert((v / 1) % 2 == b7);
    }
}

/// Unpacking gives back the bit string that was packed. Where the length of
/// the string is a multiple of eight, the header is zero and every data byte
/// counts in full.
pub proof fn lemma_unpack_packed(bits: Seq<char>)
    requires
        is_bit_string(bits),
    ensures
        valid_payload(packed(bits)),
        unpacked(packed(bits)) == bits,
{
    let payload = packed(bits);
    lemma_packed_len(bits);
    assert forall|i: int| 0 <= i < bits.len() implies unpacked(payload)[i] == bits[i] by {
        lemma_bit_of_packed_byte(bits, i / 8, i % 8);
        assert(payload[1 + i / 8] == packed_byte(bits, i / 8));
    }
    assert(unpacked(payload) =~= bits);
}

/// A payload made by packing is valid and holds as many bits as were packed.
/// For a bit string whose length is a multiple of eight that is eight bits
/// for each data byte.
pub proof fn lemma_packed_len(bits: Seq<char>)
    ensures
        valid_payload(packed(bits)),
        packed(bits).len() == 1 + (bits.len() + 7) / 8,
        packed(bits)[0] == bits.len() % 8,
        unpacked(packed(bits)).len() == bits.len(),
        bits.len() % 8 == 0 ==> unpacked(packed(bits)).len() == 8 * (packed(bits).len() - 1),
{
}

/// Packs a bit string into bytes: a header byte with the length modulo 8,
/// then eight bits to a byte, the last byte filled up with zero bits. A
/// character other than `'1'` counts as a zero bit.
pub fn pack_bits(bits: &str) -> (payload: Vec<u8>)
    ensures
        payload@ == packed(bits@),
        valid_payload(payload@),
        payload@.len() == 1 + (bits@.len() + 7) / 8,
        payload@[0] == bits@.len() % 8,
{
    let mut payload: Vec<u8> = Vec::new();
    payload.push(0);
    let mut acc: u8 = 0;
    let mut filled: u8 = 0;
    let mut rest = bits.chars();
    let ghost mut seen: Seq<char> = Seq::empty();
    loop
        invariant
            bits@ == seen + rest.remaining(),
            rest.obeys_prophetic_iter_laws(),
            rest.decrease() is Some,
            filled < 8,
            filled == seen.len() % 8,
            payload@.len() == 1 + seen.len() / 8,
            forall|k: int| 0 <= k < seen.len() / 8 ==> payload@[1 + k] == packed_byte(bits@, k),
            acc == binary_value(bits@, 8 * (seen.len() as int / 8), filled as nat),
        ensures
            seen == bits@,
            filled < 8,
            filled == seen.len() % 8,
            payload@.len() == 1 + seen.len() / 8,
            forall|k: int| 0 <= k < seen.len() / 8 ==> payload@[1 + k] == packed_byte(bits@, k),
            acc == binary_value(bits@, 8 * (seen.len() as int / 8), filled as nat),
        decreases rest.decrease()->0,
    {
        match rest.next() {
            None => {
                assert(bits@ =~= seen);
                break ;
            },
            Some(c) => {
                let ghost start = 8 * (seen.len() as int / 8);
                proof {
                    assert(seen.push(c) + rest.remaining() =~= bits@);
                    assert(bits@[seen.len() as int] == c);
                    lemma_binary_value_bound(bits@, start, filled as nat);
                    lemma_binary_value_bound(bits@, start, (filled + 1) as nat);
                    assert(start + filled == seen.len());
                }
                let bit: u8 = if c == '1' {
                    1
                } else {
                    0
                };
                acc = acc * 2 + bit;
                filled = filled + 1;
                assert(acc == binary_value(bits@, start, filled as nat));
                if filled == 8 {
                    payload.push(acc);
                    acc = 0;
                    filled = 0;
                }
                proof {
                    seen = seen.push(c);
                }
            },
        }
    }
    let ghost whole = 8 * (bits@.len() as int / 8);
    let header: u8 = filled;
    if filled > 0 {
        while filled < 8
            invariant
                0 < filled <= 8,
                acc == binary_value(bits@, whole, filled as nat),
                header == bits@.len() % 8,
                filled >= header,
                whole == 8 * (bits@.len() as int / 8),
            decreases 8 - filled,
        {
            proof {
                lemma_binary_value_bound(bits@, whole, filled as nat);
                lemma_binary_value_bound(bits@, whole, (filled + 1) as nat);
                assert(bit_value(bits@, whole + filled) == 0);
            }
            acc = acc * 2;
            filled = filled + 1;
        }
        payload.push(acc);
    }
    payload[0] = header;
    proof {
        lemma_packed_len(bits@);
        assert(payload@ =~= packed(bits@));
    }
    payload
}

/// Writes the first `count` bits of `byte` behind `out`, highest bit first.
fn push_bits(out: &mut String, byte: u8, count: u8)
    requires
        count <= 8,
    ensures
        final(out)@ == old(out)@ + Seq::new(count as nat, |j: int| bit_of(byte, j)),
{
    let mut mask: u8 = 128;
    let mut j: u8 = 0;
    while j < count
        invariant
            j <= count <= 8,
            j < 8 ==> mask == place_value(j as int),
            out@ == old(out)@ + Seq::new(j as nat, |j: int| bit_of(byte, j)),
        decreases count - j,
    {
        let bit: char = if (byte / mask) % 2 == 1 {
            '1'
        } else {
            '0'
        };
        out.push(bit);
        mask = mask / 2;
        j = j + 1;
        assert(out@ =~= old(out)@ + Seq::new(j as nat, |j: int| bit_of(byte, j)));
    }
}

/// Reads the bit string of a payload: eight bits from every data byte, but
/// from the last one only as many as the header says, unless the header is
/// zero, which stands for a last byte that counts in full. A header byte
/// that stands alone gives the empty bit string. A payload without a header
/// byte, or with a header above 7, is refused.
pub fn bytes_to_binary_string(bytes: &[u8]) -> (result: Result<String, HuffmanError>)
    ensures
        result is Ok <==> bytes@.len() >= 1 && bytes@[0] < 8,
        result matches Ok(bits) ==> {
            &&& bits@ == unpacked(bytes@)
            &&& is_bit_string(bits@)
            &&& bits@.len() == unpacked_len(bytes@)
            &&& bits@.len() <= 8 * (bytes@.len() - 1)
            &&& bytes@.len() >= 2 ==> bits@.len() > 8 * (bytes@.len() - 2)
            &&& bytes@[0] == 0 ==> bits@.len() == 8 * (bytes@.len() - 1)
            &&& bytes@.len() == 1 ==> bits@.len() == 0
        },
        result matches Err(e) ==> e == HuffmanError::CorruptPayload,
{
    if bytes.len() == 0 {
        return Err(HuffmanError::CorruptPayload);
    }
    let header: u8 = bytes[0];
    if header > 7 {
        return Err(HuffmanError::CorruptPayload);
    }
    let mut out = String::new();
    let mut d: usize = 1;
    while d < bytes.len()
        invariant
            1 <= d <= bytes.len(),
            valid_payload(bytes@),
            header == bytes@[0],
            d < bytes.len() ==> out@ == Seq::new(
                (8 * (d - 1)) as nat,
                |i: int| bit_of(bytes@[1 + i / 8], i % 8),
            ),
            d == bytes.len() ==> out@ == unpacked(bytes@),
        decreases bytes.len() - d,
    {
        let count: u8 = if d == bytes.len() - 1 && header != 0 {
            header
        } else {
            8
        };
        let ghost before = out@;
        push_bits(&mut out, bytes[d], count);
        proof {
            let after = Seq::new(
                (8 * (d - 1) + count) as nat,
                |i: int| bit_of(bytes@[1 + i / 8], i % 8),
            );
            assert(out@ =~= after);
            if d + 1 == bytes.len() {
                assert(after =~= unpacked(bytes@));
            }
        }
        d = d + 1;
    }
    proof {
        if bytes.len() == 1 {
            assert(out@ =~= unpacked(bytes@));
        }
        assert(is_bit_string(out@));
    }
    Ok(out)
}

} // verus!
