//! Little-endian byte encoding of the integers that aggregate states are
//! serialized with, together with the facts that make the state codec's
//! round-trip provable.

use vstd::prelude::*;

verus! {

/// The `n` little-endian bytes of `x`.
pub open spec fn le_bytes(x: nat, n: nat) -> Seq<u8>
    decreases n,
{
    if n == 0 {
        Seq::empty()
    } else {
        seq![(x % 256) as u8] + le_bytes(x / 256, (n - 1) as nat)
    }
}

/// The number a little-endian byte sequence denotes.
pub open spec fn from_le(b: Seq<u8>) -> nat
    decreases b.len(),
{
    if b.len() == 0 {
        0
    } else {
        b[0] as nat + 256 * from_le(b.drop_first())
    }
}

/// `256^n`, the number of values `n` bytes can hold.
pub open spec fn byte_bound(n: nat) -> nat
    decreases n,
{
    if n == 0 {
        1nat
    } else {
        256 * byte_bound((n - 1) as nat)
    }
}

pub proof fn lemma_le_bytes_len(x: nat, n: nat)
    ensures
        le_bytes(x, n).len() == n,
    decreases n,
{
    if n > 0 {
        lemma_le_bytes_len(x / 256, (n - 1) as nat);
    }
}

/// Decoding inverts encoding for every value the width can hold.
pub proof fn lemma_le_round_trip(x: nat, n: nat)
    requires
        x < byte_bound(n),
    ensures
        from_le(le_bytes(x, n)) == x,
    decreases n,
{
    if n == 0 {
        assert(x == 0);
    } else {
        let rest = le_bytes(x / 256, (n - 1) as nat);
        let whole = seq![(x % 256) as u8] + rest;
        lemma_le_bytes_len(x / 256, (n - 1) as nat);
        assert(whole[0] == (x % 256) as u8);
        assert(whole.drop_first() =~= rest);
        assert(x / 256 < byte_bound((n - 1) as nat)) by (nonlinear_arith)
            requires
                x < 256 * byte_bound((n - 1) as nat),
                byte_bound((n - 1) as nat) > 0,
                x / 256 <= x,
                x == 256 * (x / 256) + x % 256,
                0 <= (x % 256) < 256,
        {
        }
        lemma_le_round_trip(x / 256, (n - 1) as nat);
        assert(from_le(whole) == x % 256 + 256 * (x / 256));
        assert(x % 256 + 256 * (x / 256) == x) by {
            vstd::arithmetic::div_mod::lemma_fundamental_div_mod(x as int, 256);
        }
    }
}

/// `256^8` is one more than `u64::MAX`: every `u64` fits eight bytes.
pub proof fn lemma_byte_bound_u64()
    ensures
        byte_bound(8) == 0x1_0000_0000_0000_0000,
{
    reveal_with_fuel(byte_bound, 9);
}

/// Appends the eight little-endian bytes of `x`.
pub fn push_u64_le(out: &mut Vec<u8>, x: u64)
    ensures
        final(out)@ == old(out)@ + le_bytes(x as nat, 8),
        final(out)@.len() == old(out)@.len() + 8,
{
    let mut v: u64 = x;
    let mut j: usize = 0;
    while j < 8
        invariant
            0 <= j <= 8,
            out@.len() == old(out)@.len() + j,
            old(out)@ + le_bytes(x as nat, 8) == out@ + le_bytes(v as nat, (8 - j) as nat),
        decreases 8 - j,
    {
        let ghost prev = out@;
        let ghost prev_v = v as nat;
        out.push((v % 256) as u8);
        v = v / 256;
        proof {
            assert(le_bytes(prev_v, (8 - j) as nat) == seq![(prev_v % 256) as u8] + le_bytes(
                prev_v / 256,
                (8 - j - 1) as nat,
            ));
            assert(prev + (seq![(prev_v % 256) as u8] + le_bytes(prev_v / 256, (8 - j - 1) as nat))
                =~= (prev + seq![(prev_v % 256) as u8]) + le_bytes(
                prev_v / 256,
                (8 - j - 1) as nat,
            ));
            assert(prev + seq![(prev_v % 256) as u8] =~= prev.push((prev_v % 256) as u8));
        }
        j += 1;
    }
    proof {
        assert(le_bytes(v as nat, 0) =~= Seq::<u8>::empty());
        assert(out@ + Seq::<u8>::empty() =~= out@);
    }
}

/// Reads the eight little-endian bytes at `pos` back into a `u64`.
pub fn read_u64_le(b: &Vec<u8>, pos: usize) -> (r: u64)
    requires
        pos + 8 <= b@.len(),
    ensures
        r as nat == from_le(b@.subrange(pos as int, pos as int + 8)),
{
    let ghost window = b@.subrange(pos as int, pos as int + 8);
    // The length, read as a usize, bounds the positions indexed below.
    let _len: usize = b.len();
    let mut acc: u64 = 0;
    let mut j: usize = 0;
    while j < 8
        invariant
            0 <= j <= 8,
            pos + 8 <= b@.len(),
            b@.len() <= usize::MAX,
            window == b@.subrange(pos as int, pos as int + 8),
            acc as nat == from_le(window.subrange(8 - j, 8)),
            (acc as nat) < byte_bound(j as nat),
        decreases 8 - j,
    {
        proof {
            lemma_byte_bound_u64();
            assert(byte_bound(j as nat) <= byte_bound(7)) by {
                assert(byte_bound(1) <= byte_bound(2) <= byte_bound(3) <= byte_bound(4)
                    <= byte_bound(5) <= byte_bound(6) <= byte_bound(7)) by {
                    reveal_with_fuel(byte_bound, 9);
                }
                reveal_with_fuel(byte_bound, 9);
            }
            assert(256 * acc as nat + 256 <= 256 * byte_bound(j as nat)) by (nonlinear_arith)
                requires
                    (acc as nat) < byte_bound(j as nat),
            {
            }
            reveal_with_fuel(byte_bound, 9);
        }
        let byte: u8 = b[pos + 7 - j];
        let ghost prev_acc = acc as nat;
        acc = acc * 256 + byte as u64;
        proof {
            let tail = window.subrange(8 - j, 8);
            let grown = window.subrange(8 - j - 1, 8);
            assert(grown[0] == window[8 - j - 1]);
            assert(window[8 - j - 1] == b@[pos + 7 - j as int]);
            assert(grown.drop_first() =~= tail);
            assert(from_le(grown) == grown[0] as nat + 256 * from_le(tail));
            assert(acc as nat == byte as nat + 256 * prev_acc);
        }
        j += 1;
    }
    proof {
        assert(window.subrange(0, 8) =~= window);
    }
    acc
}

/// Maps an `i64` onto the `u64` scale, keeping order: the result is the value
/// shifted up by `2^63`.
pub fn i64_to_ordered_u64(x: i64) -> (r: u64)
    ensures
        r as int == x as int + 0x8000_0000_0000_0000,
{
    if x >= 0 {
        (x as u64) + 0x8000_0000_0000_0000u64
    } else {
        (x - i64::MIN) as u64
    }
}

/// Inverse of `i64_to_ordered_u64`.
pub fn ordered_u64_to_i64(r: u64) -> (x: i64)
    ensures
        x as int == r as int - 0x8000_0000_0000_0000,
{
    if r >= 0x8000_0000_0000_0000u64 {
        (r - 0x8000_0000_0000_0000u64) as i64
    } else {
        let y: u64 = 0x7fff_ffff_ffff_ffffu64 - r;
        -(y as i64) - 1
    }
}

} // verus!

verus! {

/// Encoding inverts decoding: re-encoding the number a byte sequence denotes
/// gives back the same bytes.
pub proof fn lemma_le_bytes_of_from_le(w: Seq<u8>)
    ensures
        le_bytes(from_le(w), w.len()) == w,
    decreases w.len(),
{
    if w.len() == 0 {
        assert(le_bytes(from_le(w), 0) =~= w);
    } else {
        let x = from_le(w);
        let b0 = w[0] as nat;
        let r = from_le(w.drop_first());
        assert(x == b0 + 256 * r);
        assert(x % 256 == b0 && x / 256 == r) by {
            vstd::arithmetic::div_mod::lemma_fundamental_div_mod_converse(
                x as int,
                256,
                r as int,
                b0 as int,
            );
        }
        lemma_le_bytes_of_from_le(w.drop_first());
        assert(le_bytes(x, w.len()) == seq![(b0) as u8] + w.drop_first());
        assert(seq![(b0) as u8] + w.drop_first() =~= w);
    }
}

} // verus!
