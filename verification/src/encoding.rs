//! Fixed-width integers as bytes in a given byte order: the two's-complement bit
//! pattern of a value, its base-256 digits, and the value read back from them.

use vstd::prelude::*;
use crate::dtype::DTypeKind;

verus! {

/// The order of the bytes of one value in memory.
#[derive(Clone, Copy, Debug, PartialEq, Eq, Structural)]
pub enum ByteOrder {
    /// Least significant byte first.
    Little,
    /// Most significant byte first.
    Big,
}

/// `256` to the power `n`: the number of values that `n` bytes can hold.
pub open spec fn byte_span(n: nat) -> nat
    decreases n,
{
    if n == 0 {
        1
    } else {
        256 * byte_span((n - 1) as nat)
    }
}

/// The number of bit patterns of the type.
pub open spec fn modulus(d: DTypeKind) -> int {
    byte_span(d.itemsize() as nat) as int
}

/// The two's-complement bit pattern of `v` as an unsigned number.
pub open spec fn bit_pattern(v: int, d: DTypeKind) -> nat {
    if v < 0 {
        (v + modulus(d)) as nat
    } else {
        v as nat
    }
}

/// The `n` least significant base-256 digits of `u`, least significant first.
pub open spec fn le_digits(u: nat, n: nat) -> Seq<u8>
    decreases n,
{
    if n == 0 {
        Seq::empty()
    } else {
        seq![(u % 256) as u8] + le_digits(u / 256, (n - 1) as nat)
    }
}

/// The number whose base-256 digits, least significant first, are `b`.
pub open spec fn le_number(b: Seq<u8>) -> nat
    decreases b.len(),
{
    if b.len() == 0 {
        0
    } else {
        b[0] as nat + 256 * le_number(b.drop_first())
    }
}

/// The bytes of `v` as a value of type `d`, in order `order`.
pub open spec fn encoded(v: int, d: DTypeKind, order: ByteOrder) -> Seq<u8> {
    let le = le_digits(bit_pattern(v, d), d.itemsize() as nat);
    match order {
        ByteOrder::Little => le,
        ByteOrder::Big => le.reverse(),
    }
}

/// The value of type `d` whose bytes in order `order` are `bytes`.
pub open spec fn decoded(bytes: Seq<u8>, d: DTypeKind, order: ByteOrder) -> int {
    let u = le_number(
        match order {
            ByteOrder::Little => bytes,
            ByteOrder::Big => bytes.reverse(),
        },
    );
    if d.is_signed() && u > d.max_value() {
        u - modulus(d)
    } else {
        u as int
    }
}

proof fn lemma_modulus(d: DTypeKind)
    ensures
        modulus(d) == d.max_value() - d.min_value() + 1,
        d.is_signed() ==> modulus(d) == 2 * (d.max_value() + 1),
        !d.is_signed() ==> d.min_value() == 0,
{
    reveal_with_fuel(byte_span, 9);
}

proof fn lemma_le_digits_len(u: nat, n: nat)
    ensures
        le_digits(u, n).len() == n,
    decreases n,
{
    if n > 0 {
        lemma_le_digits_len(u / 256, (n - 1) as nat);
    }
}

proof fn lemma_le_number_digits(u: nat, n: nat)
    requires
        u < byte_span(n),
    ensures
        le_number(le_digits(u, n)) == u,
    decreases n,
{
    if n > 0 {
        let rest = le_digits(u / 256, (n - 1) as nat);
        let s = byte_span((n - 1) as nat);
        assert(u / 256 < s) by (nonlinear_arith)
            requires
                u < 256 * s,
        ;
        lemma_le_number_digits(u / 256, (n - 1) as nat);
        assert(le_digits(u, n).drop_first() =~= rest);
    }
}

proof fn lemma_le_number_bound(b: Seq<u8>)
    ensures
        le_number(b) < byte_span(b.len()),
    decreases b.len(),
{
    if b.len() > 0 {
        let rest = b.drop_first();
        lemma_le_number_bound(rest);
        let x = b[0] as nat;
        let r = le_number(rest);
        let s = byte_span(rest.len());
        assert(x + 256 * r < 256 * s) by (nonlinear_arith)
            requires
                x < 256,
                r < s,
        ;
    }
}

proof fn lemma_reverse_reverse(s: Seq<u8>)
    ensures
        s.reverse().reverse() =~= s,
        s.reverse().len() == s.len(),
{
}

/// The value read back from the bytes of `v` is `v`.
pub proof fn lemma_decoded_encoded(v: int, d: DTypeKind, order: ByteOrder)
    requires
        d.min_value() <= v <= d.max_value(),
    ensures
        encoded(v, d, order).len() == d.itemsize(),
        decoded(encoded(v, d, order), d, order) == v,
{
    lemma_modulus(d);
    let p = bit_pattern(v, d);
    let n = d.itemsize() as nat;
    lemma_le_digits_len(p, n);
    lemma_le_number_digits(p, n);
    lemma_reverse_reverse(le_digits(p, n));
}

/// Every value read from as many bytes as the type is wide lies in its range.
pub proof fn lemma_decoded_in_range(bytes: Seq<u8>, d: DTypeKind, order: ByteOrder)
    requires
        bytes.len() == d.itemsize(),
    ensures
        d.min_value() <= decoded(bytes, d, order) <= d.max_value(),
{
    lemma_modulus(d);
    lemma_reverse_reverse(bytes);
    let le = match order {
        ByteOrder::Little => bytes,
        ByteOrder::Big => bytes.reverse(),
    };
    lemma_le_number_bound(le);
}

/// The bit pattern of a value of type `d` as an unsigned 128-bit number.
fn pattern_of(value: i128, dtype: DTypeKind) -> (r: u128)
    requires
        dtype.min_value() <= value <= dtype.max_value(),
    ensures
        r == bit_pattern(value as int, dtype),
        r < modulus(dtype),
{
    proof {
        lemma_modulus(dtype);
        reveal_with_fuel(byte_span, 9);
    }
    if value >= 0 {
        value as u128
    } else {
        let span: i128 = match dtype {
            DTypeKind::I8 | DTypeKind::U8 => 0x100,
            DTypeKind::I16 | DTypeKind::U16 => 0x1_0000,
            DTypeKind::I32 | DTypeKind::U32 => 0x1_0000_0000,
            DTypeKind::I64 | DTypeKind::U64 => 0x1_0000_0000_0000_0000,
        };
        (value + span) as u128
    }
}

/// Append the bytes of `value`, as a value of type `dtype`, in order `order`.
pub fn append_encoded(buf: &mut Vec<u8>, value: i128, dtype: DTypeKind, order: ByteOrder)
    requires
        dtype.min_value() <= value <= dtype.max_value(),
    ensures
        final(buf)@ == old(buf)@ + encoded(value as int, dtype, order),
{
    let n = dtype.itemsize();
    let p = pattern_of(value, dtype);
    let mut u: u128 = p;
    let mut le: Vec<u8> = Vec::new();
    let mut i: usize = 0;
    while i < n
        invariant
            i <= n,
            n == dtype.itemsize(),
            le@.len() == i,
            le@ + le_digits(u as nat, (n - i) as nat) == le_digits(p as nat, n as nat),
        decreases n - i,
    {
        let ghost before = le@;
        proof {
            assert(le_digits(u as nat, (n - i) as nat) =~= seq![(u % 256) as u8] + le_digits(
                (u / 256) as nat,
                (n - i - 1) as nat,
            ));
        }
        le.push((u % 256) as u8);
        proof {
            assert(before + (seq![(u % 256) as u8] + le_digits((u / 256) as nat, (n - i - 1) as nat))
                =~= le@ + le_digits((u / 256) as nat, (n - i - 1) as nat));
        }
        u = u / 256;
        i = i + 1;
    }
    proof {
        assert(le@ =~= le_digits(p as nat, n as nat));
    }
    let ghost start = buf@;
    match order {
        ByteOrder::Little => {
            let mut k: usize = 0;
            while k < n
                invariant
                    k <= n,
                    le@.len() == n,
                    buf@ =~= start + le@.take(k as int),
                decreases n - k,
            {
                buf.push(le[k]);
                proof {
                    assert(le@.take(k + 1) =~= le@.take(k as int).push(le@[k as int]));
                }
                k = k + 1;
            }
            proof {
                assert(le@.take(n as int) =~= le@);
            }
        },
        ByteOrder::Big => {
            let mut k: usize = 0;
            while k < n
                invariant
                    k <= n,
                    le@.len() == n,
                    buf@ =~= start + le@.reverse().take(k as int),
                decreases n - k,
            {
                buf.push(le[n - 1 - k]);
                proof {
                    assert(le@.reverse().take(k + 1) =~= le@.reverse().take(k as int).push(
                        le@[n - 1 - k],
                    ));
                }
                k = k + 1;
            }
            proof {
                assert(le@.reverse().take(n as int) =~= le@.reverse());
            }
        },
    }
}

/// Read a value of type `dtype` from its bytes in order `order`.
pub fn decode_in(bytes: &[u8], dtype: DTypeKind, order: ByteOrder) -> (r: i128)
    requires
        bytes@.len() == dtype.itemsize(),
    ensures
        r == decoded(bytes@, dtype, order),
        dtype.min_value() <= r <= dtype.max_value(),
{
    proof {
        lemma_decoded_in_range(bytes@, dtype, order);
        lemma_modulus(dtype);
        reveal_with_fuel(byte_span, 9);
    }
    let n = bytes.len();
    let mut acc: u128 = 0;
    match order {
        ByteOrder::Little => {
            let mut i: usize = n;
            while i > 0
                invariant
                    i <= n,
                    n == bytes@.len(),
                    n <= 8,
                    acc == le_number(bytes@.subrange(i as int, n as int)),
                decreases i,
            {
                let ghost tail = bytes@.subrange(i as int, n as int);
                proof {
                    lemma_le_number_bound(tail);
                    lemma_span_bound((n - i) as nat);
                    assert(bytes@.subrange(i - 1, n as int).drop_first() =~= tail);
                }
                acc = acc * 256 + bytes[i - 1] as u128;
                i = i - 1;
            }
            proof {
                assert(bytes@.subrange(0, n as int) =~= bytes@);
            }
        },
        ByteOrder::Big => {
            let mut i: usize = 0;
            while i < n
                invariant
                    i <= n,
                    n == bytes@.len(),
                    n <= 8,
                    acc == le_number(bytes@.take(i as int).reverse()),
                decreases n - i,
            {
                let ghost head = bytes@.take(i as int).reverse();
                proof {
                    lemma_le_number_bound(head);
                    lemma_span_bound(i as nat);
                    assert(bytes@.take(i + 1).reverse().drop_first() =~= head);
                }
                acc = acc * 256 + bytes[i] as u128;
                i = i + 1;
            }
            proof {
                assert(bytes@.take(n as int) =~= bytes@);
            }
        },
    }
    let max = dtype.max_value();
    if dtype.is_signed() && acc > max as u128 {
        let span: i128 = match dtype {
            DTypeKind::I8 | DTypeKind::U8 => 0x100,
            DTypeKind::I16 | DTypeKind::U16 => 0x1_0000,
            DTypeKind::I32 | DTypeKind::U32 => 0x1_0000_0000,
            DTypeKind::I64 | DTypeKind::U64 => 0x1_0000_0000_0000_0000,
        };
        acc as i128 - span
    } else {
        acc as i128
    }
}

proof fn lemma_span_bound(n: nat)
    requires
        n <= 8,
    ensures
        byte_span(n) <= 0x1_0000_0000_0000_0000,
{
    reveal_with_fuel(byte_span, 9);
}

} // verus!
