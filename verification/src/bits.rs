//! Bit strings: sequences of the ASCII bytes `'0'` and `'1'`, most significant first.
use vstd::prelude::*;
use crate::number::{digits_value, lemma_pow_monotone, pow_nat};

verus! {

pub open spec fn bit_byte(one: bool) -> u8 {
    if one {
        49u8
    } else {
        48u8
    }
}

pub open spec fn is_binary(b: Seq<u8>) -> bool {
    forall|i: int| 0 <= i < b.len() ==> (#[trigger] b[i] == 48u8 || b[i] == 49u8)
}

/// The digit (0 or 1) that each bit byte stands for.
pub open spec fn bit_digits(b: Seq<u8>) -> Seq<nat> {
    b.map_values(|c: u8| if c == 49u8 { 1nat } else { 0nat })
}

/// The unsigned value of a bit string.
pub open spec fn bits_value(b: Seq<u8>) -> nat {
    digits_value(bit_digits(b), 2)
}

/// The `width` low bits of `value`, most significant first.
pub open spec fn be_bits(value: nat, width: nat) -> Seq<u8>
    decreases width,
{
    if width == 0 {
        Seq::empty()
    } else {
        be_bits(value / 2, (width - 1) as nat).push(bit_byte(value % 2 == 1))
    }
}

/// `n` zero bits.
pub open spec fn zero_bits(n: nat) -> Seq<u8> {
    Seq::new(n, |i: int| 48u8)
}

/// `s` followed by zero bits up to length `n` (unchanged if already that long).
pub open spec fn pad_bits(s: Seq<u8>, n: nat) -> Seq<u8> {
    if s.len() < n {
        s + zero_bits((n - s.len()) as nat)
    } else {
        s
    }
}

/// Eight bits per byte, in order.
pub open spec fn bytes_bits(b: Seq<u8>) -> Seq<u8>
    decreases b.len(),
{
    if b.len() == 0 {
        Seq::empty()
    } else {
        bytes_bits(b.drop_last()) + be_bits(b.last() as nat, 8)
    }
}

pub proof fn lemma_bit_digits_push(b: Seq<u8>, c: u8)
    ensures
        bit_digits(b.push(c)) == bit_digits(b).push(if c == 49u8 { 1nat } else { 0nat }),
        bit_digits(b.push(c)).drop_last() == bit_digits(b),
{
    assert(bit_digits(b.push(c)) =~= bit_digits(b).push(if c == 49u8 { 1nat } else { 0nat }));
    assert(bit_digits(b.push(c)).drop_last() =~= bit_digits(b));
}

/// Value of a bit string extended by one bit.
pub proof fn lemma_bits_value_push(b: Seq<u8>, c: u8)
    ensures
        bits_value(b.push(c)) == bits_value(b) * 2 + (if c == 49u8 { 1nat } else { 0nat }),
{
    lemma_bit_digits_push(b, c);
}

pub proof fn lemma_be_bits(value: nat, width: nat)
    ensures
        be_bits(value, width).len() == width,
        is_binary(be_bits(value, width)),
        value < pow_nat(2, width) ==> bits_value(be_bits(value, width)) == value,
    decreases width,
{
    if width > 0 {
        let w1 = (width - 1) as nat;
        lemma_be_bits(value / 2, w1);
        let init = be_bits(value / 2, w1);
        let c = bit_byte(value % 2 == 1);
        lemma_bits_value_push(init, c);
        assert(is_binary(init.push(c))) by {
            assert forall|i: int| 0 <= i < init.push(c).len() implies (#[trigger] init.push(c)[i]
                == 48u8 || init.push(c)[i] == 49u8) by {
                if i < init.len() {
                    assert(init.push(c)[i] == init[i]);
                }
            }
        }
        if value < pow_nat(2, width) {
            assert(value / 2 < pow_nat(2, w1));
            assert((value / 2) * 2 + value % 2 == value);
        }
    }
}

pub proof fn lemma_zero_bits_value(n: nat)
    ensures
        bits_value(zero_bits(n)) == 0,
        is_binary(zero_bits(n)),
    decreases n,
{
    if n > 0 {
        lemma_zero_bits_value((n - 1) as nat);
        assert(zero_bits(n) =~= zero_bits((n - 1) as nat).push(48u8));
        lemma_bits_value_push(zero_bits((n - 1) as nat), 48u8);
    }
}

pub proof fn lemma_bytes_bits(b: Seq<u8>)
    ensures
        bytes_bits(b).len() == 8 * b.len(),
        is_binary(bytes_bits(b)),
        forall|i: int|
            0 <= i < b.len() ==> #[trigger] bytes_bits(b).subrange(8 * i, 8 * i + 8) == be_bits(
                b[i] as nat,
                8,
            ),
    decreases b.len(),
{
    if b.len() > 0 {
        let init = b.drop_last();
        lemma_bytes_bits(init);
        lemma_be_bits(b.last() as nat, 8);
        let whole = bytes_bits(b);
        let head = bytes_bits(init);
        let tail = be_bits(b.last() as nat, 8);
        assert(whole == head + tail);
        assert(is_binary(whole)) by {
            assert forall|i: int| 0 <= i < whole.len() implies (#[trigger] whole[i] == 48u8
                || whole[i] == 49u8) by {
                if i < head.len() {
                    assert(whole[i] == head[i]);
                } else {
                    assert(whole[i] == tail[i - head.len()]);
                }
            }
        }
        assert forall|i: int| 0 <= i < b.len() implies #[trigger] whole.subrange(
            8 * i,
            8 * i + 8,
        ) == be_bits(b[i] as nat, 8) by {
            if i < init.len() {
                assert(whole.subrange(8 * i, 8 * i + 8) =~= head.subrange(8 * i, 8 * i + 8));
                assert(init[i] == b[i]);
            } else {
                assert(whole.subrange(8 * i, 8 * i + 8) =~= tail);
            }
        }
    }
}

/// Appends the `width` low bits of `value`, most significant first.
pub fn push_bits(out: &mut Vec<u8>, value: u128, width: usize)
    ensures
        final(out)@ == old(out)@ + be_bits(value as nat, width as nat),
    decreases width,
{
    if width > 0 {
        push_bits(out, value / 2, width - 1);
        let bit = if value % 2 == 1 {
            49u8
        } else {
            48u8
        };
        out.push(bit);
        proof {
            assert(old(out)@ + be_bits(value as nat, width as nat) =~= (old(out)@ + be_bits(
                (value / 2) as nat,
                (width - 1) as nat,
            )).push(bit));
        }
    }
}

/// Appends zero bits until `out` holds `n` bits.
pub fn pad_to(out: &mut Vec<u8>, n: usize)
    ensures
        final(out)@ == pad_bits(old(out)@, n as nat),
{
    let ghost start = out@;
    while out.len() < n
        invariant
            start.len() <= out@.len(),
            out@.len() <= n || out@.len() == start.len(),
            out@ == start + zero_bits((out@.len() - start.len()) as nat),
        decreases n - out.len(),
    {
        out.push(48u8);
        proof {
            assert(out@ =~= start + zero_bits((out@.len() - start.len()) as nat));
        }
    }
    proof {
        if start.len() < n {
            assert(out@ == pad_bits(start, n as nat));
        } else {
            assert(start + zero_bits(0) =~= start);
        }
    }
}

/// The value of `bits[start..end]`, a field of at most eight bits.
pub fn read_field(bits: &[u8], start: usize, end: usize) -> (v: u8)
    requires
        start <= end <= bits@.len(),
        end - start <= 8,
        is_binary(bits@),
    ensures
        v as nat == bits_value(bits@.subrange(start as int, end as int)),
{
    let mut v: u16 = 0;
    let mut i = start;
    proof {
        assert(bits@.subrange(start as int, start as int) =~= Seq::<u8>::empty());
        assert(pow_nat(2, 8) == 256) by {
            reveal_with_fuel(pow_nat, 9);
        }
    }
    while i < end
        invariant
            start <= i <= end,
            end <= bits@.len(),
            end - start <= 8,
            is_binary(bits@),
            v as nat == bits_value(bits@.subrange(start as int, i as int)),
            (v as nat) < pow_nat(2, (i - start) as nat),
            pow_nat(2, 8) == 256,
        decreases end - i,
    {
        let c = bits[i];
        proof {
            assert(bits@.subrange(start as int, i + 1) =~= bits@.subrange(start as int, i as int).push(c));
            lemma_bits_value_push(bits@.subrange(start as int, i as int), c);
            lemma_pow_monotone(2, (i + 1 - start) as nat, 8);
        }
        v = v * 2 + if c == 49u8 { 1 } else { 0 };
        i = i + 1;
    }
    proof {
        lemma_pow_monotone(2, (end - start) as nat, 8);
    }
    v as u8
}

} // verus!

verus! {

pub proof fn lemma_binary_concat(a: Seq<u8>, b: Seq<u8>)
    requires
        is_binary(a),
        is_binary(b),
    ensures
        is_binary(a + b),
{
    assert forall|i: int| 0 <= i < (a + b).len() implies (#[trigger] (a + b)[i] == 48u8 || (a
        + b)[i] == 49u8) by {
        if i < a.len() {
            assert((a + b)[i] == a[i]);
        } else {
            assert((a + b)[i] == b[i - a.len()]);
        }
    }
}

pub proof fn lemma_pad_bits(s: Seq<u8>, n: nat)
    requires
        is_binary(s),
        s.len() <= n,
    ensures
        is_binary(pad_bits(s, n)),
        pad_bits(s, n).len() == n,
{
    if s.len() < n {
        lemma_zero_bits_value((n - s.len()) as nat);
        lemma_binary_concat(s, zero_bits((n - s.len()) as nat));
    }
}

} // verus!
