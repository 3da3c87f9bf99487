//! Big-endian integers in byte strings.

#[allow(unused_imports)]
use vstd::arithmetic::div_mod::lemma_div_denominator;
#[allow(unused_imports)]
use vstd::arithmetic::power::{lemma_pow0, lemma_pow1, lemma_pow_adds, lemma_pow_positive, pow};
use vstd::prelude::*;
use vstd::slice::slice_to_vec;

verus! {

/// `256` to the power of `width`: one more than the largest integer that
/// `width` bytes can hold.
pub open spec fn byte_span(width: nat) -> nat
    decreases width,
{
    if width == 0 {
        1
    } else {
        byte_span((width - 1) as nat) * 256
    }
}

/// The number that a byte string denotes, most significant byte first.
pub open spec fn be_value(s: Seq<u8>) -> nat
    decreases s.len(),
{
    if s.len() == 0 {
        0
    } else {
        be_value(s.drop_last()) * 256 + s.last() as nat
    }
}

/// The `width` low-order bytes of `n`, most significant byte first.
pub open spec fn be_bytes(n: nat, width: nat) -> Seq<u8>
    decreases width,
{
    if width == 0 {
        Seq::empty()
    } else {
        be_bytes(n / 256, (width - 1) as nat).push((n % 256) as u8)
    }
}

/// A field of `width` bytes is `width` bytes long.
pub broadcast proof fn lemma_be_bytes_len(n: nat, width: nat)
    ensures
        #[trigger] be_bytes(n, width).len() == width,
    decreases width,
{
    if width > 0 {
        lemma_be_bytes_len(n / 256, (width - 1) as nat);
    }
}

/// The spans of the field widths that the wire formats use.
pub proof fn lemma_byte_spans()
    ensures
        byte_span(1) == 0x100,
        byte_span(2) == 0x1_0000,
        byte_span(4) == 0x1_0000_0000,
        byte_span(8) == 0x1_0000_0000_0000_0000,
{
    reveal_with_fuel(byte_span, 9);
}

/// Reading a field back gives the integer that was written, as long as it
/// fits into the field.
pub proof fn lemma_be_value_of_be_bytes(n: nat, width: nat)
    requires
        n < byte_span(width),
    ensures
        be_value(be_bytes(n, width)) == n,
    decreases width,
{
    if width > 0 {
        let w1 = (width - 1) as nat;
        lemma_be_bytes_len(n, width);
        assert(n / 256 < byte_span(w1)) by (nonlinear_arith)
            requires
                n < byte_span(w1) * 256,
        ;
        lemma_be_value_of_be_bytes(n / 256, w1);
        assert(be_bytes(n, width).drop_last() =~= be_bytes(n / 256, w1));
    }
}

/// Writing out the integer that a field denotes gives the field back.
pub proof fn lemma_be_bytes_of_be_value(s: Seq<u8>)
    ensures
        be_bytes(be_value(s), s.len()) =~= s,
    decreases s.len(),
{
    if s.len() > 0 {
        lemma_be_bytes_of_be_value(s.drop_last());
        let high = be_value(s.drop_last());
        assert((high * 256 + s.last() as nat) / 256 == high);
        assert((high * 256 + s.last() as nat) % 256 == s.last() as nat);
    }
}

/// A field denotes an integer that it can hold.
pub proof fn lemma_be_value_bound(s: Seq<u8>)
    ensures
        be_value(s) < byte_span(s.len()),
    decreases s.len(),
{
    if s.len() > 0 {
        lemma_be_value_bound(s.drop_last());
        let high = be_value(s.drop_last());
        let span = byte_span((s.len() - 1) as nat);
        assert(high * 256 + 255 < span * 256) by (nonlinear_arith)
            requires
                high + 1 <= span,
        ;
    }
}

/// A span grows with its width.
pub proof fn lemma_byte_span_monotonic(small: nat, large: nat)
    requires
        small <= large,
    ensures
        byte_span(small) <= byte_span(large),
    decreases large,
{
    if small < large {
        lemma_byte_span_monotonic(small, (large - 1) as nat);
    }
}

/// Appends the `width` low-order bytes of `value` to `out`, most significant
/// byte first.
pub fn push_be(out: &mut Vec<u8>, value: u64, width: usize)
    ensures
        final(out)@ == old(out)@ + be_bytes(value as nat, width as nat),
    decreases width,
{
    if width > 0 {
        push_be(out, value / 256, width - 1);
        out.push((value % 256) as u8);
    }
    proof {
        assert(out@ =~= old(out)@ + be_bytes(value as nat, width as nat));
    }
}

/// The number that the `width` bytes of `bytes` from `at` on denote, most
/// significant byte first.
pub fn read_be(bytes: &[u8], at: usize, width: usize) -> (value: u64)
    requires
        at + width <= bytes@.len(),
        width <= 8,
    ensures
        value == be_value(bytes@.subrange(at as int, at + width)),
        value < byte_span(width as nat),
{
    let len: usize = bytes.len();
    let mut value: u64 = 0;
    let mut i: usize = 0;
    while i < width
        invariant
            i <= width,
            width <= 8,
            at + width <= bytes@.len(),
            len == bytes@.len(),
            value == be_value(bytes@.subrange(at as int, at + i)),
        decreases width - i,
    {
        let ghost next = bytes@.subrange(at as int, at + i + 1);
        proof {
            assert(next.drop_last() =~= bytes@.subrange(at as int, at + i));
            lemma_be_value_bound(next);
            lemma_byte_span_monotonic(next.len(), 8);
            lemma_byte_spans();
        }
        value = value * 256 + bytes[at + i] as u64;
        i = i + 1;
    }
    proof {
        lemma_be_value_bound(bytes@.subrange(at as int, at + width));
    }
    value
}

/// Appends a byte string to `out`.
pub fn push_bytes(out: &mut Vec<u8>, bytes: &[u8])
    ensures
        final(out)@ == old(out)@ + bytes@,
{
    let mut copy = slice_to_vec(bytes);
    out.append(&mut copy);
}

/// The byte at place `i` of a field is the digit to the base of 256 that stands
/// for that place: the last byte counts ones, the one before it 256s, and so on.
pub proof fn law_be_digits(n: nat, width: nat, i: int)
    requires
        0 <= i < width,
    ensures
        be_bytes(n, width).len() == width,
        be_bytes(n, width)[i] == (n as int / pow(256, (width - 1 - i) as nat)) % 256,
    decreases width,
{
    lemma_be_bytes_len(n, width);
    lemma_be_bytes_len(n / 256, (width - 1) as nat);
    if i < width - 1 {
        let e = (width - 2 - i) as nat;
        law_be_digits(n / 256, (width - 1) as nat, i);
        lemma_pow_positive(256, e);
        lemma_div_denominator(n as int, 256, pow(256, e));
        lemma_pow_adds(256, 1, e);
        lemma_pow1(256);
    } else {
        lemma_pow0(256);
    }
}

/// A field denotes the sum of its bytes, each times the power of 256 that stands
/// for its place: what stands in front of `low` counts for as much more as `low`
/// has bytes.
pub proof fn law_be_value_by_place(high: Seq<u8>, low: Seq<u8>)
    ensures
        be_value(high + low) == be_value(high) * pow(256, low.len()) + be_value(low),
        low.len() == 1 ==> be_value(low) == low[0],
        low.len() == 0 ==> be_value(low) == 0,
    decreases low.len(),
{
    let n = low.len();
    if n == 0 {
        lemma_pow0(256);
        assert(high + low =~= high);
    } else {
        let init = low.drop_last();
        let e = (n - 1) as nat;
        law_be_value_by_place(high, init);
        assert((high + low).drop_last() =~= high + init);
        lemma_pow_adds(256, e, 1);
        lemma_pow1(256);
        let h = be_value(high) as int;
        let p = pow(256, e);
        assert(h * p * 256 == h * (p * 256)) by (nonlinear_arith);
        if n == 1 {
            assert(be_value(init) == 0);
        }
    }
}

} // verus!
