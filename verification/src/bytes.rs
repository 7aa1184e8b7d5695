//! Fixed-width unsigned integers as bytes.

use vstd::arithmetic::div_mod::lemma_mod_breakdown;
use vstd::arithmetic::power::{lemma_pow_positive, pow};
use vstd::layout::layout_of_primitives;
use vstd::prelude::*;

verus! {

/// The order in which the bytes of an integer lie in memory.
#[derive(Clone, Copy, Debug, PartialEq, Eq, Structural)]
pub enum ByteOrder {
    Little,
    Big,
}

/// `to_ne_bytes` of a `u16`: its two bytes, in one of the two orders. Which
/// one is up to the machine, and not stated.
#[verifier::external_body]
fn u16_to_ne_bytes(value: u16) -> (bytes: [u8; 2])
    ensures
        bytes@ == uint_bytes(ByteOrder::Little, value as nat, 2) || bytes@ == uint_bytes(
            ByteOrder::Big,
            value as nat,
            2,
        ),
{
    value.to_ne_bytes()
}

/// The order in which the two bytes of the number one lie.
pub fn order_of_one(bytes: [u8; 2]) -> (order: ByteOrder)
    requires
        bytes@ == uint_bytes(ByteOrder::Little, 1, 2) || bytes@ == uint_bytes(
            ByteOrder::Big,
            1,
            2,
        ),
    ensures
        bytes@ == uint_bytes(order, 1, 2),
{
    proof {
        reveal_with_fuel(le_bytes, 3);
        assert(le_bytes(1, 2) =~= seq![1u8, 0u8]);
        assert(le_bytes(1, 2).reverse() =~= seq![0u8, 1u8]);
        assert(bytes@[0] == 1 <==> bytes@ == le_bytes(1, 2));
    }
    if bytes[0] == 1 {
        ByteOrder::Little
    } else {
        ByteOrder::Big
    }
}

/// The byte order of the machine.
pub(crate) fn native_byte_order() -> (order: ByteOrder) {
    order_of_one(u16_to_ne_bytes(1))
}

/// The number of values that `len` bytes can take.
pub open spec fn byte_span(len: nat) -> nat
    decreases len,
{
    if len == 0 {
        1
    } else {
        256 * byte_span((len - 1) as nat)
    }
}

/// The number whose least significant byte is the first one.
pub open spec fn le_value(bytes: Seq<u8>) -> nat
    decreases bytes.len(),
{
    if bytes.len() == 0 {
        0
    } else {
        bytes[0] as nat + 256 * le_value(bytes.drop_first())
    }
}

/// The `len` least significant bytes of `value`, least significant first.
pub open spec fn le_bytes(value: nat, len: nat) -> Seq<u8>
    decreases len,
{
    if len == 0 {
        Seq::empty()
    } else {
        seq![(value % 256) as u8] + le_bytes(value / 256, (len - 1) as nat)
    }
}

/// The number that `bytes` stand for.
pub open spec fn uint_value(order: ByteOrder, bytes: Seq<u8>) -> nat {
    match order {
        ByteOrder::Little => le_value(bytes),
        ByteOrder::Big => le_value(bytes.reverse()),
    }
}

/// The `len` least significant bytes of `value`.
pub open spec fn uint_bytes(order: ByteOrder, value: nat, len: nat) -> Seq<u8> {
    match order {
        ByteOrder::Little => le_bytes(value, len),
        ByteOrder::Big => le_bytes(value, len).reverse(),
    }
}

/// The number of bytes of a `usize`.
pub open spec fn word_size() -> nat {
    (usize::BITS / 8) as nat
}

/// The greatest number of bytes that a buffer can hold.
pub open spec fn max_len() -> nat {
    isize::MAX as nat
}

/// `bytes` as a `usize`.
pub open spec fn word_value(order: ByteOrder, bytes: Seq<u8>) -> usize {
    uint_value(order, bytes) as usize
}

/// `bytes` as a `u32`.
pub open spec fn u32_value(order: ByteOrder, bytes: Seq<u8>) -> u32 {
    uint_value(order, bytes) as u32
}

/// The bytes of a `usize`.
pub open spec fn word_bytes(order: ByteOrder, value: nat) -> Seq<u8> {
    uint_bytes(order, value, word_size())
}

/// The bytes of a `u32`.
pub open spec fn u32_bytes(order: ByteOrder, value: u32) -> Seq<u8> {
    uint_bytes(order, value as nat, 4)
}

proof fn lemma_le_value_bound(bytes: Seq<u8>)
    ensures
        le_value(bytes) < byte_span(bytes.len()),
    decreases bytes.len(),
{
    if bytes.len() > 0 {
        lemma_le_value_bound(bytes.drop_first());
    }
}

proof fn lemma_byte_span_monotonic(short: nat, long: nat)
    requires
        short <= long,
    ensures
        byte_span(short) <= byte_span(long),
    decreases long,
{
    if short < long {
        lemma_byte_span_monotonic(short, (long - 1) as nat);
    }
}

/// A word is four or eight bytes and holds every `usize`.
pub proof fn lemma_word_size()
    ensures
        word_size() == 4 || word_size() == 8,
        byte_span(word_size()) == usize::MAX + 1,
        byte_span(4) == u32::MAX + 1,
        byte_span(8) == u64::MAX + 1,
{
    reveal_with_fuel(byte_span, 9);
}

/// The number that some bytes stand for is below the count of such byte
/// strings.
pub proof fn lemma_uint_value_bound(order: ByteOrder, bytes: Seq<u8>)
    ensures
        uint_value(order, bytes) < byte_span(bytes.len()),
{
    lemma_le_value_bound(bytes);
    lemma_le_value_bound(bytes.reverse());
}

proof fn lemma_le_bytes_len(value: nat, len: nat)
    ensures
        le_bytes(value, len).len() == len,
    decreases len,
{
    if len > 0 {
        lemma_le_bytes_len(value / 256, (len - 1) as nat);
    }
}

/// `uint_bytes` gives as many bytes as asked for.
pub proof fn lemma_uint_bytes_len(order: ByteOrder, value: nat, len: nat)
    ensures
        uint_bytes(order, value, len).len() == len,
{
    lemma_le_bytes_len(value, len);
}

proof fn lemma_le_round_trip(value: nat, len: nat)
    requires
        value < byte_span(len),
    ensures
        le_value(le_bytes(value, len)) == value,
    decreases len,
{
    if len > 0 {
        let rest = le_bytes(value / 256, (len - 1) as nat);
        lemma_le_round_trip(value / 256, (len - 1) as nat);
        assert(le_bytes(value, len).drop_first() =~= rest);
    }
}

proof fn lemma_le_unique(bytes: Seq<u8>)
    ensures
        le_bytes(le_value(bytes), bytes.len()) == bytes,
    decreases bytes.len(),
{
    if bytes.len() > 0 {
        lemma_le_unique(bytes.drop_first());
        assert(le_value(bytes) / 256 == le_value(bytes.drop_first()));
        assert(seq![bytes[0]] + bytes.drop_first() =~= bytes);
    }
}

/// Reading back the bytes of a number that fits gives the number.
pub proof fn law_value_of_bytes(order: ByteOrder, value: nat, len: nat)
    requires
        value < byte_span(len),
    ensures
        uint_value(order, uint_bytes(order, value, len)) == value,
{
    lemma_le_round_trip(value, len);
    assert(le_bytes(value, len).reverse().reverse() =~= le_bytes(value, len));
}

/// Writing the number that some bytes stand for gives those bytes.
pub proof fn law_bytes_of_value(order: ByteOrder, bytes: Seq<u8>)
    ensures
        uint_bytes(order, uint_value(order, bytes), bytes.len()) == bytes,
{
    lemma_le_unique(bytes);
    lemma_le_unique(bytes.reverse());
    assert(bytes.reverse().reverse() =~= bytes);
}

/// `len` bytes can take 256 to the power of `len` values.
pub proof fn law_byte_span(len: nat)
    ensures
        byte_span(len) == pow(256, len),
    decreases len,
{
    reveal(pow);
    if len > 0 {
        law_byte_span((len - 1) as nat);
    }
}

/// No bytes stand for zero, and one byte stands for itself.
pub proof fn law_value_of_one_byte(order: ByteOrder, byte: u8)
    ensures
        uint_value(order, Seq::empty()) == 0,
        uint_value(order, seq![byte]) == byte,
{
    reveal_with_fuel(le_value, 2);
    assert(Seq::<u8>::empty().reverse() =~= Seq::empty());
    assert(seq![byte].reverse() =~= seq![byte]);
}

proof fn lemma_le_value_of_joined(low: Seq<u8>, high: Seq<u8>)
    ensures
        le_value(low + high) == le_value(low) + pow(256, low.len()) * le_value(high),
    decreases low.len(),
{
    reveal(pow);
    if low.len() == 0 {
        assert(low + high =~= high);
    } else {
        let rest = low.drop_first();
        lemma_le_value_of_joined(rest, high);
        assert((low + high).drop_first() =~= rest + high);
        let span = pow(256, rest.len());
        let value = le_value(high) as int;
        assert(256 * (span * value) == (256 * span) * value) by (nonlinear_arith);
    }
}

/// In little-endian order the first bytes are the low ones, in big-endian order
/// they are the high ones.
pub proof fn law_value_of_joined_bytes(first: Seq<u8>, second: Seq<u8>)
    ensures
        uint_value(ByteOrder::Little, first + second) == uint_value(ByteOrder::Little, first) + pow(
            256,
            first.len(),
        ) * uint_value(ByteOrder::Little, second),
        uint_value(ByteOrder::Big, first + second) == pow(256, second.len()) * uint_value(
            ByteOrder::Big,
            first,
        ) + uint_value(ByteOrder::Big, second),
{
    lemma_le_value_of_joined(first, second);
    lemma_le_value_of_joined(second.reverse(), first.reverse());
    assert((first + second).reverse() =~= second.reverse() + first.reverse());
}

proof fn lemma_le_value_of_low_bytes(value: nat, len: nat)
    ensures
        le_value(le_bytes(value, len)) == (value as int) % pow(256, len),
    decreases len,
{
    reveal(pow);
    if len > 0 {
        let rest = le_bytes(value / 256, (len - 1) as nat);
        lemma_le_value_of_low_bytes(value / 256, (len - 1) as nat);
        assert(le_bytes(value, len).drop_first() =~= rest);
        lemma_pow_positive(256, (len - 1) as nat);
        lemma_mod_breakdown(value as int, 256, pow(256, (len - 1) as nat));
    }
}

/// Writing `len` bytes of a number gives `len` bytes, which stand for what is
/// left of the number when it is divided by 256 to the power of `len`.
pub proof fn law_low_bytes(order: ByteOrder, value: nat, len: nat)
    ensures
        uint_bytes(order, value, len).len() == len,
        uint_value(order, uint_bytes(order, value, len)) == (value as int) % pow(256, len),
{
    lemma_le_bytes_len(value, len);
    lemma_le_value_of_low_bytes(value, len);
    assert(le_bytes(value, len).reverse().reverse() =~= le_bytes(value, len));
}

/// Reads the number held by the first `size` bytes of `slice`.
pub fn convert_from_bytes(slice: &[u8], size: usize, order: ByteOrder) -> (value: u64)
    requires
        size <= 8,
        size <= slice@.len(),
    ensures
        value == uint_value(order, slice@.take(size as int)),
{
    let ghost digits = match order {
        ByteOrder::Little => slice@.take(size as int),
        ByteOrder::Big => slice@.take(size as int).reverse(),
    };
    let mut value: u64 = 0;
    let mut left: usize = size;
    assert(digits.skip(size as int) =~= Seq::empty());
    while left > 0
        invariant
            left <= size <= 8,
            size <= slice@.len(),
            digits.len() == size,
            digits == (match order {
                ByteOrder::Little => slice@.take(size as int),
                ByteOrder::Big => slice@.take(size as int).reverse(),
            }),
            value == le_value(digits.skip(left as int)),
        decreases left,
    {
        proof {
            let rest = digits.skip(left as int);
            assert(digits.skip(left - 1).drop_first() =~= rest);
            lemma_le_value_bound(rest);
            lemma_byte_span_monotonic(rest.len(), 7);
            reveal_with_fuel(byte_span, 8);
        }
        left -= 1;
        let digit: u8 = match order {
            ByteOrder::Little => slice[left],
            ByteOrder::Big => slice[size - 1 - left],
        };
        value = value * 256 + digit as u64;
    }
    assert(digits.skip(0) =~= digits);
    value
}

/// Reads the word at the start of `slice`.
pub fn to_usize(slice: &[u8], order: ByteOrder) -> (value: usize)
    requires
        word_size() <= slice@.len(),
    ensures
        value == uint_value(order, slice@.take(word_size() as int)),
{
    broadcast use layout_of_primitives;

    proof {
        lemma_word_size();
        lemma_uint_value_bound(order, slice@.take(word_size() as int));
    }
    convert_from_bytes(slice, std::mem::size_of::<usize>(), order) as usize
}

/// The `size` least significant bytes of `value`.
pub fn convert_to_bytes(value: u64, size: usize, order: ByteOrder) -> (bytes: Vec<u8>)
    requires
        size <= 8,
    ensures
        bytes@ == uint_bytes(order, value as nat, size as nat),
{
    let mut low: Vec<u8> = Vec::new();
    let mut rest: u64 = value;
    while low.len() < size
        invariant
            low@.len() <= size,
            low@ + le_bytes(rest as nat, (size - low@.len()) as nat) == le_bytes(
                value as nat,
                size as nat,
            ),
        decreases size - low@.len(),
    {
        let ghost before = low@;
        low.push((rest % 256) as u8);
        rest = rest / 256;
        assert(low@ + le_bytes(rest as nat, (size - low@.len()) as nat) =~= before + le_bytes(
            (rest * 256 + low@.last()) as nat,
            (size - before.len()) as nat,
        ));
    }
    assert(low@ + le_bytes(rest as nat, 0) =~= low@);
    match order {
        ByteOrder::Little => low,
        ByteOrder::Big => {
            let mut high: Vec<u8> = Vec::new();
            while high.len() < size
                invariant
                    high@.len() <= size,
                    low@.len() == size,
                    high@ == low@.reverse().take(high@.len() as int),
                decreases size - high@.len(),
            {
                let next: usize = size - 1 - high.len();
                high.push(low[next]);
            }
            high
        },
    }
}

} // verus!
