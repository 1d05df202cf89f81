//! Protocol-agnostic decode primitives shared by the catalogue decoders (CAN,
//! serial, Modbus): bit extraction, 16-bit word-swap, exact decimal scaling and
//! value formatting, with no dependency on the catalogue model.
//!
//! Scaling is decimal on purpose: `raw × factor + offset` in binary floating
//! point picks up noise (`3374 × 0.1` is `337.40000000000003`), which then
//! stringifies into displays and entity states.

use crate::model::Endianness;
use crate::text::{digit_char, push_decimal, push_two_digits};
use rust_decimal::Decimal;
use vstd::prelude::*;

verus! {

// ---------------------------------------------------------------------------
// Bit extraction
// ---------------------------------------------------------------------------

/// The bit `k` of a byte, counted from the least significant.
pub open spec fn byte_bit(byte: u8, k: int) -> int {
    ((byte >> (k as u8)) & 1u8) as int
}

/// The bit at `index` of a payload: big-endian numbering counts each byte from
/// its most significant bit, little-endian from its least significant.
pub open spec fn payload_bit(bytes: Seq<u8>, index: int, endian: Endianness) -> int {
    match endian {
        Endianness::Big => byte_bit(bytes[index / 8], 7 - index % 8),
        Endianness::Little => byte_bit(bytes[index / 8], index % 8),
    }
}

/// The number the bits from `start` up to `end` spell: the first of them is the
/// most significant in big-endian order, the least in little-endian.
pub open spec fn bits_value(bytes: Seq<u8>, start: int, end: int, endian: Endianness) -> int
    decreases end - start,
{
    if start >= end {
        0
    } else {
        match endian {
            Endianness::Big => 2 * bits_value(bytes, start, end - 1, endian) + payload_bit(
                bytes,
                end - 1,
                endian,
            ),
            Endianness::Little => payload_bit(bytes, start, endian) + 2 * bits_value(
                bytes,
                start + 1,
                end,
                endian,
            ),
        }
    }
}

/// Where a field starts in a payload of `total` bits.
pub open spec fn field_start(total: int, start_bit: int) -> int {
    if start_bit <= total {
        start_bit
    } else {
        total
    }
}

/// Where a field ends in a payload of `total` bits.
pub open spec fn field_end(total: int, start_bit: int, bit_length: int) -> int {
    if field_start(total, start_bit) + bit_length <= total {
        field_start(total, start_bit) + bit_length
    } else {
        total
    }
}

/// The unsigned number a field holds, of the bits the payload has.
pub open spec fn unsigned_field(
    bytes: Seq<u8>,
    start_bit: int,
    bit_length: int,
    endian: Endianness,
) -> int {
    let total = bytes.len() as int * 8;
    bits_value(
        bytes,
        field_start(total, start_bit),
        field_end(total, start_bit, bit_length),
        endian,
    )
}

/// The low 128 bits of a number, read as two's complement.
pub open spec fn wrapped(n: int) -> int {
    let low = n % 0x1_0000_0000_0000_0000_0000_0000_0000_0000int;
    if low < 0x8000_0000_0000_0000_0000_0000_0000_0000 {
        low
    } else {
        low - 0x1_0000_0000_0000_0000_0000_0000_0000_0000int
    }
}

/// The number a field holds, signed or not.
pub open spec fn field_value(
    bytes: Seq<u8>,
    start_bit: int,
    bit_length: int,
    endian: Endianness,
    signed: bool,
) -> int {
    let n = unsigned_field(bytes, start_bit, bit_length, endian);
    if bit_length == 0 {
        0
    } else if signed && n >= vstd::arithmetic::power2::pow2((bit_length - 1) as nat) {
        n - vstd::arithmetic::power2::pow2(bit_length as nat)
    } else {
        wrapped(n)
    }
}

proof fn lemma_byte_bit(byte: u8, k: u8)
    ensures
        0 <= byte_bit(byte, k as int) <= 1,
{
    assert(((byte >> k) & 1u8) <= 1u8) by (bit_vector);
}

fn read_bit(byte: u8, k: u8) -> (r: u8)
    requires
        k < 8,
    ensures
        r == byte_bit(byte, k as int),
        r <= 1,
{
    proof {
        lemma_byte_bit(byte, k);
    }
    (byte >> k) & 1
}

fn payload_bit_at(bytes: &[u8], index: u128, endian: Endianness) -> (r: u8)
    requires
        index < bytes@.len() * 8,
    ensures
        r == payload_bit(bytes@, index as int, endian),
        r <= 1,
{
    let byte: u8 = bytes[(index / 8) as usize];
    let within: u8 = (index % 8) as u8;
    match endian {
        Endianness::Big => read_bit(byte, 7 - within),
        Endianness::Little => read_bit(byte, within),
    }
}

/// A field holds no more than its bits can.
pub proof fn lemma_bits_value_bounded(bytes: Seq<u8>, start: int, end: int, endian: Endianness)
    requires
        0 <= start,
        end <= bytes.len() * 8,
    ensures
        0 <= bits_value(bytes, start, end, endian),
        start <= end ==> bits_value(bytes, start, end, endian) < vstd::arithmetic::power2::pow2((end - start) as nat),
    decreases end - start,
{
    if start >= end {
        vstd::arithmetic::power2::lemma2_to64();
    } else {
        vstd::arithmetic::power2::lemma_pow2_unfold((end - start) as nat);
        match endian {
            Endianness::Big => {
                lemma_bits_value_bounded(bytes, start, end - 1, endian);
                lemma_byte_bit(bytes[(end - 1) / 8], (7 - (end - 1) % 8) as u8);
            },
            Endianness::Little => {
                lemma_bits_value_bounded(bytes, start + 1, end, endian);
                lemma_byte_bit(bytes[start / 8], (start % 8) as u8);
            },
        }
    }
}

proof fn lemma_doubled(n: int, v: int, bit: int)
    requires
        v == n % 0x1_0000_0000_0000_0000_0000_0000_0000_0000int,
        0 <= bit <= 1,
    ensures
        (2 * n + bit) % 0x1_0000_0000_0000_0000_0000_0000_0000_0000int == if v
            < 0x8000_0000_0000_0000_0000_0000_0000_0000 {
            2 * v + bit
        } else {
            2 * v + bit - 0x1_0000_0000_0000_0000_0000_0000_0000_0000int
        },
{
    let m: int = 0x1_0000_0000_0000_0000_0000_0000_0000_0000int;
    let q = n / m;
    assert(n == q * m + v);
    assert(2 * n + bit == (2 * q) * m + (2 * v + bit));
    if v < 0x8000_0000_0000_0000_0000_0000_0000_0000 {
        vstd::arithmetic::div_mod::lemma_fundamental_div_mod_converse(
            2 * n + bit,
            m,
            2 * q,
            2 * v + bit,
        );
    } else {
        assert(2 * n + bit == (2 * q + 1) * m + (2 * v + bit - m));
        vstd::arithmetic::div_mod::lemma_fundamental_div_mod_converse(
            2 * n + bit,
            m,
            2 * q + 1,
            2 * v + bit - m,
        );
    }
}

/// `2v + bit`, keeping the low 128 bits.
fn shifted_in(v: u128, bit: u8) -> (r: u128)
    requires
        bit <= 1,
    ensures
        r == if v < 0x8000_0000_0000_0000_0000_0000_0000_0000 {
            2 * v + bit
        } else {
            2 * v + bit - 0x1_0000_0000_0000_0000_0000_0000_0000_0000int
        },
{
    if v < 0x8000_0000_0000_0000_0000_0000_0000_0000 {
        v * 2 + bit as u128
    } else {
        (v - 0x8000_0000_0000_0000_0000_0000_0000_0000) * 2 + bit as u128
    }
}

fn read_bits(bytes: &[u8], start: u128, end: u128, endian: Endianness) -> (r: u128)
    requires
        start <= end,
        end <= bytes@.len() * 8,
    ensures
        r == bits_value(bytes@, start as int, end as int, endian)
            % 0x1_0000_0000_0000_0000_0000_0000_0000_0000int,
{
    let mut value: u128 = 0;
    match endian {
        Endianness::Big => {
            let mut at: u128 = start;
            while at < end
                invariant
                    start <= at <= end,
                    end <= bytes@.len() * 8,
                    endian is Big,
                    value == bits_value(bytes@, start as int, at as int, endian)
                        % 0x1_0000_0000_0000_0000_0000_0000_0000_0000int,
                decreases end - at,
            {
                let bit: u8 = payload_bit_at(bytes, at, endian);
                proof {
                    lemma_doubled(
                        bits_value(bytes@, start as int, at as int, endian),
                        value as int,
                        bit as int,
                    );
                }
                value = shifted_in(value, bit);
                at = at + 1;
            }
        },
        Endianness::Little => {
            let mut at: u128 = end;
            while at > start
                invariant
                    start <= at <= end,
                    end <= bytes@.len() * 8,
                    endian is Little,
                    value == bits_value(bytes@, at as int, end as int, endian)
                        % 0x1_0000_0000_0000_0000_0000_0000_0000_0000int,
                decreases at,
            {
                let bit: u8 = payload_bit_at(bytes, (at - 1) as u128, endian);
                proof {
                    lemma_doubled(
                        bits_value(bytes@, at as int, end as int, endian),
                        value as int,
                        bit as int,
                    );
                }
                value = shifted_in(value, bit);
                at = at - 1;
            }
        },
    }
    value
}

pub(crate) fn power_of_two(e: u32) -> (r: u128)
    requires
        e < 128,
    ensures
        r == vstd::arithmetic::power2::pow2(e as nat),
{
    let mut power: u128 = 1;
    proof {
        vstd::arithmetic::power2::lemma2_to64();
    }
    for i in 0..e
        invariant
            e < 128,
            power == vstd::arithmetic::power2::pow2(i as nat),
    {
        proof {
            vstd::arithmetic::power2::lemma_pow2_unfold((i + 1) as nat);
            lemma_pow2_below((i + 1) as nat, 127);
            lemma_pow2_127();
        }
        power = power * 2;
    }
    power
}

/// Powers of two grow with their exponent.
pub proof fn lemma_pow2_below(a: nat, b: nat)
    requires
        a <= b,
    ensures
        vstd::arithmetic::power2::pow2(a) <= vstd::arithmetic::power2::pow2(b),
{
    if a < b {
        vstd::arithmetic::power2::lemma_pow2_strictly_increases(a, b);
    }
}

/// The largest powers of two of a signed 128-bit number.
pub proof fn lemma_pow2_127()
    ensures
        vstd::arithmetic::power2::pow2(126) == 0x4000_0000_0000_0000_0000_0000_0000_0000,
        vstd::arithmetic::power2::pow2(127) == 0x8000_0000_0000_0000_0000_0000_0000_0000,
{
    vstd::arithmetic::power2::lemma2_to64();
    vstd::arithmetic::power2::lemma2_to64_rest();
    vstd::arithmetic::power2::lemma_pow2_adds(64, 62);
    vstd::arithmetic::power2::lemma_pow2_adds(64, 63);
}

/// Extract a bitfield as an integer, honouring endianness and sign.
///
/// A field reaching past the payload is read from the bits there are. Up to 127
/// bits the value is exact, and so is a signed one of 128; of a wider unsigned
/// field the low 128 bits are kept, as two's complement.
pub fn extract_bits(
    bytes: &[u8],
    start_bit: u32,
    bit_length: u32,
    endian: Endianness,
    signed: bool,
) -> (r: i128)
    requires
        signed ==> bit_length <= 128,
    ensures
        r == field_value(bytes@, start_bit as int, bit_length as int, endian, signed),
{
    if bit_length == 0 {
        return 0;
    }
    let total: u128 = bytes.len() as u128 * 8;
    let start: u128 = if start_bit as u128 <= total {
        start_bit as u128
    } else {
        total
    };
    let end: u128 = if start + bit_length as u128 <= total {
        start + bit_length as u128
    } else {
        total
    };
    let value: u128 = read_bits(bytes, start, end, endian);
    let ghost n = unsigned_field(bytes@, start_bit as int, bit_length as int, endian);
    proof {
        lemma_bits_value_bounded(bytes@, start as int, end as int, endian);
        if bit_length <= 127 {
            lemma_pow2_below((end - start) as nat, bit_length as nat);
            lemma_pow2_below(bit_length as nat, 127);
            lemma_pow2_127();
            assert(n < vstd::arithmetic::power2::pow2(bit_length as nat));
            vstd::arithmetic::div_mod::lemma_small_mod(
                n as nat,
                0x1_0000_0000_0000_0000_0000_0000_0000_0000int as nat,
            );
        } else if bit_length == 128 {
            lemma_pow2_below((end - start) as nat, 128);
            lemma_pow2_127();
            vstd::arithmetic::power2::lemma_pow2_unfold(128);
            vstd::arithmetic::div_mod::lemma_small_mod(
                n as nat,
                0x1_0000_0000_0000_0000_0000_0000_0000_0000int as nat,
            );
        }
    }
    if signed && bit_length < 128 {
        let sign: u128 = power_of_two(bit_length - 1);
        if value >= sign {
            proof {
                vstd::arithmetic::power2::lemma_pow2_unfold(bit_length as nat);
                lemma_pow2_below((bit_length - 1) as nat, 126);
            }
            // `value − 2·sign`, in steps that stay in range.
            let above: u128 = value - sign;
            return above as i128 - sign as i128;
        }
    }
    if value < 0x8000_0000_0000_0000_0000_0000_0000_0000 {
        value as i128
    } else {
        let above: u128 = value - 0x8000_0000_0000_0000_0000_0000_0000_0000;
        above as i128 + i128::MIN
    }
}

/// A field within its payload holds a value of its own width: an unsigned one of
/// up to 127 bits is below `2^n`, a signed one within two's complement of `n`
/// bits.
pub proof fn law_fields_fit_their_width(
    bytes: Seq<u8>,
    start_bit: int,
    bit_length: int,
    endian: Endianness,
)
    requires
        0 <= start_bit,
        1 <= bit_length <= 127,
    ensures
        0 <= field_value(bytes, start_bit, bit_length, endian, false) < vstd::arithmetic::power2::pow2(bit_length as nat),
        -vstd::arithmetic::power2::pow2((bit_length - 1) as nat) <= field_value(bytes, start_bit, bit_length, endian, true)
            < vstd::arithmetic::power2::pow2((bit_length - 1) as nat),
{
    let total = bytes.len() as int * 8;
    let start = field_start(total, start_bit);
    let end = field_end(total, start_bit, bit_length);
    lemma_bits_value_bounded(bytes, start, end, endian);
    lemma_pow2_below((end - start) as nat, bit_length as nat);
    lemma_pow2_below(bit_length as nat, 127);
    lemma_pow2_below((bit_length - 1) as nat, 126);
    lemma_pow2_127();
    vstd::arithmetic::power2::lemma_pow2_unfold(bit_length as nat);
    let n = unsigned_field(bytes, start_bit, bit_length, endian);
    vstd::arithmetic::div_mod::lemma_small_mod(
        n as nat,
        0x1_0000_0000_0000_0000_0000_0000_0000_0000int as nat,
    );
}

// ---------------------------------------------------------------------------
// Word swap
// ---------------------------------------------------------------------------

/// The byte at `index`, or zero past the end.
pub open spec fn byte_or_zero(bytes: Seq<u8>, index: int) -> u8 {
    if 0 <= index < bytes.len() {
        bytes[index]
    } else {
        0
    }
}

/// How many 16-bit words a field of the given length spans.
pub open spec fn word_count(bit_length: int) -> int {
    ((bit_length + 7) / 8 + 1) / 2
}

/// Where the byte at `j` comes from when the `n` words at `start` are put in
/// reverse order.
pub open spec fn swap_source(j: int, start: int, n: int) -> int {
    start + 2 * (n - 1 - (j - start) / 2) + (j - start) % 2
}

/// The payload with the words a field spans in reverse order.
pub open spec fn word_swapped(bytes: Seq<u8>, start_bit: int, bit_length: int) -> Seq<u8> {
    let start = start_bit / 8;
    let n = word_count(bit_length);
    Seq::new(
        bytes.len(),
        |j: int|
            if start <= j < start + 2 * n {
                byte_or_zero(bytes, swap_source(j, start, n))
            } else {
                bytes[j]
            },
    )
}

fn byte_at_or_zero(bytes: &Vec<u8>, index: usize) -> (r: u8)
    ensures
        r == byte_or_zero(bytes@, index as int),
{
    if index < bytes.len() {
        bytes[index]
    } else {
        0
    }
}

/// Swap 16-bit words within a signal's byte span (low-word-first →
/// high-word-first) before big-endian extraction — the Sungrow "CDAB" case.
pub fn apply_word_swap(bytes: &mut Vec<u8>, start_bit: u32, bit_length: u32)
    ensures
        final(bytes)@ == word_swapped(old(bytes)@, start_bit as int, bit_length as int),
{
    let ghost before = bytes@;
    let start_byte: usize = (start_bit / 8) as usize;
    let num_bytes: usize = (bit_length / 8 + if bit_length % 8 == 0 {
        0u32
    } else {
        1u32
    }) as usize;
    let num_words: usize = num_bytes / 2 + num_bytes % 2;
    assert(num_words == word_count(bit_length as int));
    let mut words: Vec<(u8, u8)> = Vec::new();
    for i in 0..num_words
        invariant
            start_byte <= 0x2000_0000,
            num_words <= 0x1000_0001,
            before == bytes@,
            words@.len() == i,
            forall|k: int|
                0 <= k < i ==> #[trigger] words@[k] == (
                    byte_or_zero(before, start_byte + 2 * k),
                    byte_or_zero(before, start_byte + 2 * k + 1),
                ),
    {
        let index: usize = start_byte + i * 2;
        words.push((byte_at_or_zero(bytes, index), byte_at_or_zero(bytes, index + 1)));
    }
    for i in 0..num_words
        invariant
            start_byte <= 0x2000_0000,
            num_words <= 0x1000_0001,
            words@.len() == num_words,
            forall|k: int|
                0 <= k < num_words ==> #[trigger] words@[k] == (
                    byte_or_zero(before, start_byte + 2 * k),
                    byte_or_zero(before, start_byte + 2 * k + 1),
                ),
            bytes@.len() == before.len(),
            forall|j: int|
                0 <= j < before.len() ==> #[trigger] bytes@[j] == if start_byte <= j < start_byte
                    + 2 * i {
                    byte_or_zero(before, swap_source(j, start_byte as int, num_words as int))
                } else {
                    before[j]
                },
    {
        let index: usize = start_byte + i * 2;
        let word: (u8, u8) = words[num_words - 1 - i];
        if index < bytes.len() {
            bytes.set(index, word.0);
        }
        if index + 1 < bytes.len() {
            bytes.set(index + 1, word.1);
        }
        proof {
            assert(swap_source(index as int, start_byte as int, num_words as int) == start_byte + 2
                * (num_words - 1 - i));
            assert(swap_source(index + 1, start_byte as int, num_words as int) == start_byte + 2 * (
            num_words - 1 - i) + 1);
        }
    }
    assert(bytes@ == word_swapped(before, start_bit as int, bit_length as int));
}

/// Swapping the words of a field that lies within the payload, and swapping them
/// again, gives the payload back.
pub proof fn law_word_swap_undoes_itself(bytes: Seq<u8>, start_bit: int, bit_length: int)
    requires
        0 <= start_bit,
        0 <= bit_length,
        start_bit / 8 + 2 * word_count(bit_length) <= bytes.len(),
    ensures
        word_swapped(word_swapped(bytes, start_bit, bit_length), start_bit, bit_length) == bytes,
{
    let start = start_bit / 8;
    let n = word_count(bit_length);
    let once = word_swapped(bytes, start_bit, bit_length);
    let twice = word_swapped(once, start_bit, bit_length);
    assert forall|j: int| 0 <= j < bytes.len() implies twice[j] == bytes[j] by {
        if start <= j < start + 2 * n {
            let k = swap_source(j, start, n);
            assert(start <= k < start + 2 * n);
            assert((k - start) / 2 == n - 1 - (j - start) / 2);
            assert((k - start) % 2 == (j - start) % 2);
            assert(swap_source(k, start, n) == j);
        }
    }
    assert(twice == bytes);
}

// ---------------------------------------------------------------------------
// Exact scaling
// ---------------------------------------------------------------------------

/// The most decimal places a value has.
pub const MAX_SCALE: u32 = 28;

/// A decimal number: `mantissa` over ten to the power `scale`. The mantissa
/// takes at most 96 bits.
#[derive(Debug, Clone, Copy, PartialEq, Eq, Structural)]
pub struct DecimalValue {
    pub mantissa: i128,
    pub scale: u32,
}

/// Whether an integer fits a 96-bit mantissa.
pub open spec fn fits_96(m: int) -> bool {
    -0x1_0000_0000_0000_0000_0000_0000 < m < 0x1_0000_0000_0000_0000_0000_0000
}

/// Ten to the power `e`.
pub open spec fn pow10(e: int) -> int
    decreases e,
{
    if e <= 0 {
        1
    } else {
        10 * pow10(e - 1)
    }
}

impl DecimalValue {
    /// Whether the mantissa and the scale are in range.
    pub open spec fn wf(self) -> bool {
        fits_96(self.mantissa as int) && self.scale <= MAX_SCALE
    }

    /// One.
    pub fn one() -> (r: Self)
        ensures
            r == (DecimalValue { mantissa: 1, scale: 0 }),
            r.wf(),
    {
        DecimalValue { mantissa: 1, scale: 0 }
    }

    /// Zero.
    pub fn zero() -> (r: Self)
        ensures
            r == (DecimalValue { mantissa: 0, scale: 0 }),
            r.wf(),
    {
        DecimalValue { mantissa: 0, scale: 0 }
    }
}

/// What the outside decimal multiplication gives for two mantissas and scales,
/// `None` where it overflows.
pub uninterp spec fn decimal_product(m1: int, s1: int, m2: int, s2: int) -> Option<(int, int)>;

/// What the outside decimal addition gives for two mantissas and scales, `None`
/// where it overflows.
pub uninterp spec fn decimal_sum(m1: int, s1: int, m2: int, s2: int) -> Option<(int, int)>;

/// A decimal as a mantissa and a scale.
pub open spec fn parts(d: Option<DecimalValue>) -> Option<(int, int)> {
    match d {
        Some(d) => Some((d.mantissa as int, d.scale as int)),
        None => None,
    }
}

/// Whether a product has its exact mantissa and scale: nothing where a factor is
/// zero, and otherwise the mantissas multiplied and the scales added, where both
/// are in range.
pub open spec fn exact_product(a: DecimalValue, b: DecimalValue, r: Option<DecimalValue>) -> bool {
    &&& a.mantissa == 0 || b.mantissa == 0 ==> r == Some(DecimalValue { mantissa: 0, scale: 0 })
    &&& a.mantissa != 0 && b.mantissa != 0 && fits_96(a.mantissa * b.mantissa) && a.scale + b.scale
        <= MAX_SCALE ==> r == Some(
        DecimalValue {
            mantissa: (a.mantissa * b.mantissa) as i128,
            scale: (a.scale + b.scale) as u32,
        },
    )
}

/// The larger of two scales.
pub open spec fn common_scale(a: DecimalValue, b: DecimalValue) -> int {
    if a.scale >= b.scale {
        a.scale as int
    } else {
        b.scale as int
    }
}

/// The mantissa of a decimal at the given scale.
pub open spec fn mantissa_at(d: DecimalValue, scale: int) -> int {
    d.mantissa * pow10(scale - d.scale)
}

/// Whether a sum has its exact mantissa and scale: the other operand where one
/// is zero, and otherwise the mantissas added at the larger scale, where all
/// three fit.
pub open spec fn exact_sum(a: DecimalValue, b: DecimalValue, r: Option<DecimalValue>) -> bool {
    let scale = common_scale(a, b);
    &&& a.mantissa == 0 ==> r == Some(b)
    &&& a.mantissa != 0 && b.mantissa == 0 ==> r == Some(a)
    &&& a.mantissa != 0 && b.mantissa != 0 && fits_96(mantissa_at(a, scale)) && fits_96(
        mantissa_at(b, scale),
    ) && fits_96(mantissa_at(a, scale) + mantissa_at(b, scale)) ==> r == Some(
        DecimalValue {
            mantissa: (mantissa_at(a, scale) + mantissa_at(b, scale)) as i128,
            scale: scale as u32,
        },
    )
}

/// `rust_decimal`'s `Decimal::checked_mul`. Its result is a function of the two
/// mantissas and scales, in range where there is one; it is `None` on overflow.
/// A zero factor gives zero, and a product that fits is exact.
#[verifier::external_body]
fn multiply(a: DecimalValue, b: DecimalValue) -> (r: Option<DecimalValue>)
    requires
        a.wf(),
        b.wf(),
    ensures
        parts(r) == decimal_product(
            a.mantissa as int,
            a.scale as int,
            b.mantissa as int,
            b.scale as int,
        ),
        r matches Some(d) ==> d.wf(),
        exact_product(a, b, r),
{
    Decimal::from_i128_with_scale(a.mantissa, a.scale).checked_mul(
        Decimal::from_i128_with_scale(b.mantissa, b.scale),
    ).map(|d| DecimalValue { mantissa: d.mantissa(), scale: d.scale() })
}

/// `rust_decimal`'s `Decimal::checked_add`. Its result is a function of the two
/// mantissas and scales, in range where there is one; it is `None` on overflow.
/// Adding zero changes nothing, and a sum that fits is exact.
#[verifier::external_body]
fn add_up(a: DecimalValue, b: DecimalValue) -> (r: Option<DecimalValue>)
    requires
        a.wf(),
        b.wf(),
    ensures
        parts(r) == decimal_sum(
            a.mantissa as int,
            a.scale as int,
            b.mantissa as int,
            b.scale as int,
        ),
        r matches Some(d) ==> d.wf(),
        exact_sum(a, b, r),
{
    Decimal::from_i128_with_scale(a.mantissa, a.scale).checked_add(
        Decimal::from_i128_with_scale(b.mantissa, b.scale),
    ).map(|d| DecimalValue { mantissa: d.mantissa(), scale: d.scale() })
}

/// A factor, or one.
pub open spec fn factor_or_one(factor: Option<DecimalValue>) -> DecimalValue {
    match factor {
        Some(f) => f,
        None => DecimalValue { mantissa: 1, scale: 0 },
    }
}

/// An offset, or zero.
pub open spec fn offset_or_zero(offset: Option<DecimalValue>) -> DecimalValue {
    match offset {
        Some(o) => o,
        None => DecimalValue { mantissa: 0, scale: 0 },
    }
}

/// `raw × factor + offset` as the decimal operations give it.
pub open spec fn scaled(
    raw: DecimalValue,
    factor: Option<DecimalValue>,
    offset: Option<DecimalValue>,
) -> Option<(int, int)> {
    let f = factor_or_one(factor);
    let o = offset_or_zero(offset);
    match decimal_product(raw.mantissa as int, raw.scale as int, f.mantissa as int, f.scale as int) {
        Some(p) => decimal_sum(p.0, p.1, o.mantissa as int, o.scale as int),
        None => None,
    }
}

/// Whether every step of `raw × factor + offset` fits, so that nothing is
/// rounded.
pub open spec fn scales_exactly(raw: DecimalValue, factor: DecimalValue, offset: DecimalValue) -> bool {
    let scale = if raw.scale + factor.scale >= offset.scale {
        raw.scale + factor.scale
    } else {
        offset.scale as int
    };
    let product = raw.mantissa * factor.mantissa;
    &&& raw.scale + factor.scale <= MAX_SCALE
    &&& fits_96(product)
    &&& fits_96(product * pow10(scale - (raw.scale + factor.scale)))
    &&& fits_96(mantissa_at(offset, scale))
    &&& fits_96(
        product * pow10(scale - (raw.scale + factor.scale)) + mantissa_at(offset, scale),
    )
}

/// Whether a decimal is exactly `raw × factor + offset`: the two agree at every
/// common scale.
pub open spec fn is_exactly(
    d: DecimalValue,
    raw: DecimalValue,
    factor: DecimalValue,
    offset: DecimalValue,
) -> bool {
    d.mantissa * pow10(raw.scale as int) * pow10(factor.scale as int) * pow10(offset.scale as int)
        == (raw.mantissa * factor.mantissa * pow10(offset.scale as int) + offset.mantissa * pow10(
        raw.scale as int,
    ) * pow10(factor.scale as int)) * pow10(d.scale as int)
}

/// Scale `raw` by `factor`/`offset` (defaulting to ×1 +0) in decimal, so
/// `raw × factor + offset` doesn't pick up binary-float artifacts. `None` where
/// the result does not fit a decimal.
pub fn scale(raw: DecimalValue, factor: Option<DecimalValue>, offset: Option<DecimalValue>) -> (r: Option<
    DecimalValue,
>)
    requires
        raw.wf(),
        factor matches Some(f) ==> f.wf(),
        offset matches Some(o) ==> o.wf(),
    ensures
        parts(r) == scaled(raw, factor, offset),
        r matches Some(d) ==> d.wf(),
        scales_exactly(raw, factor_or_one(factor), offset_or_zero(offset)) ==> r is Some
            && is_exactly(
            r->Some_0,
            raw,
            factor_or_one(factor),
            offset_or_zero(offset),
        ),
{
    let f: DecimalValue = match factor {
        Some(f) => f,
        None => DecimalValue::one(),
    };
    let o: DecimalValue = match offset {
        Some(o) => o,
        None => DecimalValue::zero(),
    };
    match multiply(raw, f) {
        Some(product) => {
            let r = add_up(product, o);
            proof {
                if scales_exactly(raw, f, o) {
                    lemma_scaling_is_exact(raw, f, o, product, r);
                }
            }
            r
        },
        None => {
            proof {
                if scales_exactly(raw, f, o) {
                    assert(raw.mantissa == 0 || f.mantissa == 0 || fits_96(
                        raw.mantissa * f.mantissa,
                    ));
                }
            }
            None
        },
    }
}

proof fn lemma_pow10_adds(a: int, b: int)
    requires
        a >= 0,
        b >= 0,
    ensures
        pow10(a + b) == pow10(a) * pow10(b),
        pow10(a) >= 1,
    decreases a,
{
    if a > 0 {
        lemma_pow10_adds(a - 1, b);
        assert(10 * (pow10(a - 1) * pow10(b)) == (10 * pow10(a - 1)) * pow10(b))
            by (nonlinear_arith);
    }
}

proof fn lemma_scaling_is_exact(
    raw: DecimalValue,
    f: DecimalValue,
    o: DecimalValue,
    product: DecimalValue,
    r: Option<DecimalValue>,
)
    requires
        raw.wf(),
        f.wf(),
        o.wf(),
        product.wf(),
        scales_exactly(raw, f, o),
        exact_product(raw, f, Some(product)),
        exact_sum(product, o, r),
    ensures
        r is Some,
        is_exactly(r->Some_0, raw, f, o),
{
    let a = pow10(raw.scale as int);
    let b = pow10(f.scale as int);
    let c = pow10(o.scale as int);
    lemma_pow10_adds(raw.scale as int, f.scale as int);
    lemma_pow10_adds(o.scale as int, 0);
    let m = raw.mantissa * f.mantissa;
    if raw.mantissa == 0 || f.mantissa == 0 {
        assert(m == 0) by (nonlinear_arith)
            requires
                m == raw.mantissa * f.mantissa,
                raw.mantissa == 0 || f.mantissa == 0,
        ;
        assert(r == Some(o));
        assert(o.mantissa * a * b * c == (0 * c + o.mantissa * a * b) * c) by (nonlinear_arith);
    } else {
        assert(product.mantissa == m);
        assert(product.scale == raw.scale + f.scale);
        assert(m != 0) by (nonlinear_arith)
            requires
                m == raw.mantissa * f.mantissa,
                raw.mantissa != 0,
                f.mantissa != 0,
        ;
        if o.mantissa == 0 {
            assert(r == Some(product));
            assert(m * a * b * c == (m * c + 0 * a * b) * (a * b)) by (nonlinear_arith);
        } else {
            let scale = common_scale(product, o);
            let d = r->Some_0;
            let p = pow10(scale - product.scale);
            let q = pow10(scale - o.scale);
            assert(d.mantissa == m * p + o.mantissa * q);
            lemma_pow10_adds(scale - product.scale, product.scale as int);
            lemma_pow10_adds(scale - o.scale, o.scale as int);
            let s = pow10(scale);
            assert(s == p * (a * b));
            assert(s == q * c);
            let n = o.mantissa as int;
            assert((m * p) * a * b * c == (m * c) * (p * (a * b))) by (nonlinear_arith);
            assert((n * q) * a * b * c == (n * a * b) * (q * c)) by (nonlinear_arith);
            assert((m * p + n * q) * a * b * c == (m * p) * a * b * c + (n * q) * a * b * c)
                by (nonlinear_arith);
            assert((m * c + n * a * b) * s == (m * c) * s + (n * a * b) * s) by (nonlinear_arith);
        }
    }
}

// ---------------------------------------------------------------------------
// Value formatting
// ---------------------------------------------------------------------------

/// A mantissa and a scale without trailing zeros after the point.
pub open spec fn stripped(m: int, s: int) -> (int, int)
    decreases s,
{
    if m == 0 {
        (0, 0)
    } else if s <= 0 || m % 10 != 0 {
        (m, s)
    } else {
        stripped(m / 10, s - 1)
    }
}

/// The digits of a mantissa, padded so that at least one stands before the
/// point.
pub open spec fn padded_digits(m: int, s: int) -> Seq<char> {
    crate::text::zero_padded(
        crate::text::decimal(
            if m < 0 {
                (-m) as nat
            } else {
                m as nat
            },
        ),
        s + 1,
    )
}

/// A decimal number as text: a sign where it is negative, the digits, and a
/// point before the last `s` of them where there are any.
pub open spec fn decimal_text(m: int, s: int) -> Seq<char> {
    let digits = padded_digits(m, s);
    let body = if s > 0 {
        digits.take(digits.len() - s).push('.') + digits.skip(digits.len() - s)
    } else {
        digits
    };
    if m < 0 {
        seq!['-'] + body
    } else {
        body
    }
}

/// `rust_decimal`'s `Decimal::normalize`: strips the trailing zeros of the
/// fraction, and gives zero no decimal places.
#[verifier::external_body]
fn normalised(d: DecimalValue) -> (r: DecimalValue)
    requires
        d.wf(),
    ensures
        (r.mantissa as int, r.scale as int) == stripped(d.mantissa as int, d.scale as int),
        r.wf(),
{
    let n = Decimal::from_i128_with_scale(d.mantissa, d.scale).normalize();
    DecimalValue { mantissa: n.mantissa(), scale: n.scale() }
}

/// The `Display` text of `rust_decimal`'s `Decimal`: plain decimal notation with
/// exactly as many places as the scale says.
#[verifier::external_body]
fn decimal_string(d: DecimalValue) -> (r: String)
    requires
        d.wf(),
    ensures
        r@ == decimal_text(d.mantissa as int, d.scale as int),
{
    Decimal::from_i128_with_scale(d.mantissa, d.scale).to_string()
}

/// Format a scaled decimal as a clean display string (`555 × 0.1` → `"55.5"`,
/// `3374 × 0.1` → `"337.4"`), trimming trailing zeros. Exact — no float
/// round-trip.
pub fn format_decimal(value: DecimalValue) -> (r: String)
    requires
        value.wf(),
    ensures
        ({
            let s = stripped(value.mantissa as int, value.scale as int);
            r@ == decimal_text(s.0, s.1)
        }),
{
    decimal_string(normalised(value))
}

/// How many bytes a hexadecimal rendering of a field has.
pub open spec fn hex_byte_count(bit_length: int) -> int {
    if bit_length == 0 {
        1
    } else {
        (bit_length + 7) / 8
    }
}

/// The bits of a value that a field of the given length keeps, as two's
/// complement.
pub open spec fn masked(value: int, bit_length: int) -> int {
    value % vstd::arithmetic::power2::pow2(
        if bit_length < 128 {
            bit_length as nat
        } else {
            128
        },
    ) as int
}

/// The low `n` bytes of a number, the least significant first.
pub open spec fn low_bytes(v: int, n: int) -> Seq<u8>
    decreases n,
{
    if n <= 0 {
        Seq::empty()
    } else {
        seq![(v % 256) as u8] + low_bytes(v / 256, n - 1)
    }
}

/// Bytes as pairs of uppercase hexadecimal digits, separated by spaces.
pub open spec fn hex_listing(bytes: Seq<u8>) -> Seq<char>
    decreases bytes.len(),
{
    if bytes.len() == 0 {
        Seq::empty()
    } else if bytes.len() == 1 {
        crate::text::hex_pair(bytes[0])
    } else {
        hex_listing(bytes.drop_last()).push(' ') + crate::text::hex_pair(bytes.last())
    }
}

/// A value as byte-separated hex.
pub open spec fn hex_text(value: int, bit_length: int, endian: Endianness) -> Seq<char> {
    let bytes = low_bytes(masked(value, bit_length), hex_byte_count(bit_length));
    match endian {
        Endianness::Big => hex_listing(bytes.reverse()),
        Endianness::Little => hex_listing(bytes),
    }
}

proof fn lemma_pow2_128()
    ensures
        vstd::arithmetic::power2::pow2(128)
            == 0x1_0000_0000_0000_0000_0000_0000_0000_0000int,
{
    vstd::arithmetic::power2::lemma2_to64();
    vstd::arithmetic::power2::lemma2_to64_rest();
    vstd::arithmetic::power2::lemma_pow2_adds(64, 64);
}

/// The bits of `value` that `bit_length` keeps.
pub(crate) fn mask_value(value: i128, bit_length: u32) -> (r: u128)
    ensures
        r == masked(value as int, bit_length as int),
{
    proof {
        lemma_pow2_128();
    }
    let ghost m: int = 0x1_0000_0000_0000_0000_0000_0000_0000_0000int;
    // The value as a 128-bit pattern.
    let pattern: u128 = if value >= 0 {
        value as u128
    } else {
        u128::MAX - (-(value + 1)) as u128
    };
    assert(pattern == if value >= 0 {
        value as int
    } else {
        value + m
    });
    if bit_length >= 128 {
        proof {
            if value >= 0 {
                vstd::arithmetic::div_mod::lemma_small_mod(value as nat, m as nat);
            } else {
                vstd::arithmetic::div_mod::lemma_fundamental_div_mod_converse(
                    value as int,
                    m,
                    -1,
                    value + m,
                );
            }
        }
        pattern
    } else {
        let power: u128 = power_of_two(bit_length);
        proof {
            let p = power as int;
            vstd::arithmetic::power2::lemma_pow2_pos(bit_length as nat);
            if value < 0 {
                let k = vstd::arithmetic::power2::pow2((128 - bit_length) as nat);
                vstd::arithmetic::power2::lemma_pow2_adds(
                    bit_length as nat,
                    (128 - bit_length) as nat,
                );
                assert(m == p * k);
                assert((value + p * k) % p == value as int % p) by {
                    vstd::arithmetic::div_mod::lemma_mod_multiples_vanish(
                        k as int,
                        value as int,
                        p,
                    );
                }
            }
        }
        pattern % power
    }
}

fn push_hex(out: &mut String, byte: u8)
    ensures
        final(out)@ == old(out)@ + crate::text::hex_pair(byte),
{
    let ghost before = out@;
    out.push(digit_char(byte / 16));
    out.push(digit_char(byte % 16));
    assert(out@ == before + crate::text::hex_pair(byte));
}

fn list_hex(bytes: &Vec<u8>) -> (r: String)
    ensures
        r@ == hex_listing(bytes@),
{
    let mut out = String::new();
    for i in 0..bytes.len()
        invariant
            out@ == hex_listing(bytes@.take(i as int)),
    {
        let ghost next = bytes@.take(i + 1);
        assert(next.drop_last() == bytes@.take(i as int));
        let ghost before = out@;
        if i > 0 {
            out.push(' ');
        }
        push_hex(&mut out, bytes[i]);
        assert(i == 0 ==> out@ == crate::text::hex_pair(next[0]));
    }
    assert(bytes@.take(bytes@.len() as int) == bytes@);
    out
}

/// Format a raw value as byte-separated hex (`"1A 2B 3C"`), MSB-first for big
/// endian.
pub fn format_hex(value: i128, bit_length: u32, endian: Endianness) -> (r: String)
    ensures
        r@ == hex_text(value as int, bit_length as int, endian),
{
    let count: usize = if bit_length == 0 {
        1
    } else {
        (bit_length / 8 + if bit_length % 8 == 0 {
            0u32
        } else {
            1u32
        }) as usize
    };
    assert(count == hex_byte_count(bit_length as int));
    let start: u128 = mask_value(value, bit_length);
    let ghost all = low_bytes(start as int, count as int);
    let mut v: u128 = start;
    let mut bytes: Vec<u8> = Vec::new();
    assert(bytes@ + low_bytes(v as int, count as int) == all);
    for i in 0..count
        invariant
            bytes@ + low_bytes(v as int, count - i) == all,
    {
        let ghost before = bytes@;
        let ghost rest = low_bytes(v as int, count - i);
        bytes.push((v % 256) as u8);
        v = v / 256;
        assert(bytes@ + low_bytes(v as int, count - i - 1) == before + rest);
    }
    assert(bytes@ + low_bytes(v as int, 0) == bytes@);
    match endian {
        Endianness::Big => {
            let mut reversed: Vec<u8> = Vec::new();
            let n: usize = bytes.len();
            for i in 0..n
                invariant
                    n == bytes@.len(),
                    reversed@ == bytes@.reverse().take(i as int),
            {
                reversed.push(bytes[n - 1 - i]);
                assert(bytes@.reverse().take(i + 1) == bytes@.reverse().take(i as int).push(
                    bytes@[n - 1 - i],
                ));
            }
            assert(bytes@.reverse().take(n as int) == bytes@.reverse());
            list_hex(&reversed)
        },
        Endianness::Little => list_hex(&bytes),
    }
}

/// The text of the bytes from `start`, `n` of them, without NULs.
pub open spec fn byte_text(bytes: Seq<u8>, start: int, n: int) -> Seq<char>
    decreases n,
{
    if n <= 0 {
        Seq::empty()
    } else {
        let before = byte_text(bytes, start, n - 1);
        let b = byte_or_zero(bytes, start + n - 1);
        if b != 0 {
            before.push(b as char)
        } else {
            before
        }
    }
}

/// Extract the bytes a text signal spans and decode to a string, dropping NULs.
pub fn decode_text(bytes: &[u8], start_bit: u32, bit_length: u32) -> (r: String)
    ensures
        r@ == byte_text(bytes@, start_bit as int / 8, (bit_length + 7) / 8),
{
    let start: usize = (start_bit / 8) as usize;
    let count: usize = (bit_length / 8 + if bit_length % 8 == 0 {
        0u32
    } else {
        1u32
    }) as usize;
    let mut out = String::new();
    for i in 0..count
        invariant
            start <= 0x2000_0000,
            count <= 0x2000_0001,
            out@ == byte_text(bytes@, start as int, i as int),
    {
        let index: usize = start + i;
        let b: u8 = if index < bytes.len() {
            bytes[index]
        } else {
            0
        };
        if b != 0 {
            out.push(b as char);
        }
    }
    out
}

// ---------------------------------------------------------------------------
// Unix time
// ---------------------------------------------------------------------------

/// Whether a year of the proleptic Gregorian calendar is a leap year.
pub open spec fn is_leap(year: int) -> bool {
    year % 4 == 0 && (year % 100 != 0 || year % 400 == 0)
}

/// Days from the first of January of the year 0 to that of `year`: 365 for each
/// year between, and one for each leap year among them.
pub open spec fn days_before_year(year: int) -> int {
    365 * year + (year + 3) / 4 - (year + 99) / 100 + (year + 399) / 400
}

/// The length of a month.
pub open spec fn days_in_month(year: int, month: int) -> int {
    if month == 2 {
        if is_leap(year) {
            29
        } else {
            28
        }
    } else if month == 4 || month == 6 || month == 9 || month == 11 {
        30
    } else {
        31
    }
}

/// Days from the start of a year to the start of a month of it.
pub open spec fn days_before_month(year: int, month: int) -> int
    decreases month,
{
    if month <= 1 {
        0
    } else {
        days_before_month(year, month - 1) + days_in_month(year, month - 1)
    }
}

/// Days from the first of January 1970 to a date.
pub open spec fn day_number(year: int, month: int, day: int) -> int {
    days_before_year(year) + days_before_month(year, month) + day - 1 - 719528
}

/// A civil date and time of day.
#[derive(Debug, Clone, Copy, PartialEq, Eq, Structural)]
pub struct CivilTime {
    pub year: i64,
    pub month: u32,
    pub day: u32,
    pub hour: u32,
    pub minute: u32,
    pub second: u32,
}

impl CivilTime {
    /// Whether this is a date and time that exists.
    pub open spec fn is_real(self) -> bool {
        &&& 1 <= self.month <= 12
        &&& 1 <= self.day <= days_in_month(self.year as int, self.month as int)
        &&& self.hour < 24
        &&& self.minute < 60
        &&& self.second < 60
    }

    /// Seconds from the start of 1970 to this moment.
    pub open spec fn unix(self) -> int {
        day_number(self.year as int, self.month as int, self.day as int) * 86400 + self.hour * 3600
            + self.minute * 60 + self.second
    }
}

/// The start of a year counted from March.
proof fn lemma_march(year: int, century: int, quad: int, single: int, era: int)
    requires
        year == 400 * era + 100 * century + 4 * quad + single,
        0 <= century < 4,
        0 <= quad < 25,
        0 <= single < 4,
    ensures
        days_before_year(year) + 59 + if is_leap(year) {
            1int
        } else {
            0
        } == 146097 * era + 36524 * century + 1461 * quad + 365 * single + 60,
        days_before_year(year + 1) == 146097 * era + 36524 * century + 1461 * quad + 365 * single
            + 366,
        is_leap(year + 1) <==> single == 3 && (quad != 24 || century == 3),
{
    let fours = 100 * era + 25 * century + quad;
    let hundreds = 4 * era + century;
    let within = 4 * quad + single;
    let inside = 100 * century + within;
    lemma_quotient(year, 4, fours, single);
    lemma_quotient(year, 100, hundreds, within);
    lemma_quotient(year, 400, era, inside);
    lemma_rounded_up(year, 4, fours, single);
    lemma_rounded_up(year, 100, hundreds, within);
    lemma_rounded_up(year, 400, era, inside);
    lemma_next(year, 4, fours, single);
    lemma_next(year, 100, hundreds, within);
    lemma_next(year, 400, era, inside);
    assert(year + 1 + 3 == year + 4 && year + 1 + 99 == year + 100 && year + 1 + 399 == year + 400);
}

proof fn lemma_quotient(n: int, d: int, q: int, r: int)
    requires
        n == q * d + r,
        0 <= r < d,
    ensures
        n / d == q,
        n % d == r,
{
    vstd::arithmetic::div_mod::lemma_fundamental_div_mod_converse(n, d, q, r);
}

proof fn lemma_rounded_up(n: int, d: int, q: int, r: int)
    requires
        n == q * d + r,
        0 <= r < d,
    ensures
        (n + d - 1) / d == q + if r > 0 {
            1int
        } else {
            0
        },
{
    if r > 0 {
        assert((q + 1) * d == q * d + d) by (nonlinear_arith);
        lemma_quotient(n + d - 1, d, q + 1, r - 1);
    } else {
        lemma_quotient(n + d - 1, d, q, d - 1);
    }
}

proof fn lemma_next(n: int, d: int, q: int, r: int)
    requires
        n == q * d + r,
        0 <= r < d,
        d > 1,
    ensures
        (n + d) / d == q + 1,
        (n + 1) % d == if r == d - 1 {
            0
        } else {
            r + 1
        },
{
    assert((q + 1) * d == q * d + d) by (nonlinear_arith);
    lemma_quotient(n + d, d, q + 1, r);
    if r == d - 1 {
        lemma_quotient(n + 1, d, q + 1, 0);
    } else {
        lemma_quotient(n + 1, d, q, r + 1);
    }
}

proof fn lemma_months(year: int)
    ensures
        days_before_month(year, 1) == 0,
        days_before_month(year, 2) == 31,
        ({
            let l: int = if is_leap(year) {
                1
            } else {
                0
            };
            &&& days_before_month(year, 3) == 59 + l
            &&& days_before_month(year, 4) == 90 + l
            &&& days_before_month(year, 5) == 120 + l
            &&& days_before_month(year, 6) == 151 + l
            &&& days_before_month(year, 7) == 181 + l
            &&& days_before_month(year, 8) == 212 + l
            &&& days_before_month(year, 9) == 243 + l
            &&& days_before_month(year, 10) == 273 + l
            &&& days_before_month(year, 11) == 304 + l
            &&& days_before_month(year, 12) == 334 + l
        }),
{
    reveal_with_fuel(days_before_month, 13);
}

/// The month a day of a year that starts in March falls in, and the day of it.
fn month_of(day_of_year: i64) -> (r: (u32, u32))
    requires
        0 <= day_of_year <= 365,
    ensures
        1 <= r.0 <= 12,
        1 <= r.1,
        r.0 >= 3 ==> forall|year: int| #[trigger]
            days_before_month(year, r.0 as int) + r.1 - 1 == days_before_month(year, 3)
                + day_of_year && r.1 <= days_in_month(year, r.0 as int),
        r.0 == 1 ==> r.1 - 1 == day_of_year - 306 && r.1 <= 31,
        r.0 == 2 ==> r.1 - 1 == day_of_year - 337 && r.1 <= 29 && (r.1 == 29 <==> day_of_year
            == 365),
{
    proof {
        assert forall|year: int, m: int| 3 <= m <= 12 implies #[trigger] days_before_month(
            year,
            m,
        ) - days_before_month(year, 3) == if m == 3 {
            0int
        } else if m == 4 {
            31
        } else if m == 5 {
            61
        } else if m == 6 {
            92
        } else if m == 7 {
            122
        } else if m == 8 {
            153
        } else if m == 9 {
            184
        } else if m == 10 {
            214
        } else if m == 11 {
            245
        } else {
            275
        } by {
            lemma_months(year);
        }
    }
    if day_of_year < 31 {
        (3, (day_of_year + 1) as u32)
    } else if day_of_year < 61 {
        (4, (day_of_year - 30) as u32)
    } else if day_of_year < 92 {
        (5, (day_of_year - 60) as u32)
    } else if day_of_year < 122 {
        (6, (day_of_year - 91) as u32)
    } else if day_of_year < 153 {
        (7, (day_of_year - 121) as u32)
    } else if day_of_year < 184 {
        (8, (day_of_year - 152) as u32)
    } else if day_of_year < 214 {
        (9, (day_of_year - 183) as u32)
    } else if day_of_year < 245 {
        (10, (day_of_year - 213) as u32)
    } else if day_of_year < 275 {
        (11, (day_of_year - 244) as u32)
    } else if day_of_year < 306 {
        (12, (day_of_year - 274) as u32)
    } else if day_of_year < 337 {
        (1, (day_of_year - 305) as u32)
    } else {
        (2, (day_of_year - 336) as u32)
    }
}

/// The quotient rounded down and the remainder it leaves.
fn floor_divided(a: i64, b: i64) -> (r: (i64, i64))
    requires
        b > 0,
    ensures
        r.0 == a as int / b as int,
        r.1 == a as int % b as int,
        0 <= r.1 < b,
{
    if a >= 0 {
        (a / b, a % b)
    } else {
        let k: i64 = -(a + 1);
        let above: i64 = k / b;
        let left: i64 = k % b;
        proof {
            vstd::arithmetic::div_mod::lemma_fundamental_div_mod(k as int, b as int);
            assert(b * above == above * b) by (nonlinear_arith);
            assert((-above - 1) * b == -(above * b) - b) by (nonlinear_arith);
            vstd::arithmetic::div_mod::lemma_fundamental_div_mod_converse(
                a as int,
                b as int,
                -above - 1,
                b - 1 - left,
            );
        }
        (-above - 1, b - 1 - left)
    }
}

/// A day of a 400-year era that starts in March, as a century, a four-year
/// cycle of it, a year of that, and a day of the year.
fn split_era(day_of_era: i64) -> (r: (i64, i64, i64, i64))
    requires
        0 <= day_of_era < 146_097,
    ensures
        0 <= r.0 < 4,
        0 <= r.1 < 25,
        0 <= r.2 < 4,
        0 <= r.3 <= 365,
        r.0 * 36_524 + r.1 * 1_461 + r.2 * 365 + r.3 == day_of_era,
        r.3 == 365 ==> r.2 == 3 && (r.1 != 24 || r.0 == 3),
{
    let century: i64 = if day_of_era / 36_524 < 3 {
        day_of_era / 36_524
    } else {
        3
    };
    let in_century: i64 = day_of_era - century * 36_524;
    let quad: i64 = in_century / 1_461;
    let in_quad: i64 = in_century - quad * 1_461;
    let single: i64 = if in_quad / 365 < 3 {
        in_quad / 365
    } else {
        3
    };
    (century, quad, single, in_quad - single * 365)
}

/// The date that lies the given number of days after the first of January 1970.
fn civil_from_days(days: i64) -> (r: (i64, u32, u32))
    requires
        -0x10_0000_0000_0000 <= days <= 0x10_0000_0000_0000,
    ensures
        1 <= r.1 <= 12,
        1 <= r.2 <= days_in_month(r.0 as int, r.1 as int),
        day_number(r.0 as int, r.1 as int, r.2 as int) == days,
{
    // Days since the first of March of the year 0, so that a leap day ends its
    // year.
    let z: i64 = days + 719_468;
    let (era, day_of_era): (i64, i64) = floor_divided(z, 146_097);
    let (century, quad, single, day_of_year): (i64, i64, i64, i64) = split_era(day_of_era);
    let year: i64 = era * 400 + century * 100 + quad * 4 + single;
    let (month, day): (u32, u32) = month_of(day_of_year);
    proof {
        assert(z == 146_097 * era + day_of_era);
        lemma_march(year as int, century as int, quad as int, single as int, era as int);
        lemma_months(year as int);
        lemma_months(year + 1);
        if month >= 3 {
            assert(days_before_month(year as int, month as int) + day - 1 == days_before_month(
                year as int,
                3,
            ) + day_of_year);
        }
    }
    (
        if month <= 2 {
            year + 1
        } else {
            year
        },
        month,
        day,
    )
}

/// Convert a unix timestamp (seconds, UTC) to a civil date-time of the proleptic
/// Gregorian calendar.
pub fn civil_from_unix(secs: i64) -> (r: CivilTime)
    ensures
        r.is_real(),
        r.unix() == secs,
{
    let (days, rem): (i64, i64) = floor_divided(secs, 86_400);
    assert(secs == 86_400 * days + rem);
    let (year, month, day): (i64, u32, u32) = civil_from_days(days);
    CivilTime {
        year,
        month,
        day,
        hour: (rem / 3600) as u32,
        minute: ((rem % 3600) / 60) as u32,
        second: (rem % 60) as u32,
    }
}

/// A year as at least four characters, padded with zeros behind the sign.
pub open spec fn year_text(year: int) -> Seq<char> {
    if year < 0 {
        seq!['-'] + crate::text::zero_padded(crate::text::decimal((-year) as nat), 3)
    } else {
        crate::text::zero_padded(crate::text::decimal(year as nat), 4)
    }
}

/// A number as at least two digits.
pub open spec fn two_digits(n: int) -> Seq<char> {
    crate::text::zero_padded(crate::text::decimal(n as nat), 2)
}

impl CivilTime {
    /// `YYYY-MM-DD HH:MM:SS`.
    pub open spec fn text(self) -> Seq<char> {
        year_text(self.year as int) + seq!['-'] + two_digits(self.month as int) + seq!['-']
            + two_digits(self.day as int) + seq![' '] + two_digits(self.hour as int) + seq![':']
            + two_digits(self.minute as int) + seq![':'] + two_digits(self.second as int)
    }
}

fn push_year(out: &mut String, year: i64)
    ensures
        final(out)@ == old(out)@ + year_text(year as int),
{
    let ghost before = out@;
    let magnitude: u128 = if year < 0 {
        (-(year as i128)) as u128
    } else {
        year as u128
    };
    let mut width: u128 = 4;
    if year < 0 {
        out.push('-');
        width = 3;
    }
    proof {
        crate::text::lemma_decimal_length(magnitude as nat);
        reveal_with_fuel(crate::text::zero_padded, 5);
    }
    let ghost digits = crate::text::decimal(magnitude as nat);
    let ghost signed = out@;
    if width == 4 && magnitude < 1000 {
        out.push('0');
    }
    if magnitude < 100 {
        out.push('0');
    }
    if magnitude < 10 {
        out.push('0');
    }
    let ghost zeros = out@.skip(signed.len() as int);
    push_decimal(out, magnitude);
    assert(out@ == signed + (zeros + digits));
    proof {
        let z: Seq<char> = seq!['0'];
        assert(z + (z + (z + digits)) == z + z + z + digits);
        assert(z + (z + digits) == z + z + digits);
        assert(zeros =~= z + z + z || zeros =~= z + z || zeros =~= z || zeros =~= Seq::<
            char,
        >::empty());
        assert(Seq::<char>::empty() + digits == digits);
        assert(zeros + digits == crate::text::zero_padded(digits, width as int));
        assert(signed == if year < 0 {
            before + seq!['-']
        } else {
            before
        });
        assert(out@ == before + year_text(year as int));
    }
}

/// Format a unix timestamp in seconds as `YYYY-MM-DD HH:MM:SS` (UTC).
pub fn format_unix_seconds(secs: i64) -> (r: String)
    ensures
        exists|t: CivilTime| t.is_real() && t.unix() == secs && r@ == #[trigger] t.text(),
{
    let t = civil_from_unix(secs);
    let mut out = String::new();
    push_year(&mut out, t.year);
    out.push('-');
    push_two_digits(&mut out, t.month as u128);
    out.push('-');
    push_two_digits(&mut out, t.day as u128);
    out.push(' ');
    push_two_digits(&mut out, t.hour as u128);
    out.push(':');
    push_two_digits(&mut out, t.minute as u128);
    out.push(':');
    push_two_digits(&mut out, t.second as u128);
    assert(out@ == t.text());
    out
}

/// Past the year 3000 in seconds: a larger timestamp is taken as milliseconds.
pub const MILLISECOND_THRESHOLD: i64 = 32_503_680_000;

/// The seconds a timestamp of seconds or milliseconds stands for.
pub open spec fn timestamp_seconds(value: int) -> int {
    if value > MILLISECOND_THRESHOLD {
        value / 1000
    } else {
        value
    }
}

/// Format a unix timestamp as `YYYY-MM-DD HH:MM:SS` (UTC), for determinism.
/// Seconds vs milliseconds is auto-detected.
pub fn format_unix_time(value: i64) -> (r: String)
    ensures
        exists|t: CivilTime|
            t.is_real() && t.unix() == timestamp_seconds(value as int) && r@ == #[trigger] t.text(),
{
    // > year ~3000 in seconds ⇒ treat as milliseconds.
    if value > MILLISECOND_THRESHOLD {
        format_unix_seconds(value / 1000)
    } else {
        format_unix_seconds(value)
    }
}

/// A moment has one civil time: two that exist and stand for the same second are
/// the same.
pub proof fn law_civil_times_are_unique(a: CivilTime, b: CivilTime)
    requires
        a.is_real(),
        b.is_real(),
        a.unix() == b.unix(),
    ensures
        a == b,
{
    let da = day_number(a.year as int, a.month as int, a.day as int);
    let db = day_number(b.year as int, b.month as int, b.day as int);
    let sa = a.hour * 3600 + a.minute * 60 + a.second;
    let sb = b.hour * 3600 + b.minute * 60 + b.second;
    assert(0 <= sa < 86400 && 0 <= sb < 86400);
    assert(da == db);
    lemma_months(a.year as int);
    lemma_months(b.year as int);
    lemma_year_order(a.year as int, b.year as int);
    lemma_year_order(b.year as int, a.year as int);
}

proof fn lemma_year_order(a: int, b: int)
    ensures
        a < b ==> days_before_year(a) + 365 + if is_leap(a) {
            1int
        } else {
            0
        } <= days_before_year(b),
    decreases b - a,
{
    if a < b {
        if a + 1 == b {
            lemma_year_length(a);
        } else {
            lemma_year_order(a, b - 1);
            lemma_year_length(b - 1);
        }
    }
}

proof fn lemma_year_length(y: int)
    ensures
        days_before_year(y + 1) == days_before_year(y) + 365 + if is_leap(y) {
            1int
        } else {
            0
        },
{
    let era = y / 400;
    let inside = y % 400;
    let century = inside / 100;
    let within = inside % 100;
    lemma_march(y, century, within / 4, within % 4, era);
}

// ---------------------------------------------------------------------------
// Fields of whole bytes, and of a signal
// ---------------------------------------------------------------------------

/// The number bytes spell, the first the most significant.
pub open spec fn big_endian_value(bytes: Seq<u8>) -> int
    decreases bytes.len(),
{
    if bytes.len() == 0 {
        0
    } else {
        big_endian_value(bytes.drop_last()) * 256 + bytes.last()
    }
}

proof fn lemma_bits_of_byte(b: u8)
    ensures
        b == 128 * byte_bit(b, 7) + 64 * byte_bit(b, 6) + 32 * byte_bit(b, 5) + 16 * byte_bit(b, 4)
            + 8 * byte_bit(b, 3) + 4 * byte_bit(b, 2) + 2 * byte_bit(b, 1) + byte_bit(b, 0),
{
    assert(b == 128 * ((b >> 7u8) & 1u8) + 64 * ((b >> 6u8) & 1u8) + 32 * ((b >> 5u8) & 1u8) + 16
        * ((b >> 4u8) & 1u8) + 8 * ((b >> 3u8) & 1u8) + 4 * ((b >> 2u8) & 1u8) + 2 * ((b >> 1u8)
        & 1u8) + ((b >> 0u8) & 1u8)) by (bit_vector);
}

proof fn lemma_bits_step(bytes: Seq<u8>, start: int, end: int)
    requires
        0 <= start < end <= bytes.len() * 8,
    ensures
        bits_value(bytes, start, end, Endianness::Big) == 2 * bits_value(
            bytes,
            start,
            end - 1,
            Endianness::Big,
        ) + byte_bit(bytes[(end - 1) / 8], 7 - (end - 1) % 8),
{
}

/// Read big-endian, whole bytes spell the number they spell.
pub proof fn lemma_whole_bytes(bytes: Seq<u8>, from: int, to: int)
    requires
        0 <= from <= to <= bytes.len(),
    ensures
        bits_value(bytes, from * 8, to * 8, Endianness::Big) == big_endian_value(
            bytes.subrange(from, to),
        ),
    decreases to - from,
{
    if from < to {
        lemma_whole_bytes(bytes, from, to - 1);
        let e = to * 8;
        let b = bytes[to - 1];
        lemma_bits_step(bytes, from * 8, e);
        lemma_bits_step(bytes, from * 8, e - 1);
        lemma_bits_step(bytes, from * 8, e - 2);
        lemma_bits_step(bytes, from * 8, e - 3);
        lemma_bits_step(bytes, from * 8, e - 4);
        lemma_bits_step(bytes, from * 8, e - 5);
        lemma_bits_step(bytes, from * 8, e - 6);
        lemma_bits_step(bytes, from * 8, e - 7);
        assert((e - 1) / 8 == to - 1 && (e - 2) / 8 == to - 1 && (e - 3) / 8 == to - 1 && (e - 4)
            / 8 == to - 1 && (e - 5) / 8 == to - 1 && (e - 6) / 8 == to - 1 && (e - 7) / 8 == to
            - 1 && (e - 8) / 8 == to - 1);
        lemma_bits_of_byte(b);
        assert(bytes.subrange(from, to).drop_last() == bytes.subrange(from, to - 1));
        assert(bytes.subrange(from, to).last() == b);
    }
}

/// Whether a field is read with its words in reverse order: only where it spans
/// more than one.
pub open spec fn is_swapped(word_order: Option<Endianness>, bit_length: int) -> bool {
    word_order == Some(Endianness::Little) && bit_length > 16
}

/// The raw value of a signal.
pub open spec fn signal_value(
    bytes: Seq<u8>,
    start_bit: int,
    bit_length: int,
    endian: Endianness,
    word_order: Option<Endianness>,
    signed: bool,
) -> int {
    if is_swapped(word_order, bit_length) {
        field_value(word_swapped(bytes, start_bit, bit_length), start_bit, bit_length, endian, signed)
    } else {
        field_value(bytes, start_bit, bit_length, endian, signed)
    }
}

/// Read the raw value of a signal, swapping its words first where it spans
/// several and they come low word first.
pub fn read_signal(
    bytes: &[u8],
    start_bit: u32,
    bit_length: u32,
    endian: Endianness,
    word_order: Option<Endianness>,
    signed: bool,
) -> (r: i128)
    requires
        signed ==> bit_length <= 128,
    ensures
        r == signal_value(
            bytes@,
            start_bit as int,
            bit_length as int,
            endian,
            word_order,
            signed,
        ),
{
    let little: bool = match word_order {
        Some(order) => order == Endianness::Little,
        None => false,
    };
    if little && bit_length > 16 {
        let mut swapped = vstd::slice::slice_to_vec(bytes);
        apply_word_swap(&mut swapped, start_bit, bit_length);
        extract_bits(swapped.as_slice(), start_bit, bit_length, endian, signed)
    } else {
        extract_bits(bytes, start_bit, bit_length, endian, signed)
    }
}

/// An integer as a decimal; zero where it takes more than 96 bits.
pub open spec fn whole_decimal(n: int) -> DecimalValue {
    if fits_96(n) {
        DecimalValue { mantissa: n as i128, scale: 0 }
    } else {
        DecimalValue { mantissa: 0, scale: 0 }
    }
}

/// An integer as a decimal.
pub fn decimal_of(n: i128) -> (r: DecimalValue)
    ensures
        r == whole_decimal(n as int),
        r.wf(),
{
    if -0x1_0000_0000_0000_0000_0000_0000 < n && n < 0x1_0000_0000_0000_0000_0000_0000 {
        DecimalValue { mantissa: n, scale: 0 }
    } else {
        DecimalValue { mantissa: 0, scale: 0 }
    }
}

// ---------------------------------------------------------------------------
// What fields spell
// ---------------------------------------------------------------------------

proof fn lemma_bits_joined(bytes: Seq<u8>, start: int, mid: int, end: int, endian: Endianness)
    requires
        start <= mid <= end,
    ensures
        endian is Big ==> bits_value(bytes, start, end, endian) == bits_value(
            bytes,
            start,
            mid,
            endian,
        ) * vstd::arithmetic::power2::pow2((end - mid) as nat) + bits_value(bytes, mid, end, endian),
        endian is Little ==> bits_value(bytes, start, end, endian) == bits_value(
            bytes,
            start,
            mid,
            endian,
        ) + vstd::arithmetic::power2::pow2((mid - start) as nat) * bits_value(
            bytes,
            mid,
            end,
            endian,
        ),
    decreases end - start,
{
    vstd::arithmetic::power2::lemma2_to64();
    let whole = bits_value(bytes, start, end, endian);
    let a = bits_value(bytes, start, mid, endian);
    let b = bits_value(bytes, mid, end, endian);
    match endian {
        Endianness::Big => {
            let p = vstd::arithmetic::power2::pow2((end - mid) as nat) as int;
            if mid < end {
                lemma_bits_joined(bytes, start, mid, end - 1, endian);
                vstd::arithmetic::power2::lemma_pow2_unfold((end - mid) as nat);
                let h = vstd::arithmetic::power2::pow2((end - mid - 1) as nat) as int;
                assert((end - 1 - mid) as nat == (end - mid - 1) as nat);
                assert(p == 2 * h);
                assert(a * p == 2 * (a * h)) by (nonlinear_arith)
                    requires
                        p == 2 * h,
                ;
            } else {
                assert(p == 1 && b == 0);
                assert(a * p == a) by (nonlinear_arith)
                    requires
                        p == 1,
                ;
            }
            assert(whole == a * p + b);
        },
        Endianness::Little => {
            let p = vstd::arithmetic::power2::pow2((mid - start) as nat) as int;
            if start < mid {
                lemma_bits_joined(bytes, start + 1, mid, end, endian);
                vstd::arithmetic::power2::lemma_pow2_unfold((mid - start) as nat);
                let h = vstd::arithmetic::power2::pow2((mid - start - 1) as nat) as int;
                assert((mid - (start + 1)) as nat == (mid - start - 1) as nat);
                assert(p == 2 * h);
                assert(p * b == 2 * (h * b)) by (nonlinear_arith)
                    requires
                        p == 2 * h,
                ;
            } else {
                assert(p == 1 && a == 0);
                assert(p * b == b) by (nonlinear_arith)
                    requires
                        p == 1,
                ;
            }
            assert(whole == a + p * b);
        },
    }
}

proof fn lemma_byte_spelt(bytes: Seq<u8>, at: int, endian: Endianness)
    requires
        0 <= at < bytes.len(),
    ensures
        bits_value(bytes, 8 * at, 8 * at + 8, endian) == bytes[at],
{
    reveal_with_fuel(bits_value, 9);
    let b = bytes[at];
    assert(b == ((b >> 0u8) & 1u8) + 2 * ((b >> 1u8) & 1u8) + 4 * ((b >> 2u8) & 1u8) + 8 * ((b
        >> 3u8) & 1u8) + 16 * ((b >> 4u8) & 1u8) + 32 * ((b >> 5u8) & 1u8) + 64 * ((b >> 6u8)
        & 1u8) + 128 * ((b >> 7u8) & 1u8)) by (bit_vector);
}

/// A field of one whole byte is that byte. One byte more, in big-endian order, is the
/// value before times 256 and the byte behind it; in little-endian order, the byte in
/// front of it and 256 times the value behind.
pub proof fn law_whole_bytes_spell_their_number(bytes: Seq<u8>, at: int, count: int)
    requires
        0 <= at,
        0 <= count,
        at + count < bytes.len(),
    ensures
        unsigned_field(bytes, 8 * at, 8, Endianness::Big) == bytes[at],
        unsigned_field(bytes, 8 * at, 8, Endianness::Little) == bytes[at],
        unsigned_field(bytes, 8 * at, 8 * count + 8, Endianness::Big) == 256 * unsigned_field(
            bytes,
            8 * at,
            8 * count,
            Endianness::Big,
        ) + bytes[at + count],
        unsigned_field(bytes, 8 * at, 8 * count + 8, Endianness::Little) == bytes[at] + 256
            * unsigned_field(bytes, 8 * at + 8, 8 * count, Endianness::Little),
{
    let s = 8 * at;
    let e = 8 * at + 8 * count + 8;
    assert(e - 8 == 8 * (at + count));
    vstd::arithmetic::power2::lemma2_to64();
    lemma_byte_spelt(bytes, at, Endianness::Big);
    lemma_byte_spelt(bytes, at, Endianness::Little);
    lemma_byte_spelt(bytes, at + count, Endianness::Big);
    lemma_bits_joined(bytes, s, e - 8, e, Endianness::Big);
    lemma_bits_joined(bytes, s, s + 8, e, Endianness::Little);
    assert(8 * (at + count) + 8 == e);
    assert(bits_value(bytes, e - 8, e, Endianness::Big) == bytes[at + count]);
    assert((e - (e - 8)) as nat == 8);
    let v = bits_value(bytes, s, e - 8, Endianness::Big);
    assert(bits_value(bytes, s, e, Endianness::Big) == v * 256 + bytes[at + count]);
    let total = bytes.len() as int * 8;
    assert(field_end(total, s, 8 * count) == e - 8);
    assert(field_end(total, s, 8 * count + 8) == e);
    assert(v * 256 == 256 * v) by (nonlinear_arith);
}

/// A signed field is the unsigned one, less `2^n` where its highest bit is set.
pub proof fn law_signed_fields_wrap(
    bytes: Seq<u8>,
    start_bit: int,
    bit_length: int,
    endian: Endianness,
)
    requires
        0 <= start_bit,
        1 <= bit_length <= 127,
    ensures
        ({
            let n = field_value(bytes, start_bit, bit_length, endian, false);
            let half = vstd::arithmetic::power2::pow2((bit_length - 1) as nat) as int;
            &&& n == unsigned_field(bytes, start_bit, bit_length, endian)
            &&& n < half ==> field_value(bytes, start_bit, bit_length, endian, true) == n
            &&& n >= half ==> field_value(bytes, start_bit, bit_length, endian, true) == n - 2
                * half
        }),
{
    let total = bytes.len() as int * 8;
    let start = field_start(total, start_bit);
    let end = field_end(total, start_bit, bit_length);
    lemma_bits_value_bounded(bytes, start, end, endian);
    lemma_pow2_below((end - start) as nat, bit_length as nat);
    lemma_pow2_below(bit_length as nat, 127);
    lemma_pow2_127();
    vstd::arithmetic::power2::lemma_pow2_unfold(bit_length as nat);
    let n = unsigned_field(bytes, start_bit, bit_length, endian);
    vstd::arithmetic::div_mod::lemma_small_mod(
        n as nat,
        0x1_0000_0000_0000_0000_0000_0000_0000_0000nat,
    );
}

proof fn lemma_ones(bytes: Seq<u8>, start: int, end: int, endian: Endianness)
    requires
        0 <= start <= end <= 8 * bytes.len(),
        forall|i: int| 0 <= i < bytes.len() ==> (#[trigger] bytes[i]) == 0xFF,
    ensures
        bits_value(bytes, start, end, endian) == vstd::arithmetic::power2::pow2(
            (end - start) as nat,
        ) - 1,
    decreases end - start,
{
    vstd::arithmetic::power2::lemma2_to64();
    if start < end {
        vstd::arithmetic::power2::lemma_pow2_unfold((end - start) as nat);
        let at = match endian {
            Endianness::Big => end - 1,
            Endianness::Little => start,
        };
        let k = match endian {
            Endianness::Big => (7 - at % 8) as u8,
            Endianness::Little => (at % 8) as u8,
        };
        assert(bytes[at / 8] == 0xFF);
        assert(k < 8 ==> ((0xFFu8 >> k) & 1u8) == 1u8) by (bit_vector);
        assert(payload_bit(bytes, at, endian) == 1);
        match endian {
            Endianness::Big => {
                lemma_ones(bytes, start, end - 1, endian);
            },
            Endianness::Little => {
                lemma_ones(bytes, start + 1, end, endian);
            },
        }
    }
}

/// A signed field within a payload of ones is -1, and an unsigned one the largest of its
/// width.
pub proof fn law_ones_are_minus_one(
    bytes: Seq<u8>,
    start_bit: int,
    bit_length: int,
    endian: Endianness,
)
    requires
        0 <= start_bit,
        1 <= bit_length <= 127,
        start_bit + bit_length <= 8 * bytes.len(),
        forall|i: int| 0 <= i < bytes.len() ==> (#[trigger] bytes[i]) == 0xFF,
    ensures
        field_value(bytes, start_bit, bit_length, endian, true) == -1,
        field_value(bytes, start_bit, bit_length, endian, false) == vstd::arithmetic::power2::pow2(
            bit_length as nat,
        ) - 1,
{
    lemma_ones(bytes, start_bit, start_bit + bit_length, endian);
    law_signed_fields_wrap(bytes, start_bit, bit_length, endian);
    vstd::arithmetic::power2::lemma_pow2_unfold(bit_length as nat);
    vstd::arithmetic::power2::lemma_pow2_pos((bit_length - 1) as nat);
}

/// With the words swapped, the word at each place comes from the mirrored place, its two
/// bytes in their order; what lies outside the field stays.
pub proof fn law_swapped_words_mirror(bytes: Seq<u8>, start: int, words: int, k: int)
    requires
        0 <= start,
        0 < words,
        start + 2 * words <= bytes.len(),
    ensures
        word_swapped(bytes, 8 * start, 16 * words).len() == bytes.len(),
        0 <= k < words ==> word_swapped(bytes, 8 * start, 16 * words)[start + 2 * k] == bytes[start
            + 2 * (words - 1 - k)],
        0 <= k < words ==> word_swapped(bytes, 8 * start, 16 * words)[start + 2 * k + 1]
            == bytes[start + 2 * (words - 1 - k) + 1],
        0 <= k < start || start + 2 * words <= k < bytes.len() ==> word_swapped(
            bytes,
            8 * start,
            16 * words,
        )[k] == bytes[k],
{
    if 0 <= k < words {
        assert(swap_source(start + 2 * k, start, words) == start + 2 * (words - 1 - k));
        assert(swap_source(start + 2 * k + 1, start, words) == start + 2 * (words - 1 - k) + 1);
    }
}

/// A little word order swaps the words of a field of more than one word; any other, and a
/// field of one word, is read as it stands.
pub proof fn law_word_order_swaps_wide_fields(
    bytes: Seq<u8>,
    start_bit: int,
    bit_length: int,
    endian: Endianness,
    word_order: Option<Endianness>,
    signed: bool,
)
    ensures
        bit_length > 16 && word_order == Some(Endianness::Little) ==> signal_value(
            bytes,
            start_bit,
            bit_length,
            endian,
            word_order,
            signed,
        ) == field_value(
            word_swapped(bytes, start_bit, bit_length),
            start_bit,
            bit_length,
            endian,
            signed,
        ),
        bit_length <= 16 || word_order != Some(Endianness::Little) ==> signal_value(
            bytes,
            start_bit,
            bit_length,
            endian,
            word_order,
            signed,
        ) == field_value(bytes, start_bit, bit_length, endian, signed),
{
}

/// The bytes a value is shown as are its digits to the base 256, the least significant
/// first.
pub proof fn law_low_bytes_are_the_digits(v: int, n: int)
    requires
        v >= 0,
        n >= 0,
    ensures
        low_bytes(v, n).len() == n,
        n > 0 ==> low_bytes(v, n)[0] == v % 256 && low_bytes(v, n).skip(1) == low_bytes(
            v / 256,
            n - 1,
        ),
    decreases n,
{
    if n > 0 {
        law_low_bytes_are_the_digits(v / 256, n - 1);
        assert(low_bytes(v, n).skip(1) =~= low_bytes(v / 256, n - 1));
    }
}

} // verus!
