//! The checksum algorithms themselves: bytes in, value out. Nothing here knows
//! about frames, positions or calculation ranges — that is [`crate::frame`].

use crate::text::{owned, str_eq};
use vstd::prelude::*;

verus! {

/// Supported checksum algorithms.
#[derive(Debug, Clone, Copy, PartialEq, Eq, Hash, Structural)]
pub enum ChecksumAlgorithm {
    /// XOR of all bytes
    Xor,
    /// sum(bytes) & 0xFF
    Sum8,
    /// CRC-8 polynomial 0x07 (ITU/SMBUS)
    Crc8,
    /// CRC-8 SAE-J1850 polynomial 0x1D (automotive OBD-II)
    Crc8SaeJ1850,
    /// CRC-8 AUTOSAR polynomial 0x2F (AUTOSAR E2E)
    Crc8Autosar,
    /// CRC-8 Maxim polynomial 0x31 (1-Wire devices)
    Crc8Maxim,
    /// CRC-8 CDMA2000 polynomial 0x9B (telecom)
    Crc8Cdma2000,
    /// CRC-8 DVB-S2 polynomial 0xD5 (satellite)
    Crc8DvbS2,
    /// CRC-8 Nissan polynomial 0x85 (Nissan CAN)
    Crc8Nissan,
    /// CRC-16 Modbus polynomial (0xA001)
    Crc16Modbus,
    /// CRC-16 CCITT polynomial (0x1021)
    Crc16Ccitt,
}

/// Every algorithm the sweep considers, in preference order — ties in scoring
/// break towards the earlier entry, so the simple ones come first.
pub const ALL_ALGORITHMS: [ChecksumAlgorithm; 11] = [
    ChecksumAlgorithm::Xor,
    ChecksumAlgorithm::Sum8,
    ChecksumAlgorithm::Crc8,
    ChecksumAlgorithm::Crc8SaeJ1850,
    ChecksumAlgorithm::Crc8Autosar,
    ChecksumAlgorithm::Crc8Maxim,
    ChecksumAlgorithm::Crc8Cdma2000,
    ChecksumAlgorithm::Crc8DvbS2,
    ChecksumAlgorithm::Crc8Nissan,
    ChecksumAlgorithm::Crc16Modbus,
    ChecksumAlgorithm::Crc16Ccitt,
];

impl ChecksumAlgorithm {
    /// How many bytes the checksum occupies.
    pub open spec fn width_bytes(self) -> nat {
        if self is Crc16Modbus || self is Crc16Ccitt {
            2
        } else {
            1
        }
    }

    /// The catalogue's id for the algorithm.
    pub open spec fn id(self) -> Seq<char> {
        match self {
            ChecksumAlgorithm::Xor => "xor"@,
            ChecksumAlgorithm::Sum8 => "sum8"@,
            ChecksumAlgorithm::Crc8 => "crc8"@,
            ChecksumAlgorithm::Crc8SaeJ1850 => "crc8_sae_j1850"@,
            ChecksumAlgorithm::Crc8Autosar => "crc8_autosar"@,
            ChecksumAlgorithm::Crc8Maxim => "crc8_maxim"@,
            ChecksumAlgorithm::Crc8Cdma2000 => "crc8_cdma2000"@,
            ChecksumAlgorithm::Crc8DvbS2 => "crc8_dvb_s2"@,
            ChecksumAlgorithm::Crc8Nissan => "crc8_nissan"@,
            ChecksumAlgorithm::Crc16Modbus => "crc16_modbus"@,
            ChecksumAlgorithm::Crc16Ccitt => "crc16_ccitt"@,
        }
    }

    /// Get the output size in bytes for this algorithm.
    pub fn output_bytes(&self) -> (r: usize)
        ensures
            r == self.width_bytes(),
    {
        match self {
            ChecksumAlgorithm::Crc16Modbus | ChecksumAlgorithm::Crc16Ccitt => 2,
            _ => 1,
        }
    }

    /// The catalogue's algorithm id.
    pub fn as_str(&self) -> (r: &'static str)
        ensures
            r@ == self.id(),
    {
        match self {
            ChecksumAlgorithm::Xor => "xor",
            ChecksumAlgorithm::Sum8 => "sum8",
            ChecksumAlgorithm::Crc8 => "crc8",
            ChecksumAlgorithm::Crc8SaeJ1850 => "crc8_sae_j1850",
            ChecksumAlgorithm::Crc8Autosar => "crc8_autosar",
            ChecksumAlgorithm::Crc8Maxim => "crc8_maxim",
            ChecksumAlgorithm::Crc8Cdma2000 => "crc8_cdma2000",
            ChecksumAlgorithm::Crc8DvbS2 => "crc8_dvb_s2",
            ChecksumAlgorithm::Crc8Nissan => "crc8_nissan",
            ChecksumAlgorithm::Crc16Modbus => "crc16_modbus",
            ChecksumAlgorithm::Crc16Ccitt => "crc16_ccitt",
        }
    }

    /// The algorithm with the given catalogue id.
    pub fn from_id(s: &str) -> (r: Result<ChecksumAlgorithm, String>)
        ensures
            match r {
                Ok(a) => a.id() == s@,
                Err(e) => {
                    &&& forall|a: ChecksumAlgorithm| a.id() != s@
                    &&& e@ == "Unknown checksum algorithm: "@ + s@
                },
            },
    {
        let all = ALL_ALGORITHMS;
        for i in 0..all.len()
            invariant
                all@ == ALL_ALGORITHMS@,
                forall|j: int| 0 <= j < i ==> (#[trigger] all@[j]).id() != s@,
        {
            if str_eq(all[i].as_str(), s) {
                return Ok(all[i]);
            }
        }
        proof {
            assert forall|a: ChecksumAlgorithm| a.id() != s@ by {
                let k = lemma_all_algorithms_listed(a);
                assert(all@[k].id() != s@);
            }
        }
        let mut message = owned("Unknown checksum algorithm: ");
        message.append(s);
        Err(message)
    }
}

impl std::str::FromStr for ChecksumAlgorithm {
    type Err = String;

    fn from_str(s: &str) -> Result<Self, Self::Err> {
        ChecksumAlgorithm::from_id(s)
    }
}

/// Every algorithm is in the preference list, at the returned index.
pub proof fn lemma_all_algorithms_listed(a: ChecksumAlgorithm) -> (k: int)
    ensures
        0 <= k < ALL_ALGORITHMS@.len(),
        ALL_ALGORITHMS@[k] == a,
{
    let k = match a {
        ChecksumAlgorithm::Xor => 0int,
        ChecksumAlgorithm::Sum8 => 1,
        ChecksumAlgorithm::Crc8 => 2,
        ChecksumAlgorithm::Crc8SaeJ1850 => 3,
        ChecksumAlgorithm::Crc8Autosar => 4,
        ChecksumAlgorithm::Crc8Maxim => 5,
        ChecksumAlgorithm::Crc8Cdma2000 => 6,
        ChecksumAlgorithm::Crc8DvbS2 => 7,
        ChecksumAlgorithm::Crc8Nissan => 8,
        ChecksumAlgorithm::Crc16Modbus => 9,
        ChecksumAlgorithm::Crc16Ccitt => 10,
    };
    k
}

/// No two algorithms share a catalogue id, so the id names its algorithm:
/// parsing what `as_str` wrote gives the algorithm back.
pub proof fn law_ids_are_distinct(a: ChecksumAlgorithm, b: ChecksumAlgorithm)
    ensures
        a.id() == b.id() ==> a == b,
{
    reveal_strlit("xor");
    reveal_strlit("sum8");
    reveal_strlit("crc8");
    reveal_strlit("crc8_sae_j1850");
    reveal_strlit("crc8_autosar");
    reveal_strlit("crc8_maxim");
    reveal_strlit("crc8_cdma2000");
    reveal_strlit("crc8_dvb_s2");
    reveal_strlit("crc8_nissan");
    reveal_strlit("crc16_modbus");
    reveal_strlit("crc16_ccitt");
    if a.id() == b.id() {
        assert(a.id().len() == b.id().len());
        assert(a.id()[0] == b.id()[0]);
        assert(a.id().len() > 3 ==> a.id()[3] == b.id()[3]);
        assert(a.id().len() > 5 ==> a.id()[5] == b.id()[5]);
        assert(a.id().len() > 6 ==> a.id()[6] == b.id()[6]);
    }
}

// ---------------------------------------------------------------------------
// Reflection
// ---------------------------------------------------------------------------

/// The bits of a byte in reverse order.
pub open spec fn reversed8(v: u8) -> u8 {
    ((v & 0x01) << 7) | ((v & 0x02) << 5) | ((v & 0x04) << 3) | ((v & 0x08) << 1) | ((v & 0x10) >> 1)
        | ((v & 0x20) >> 3) | ((v & 0x40) >> 5) | ((v & 0x80) >> 7)
}

/// The bits of a 16-bit value in reverse order.
pub open spec fn reversed16(v: u16) -> u16 {
    ((v & 0x0001) << 15) | ((v & 0x0002) << 13) | ((v & 0x0004) << 11) | ((v & 0x0008) << 9) | ((v
        & 0x0010) << 7) | ((v & 0x0020) << 5) | ((v & 0x0040) << 3) | ((v & 0x0080) << 1) | ((v
        & 0x0100) >> 1) | ((v & 0x0200) >> 3) | ((v & 0x0400) >> 5) | ((v & 0x0800) >> 7) | ((v
        & 0x1000) >> 9) | ((v & 0x2000) >> 11) | ((v & 0x4000) >> 13) | ((v & 0x8000) >> 15)
}

/// Reflect (reverse) the bits of a byte.
pub fn reflect8(value: u8) -> (r: u8)
    ensures
        r == reversed8(value),
{
    let nibbles: u8 = (value >> 4) | (value << 4);
    let pairs: u8 = ((nibbles & 0xCC) >> 2) | ((nibbles & 0x33) << 2);
    let bits: u8 = ((pairs & 0xAA) >> 1) | ((pairs & 0x55) << 1);
    assert(bits == reversed8(value)) by (bit_vector)
        requires
            nibbles == (value >> 4) | (value << 4),
            pairs == ((nibbles & 0xCC) >> 2) | ((nibbles & 0x33) << 2),
            bits == ((pairs & 0xAA) >> 1) | ((pairs & 0x55) << 1),
    ;
    bits
}

/// Reflect (reverse) the bits of a 16-bit value.
pub fn reflect16(value: u16) -> (r: u16)
    ensures
        r == reversed16(value),
{
    let bytes: u16 = (value >> 8) | (value << 8);
    let nibbles: u16 = ((bytes & 0xF0F0) >> 4) | ((bytes & 0x0F0F) << 4);
    let pairs: u16 = ((nibbles & 0xCCCC) >> 2) | ((nibbles & 0x3333) << 2);
    let bits: u16 = ((pairs & 0xAAAA) >> 1) | ((pairs & 0x5555) << 1);
    assert(bits == reversed16(value)) by (bit_vector)
        requires
            bytes == (value >> 8) | (value << 8),
            nibbles == ((bytes & 0xF0F0) >> 4) | ((bytes & 0x0F0F) << 4),
            pairs == ((nibbles & 0xCCCC) >> 2) | ((nibbles & 0x3333) << 2),
            bits == ((pairs & 0xAAAA) >> 1) | ((pairs & 0x5555) << 1),
    ;
    bits
}

/// Reflecting twice changes nothing.
pub proof fn law_reflection_is_an_involution(a: u8, b: u16)
    ensures
        reversed8(reversed8(a)) == a,
        reversed16(reversed16(b)) == b,
{
    assert(reversed8(reversed8(a)) == a) by (bit_vector);
    assert(reversed16(reversed16(b)) == b) by (bit_vector);
}

// ---------------------------------------------------------------------------
// The CRC register
// ---------------------------------------------------------------------------

/// One clock of an 8-bit CRC register: the bit shifted out feeds `feedback`
/// back in. Reflected registers shift towards the low bit.
pub open spec fn clock8(crc: u8, feedback: u8, reflected: bool) -> u8 {
    if reflected {
        if crc & 1 != 0 {
            (crc >> 1) ^ feedback
        } else {
            crc >> 1
        }
    } else {
        if crc & 0x80 != 0 {
            (crc << 1) ^ feedback
        } else {
            crc << 1
        }
    }
}

/// `n` clocks of an 8-bit register.
pub open spec fn clocks8(n: nat, crc: u8, feedback: u8, reflected: bool) -> u8
    decreases n,
{
    if n == 0 {
        crc
    } else {
        clock8(clocks8((n - 1) as nat, crc, feedback, reflected), feedback, reflected)
    }
}

/// The feedback taps of an 8-bit register: the polynomial, mirrored when the
/// register runs mirrored.
pub open spec fn feedback8(polynomial: u8, reflected: bool) -> u8 {
    if reflected {
        reversed8(polynomial)
    } else {
        polynomial
    }
}

/// The 8-bit register after `data` has been shifted in, eight clocks a byte.
pub open spec fn register8(data: Seq<u8>, polynomial: u8, init: u8, reflected: bool) -> u8
    decreases data.len(),
{
    if data.len() == 0 {
        init
    } else {
        clocks8(
            8,
            register8(data.drop_last(), polynomial, init, reflected) ^ data.last(),
            feedback8(polynomial, reflected),
            reflected,
        )
    }
}

/// The CRC-8 of `data` under the given parameters.
pub open spec fn crc8_of(
    data: Seq<u8>,
    polynomial: u8,
    init: u8,
    xor_out: u8,
    reflect: bool,
) -> u8 {
    register8(data, polynomial, init, reflect) ^ xor_out
}

/// One clock of a 16-bit CRC register.
pub open spec fn clock16(crc: u16, feedback: u16, reflected: bool) -> u16 {
    if reflected {
        if crc & 1 != 0 {
            (crc >> 1) ^ feedback
        } else {
            crc >> 1
        }
    } else {
        if crc & 0x8000 != 0 {
            (crc << 1) ^ feedback
        } else {
            crc << 1
        }
    }
}

/// `n` clocks of a 16-bit register.
pub open spec fn clocks16(n: nat, crc: u16, feedback: u16, reflected: bool) -> u16
    decreases n,
{
    if n == 0 {
        crc
    } else {
        clock16(clocks16((n - 1) as nat, crc, feedback, reflected), feedback, reflected)
    }
}

/// The feedback taps of a 16-bit register.
pub open spec fn feedback16(polynomial: u16, reflected: bool) -> u16 {
    if reflected {
        reversed16(polynomial)
    } else {
        polynomial
    }
}

/// Where a byte enters a 16-bit register: at the end it shifts out of.
pub open spec fn entering16(byte: u8, reflected: bool) -> u16 {
    if reflected {
        byte as u16
    } else {
        (byte as u16) << 8
    }
}

/// The 16-bit register after `data` has been shifted in, eight clocks a byte.
pub open spec fn register16(data: Seq<u8>, polynomial: u16, init: u16, reflected: bool) -> u16
    decreases data.len(),
{
    if data.len() == 0 {
        init
    } else {
        clocks16(
            8,
            register16(data.drop_last(), polynomial, init, reflected) ^ entering16(
                data.last(),
                reflected,
            ),
            feedback16(polynomial, reflected),
            reflected,
        )
    }
}

/// What a 16-bit register reads as: a register that ran mirrored is already
/// reflected, so it is turned round only where the two flags differ.
pub open spec fn read_out16(register: u16, reflect_in: bool, reflect_out: bool) -> u16 {
    if reflect_out != reflect_in {
        reversed16(register)
    } else {
        register
    }
}

/// The CRC-16 of `data` under the given parameters.
pub open spec fn crc16_of(
    data: Seq<u8>,
    polynomial: u16,
    init: u16,
    xor_out: u16,
    reflect_in: bool,
    reflect_out: bool,
) -> u16 {
    read_out16(register16(data, polynomial, init, reflect_in), reflect_in, reflect_out) ^ xor_out
}

/// CRC-8 with arbitrary parameters.
///
/// # Arguments
/// * `data` - The data to calculate CRC over
/// * `polynomial` - The CRC polynomial (e.g., 0x07 for standard CRC-8)
/// * `init` - Initial CRC value (e.g., 0x00 or 0xFF)
/// * `xor_out` - Final XOR value (e.g., 0x00 or 0xFF)
/// * `reflect` - Whether to use reflected (LSB-first) mode
pub fn crc8_parameterised(
    data: &[u8],
    polynomial: u8,
    init: u8,
    xor_out: u8,
    reflect: bool,
) -> (r: u8)
    ensures
        r == crc8_of(data@, polynomial, init, xor_out, reflect),
{
    let feedback: u8 = if reflect {
        reflect8(polynomial)
    } else {
        polynomial
    };
    let mut crc: u8 = init;
    for i in 0..data.len()
        invariant
            feedback == feedback8(polynomial, reflect),
            crc == register8(data@.take(i as int), polynomial, init, reflect),
    {
        let ghost before = crc;
        crc = crc ^ data[i];
        let ghost entered = crc;
        for k in 0..8
            invariant
                crc == clocks8(k as nat, entered, feedback, reflect),
        {
            if reflect {
                if crc & 1 != 0 {
                    crc = (crc >> 1) ^ feedback;
                } else {
                    crc = crc >> 1;
                }
            } else {
                if crc & 0x80 != 0 {
                    crc = (crc << 1) ^ feedback;
                } else {
                    crc = crc << 1;
                }
            }
        }
        assert(data@.take(i + 1).drop_last() == data@.take(i as int));
    }
    assert(data@.take(data@.len() as int) == data@);
    crc ^ xor_out
}

/// CRC-16 with arbitrary parameters.
///
/// # Arguments
/// * `data` - The data to calculate CRC over
/// * `polynomial` - The CRC polynomial (e.g., 0x8005 for CRC-16)
/// * `init` - Initial CRC value (e.g., 0x0000 or 0xFFFF)
/// * `xor_out` - Final XOR value (e.g., 0x0000 or 0xFFFF)
/// * `reflect_in` - Whether to reflect input bytes
/// * `reflect_out` - Whether to reflect the final CRC output
pub fn crc16_parameterised(
    data: &[u8],
    polynomial: u16,
    init: u16,
    xor_out: u16,
    reflect_in: bool,
    reflect_out: bool,
) -> (r: u16)
    ensures
        r == crc16_of(data@, polynomial, init, xor_out, reflect_in, reflect_out),
{
    let feedback: u16 = if reflect_in {
        reflect16(polynomial)
    } else {
        polynomial
    };
    let mut crc: u16 = init;
    for i in 0..data.len()
        invariant
            feedback == feedback16(polynomial, reflect_in),
            crc == register16(data@.take(i as int), polynomial, init, reflect_in),
    {
        let byte: u16 = data[i] as u16;
        if reflect_in {
            crc = crc ^ byte;
        } else {
            crc = crc ^ (byte << 8);
        }
        let ghost entered = crc;
        for k in 0..8
            invariant
                crc == clocks16(k as nat, entered, feedback, reflect_in),
        {
            if reflect_in {
                if crc & 1 != 0 {
                    crc = (crc >> 1) ^ feedback;
                } else {
                    crc = crc >> 1;
                }
            } else {
                if crc & 0x8000 != 0 {
                    crc = (crc << 1) ^ feedback;
                } else {
                    crc = crc << 1;
                }
            }
        }
        assert(data@.take(i + 1).drop_last() == data@.take(i as int));
    }
    assert(data@.take(data@.len() as int) == data@);
    // Reflecting the input already reverses the register, so the output flag
    // asks whether to undo that — the two agreeing is the no-op case.
    let read: u16 = if reflect_out != reflect_in {
        reflect16(crc)
    } else {
        crc
    };
    read ^ xor_out
}

// ---------------------------------------------------------------------------
// Linearity
// ---------------------------------------------------------------------------

/// Two equally long byte strings combined byte by byte with exclusive or.
pub open spec fn xor_bytes(a: Seq<u8>, b: Seq<u8>) -> Seq<u8>
    recommends
        a.len() == b.len(),
{
    Seq::new(a.len(), |i: int| a[i] ^ b[i])
}

proof fn lemma_clocks8_linear(n: nat, a: u8, b: u8, feedback: u8, reflected: bool)
    ensures
        clocks8(n, a ^ b, feedback, reflected) == clocks8(n, a, feedback, reflected) ^ clocks8(
            n,
            b,
            feedback,
            reflected,
        ),
    decreases n,
{
    if n > 0 {
        lemma_clocks8_linear((n - 1) as nat, a, b, feedback, reflected);
        let x = clocks8((n - 1) as nat, a, feedback, reflected);
        let y = clocks8((n - 1) as nat, b, feedback, reflected);
        assert(clock8(x ^ y, feedback, reflected) == clock8(x, feedback, reflected) ^ clock8(
            y,
            feedback,
            reflected,
        )) by (bit_vector);
    }
}

proof fn lemma_clocks16_linear(n: nat, a: u16, b: u16, feedback: u16, reflected: bool)
    ensures
        clocks16(n, a ^ b, feedback, reflected) == clocks16(n, a, feedback, reflected) ^ clocks16(
            n,
            b,
            feedback,
            reflected,
        ),
    decreases n,
{
    if n > 0 {
        lemma_clocks16_linear((n - 1) as nat, a, b, feedback, reflected);
        let x = clocks16((n - 1) as nat, a, feedback, reflected);
        let y = clocks16((n - 1) as nat, b, feedback, reflected);
        assert(clock16(x ^ y, feedback, reflected) == clock16(x, feedback, reflected) ^ clock16(
            y,
            feedback,
            reflected,
        )) by (bit_vector);
    }
}

/// An 8-bit register is linear in the data and the initial value together.
pub proof fn law_register8_is_linear(
    a: Seq<u8>,
    b: Seq<u8>,
    polynomial: u8,
    init_a: u8,
    init_b: u8,
    reflected: bool,
)
    requires
        a.len() == b.len(),
    ensures
        register8(xor_bytes(a, b), polynomial, init_a ^ init_b, reflected) == register8(
            a,
            polynomial,
            init_a,
            reflected,
        ) ^ register8(b, polynomial, init_b, reflected),
    decreases a.len(),
{
    if a.len() > 0 {
        let c = xor_bytes(a, b);
        assert(c.drop_last() == xor_bytes(a.drop_last(), b.drop_last()));
        law_register8_is_linear(
            a.drop_last(),
            b.drop_last(),
            polynomial,
            init_a,
            init_b,
            reflected,
        );
        let x = register8(a.drop_last(), polynomial, init_a, reflected);
        let y = register8(b.drop_last(), polynomial, init_b, reflected);
        let p = a.last();
        let q = b.last();
        assert((x ^ y) ^ (p ^ q) == (x ^ p) ^ (y ^ q)) by (bit_vector);
        lemma_clocks8_linear(8, x ^ p, y ^ q, feedback8(polynomial, reflected), reflected);
    }
}

/// A 16-bit register is linear in the data and the initial value together.
pub proof fn law_register16_is_linear(
    a: Seq<u8>,
    b: Seq<u8>,
    polynomial: u16,
    init_a: u16,
    init_b: u16,
    reflected: bool,
)
    requires
        a.len() == b.len(),
    ensures
        register16(xor_bytes(a, b), polynomial, init_a ^ init_b, reflected) == register16(
            a,
            polynomial,
            init_a,
            reflected,
        ) ^ register16(b, polynomial, init_b, reflected),
    decreases a.len(),
{
    if a.len() > 0 {
        let c = xor_bytes(a, b);
        assert(c.drop_last() == xor_bytes(a.drop_last(), b.drop_last()));
        law_register16_is_linear(
            a.drop_last(),
            b.drop_last(),
            polynomial,
            init_a,
            init_b,
            reflected,
        );
        let x = register16(a.drop_last(), polynomial, init_a, reflected);
        let y = register16(b.drop_last(), polynomial, init_b, reflected);
        let p = a.last();
        let q = b.last();
        let pe = entering16(p, reflected);
        let qe = entering16(q, reflected);
        assert(entering16(p ^ q, reflected) == entering16(p, reflected) ^ entering16(q, reflected))
            by (bit_vector);
        assert((x ^ y) ^ (pe ^ qe) == (x ^ pe) ^ (y ^ qe)) by (bit_vector);
        lemma_clocks16_linear(8, x ^ pe, y ^ qe, feedback16(polynomial, reflected), reflected);
    }
}

// ---------------------------------------------------------------------------
// Named algorithms
// ---------------------------------------------------------------------------

/// The exclusive or of all bytes.
pub open spec fn xor_of(data: Seq<u8>) -> u8
    decreases data.len(),
{
    if data.len() == 0 {
        0
    } else {
        xor_of(data.drop_last()) ^ data.last()
    }
}

/// The sum of all bytes.
pub open spec fn byte_sum(data: Seq<u8>) -> int
    decreases data.len(),
{
    if data.len() == 0 {
        0
    } else {
        byte_sum(data.drop_last()) + data.last()
    }
}

/// The value of the named algorithm over `data`, zero-extended to 16 bits.
pub open spec fn checksum_of(algorithm: ChecksumAlgorithm, data: Seq<u8>) -> u16 {
    match algorithm {
        ChecksumAlgorithm::Xor => xor_of(data) as u16,
        ChecksumAlgorithm::Sum8 => (byte_sum(data) % 256) as u16,
        ChecksumAlgorithm::Crc8 => crc8_of(data, 0x07, 0x00, 0x00, false) as u16,
        ChecksumAlgorithm::Crc8SaeJ1850 => crc8_of(data, 0x1D, 0xFF, 0xFF, false) as u16,
        ChecksumAlgorithm::Crc8Autosar => crc8_of(data, 0x2F, 0xFF, 0xFF, false) as u16,
        ChecksumAlgorithm::Crc8Maxim => crc8_of(data, 0x31, 0x00, 0x00, true) as u16,
        ChecksumAlgorithm::Crc8Cdma2000 => crc8_of(data, 0x9B, 0xFF, 0x00, false) as u16,
        ChecksumAlgorithm::Crc8DvbS2 => crc8_of(data, 0xD5, 0x00, 0x00, false) as u16,
        ChecksumAlgorithm::Crc8Nissan => crc8_of(data, 0x85, 0x00, 0x00, false) as u16,
        ChecksumAlgorithm::Crc16Modbus => crc16_of(data, 0x8005, 0xFFFF, 0x0000, true, true),
        ChecksumAlgorithm::Crc16Ccitt => crc16_of(data, 0x1021, 0xFFFF, 0x0000, false, false),
    }
}

/// XOR of all bytes.
/// Simple but effective for detecting single-bit errors.
pub fn xor_checksum(data: &[u8]) -> (r: u8)
    ensures
        r == xor_of(data@),
{
    let mut acc: u8 = 0;
    for i in 0..data.len()
        invariant
            acc == xor_of(data@.take(i as int)),
    {
        acc = acc ^ data[i];
        assert(data@.take(i + 1).drop_last() == data@.take(i as int));
    }
    assert(data@.take(data@.len() as int) == data@);
    acc
}

/// Simple modulo-256 sum of bytes (8-bit sum).
pub fn sum8_checksum(data: &[u8]) -> (r: u8)
    ensures
        r == byte_sum(data@) % 256,
{
    let mut acc: u8 = 0;
    for i in 0..data.len()
        invariant
            acc == byte_sum(data@.take(i as int)) % 256,
    {
        acc = acc.wrapping_add(data[i]);
        assert(data@.take(i + 1).drop_last() == data@.take(i as int));
    }
    assert(data@.take(data@.len() as int) == data@);
    acc
}

/// CRC-8 with polynomial 0x07 (ITU/SMBUS).
/// Common in many embedded protocols.
pub fn crc8_checksum(data: &[u8]) -> (r: u8)
    ensures
        r == crc8_of(data@, 0x07, 0x00, 0x00, false),
{
    crc8_parameterised(data, 0x07, 0x00, 0x00, false)
}

/// CRC-8 SAE-J1850 with polynomial 0x1D.
/// Used in automotive OBD-II and CAN protocols.
/// Init: 0xFF, XOR out: 0xFF, Not reflected
pub fn crc8_sae_j1850_checksum(data: &[u8]) -> (r: u8)
    ensures
        r == crc8_of(data@, 0x1D, 0xFF, 0xFF, false),
{
    crc8_parameterised(data, 0x1D, 0xFF, 0xFF, false)
}

/// CRC-8 AUTOSAR with polynomial 0x2F.
/// Used in AUTOSAR E2E protection.
/// Init: 0xFF, XOR out: 0xFF, Not reflected
pub fn crc8_autosar_checksum(data: &[u8]) -> (r: u8)
    ensures
        r == crc8_of(data@, 0x2F, 0xFF, 0xFF, false),
{
    crc8_parameterised(data, 0x2F, 0xFF, 0xFF, false)
}

/// CRC-8 Maxim with polynomial 0x31.
/// Used in Dallas/Maxim 1-Wire devices.
/// Init: 0x00, XOR out: 0x00, Reflected (LSB-first)
pub fn crc8_maxim_checksum(data: &[u8]) -> (r: u8)
    ensures
        r == crc8_of(data@, 0x31, 0x00, 0x00, true),
{
    crc8_parameterised(data, 0x31, 0x00, 0x00, true)
}

/// CRC-8 CDMA2000 with polynomial 0x9B.
/// Used in telecom protocols.
/// Init: 0xFF, XOR out: 0x00, Not reflected
pub fn crc8_cdma2000_checksum(data: &[u8]) -> (r: u8)
    ensures
        r == crc8_of(data@, 0x9B, 0xFF, 0x00, false),
{
    crc8_parameterised(data, 0x9B, 0xFF, 0x00, false)
}

/// CRC-8 DVB-S2 with polynomial 0xD5.
/// Used in satellite communications.
/// Init: 0x00, XOR out: 0x00, Not reflected
pub fn crc8_dvb_s2_checksum(data: &[u8]) -> (r: u8)
    ensures
        r == crc8_of(data@, 0xD5, 0x00, 0x00, false),
{
    crc8_parameterised(data, 0xD5, 0x00, 0x00, false)
}

/// CRC-8 Nissan with polynomial 0x85.
/// Used in Nissan LEAF CAN bus.
/// Init: 0x00, XOR out: 0x00, Not reflected
pub fn crc8_nissan_checksum(data: &[u8]) -> (r: u8)
    ensures
        r == crc8_of(data@, 0x85, 0x00, 0x00, false),
{
    crc8_parameterised(data, 0x85, 0x00, 0x00, false)
}

/// CRC-16 Modbus polynomial (0x8005, reflected).
/// Used by Modbus RTU protocol.
pub fn crc16_modbus_checksum(data: &[u8]) -> (r: u16)
    ensures
        r == crc16_of(data@, 0x8005, 0xFFFF, 0x0000, true, true),
{
    crc16_parameterised(data, 0x8005, 0xFFFF, 0x0000, true, true)
}

/// CRC-16 CCITT polynomial (0x1021, non-reflected).
/// Common in telecommunications and some industrial protocols.
pub fn crc16_ccitt_checksum(data: &[u8]) -> (r: u16)
    ensures
        r == crc16_of(data@, 0x1021, 0xFFFF, 0x0000, false, false),
{
    crc16_parameterised(data, 0x1021, 0xFFFF, 0x0000, false, false)
}

/// Whether the last two bytes of `message` are the Modbus CRC of the bytes
/// before them, low byte first.
pub open spec fn modbus_crc_holds(message: Seq<u8>) -> bool {
    &&& message.len() >= 2
    &&& checksum_of(ChecksumAlgorithm::Crc16Modbus, message.take(message.len() - 2)) == (
    message[message.len() - 2] + 256 * message[message.len() - 1])
}

/// Whether `message` ends in a correct Modbus CRC (low byte first). Anything
/// too short to carry one does not.
pub fn crc16_modbus_valid(message: &[u8]) -> (r: bool)
    ensures
        r == modbus_crc_holds(message@),
{
    let n: usize = message.len();
    if n < 2 {
        return false;
    }
    let body = vstd::slice::slice_subrange(message, 0, n - 2);
    assert(body@ == message@.take(n - 2));
    let stored: u16 = message[n - 2] as u16 + 256 * (message[n - 1] as u16);
    crc16_modbus_checksum(body) == stored
}

/// Calculate a checksum over exactly `data`, using the named algorithm.
///
/// Returns `u16` for every algorithm; the 8-bit ones are zero-extended.
pub fn calculate_checksum_simple(algorithm: ChecksumAlgorithm, data: &[u8]) -> (r: u16)
    ensures
        r == checksum_of(algorithm, data@),
{
    match algorithm {
        ChecksumAlgorithm::Xor => xor_checksum(data) as u16,
        ChecksumAlgorithm::Sum8 => sum8_checksum(data) as u16,
        ChecksumAlgorithm::Crc8 => crc8_checksum(data) as u16,
        ChecksumAlgorithm::Crc8SaeJ1850 => crc8_sae_j1850_checksum(data) as u16,
        ChecksumAlgorithm::Crc8Autosar => crc8_autosar_checksum(data) as u16,
        ChecksumAlgorithm::Crc8Maxim => crc8_maxim_checksum(data) as u16,
        ChecksumAlgorithm::Crc8Cdma2000 => crc8_cdma2000_checksum(data) as u16,
        ChecksumAlgorithm::Crc8DvbS2 => crc8_dvb_s2_checksum(data) as u16,
        ChecksumAlgorithm::Crc8Nissan => crc8_nissan_checksum(data) as u16,
        ChecksumAlgorithm::Crc16Modbus => crc16_modbus_checksum(data),
        ChecksumAlgorithm::Crc16Ccitt => crc16_ccitt_checksum(data),
    }
}

/// A one-byte algorithm never yields more than a byte holds.
pub proof fn law_one_byte_algorithms_fit_a_byte(algorithm: ChecksumAlgorithm, data: Seq<u8>)
    ensures
        algorithm.width_bytes() == 1 ==> checksum_of(algorithm, data) <= 0xFF,
{
}

/// The exclusive or of bytes and of their exclusive or is nothing, and the sum of bytes is
/// what adding them one by one gives, whatever their order at the end.
pub proof fn law_plain_checksums_cancel(data: Seq<u8>, b: u8)
    ensures
        xor_of(data.push(xor_of(data))) == 0,
        checksum_of(ChecksumAlgorithm::Xor, data.push(b)) == (xor_of(data) ^ b) as u16,
        checksum_of(ChecksumAlgorithm::Sum8, data.push(b)) == (checksum_of(
            ChecksumAlgorithm::Sum8,
            data,
        ) + b) % 256,
        checksum_of(ChecksumAlgorithm::Xor, Seq::<u8>::empty()) == 0,
        checksum_of(ChecksumAlgorithm::Sum8, Seq::<u8>::empty()) == 0,
{
    let x = xor_of(data);
    assert(data.push(x).drop_last() =~= data);
    assert(data.push(b).drop_last() =~= data);
    assert(x ^ x == 0u8) by (bit_vector);
    let t = byte_sum(data);
    lemma_byte_sum_natural(data);
    assert((t + b) % 256 == (t % 256 + b) % 256);
}

proof fn lemma_byte_sum_natural(data: Seq<u8>)
    ensures
        byte_sum(data) >= 0,
    decreases data.len(),
{
    if data.len() > 0 {
        lemma_byte_sum_natural(data.drop_last());
    }
}

/// Bytes followed by their Modbus CRC, low byte first, are a message whose CRC holds, and
/// no other two bytes behind them make one.
pub proof fn law_messages_with_their_crc_hold(data: Seq<u8>, low: u8, high: u8)
    ensures
        modbus_crc_holds(data.push(low).push(high)) <==> low + 256 * high == checksum_of(
            ChecksumAlgorithm::Crc16Modbus,
            data,
        ),
{
    let message = data.push(low).push(high);
    assert(message.take(message.len() - 2) =~= data);
}

} // verus!
