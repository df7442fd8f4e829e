//! Percentages as integers that keep the order of the binary floating-point values they stand for.
use vstd::prelude::*;

verus! {

/// A finite percentage. `code` is the magnitude bits of the IEEE 754 double, negated where
/// the sign bit is set: of two doubles the greater has the greater code, and equal doubles
/// (both zeros included) have equal codes.
#[derive(Clone, Copy, Debug, PartialEq, Eq, Structural)]
pub struct Percent {
    pub code: i64,
}

/// The code of the double with the given bits.
pub open spec fn code_of_bits(bits: u64) -> int {
    if bits < 0x8000_0000_0000_0000 {
        bits as int
    } else {
        0x8000_0000_0000_0000 - bits
    }
}

/// The code of a full quota, a hundred percent.
pub const FULL_CODE: i64 = 0x4059_0000_0000_0000;

/// A percentage moved into the range of a quota.
pub open spec fn quota_code(code: int) -> int {
    if code < 0 {
        0
    } else if code > FULL_CODE {
        FULL_CODE as int
    } else {
        code
    }
}

/// The exponent of the greatest power of two that is no more than `n`.
pub open spec fn binary_exponent(n: int) -> int {
    if n >= 128 {
        7
    } else if n >= 64 {
        6
    } else if n >= 32 {
        5
    } else if n >= 16 {
        4
    } else if n >= 8 {
        3
    } else if n >= 4 {
        2
    } else if n >= 2 {
        1
    } else {
        0
    }
}

pub open spec fn power_of_two(exponent: int) -> int
    decreases exponent,
{
    if exponent <= 0 {
        1
    } else {
        2 * power_of_two(exponent - 1)
    }
}

/// The code of a whole number below 256: the biased exponent, then the bits behind the first.
pub open spec fn whole_code(n: int) -> int {
    if n == 0 {
        0
    } else {
        let exponent = binary_exponent(n);
        (1023 + exponent) * 0x10_0000_0000_0000 + (n - power_of_two(exponent)) * power_of_two(
            52 - exponent,
        )
    }
}

proof fn lemma_powers()
    ensures
        power_of_two(0) == 1,
        power_of_two(1) == 2,
        power_of_two(2) == 4,
        power_of_two(3) == 8,
        power_of_two(4) == 16,
        power_of_two(5) == 32,
        power_of_two(6) == 64,
        power_of_two(7) == 128,
        power_of_two(45) == 0x2000_0000_0000,
        power_of_two(46) == 0x4000_0000_0000,
        power_of_two(47) == 0x8000_0000_0000,
        power_of_two(48) == 0x1_0000_0000_0000,
        power_of_two(49) == 0x2_0000_0000_0000,
        power_of_two(50) == 0x4_0000_0000_0000,
        power_of_two(51) == 0x8_0000_0000_0000,
        power_of_two(52) == 0x10_0000_0000_0000,
{
    reveal_with_fuel(power_of_two, 54);
}

/// Codes of whole numbers keep their order, and a hundred is a full quota.
pub proof fn lemma_whole_codes_keep_order(a: int, b: int)
    requires
        0 <= a < b < 256,
    ensures
        whole_code(a) < whole_code(b),
        whole_code(100) == FULL_CODE,
{
    lemma_powers();
}

impl Percent {
    /// A whole number as a percentage.
    pub fn of_whole(n: u8) -> (r: Percent)
        ensures
            r.code == whole_code(n as int),
    {
        proof {
            lemma_powers();
        }
        let v: i64 = n as i64;
        let code: i64 = if v == 0 {
            0
        } else if v >= 128 {
            0x4060_0000_0000_0000 + (v - 128) * 0x2000_0000_0000
        } else if v >= 64 {
            0x4050_0000_0000_0000 + (v - 64) * 0x4000_0000_0000
        } else if v >= 32 {
            0x4040_0000_0000_0000 + (v - 32) * 0x8000_0000_0000
        } else if v >= 16 {
            0x4030_0000_0000_0000 + (v - 16) * 0x1_0000_0000_0000
        } else if v >= 8 {
            0x4020_0000_0000_0000 + (v - 8) * 0x2_0000_0000_0000
        } else if v >= 4 {
            0x4010_0000_0000_0000 + (v - 4) * 0x4_0000_0000_0000
        } else if v >= 2 {
            0x4000_0000_0000_0000 + (v - 2) * 0x8_0000_0000_0000
        } else {
            0x3ff0_0000_0000_0000
        };
        Percent { code }
    }

    /// The percentage moved into the range of a quota.
    pub fn in_quota(self) -> (r: Percent)
        ensures
            r.code == quota_code(self.code as int),
    {
        if self.code < 0 {
            Percent { code: 0 }
        } else if self.code > FULL_CODE {
            Percent { code: FULL_CODE }
        } else {
            self
        }
    }

    pub fn from_bits(bits: u64) -> (r: Percent)
        ensures
            r.code == code_of_bits(bits),
    {
        if bits < 0x8000_0000_0000_0000 {
            Percent { code: bits as i64 }
        } else {
            Percent { code: (0x8000_0000_0000_0000i128 - bits as i128) as i64 }
        }
    }

    /// The bits of the double; of the two zeros, those of the positive one.
    pub fn to_bits(self) -> (r: u64)
        requires
            self.code != i64::MIN,
        ensures
            code_of_bits(r) == self.code,
            self.code == 0 ==> r == 0,
    {
        if self.code >= 0 {
            self.code as u64
        } else {
            (0x8000_0000_0000_0000i128 - self.code as i128) as u64
        }
    }
}

/// A percentage read from its bits and written back has the same code.
pub proof fn lemma_code_injective(a: u64, b: u64)
    requires
        code_of_bits(a) == code_of_bits(b),
    ensures
        a == b || (code_of_bits(a) == 0 && (a == 0 || a == 0x8000_0000_0000_0000) && (b == 0 || b
            == 0x8000_0000_0000_0000)),
{
}

/// Codes keep the order of the doubles: among those without the sign bit more bits are a
/// greater code, among those with it a smaller one, and one with it is never above one
/// without.
pub proof fn lemma_codes_keep_the_order_of_doubles(a: u64, b: u64)
    ensures
        a < b < 0x8000_0000_0000_0000 ==> code_of_bits(a) < code_of_bits(b),
        0x8000_0000_0000_0000 <= a < b ==> code_of_bits(b) < code_of_bits(a),
        a < 0x8000_0000_0000_0000 <= b ==> code_of_bits(b) <= 0 <= code_of_bits(a),
{
}

/// A percentage in the range of a quota stays as it is, and none leaves that range; moving it
/// there keeps the order.
pub proof fn lemma_quota_is_between_nothing_and_all(a: int, b: int)
    ensures
        0 <= quota_code(a) <= FULL_CODE,
        0 <= a <= FULL_CODE ==> quota_code(a) == a,
        a <= b ==> quota_code(a) <= quota_code(b),
{
}

} // verus!
