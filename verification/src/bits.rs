//! Fixed-width bit vectors.
//!
//! [`Bits<N>`] imitates an `N`-bit unsigned hardware value, stored in a
//! `u128`; `N` may be at most 128.  Larger hardware values are expressed
//! structurally (arrays, tuples, records) rather than as single vectors.
//! [`SignedBits<N>`] is the two's-complement reading of the same bits.

use crate::util::push_char;
use vstd::prelude::*;

verus! {

/// An `N`-bit unsigned bit vector, held in the low `N` bits of a `u128`.
#[derive(Debug, Clone, Copy, PartialEq, Eq, Hash)]
pub struct Bits<const N: usize>(pub u128);

/// An `N`-bit two's-complement value, held in an `i128`.
#[derive(Debug, Clone, Copy, PartialEq, Eq, Hash)]
pub struct SignedBits<const N: usize>(pub i128);

/// The value with exactly the low `n` bits set.
pub open spec fn spec_mask(n: nat) -> u128 {
    if n >= 128 {
        u128::MAX
    } else {
        ((1u128 << (n as u128)) - 1) as u128
    }
}

/// Whether bit `i` of `v` is set.
pub open spec fn spec_get_bit(v: u128, i: nat) -> bool {
    i < 128 && v & (1u128 << (i as u128)) != 0
}

/// Parity (exclusive or) of the low `n` bits of `v`.
pub open spec fn spec_parity(v: u128, n: nat) -> bool
    decreases n,
{
    if n == 0 {
        false
    } else {
        spec_parity(v, (n - 1) as nat) != spec_get_bit(v, (n - 1) as nat)
    }
}

/// The binary digits of `v`, most significant first, with no leading
/// zeros (the single digit `0` for zero).
pub open spec fn spec_bin_digits(v: u128) -> Seq<char>
    decreases v,
{
    if v < 2 {
        seq![if v == 1 {
            '1'
        } else {
            '0'
        }]
    } else {
        spec_bin_digits(v / 2).push(
            if v % 2 == 1 {
                '1'
            } else {
                '0'
            },
        )
    }
}

/// One hexadecimal digit.
pub open spec fn spec_hex_digit(v: u128, upper: bool) -> char {
    if v == 0 {
        '0'
    } else if v == 1 {
        '1'
    } else if v == 2 {
        '2'
    } else if v == 3 {
        '3'
    } else if v == 4 {
        '4'
    } else if v == 5 {
        '5'
    } else if v == 6 {
        '6'
    } else if v == 7 {
        '7'
    } else if v == 8 {
        '8'
    } else if v == 9 {
        '9'
    } else if v == 10 {
        if upper {
            'A'
        } else {
            'a'
        }
    } else if v == 11 {
        if upper {
            'B'
        } else {
            'b'
        }
    } else if v == 12 {
        if upper {
            'C'
        } else {
            'c'
        }
    } else if v == 13 {
        if upper {
            'D'
        } else {
            'd'
        }
    } else if v == 14 {
        if upper {
            'E'
        } else {
            'e'
        }
    } else {
        if upper {
            'F'
        } else {
            'f'
        }
    }
}

/// The hexadecimal digits of `v`, most significant first, with no leading
/// zeros (the single digit `0` for zero).
pub open spec fn spec_hex_digits(v: u128, upper: bool) -> Seq<char>
    decreases v,
{
    if v < 16 {
        seq![spec_hex_digit(v, upper)]
    } else {
        spec_hex_digits(v / 16, upper).push(spec_hex_digit(v % 16, upper))
    }
}

/// A one-bit shift is at least one.
proof fn lemma_shl1_pos(n: u128)
    requires
        n < 128,
    ensures
        1u128 << n >= 1,
{
    assert(1u128 << n >= 1) by (bit_vector)
        requires
            n < 128,
    ;
}

/// Setting a bit touches exactly that bit.
proof fn lemma_bit_set_on(vo: u128, b: u128, iu: u128)
    requires
        b < 128,
        iu < 128,
    ensures
        ((vo | (1u128 << b)) & (1u128 << iu) != 0) == (if iu == b {
            true
        } else {
            vo & (1u128 << iu) != 0
        }),
{
    assert(((vo | (1u128 << b)) & (1u128 << iu) != 0) == (if iu == b {
        true
    } else {
        vo & (1u128 << iu) != 0
    })) by (bit_vector)
        requires
            b < 128 && iu < 128,
    ;
}

/// Clearing a bit touches exactly that bit.
proof fn lemma_bit_set_off(vo: u128, b: u128, iu: u128)
    requires
        b < 128,
        iu < 128,
    ensures
        ((vo & !(1u128 << b)) & (1u128 << iu) != 0) == (if iu == b {
            false
        } else {
            vo & (1u128 << iu) != 0
        }),
{
    assert(((vo & !(1u128 << b)) & (1u128 << iu) != 0) == (if iu == b {
        false
    } else {
        vo & (1u128 << iu) != 0
    })) by (bit_vector)
        requires
            b < 128 && iu < 128,
    ;
}

/// A value whose top mask bit is set lies in the upper half of the mask's
/// span, so its distance to the mask fits in 127 bits.
proof fn lemma_high_bit_margin(v: u128, m: u128, b: u128)
    requires
        b < 128,
        m == (if b == 127 {
            u128::MAX
        } else {
            ((1u128 << ((b + 1) as u128)) - 1) as u128
        }),
        v & (1u128 << b) != 0,
        v <= m,
    ensures
        m - v <= u128::MAX >> 1,
{
    assert(m - v <= u128::MAX >> 1) by (bit_vector)
        requires
            b < 128 && m == (if b == 127 {
                u128::MAX
            } else {
                ((1u128 << ((b + 1) as u128)) - 1) as u128
            }) && v & (1u128 << b) != 0 && v <= m,
    ;
}

/// A masked value whose top mask bit is clear fits in 127 bits.
proof fn lemma_high_bit_clear(v: u128, m: u128, b: u128)
    requires
        b < 128,
        m == (if b == 127 {
            u128::MAX
        } else {
            ((1u128 << ((b + 1) as u128)) - 1) as u128
        }),
        v & (1u128 << b) == 0,
        v <= m,
    ensures
        v <= u128::MAX >> 1,
{
    assert(v <= u128::MAX >> 1) by (bit_vector)
        requires
            b < 128 && m == (if b == 127 {
                u128::MAX
            } else {
                ((1u128 << ((b + 1) as u128)) - 1) as u128
            }) && v & (1u128 << b) == 0 && v <= m,
    ;
}

/// The upper half boundary: shifting the all-ones value right by one.
proof fn lemma_half_max()
    ensures
        u128::MAX >> 1u128 == 170141183460469231731687303715884105727u128,
{
    assert(u128::MAX >> 1u128 == 170141183460469231731687303715884105727u128) by (bit_vector);
}

/// The value with exactly the low `n` bits set, computed.
pub(crate) fn mask_of(n: usize) -> (r: u128)
    ensures
        r == spec_mask(n as nat),
{
    if n < 128 {
        proof {
            lemma_shl1_pos(n as u128);
        }
        (1u128 << n) - 1
    } else {
        u128::MAX
    }
}

/// Appends the binary digits of `v` to `s`, most significant first.
fn push_bin_digits(s: &mut String, v: u128)
    ensures
        final(s)@ == old(s)@ + spec_bin_digits(v),
    decreases v,
{
    if v < 2 {
        push_char(
            s,
            if v == 1 {
                '1'
            } else {
                '0'
            },
        );
        proof {
            assert(final(s)@ =~= old(s)@ + spec_bin_digits(v));
        }
    } else {
        push_bin_digits(s, v / 2);
        push_char(
            s,
            if v % 2 == 1 {
                '1'
            } else {
                '0'
            },
        );
        proof {
            assert(final(s)@ =~= old(s)@ + spec_bin_digits(v));
        }
    }
}

/// One hexadecimal digit as a character.
fn hex_digit(v: u128, upper: bool) -> (r: char)
    requires
        v < 16,
    ensures
        r == spec_hex_digit(v, upper),
{
    if v == 0 {
        '0'
    } else if v == 1 {
        '1'
    } else if v == 2 {
        '2'
    } else if v == 3 {
        '3'
    } else if v == 4 {
        '4'
    } else if v == 5 {
        '5'
    } else if v == 6 {
        '6'
    } else if v == 7 {
        '7'
    } else if v == 8 {
        '8'
    } else if v == 9 {
        '9'
    } else if v == 10 {
        if upper {
            'A'
        } else {
            'a'
        }
    } else if v == 11 {
        if upper {
            'B'
        } else {
            'b'
        }
    } else if v == 12 {
        if upper {
            'C'
        } else {
            'c'
        }
    } else if v == 13 {
        if upper {
            'D'
        } else {
            'd'
        }
    } else if v == 14 {
        if upper {
            'E'
        } else {
            'e'
        }
    } else {
        if upper {
            'F'
        } else {
            'f'
        }
    }
}

/// Appends the hexadecimal digits of `v` to `s`, most significant first.
fn push_hex_digits(s: &mut String, v: u128, upper: bool)
    ensures
        final(s)@ == old(s)@ + spec_hex_digits(v, upper),
    decreases v,
{
    if v < 16 {
        push_char(s, hex_digit(v, upper));
        proof {
            assert(final(s)@ =~= old(s)@ + spec_hex_digits(v, upper));
        }
    } else {
        push_hex_digits(s, v / 16, upper);
        push_char(s, hex_digit(v % 16, upper));
        proof {
            assert(final(s)@ =~= old(s)@ + spec_hex_digits(v, upper));
        }
    }
}

impl<const N: usize> Bits<N> {
    /// A value with all `N` bits set to 1.
    pub fn mask() -> (r: Self)
        ensures
            r.0 == spec_mask(N as nat),
    {
        Bits(mask_of(N))
    }

    /// Builds an `N`-bit value; the value must fit in `N` bits.
    pub fn from(value: u128) -> (r: Self)
        requires
            N <= 128,
            value <= spec_mask(N as nat),
        ensures
            r.0 == value,
    {
        Bits(value)
    }

    /// Sets bit `bit` to 1 or 0, leaving every other bit unchanged.
    pub fn set_bit(&mut self, bit: usize, value: bool)
        requires
            bit < N,
            bit < 128,
        ensures
            final(self).0 == (if value {
                old(self).0 | (1u128 << (bit as u128))
            } else {
                old(self).0 & !(1u128 << (bit as u128))
            }),
            forall|i: nat|
                i < 128 ==> #[trigger] spec_get_bit(final(self).0, i) == (if i == bit {
                    value
                } else {
                    spec_get_bit(old(self).0, i)
                }),
    {
        if value {
            self.0 = self.0 | (1u128 << bit);
        } else {
            self.0 = self.0 & !(1u128 << bit);
        }
        proof {
            let vo = old(self).0;
            let b = bit as u128;
            assert forall|i: nat| i < 128 implies #[trigger] spec_get_bit(self.0, i) == (if i
                == bit {
                value
            } else {
                spec_get_bit(vo, i)
            }) by {
                if value {
                    lemma_bit_set_on(vo, b, i as u128);
                } else {
                    lemma_bit_set_off(vo, b, i as u128);
                }
            }
        }
    }

    /// Whether bit `bit` is set.
    pub fn get_bit(&self, bit: usize) -> (r: bool)
        requires
            bit < N,
            bit < 128,
        ensures
            r == spec_get_bit(self.0, bit as nat),
    {
        (self.0 & (1u128 << bit)) != 0
    }

    /// True when any of the low `N` bits is set.
    pub fn any(self) -> (r: bool)
        ensures
            r == ((self.0 & spec_mask(N as nat)) != 0),
    {
        (self.0 & Self::mask().0) != 0
    }

    /// True when all of the low `N` bits are set.
    pub fn all(self) -> (r: bool)
        ensures
            r == ((self.0 & spec_mask(N as nat)) == spec_mask(N as nat)),
    {
        (self.0 & Self::mask().0) == Self::mask().0
    }

    /// Parity of the value: true when an odd number of the low `N` bits
    /// are set.
    pub fn xor(self) -> (r: bool)
        requires
            N <= 128,
        ensures
            r == spec_parity(self.0, N as nat),
    {
        let mut acc = false;
        let mut i: usize = 0;
        while i < N
            invariant
                i <= N <= 128,
                acc == spec_parity(self.0, i as nat),
            decreases N - i,
        {
            let b = (self.0 & (1u128 << i)) != 0;
            proof {
                assert(spec_parity(self.0, (i + 1) as nat) == (spec_parity(self.0, i as nat)
                    != spec_get_bit(self.0, i as nat)));
            }
            acc = acc != b;
            i = i + 1;
        }
        acc
    }

    /// The `M` bits of the value starting at bit `start`.
    pub fn slice<const M: usize>(&self, start: usize) -> (r: Bits<M>)
        requires
            start < 128,
        ensures
            r.0 == (self.0 >> (start as u128)) & spec_mask(M as nat),
    {
        Bits((self.0 >> start) & Bits::<M>::mask().0)
    }

    /// The two's-complement reading of the value: the same `N` bits, with
    /// bit `N - 1` as the sign.
    pub fn as_signed(self) -> (r: SignedBits<N>)
        requires
            0 < N <= 128,
            self.0 <= spec_mask(N as nat),
        ensures
            r.0 as int == (if spec_get_bit(self.0, (N - 1) as nat) {
                self.0 as int - (spec_mask(N as nat) as int + 1)
            } else {
                self.0 as int
            }),
    {
        let m = Self::mask().0;
        proof {
            let b = (N - 1) as u128;
            assert((b + 1) as u128 == N as u128);
            assert(m == (if b == 127 {
                u128::MAX
            } else {
                ((1u128 << ((b + 1) as u128)) - 1) as u128
            }));
            lemma_half_max();
        }
        if self.get_bit(N - 1) {
            proof {
                lemma_high_bit_margin(self.0, m, (N - 1) as u128);
            }
            let d = m - self.0;
            SignedBits(-(d as i128) - 1)
        } else {
            proof {
                lemma_high_bit_clear(self.0, m, (N - 1) as u128);
            }
            SignedBits(self.0 as i128)
        }
    }

    /// The value's binary digits, most significant first, without leading
    /// zeros; the single digit `0` for zero.
    pub fn to_binary_string(&self) -> (r: String)
        ensures
            r@ == spec_bin_digits(self.0 & spec_mask(N as nat)),
    {
        let mut s = String::new();
        push_bin_digits(&mut s, self.0 & Self::mask().0);
        proof {
            assert(s@ =~= spec_bin_digits(self.0 & spec_mask(N as nat)));
        }
        s
    }

    /// The value's hexadecimal digits in lower case, most significant
    /// first, without leading zeros; the single digit `0` for zero.
    pub fn to_hex_string(&self) -> (r: String)
        ensures
            r@ == spec_hex_digits(self.0 & spec_mask(N as nat), false),
    {
        let mut s = String::new();
        push_hex_digits(&mut s, self.0 & Self::mask().0, false);
        proof {
            assert(s@ =~= spec_hex_digits(self.0 & spec_mask(N as nat), false));
        }
        s
    }

    /// The value's hexadecimal digits in upper case, most significant
    /// first, without leading zeros; the single digit `0` for zero.
    pub fn to_upper_hex_string(&self) -> (r: String)
        ensures
            r@ == spec_hex_digits(self.0 & spec_mask(N as nat), true),
    {
        let mut s = String::new();
        push_hex_digits(&mut s, self.0 & Self::mask().0, true);
        proof {
            assert(s@ =~= spec_hex_digits(self.0 & spec_mask(N as nat), true));
        }
        s
    }
}

impl<const N: usize> Default for Bits<N> {
    /// The all-zero value.
    fn default() -> (r: Self)
        ensures
            r.0 == 0,
    {
        Bits(0)
    }
}

impl<const N: usize> SignedBits<N> {
    /// True when the value is negative, i.e. its sign bit is set.
    pub fn is_negative(&self) -> (r: bool)
        ensures
            r == (self.0 < 0),
    {
        self.0 < 0
    }

    /// The unsigned reading of the value: the same value modulo 2 to the
    /// `N`, held in the low `N` bits.
    pub fn as_unsigned(self) -> (r: Bits<N>)
        requires
            0 < N <= 128,
            -(spec_mask(N as nat) as int + 1) <= 2 * (self.0 as int) <= spec_mask(N as nat) as int,
        ensures
            r.0 as int == (if self.0 >= 0 {
                self.0 as int
            } else {
                self.0 as int + (spec_mask(N as nat) as int + 1)
            }),
            r.0 <= spec_mask(N as nat),
    {
        let m = Bits::<N>::mask().0;
        if self.0 >= 0 {
            Bits(self.0 as u128)
        } else {
            let d = (-(self.0 + 1)) as u128;
            Bits(m - d)
        }
    }
}

impl<const N: usize> Default for SignedBits<N> {
    /// The zero value.
    fn default() -> (r: Self)
        ensures
            r.0 == 0,
    {
        SignedBits(0)
    }
}

} // verus!
