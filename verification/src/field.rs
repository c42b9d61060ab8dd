//! Field elements of the proof system's prime field.
//!
//! A `FieldElement` is a 256-bit value stored as four little-endian 64-bit
//! limbs. Canonical elements are strictly below the field modulus; every
//! constructor of this library establishes canonicity, which the hashing
//! layer requires of its inputs.

use vstd::prelude::*;
use vstd::arithmetic::div_mod::lemma_fundamental_div_mod;
use vstd::string::StringSliceAdditionalSpecFns;

verus! {

broadcast use vstd::string::is_ascii_spec_bytes, vstd::utf8::is_ascii_chars_encode_utf8;

/// 2^64, the radix of the limb representation.
pub open spec fn limb_radix() -> nat {
    0x1_0000_0000_0000_0000nat
}

/// The integer denoted by four little-endian base-2^64 limbs.
pub open spec fn limbs_value(l0: u64, l1: u64, l2: u64, l3: u64) -> nat {
    let b = limb_radix();
    (l0 + b * (l1 + b * (l2 + b * l3))) as nat
}

/// The order of the prime field (the BN254 scalar field),
/// 21888242871839275222246405745257275088548364400416034343698204186575808495617.
pub open spec fn field_modulus() -> nat {
    limbs_value(
        0x43e1f593f0000001,
        0x2833e84879b97091,
        0xb85045b68181585d,
        0x30644e72e131a029,
    )
}

/// The public constant leaf value standing for "empty" in the accumulator,
/// 21663839004416932945382355908790599225266501822907911457504978515578255421292.
pub open spec fn spec_zero_leaf_value() -> nat {
    limbs_value(
        0x249685ed4899af6c,
        0x821b340f76e741e2,
        0x343a35b6eba15db4,
        0x2fe54c60d3acabf3,
    )
}

/// A value of the prime field, as four 64-bit little-endian limbs
/// (`l0` least significant).
#[derive(Clone, Copy, Debug, PartialEq, Eq, Structural)]
pub struct FieldElement {
    pub l0: u64,
    pub l1: u64,
    pub l2: u64,
    pub l3: u64,
}

impl View for FieldElement {
    type V = nat;

    open spec fn view(&self) -> nat {
        limbs_value(self.l0, self.l1, self.l2, self.l3)
    }
}

impl FieldElement {
    /// A canonical element lies strictly below the field modulus.
    pub open spec fn canonical(self) -> bool {
        self@ < field_modulus()
    }

    /// The additive identity.
    pub fn zero() -> (r: FieldElement)
        ensures
            r@ == 0,
            r.canonical(),
    {
        FieldElement { l0: 0, l1: 0, l2: 0, l3: 0 }
    }

    /// Embeds a machine integer into the field.
    pub fn from_u128(x: u128) -> (r: FieldElement)
        ensures
            r@ == x,
            r.canonical(),
    {
        let lo: u64 = (x % 0x1_0000_0000_0000_0000) as u64;
        let hi: u64 = (x / 0x1_0000_0000_0000_0000) as u64;
        proof {
            let b: nat = limb_radix();
            assert(x == b * (x as nat / b) + x as nat % b && x as nat / b < b
                && x as nat % b < b) by (nonlinear_arith)
                requires
                    b == 0x1_0000_0000_0000_0000,
                    x <= u128::MAX,
            ;
        }
        FieldElement { l0: lo, l1: hi, l2: 0, l3: 0 }
    }

    /// The fixed leaf value an empty accumulator position carries.
    pub fn zero_leaf() -> (r: FieldElement)
        ensures
            r@ == spec_zero_leaf_value(),
            r.canonical(),
    {
        FieldElement {
            l0: 0x249685ed4899af6c,
            l1: 0x821b340f76e741e2,
            l2: 0x343a35b6eba15db4,
            l3: 0x2fe54c60d3acabf3,
        }
    }

    /// Tests whether the element is the additive identity.
    pub fn is_zero(&self) -> (r: bool)
        ensures
            r == (self@ == 0),
    {
        self.l0 == 0 && self.l1 == 0 && self.l2 == 0 && self.l3 == 0
    }

    /// The field modulus itself, as a limb array; not a canonical element,
    /// only the bound that canonical elements stay below.
    pub fn modulus_bound() -> (r: FieldElement)
        ensures
            r@ == field_modulus(),
    {
        FieldElement {
            l0: 0x43e1f593f0000001,
            l1: 0x2833e84879b97091,
            l2: 0xb85045b68181585d,
            l3: 0x30644e72e131a029,
        }
    }

    /// Compares the denoted values, most significant limb first.
    pub fn lt(&self, other: &FieldElement) -> (r: bool)
        ensures
            r == (self@ < other@),
    {
        proof {
            lemma_limbs_value_order(*self, *other);
        }
        if self.l3 != other.l3 {
            self.l3 < other.l3
        } else if self.l2 != other.l2 {
            self.l2 < other.l2
        } else if self.l1 != other.l1 {
            self.l1 < other.l1
        } else {
            self.l0 < other.l0
        }
    }

    /// Tests two elements for equality of their values.
    pub fn equals(&self, other: &FieldElement) -> (r: bool)
        ensures
            r == (self@ == other@),
    {
        proof {
            lemma_limbs_value_injective(*self, *other);
        }
        self.l0 == other.l0 && self.l1 == other.l1 && self.l2 == other.l2
            && self.l3 == other.l3
    }
}

/// The first value no four-limb array can reach: 2^256.
pub open spec fn value_bound() -> nat {
    limb_radix() * limb_radix() * limb_radix() * limb_radix()
}

/// A decimal digit character.
pub open spec fn is_dec_digit(c: char) -> bool {
    '0' <= c <= '9'
}

/// The numeric value of a decimal digit character.
pub open spec fn spec_digit(c: char) -> nat
    recommends
        is_dec_digit(c),
{
    (c as int - 48) as nat
}

/// A sequence made of decimal digit characters only.
pub open spec fn all_digits(s: Seq<char>) -> bool {
    forall|i: int| 0 <= i < s.len() ==> is_dec_digit(#[trigger] s[i])
}

/// The integer a digit sequence denotes, read most significant first.
pub open spec fn dec_value(s: Seq<char>) -> nat
    decreases s.len(),
{
    if s.len() == 0 {
        0
    } else {
        10 * dec_value(s.drop_last()) + spec_digit(s.last())
    }
}

/// A prefix of a digit string never denotes more than the whole string.
proof fn lemma_dec_value_prefix_le(s: Seq<char>, i: int)
    requires
        0 <= i <= s.len(),
    ensures
        dec_value(s.subrange(0, i)) <= dec_value(s),
    decreases s.len() - i,
{
    if i < s.len() {
        let longer = s.subrange(0, i + 1);
        assert(longer.drop_last() =~= s.subrange(0, i));
        assert(dec_value(s.subrange(0, i)) <= dec_value(longer));
        lemma_dec_value_prefix_le(s, i + 1);
        assert(s.subrange(0, s.len() as int) =~= s);
    } else {
        assert(s.subrange(0, s.len() as int) =~= s);
    }
}

impl FieldElement {
    /// Parses a canonical decimal string into a field element. Succeeds
    /// exactly on non-empty all-digit strings whose value lies in the
    /// field; anything else (other characters, the empty string, a value at
    /// or above the modulus) is rejected.
    pub fn from_decimal_str(s: &str) -> (r: Option<FieldElement>)
        ensures
            match r {
                Some(f) => {
                    &&& s@.len() > 0
                    &&& all_digits(s@)
                    &&& dec_value(s@) < field_modulus()
                    &&& f@ == dec_value(s@)
                    &&& f.canonical()
                },
                None => !(s@.len() > 0 && all_digits(s@) && dec_value(s@) < field_modulus()),
            },
    {
        if !s.is_ascii() {
            proof {
                let j = choose|j: int|
                    0 <= j < s@.len() && !('\0' <= #[trigger] s@[j] <= '\u{7f}');
                assert(!is_dec_digit(s@[j]));
            }
            return None;
        }
        let bytes = s.as_bytes();
        let n = bytes.len();
        if n == 0 {
            return None;
        }
        let mut acc = FieldElement::zero();
        let mut i: usize = 0;
        proof {
            assert(s@.subrange(0, 0) =~= Seq::<char>::empty());
        }
        while i < n
            invariant
                i <= n,
                n == s@.len(),
                vstd::string::is_ascii(s),
                bytes@ == s.spec_bytes(),
                acc@ == dec_value(s@.subrange(0, i as int)),
                all_digits(s@.subrange(0, i as int)),
            decreases n - i,
        {
            let byte = bytes[i];
            proof {
                assert(s@[i as int] as u8 == bytes@[i as int]);
            }
            if byte < 48 || byte > 57 {
                proof {
                    assert(!is_dec_digit(s@[i as int]));
                }
                return None;
            }
            match mul10_add(&acc, (byte - 48) as u64) {
                Some(next) => {
                    proof {
                        let t = s@.subrange(0, i as int + 1);
                        assert(t.drop_last() =~= s@.subrange(0, i as int));
                        assert(t.last() == s@[i as int]);
                        assert forall|k: int| 0 <= k < t.len() implies is_dec_digit(
                            #[trigger] t[k],
                        ) by {
                            if k < i as int {
                                assert(t[k] == s@.subrange(0, i as int)[k]);
                            }
                        }
                    }
                    acc = next;
                },
                None => {
                    proof {
                        let t = s@.subrange(0, i as int + 1);
                        assert(t.drop_last() =~= s@.subrange(0, i as int));
                        assert(dec_value(t) >= value_bound());
                        lemma_dec_value_prefix_le(s@, i as int + 1);
                        assert(field_modulus() < value_bound());
                    }
                    return None;
                },
            }
            i = i + 1;
        }
        proof {
            assert(s@.subrange(0, n as int) =~= s@);
        }
        let bound = FieldElement::modulus_bound();
        if acc.lt(&bound) {
            Some(acc)
        } else {
            None
        }
    }
}

/// Two elements denote the same integer exactly when they are equal limb
/// for limb: the base-2^64 representation is unique.
pub proof fn lemma_limbs_value_injective(a: FieldElement, b: FieldElement)
    ensures
        (a@ == b@) <==> (a.l0 == b.l0 && a.l1 == b.l1 && a.l2 == b.l2 && a.l3 == b.l3),
{
    if a@ == b@ {
        lemma_limbs_value_components(a);
        lemma_limbs_value_components(b);
    }
}

/// Each limb is recoverable from the denoted integer by division and
/// remainder, so the denoted value determines the limbs.
proof fn lemma_limbs_value_components(a: FieldElement)
    ensures
        a.l0 == a@ % limb_radix(),
        a.l1 == (a@ / limb_radix()) % limb_radix(),
        a.l2 == ((a@ / limb_radix()) / limb_radix()) % limb_radix(),
        a.l3 == ((a@ / limb_radix()) / limb_radix()) / limb_radix(),
{
    let b: nat = limb_radix();
    let t1: nat = (a.l1 + b * (a.l2 + b * a.l3)) as nat;
    let t2: nat = (a.l2 + b * a.l3) as nat;
    lemma_div_mod_step(a.l0 as nat, t1);
    lemma_div_mod_step(a.l1 as nat, t2);
    lemma_div_mod_step(a.l2 as nat, a.l3 as nat);
}

/// One step of decimal accumulation: multiplies by ten and adds a digit,
/// carrying across the four limbs; reports failure when the result would
/// not fit in 256 bits.
fn mul10_add(f: &FieldElement, d: u64) -> (r: Option<FieldElement>)
    requires
        d < 10,
    ensures
        match r {
            Some(g) => g@ == 10 * f@ + d,
            None => 10 * f@ + d >= value_bound(),
        },
{
    let t0: u128 = f.l0 as u128 * 10 + d as u128;
    let n0: u64 = (t0 % 0x1_0000_0000_0000_0000) as u64;
    let c0: u128 = t0 / 0x1_0000_0000_0000_0000;
    let t1: u128 = f.l1 as u128 * 10 + c0;
    let n1: u64 = (t1 % 0x1_0000_0000_0000_0000) as u64;
    let c1: u128 = t1 / 0x1_0000_0000_0000_0000;
    let t2: u128 = f.l2 as u128 * 10 + c1;
    let n2: u64 = (t2 % 0x1_0000_0000_0000_0000) as u64;
    let c2: u128 = t2 / 0x1_0000_0000_0000_0000;
    let t3: u128 = f.l3 as u128 * 10 + c2;
    let n3: u64 = (t3 % 0x1_0000_0000_0000_0000) as u64;
    let c3: u128 = t3 / 0x1_0000_0000_0000_0000;
    proof {
        let b: int = limb_radix() as int;
        lemma_fundamental_div_mod(t0 as int, b);
        lemma_fundamental_div_mod(t1 as int, b);
        lemma_fundamental_div_mod(t2 as int, b);
        lemma_fundamental_div_mod(t3 as int, b);
    }
    let out = FieldElement { l0: n0, l1: n1, l2: n2, l3: n3 };
    proof {
        assert(out@ + value_bound() * c3 == 10 * f@ + d) by (nonlinear_arith)
            requires
                limb_radix() == 0x1_0000_0000_0000_0000,
                value_bound() == limb_radix() * limb_radix() * limb_radix() * limb_radix(),
                out@ == n0 + limb_radix() * (n1 + limb_radix() * (n2 + limb_radix() * n3)),
                f@ == f.l0 + limb_radix() * (f.l1 + limb_radix() * (f.l2 + limb_radix()
                    * f.l3)),
                t0 == f.l0 * 10 + d,
                t1 == f.l1 * 10 + c0,
                t2 == f.l2 * 10 + c1,
                t3 == f.l3 * 10 + c2,
                t0 == limb_radix() * c0 + n0,
                t1 == limb_radix() * c1 + n1,
                t2 == limb_radix() * c2 + n2,
                t3 == limb_radix() * c3 + n3,
        ;
    }
    if c3 != 0 {
        None
    } else {
        Some(out)
    }
}

/// Lexicographic comparison of the limbs, most significant first, agrees
/// with comparison of the denoted values.
proof fn lemma_limbs_value_order(a: FieldElement, b: FieldElement)
    ensures
        (a@ < b@) <==> (if a.l3 != b.l3 {
            a.l3 < b.l3
        } else if a.l2 != b.l2 {
            a.l2 < b.l2
        } else if a.l1 != b.l1 {
            a.l1 < b.l1
        } else {
            a.l0 < b.l0
        }),
{
    let ta: nat = (a.l1 + limb_radix() * (a.l2 + limb_radix() * a.l3)) as nat;
    let tb: nat = (b.l1 + limb_radix() * (b.l2 + limb_radix() * b.l3)) as nat;
    let ua: nat = (a.l2 + limb_radix() * a.l3) as nat;
    let ub: nat = (b.l2 + limb_radix() * b.l3) as nat;
    lemma_lt_step(a.l0 as nat, ta, b.l0 as nat, tb);
    lemma_lt_step(a.l1 as nat, ua, b.l1 as nat, ub);
    lemma_lt_step(a.l2 as nat, a.l3 as nat, b.l2 as nat, b.l3 as nat);
}

/// One digit of base-2^64 comparison: with low parts below the radix, the
/// high parts decide, and the low parts only on a tie.
proof fn lemma_lt_step(x0: nat, xr: nat, y0: nat, yr: nat)
    requires
        x0 < limb_radix(),
        y0 < limb_radix(),
    ensures
        (x0 + limb_radix() * xr < y0 + limb_radix() * yr) <==> (xr < yr || (xr == yr && x0
            < y0)),
{
    let b: nat = limb_radix();
    assert((x0 + b * xr < y0 + b * yr) <==> (xr < yr || (xr == yr && x0 < y0)))
        by (nonlinear_arith)
        requires
            x0 < b,
            y0 < b,
    ;
}

/// For `x < 2^64`, the pair `(x, q)` is recovered from `x + 2^64 * q` by
/// remainder and division.
proof fn lemma_div_mod_step(x: nat, q: nat)
    requires
        x < limb_radix(),
    ensures
        (x + limb_radix() * q) % limb_radix() == x,
        (x + limb_radix() * q) / limb_radix() == q,
{
    let b: nat = limb_radix();
    assert((x + b * q) % b == x && (x + b * q) / b == q) by (nonlinear_arith)
        requires x < b;
}

} // verus!
