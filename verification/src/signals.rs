//! The public-signal encoder.
//!
//! A withdrawal proof is checked against an ordered vector of five field
//! elements: `[root, nullifier_hash, recipient, relayer, fee]`. The root
//! and nullifier hash arrive as canonical decimal strings; the recipient
//! and relayer arrive as bech32 address strings and contribute the
//! base-256 packing of their decoded data bytes, most significant first;
//! a missing relayer (`""` or the sentinel `"0"`) encodes as zero; the
//! fee embeds directly. Beyond the bech32 well-formedness that decoding
//! needs, encoding performs no semantic validation: root freshness and
//! nullifier uniqueness are the protocol's checks, and proof validity is
//! the external verifier's.

use vstd::prelude::*;
use vstd::arithmetic::power2::pow2;
use vstd::arithmetic::power2::lemma_pow2_adds;
use vstd::arithmetic::power2::lemma2_to64;
use vstd::arithmetic::power2::lemma2_to64_rest;
use vstd::arithmetic::div_mod::lemma_fundamental_div_mod;
use vstd::string::StringSliceAdditionalSpecFns;
use crate::field::FieldElement;
use crate::field::field_modulus;
use crate::field::limb_radix;
use crate::field::value_bound;
use crate::field::all_digits;
use crate::field::dec_value;
use crate::error::ContractError;

verus! {

broadcast use vstd::string::is_ascii_spec_bytes, vstd::utf8::is_ascii_chars_encode_utf8;

/// The longest decoded address data the packing can hold: 31 bytes stay
/// below 2^248, comfortably inside the field. Host account addresses
/// decode to 20 bytes of data.
pub const MAX_ADDRESS_DATA_BYTES: usize = 31;

/// The data bytes a bech32 address string decodes to, or `None` when the
/// string is not well-formed bech32. The grammar and checksum behind it
/// would take pages to state, and the result is a function of the string
/// alone, so it stands as a name.
pub uninterp spec fn spec_bech32_bytes(s: Seq<char>) -> Option<Seq<u8>>;

/// The integer a byte string packs to: read as a base-256 numeral, most
/// significant byte first.
pub open spec fn bytes_value(b: Seq<u8>) -> nat
    decreases b.len(),
{
    if b.len() == 0 {
        0
    } else {
        (256 * bytes_value(b.drop_last()) + b.last()) as nat
    }
}

/// An address the encoder accepts: well-formed bech32 whose data part is
/// short enough to pack into one field element.
pub open spec fn parses_addr(s: Seq<char>) -> bool {
    match spec_bech32_bytes(s) {
        Some(b) => b.len() <= MAX_ADDRESS_DATA_BYTES,
        None => false,
    }
}

/// The field element an accepted address encodes to: the packing of its
/// decoded data bytes.
pub open spec fn addr_value(s: Seq<char>) -> nat
    recommends
        parses_addr(s),
{
    match spec_bech32_bytes(s) {
        Some(b) => bytes_value(b),
        None => 0,
    }
}

/// A decimal string that denotes a field element.
pub open spec fn parses_field_elem(s: Seq<char>) -> bool {
    s.len() > 0 && all_digits(s) && dec_value(s) < field_modulus()
}

/// The relayer values that mean "no relayer".
pub open spec fn spec_no_relayer(s: Seq<char>) -> bool {
    s.len() == 0 || s =~= seq!['0']
}

/// Whether the five withdrawal parameters encode at all.
pub open spec fn spec_signal_ok(
    root: Seq<char>,
    nullifier_hash: Seq<char>,
    recipient: Seq<char>,
    relayer: Seq<char>,
) -> bool {
    &&& parses_field_elem(root)
    &&& parses_field_elem(nullifier_hash)
    &&& parses_addr(recipient)
    &&& (spec_no_relayer(relayer) || parses_addr(relayer))
}

/// The encoded vector, in the order the circuit expects.
pub open spec fn spec_signals(
    root: Seq<char>,
    nullifier_hash: Seq<char>,
    recipient: Seq<char>,
    relayer: Seq<char>,
    fee: nat,
) -> Seq<nat> {
    seq![
        dec_value(root),
        dec_value(nullifier_hash),
        addr_value(recipient),
        if spec_no_relayer(relayer) {
            0
        } else {
            addr_value(relayer)
        },
        fee,
    ]
}

/// The ordered public inputs of one withdrawal, built once per request and
/// handed to the proof verifier; never persisted.
#[derive(Clone, Debug, PartialEq)]
pub struct PublicSignals {
    pub signals: Vec<FieldElement>,
}

impl PublicSignals {
    /// Encodes the five withdrawal parameters, in the documented order.
    /// Fails exactly when some component cannot be rendered as a field
    /// element.
    pub fn from_values(
        root: String,
        nullifier_hash: String,
        recipient: String,
        relayer: String,
        fee: u128,
    ) -> (r: Result<PublicSignals, ContractError>)
        ensures
            match r {
                Ok(ps) => {
                    &&& spec_signal_ok(root@, nullifier_hash@, recipient@, relayer@)
                    &&& ps.signals@.len() == 5
                    &&& forall|i: int|
                        0 <= i < 5 ==> (#[trigger] ps.signals@[i])@ == spec_signals(
                            root@,
                            nullifier_hash@,
                            recipient@,
                            relayer@,
                            fee as nat,
                        )[i]
                    &&& forall|i: int| 0 <= i < 5 ==> (#[trigger] ps.signals@[i]).canonical()
                },
                Err(e) => {
                    &&& e == ContractError::MalformedSignal
                    &&& !spec_signal_ok(root@, nullifier_hash@, recipient@, relayer@)
                },
            },
    {
        let root_fe = match FieldElement::from_decimal_str(root.as_str()) {
            Some(f) => f,
            None => { return Err(ContractError::MalformedSignal) },
        };
        let nullifier_fe = match FieldElement::from_decimal_str(nullifier_hash.as_str()) {
            Some(f) => f,
            None => { return Err(ContractError::MalformedSignal) },
        };
        let recipient_fe = match addr_to_field(recipient.as_str()) {
            Some(f) => f,
            None => { return Err(ContractError::MalformedSignal) },
        };
        let relayer_fe = if is_no_relayer(relayer.as_str()) {
            FieldElement::zero()
        } else {
            match addr_to_field(relayer.as_str()) {
                Some(f) => f,
                None => { return Err(ContractError::MalformedSignal) },
            }
        };
        let fee_fe = FieldElement::from_u128(fee);
        let mut signals: Vec<FieldElement> = Vec::new();
        signals.push(root_fe);
        signals.push(nullifier_fe);
        signals.push(recipient_fe);
        signals.push(relayer_fe);
        signals.push(fee_fe);
        Ok(PublicSignals { signals })
    }

    /// Hands out the ordered vector for the verifier.
    pub fn get(self) -> (r: Vec<FieldElement>)
        ensures
            r@ == self.signals@,
    {
        self.signals
    }
}

/// Decides whether the relayer string is the "no relayer" convention:
/// empty, or the literal sentinel `"0"`.
pub fn is_no_relayer(s: &str) -> (r: bool)
    ensures
        r == spec_no_relayer(s@),
{
    if !s.is_ascii() {
        return false;
    }
    let bytes = s.as_bytes();
    if bytes.len() == 0 {
        true
    } else if bytes.len() == 1 {
        proof {
            assert(s@[0] as u8 == bytes@[0]);
        }
        bytes[0] == 48
    } else {
        false
    }
}

/// Relies on bech32::decode, the checksum-verified parse of an address
/// string into its 5-bit data part, together with that crate's
/// regrouping of the data into bytes (Vec::<u8>::from_base32): one
/// decoding of an address string into its data bytes, a deterministic
/// function of the string alone.
#[verifier::external_body]
fn bech32_decode_bytes(s: &str) -> (r: Option<Vec<u8>>)
    ensures
        match r {
            Some(v) => spec_bech32_bytes(s@) == Some(v@),
            None => spec_bech32_bytes(s@) is None,
        },
{
    match bech32::decode(s) {
        Ok((_hrp, data, _variant)) => <Vec<u8> as bech32::FromBase32>::from_base32(&data).ok(),
        Err(_) => None,
    }
}

/// Encodes an address string into a field element: bech32-decodes it and
/// packs the data bytes as a base-256 numeral, most significant first.
/// Succeeds exactly on well-formed addresses whose data packs into the
/// field.
pub fn addr_to_field(s: &str) -> (r: Option<FieldElement>)
    ensures
        match r {
            Some(f) => {
                &&& parses_addr(s@)
                &&& f@ == addr_value(s@)
                &&& f.canonical()
            },
            None => !parses_addr(s@),
        },
{
    let data = match bech32_decode_bytes(s) {
        Some(v) => v,
        None => { return None },
    };
    let n = data.len();
    if n > MAX_ADDRESS_DATA_BYTES {
        return None;
    }
    let mut acc = FieldElement::zero();
    let mut i: usize = 0;
    proof {
        assert(data@.subrange(0, 0) =~= Seq::<u8>::empty());
        lemma2_to64();
    }
    while i < n
        invariant
            i <= n,
            n <= MAX_ADDRESS_DATA_BYTES,
            n == data@.len(),
            spec_bech32_bytes(s@) == Some(data@),
            acc@ == bytes_value(data@.subrange(0, i as int)),
            acc@ < pow2((8 * i) as nat),
        decreases n - i,
    {
        let byte = data[i];
        proof {
            lemma_pow2_adds((8 * i) as nat, 8);
            lemma2_to64();
            lemma_pow2_le_bound((8 * i + 8) as nat);
        }
        acc = mul256_add(&acc, byte);
        proof {
            let t = data@.subrange(0, i as int + 1);
            assert(t.drop_last() =~= data@.subrange(0, i as int));
            assert(t.last() == data@[i as int]);
        }
        i = i + 1;
    }
    proof {
        assert(data@.subrange(0, n as int) =~= data@);
        lemma_pow2_le_bound((8 * n) as nat);
        lemma_field_modulus_big();
    }
    Some(acc)
}

/// One step of base-256 accumulation across the four limbs. The bound on
/// the argument rules overflow out.
fn mul256_add(f: &FieldElement, d: u8) -> (r: FieldElement)
    requires
        256 * f@ + d < value_bound(),
    ensures
        r@ == 256 * f@ + d,
{
    let t0: u128 = f.l0 as u128 * 256 + d as u128;
    let n0: u64 = (t0 % 0x1_0000_0000_0000_0000) as u64;
    let c0: u128 = t0 / 0x1_0000_0000_0000_0000;
    let t1: u128 = f.l1 as u128 * 256 + c0;
    let n1: u64 = (t1 % 0x1_0000_0000_0000_0000) as u64;
    let c1: u128 = t1 / 0x1_0000_0000_0000_0000;
    let t2: u128 = f.l2 as u128 * 256 + c1;
    let n2: u64 = (t2 % 0x1_0000_0000_0000_0000) as u64;
    let c2: u128 = t2 / 0x1_0000_0000_0000_0000;
    let t3: u128 = f.l3 as u128 * 256 + c2;
    let n3: u64 = (t3 % 0x1_0000_0000_0000_0000) as u64;
    let c3: u128 = t3 / 0x1_0000_0000_0000_0000;
    proof {
        let b: int = limb_radix() as int;
        lemma_fundamental_div_mod(t0 as int, b);
        lemma_fundamental_div_mod(t1 as int, b);
        lemma_fundamental_div_mod(t2 as int, b);
        lemma_fundamental_div_mod(t3 as int, b);
    }
    let out = FieldElement { l0: n0, l1: n1, l2: n2, l3: n3 };
    proof {
        assert(out@ + value_bound() * c3 == 256 * f@ + d) by (nonlinear_arith)
            requires
                limb_radix() == 0x1_0000_0000_0000_0000,
                value_bound() == limb_radix() * limb_radix() * limb_radix() * limb_radix(),
                out@ == n0 + limb_radix() * (n1 + limb_radix() * (n2 + limb_radix() * n3)),
                f@ == f.l0 + limb_radix() * (f.l1 + limb_radix() * (f.l2 + limb_radix()
                    * f.l3)),
                t0 == f.l0 * 256 + d,
                t1 == f.l1 * 256 + c0,
                t2 == f.l2 * 256 + c1,
                t3 == f.l3 * 256 + c2,
                t0 == limb_radix() * c0 + n0,
                t1 == limb_radix() * c1 + n1,
                t2 == limb_radix() * c2 + n2,
                t3 == limb_radix() * c3 + n3,
        ;
        assert(out@ >= 0);
        if c3 != 0 {
            assert(out@ + value_bound() * c3 >= value_bound()) by (nonlinear_arith)
                requires
                    out@ >= 0,
                    c3 >= 1,
                    value_bound() > 0,
            ;
        }
    }
    out
}

/// Powers of two up to 2^248 stay below both 2^256 and the field modulus.
proof fn lemma_pow2_le_bound(e: nat)
    requires
        e <= 248,
    ensures
        pow2(e) <= pow2(248),
        pow2(248) < field_modulus(),
        field_modulus() < value_bound(),
{
    if e < 248 {
        vstd::arithmetic::power2::lemma_pow2_strictly_increases(e, 248);
    }
    lemma_field_modulus_big();
}

/// The field modulus lies strictly between 2^248 and 2^256.
proof fn lemma_field_modulus_big()
    ensures
        pow2(248) < field_modulus(),
        field_modulus() < value_bound(),
{
    lemma2_to64();
    lemma2_to64_rest();
    lemma_pow2_adds(64, 64);
    lemma_pow2_adds(128, 64);
    lemma_pow2_adds(192, 56);
    assert(pow2(248) == pow2(192) * 0x100_0000_0000_0000);
    assert(pow2(192) == limb_radix() * limb_radix() * limb_radix());
    assert(pow2(248) < field_modulus()) by (nonlinear_arith)
        requires
            pow2(248) == limb_radix() * limb_radix() * limb_radix() * 0x100_0000_0000_0000,
            limb_radix() == 0x1_0000_0000_0000_0000,
            field_modulus() == 0x43e1f593f0000001 + limb_radix() * (0x2833e84879b97091
                + limb_radix() * (0xb85045b68181585d + limb_radix() * 0x30644e72e131a029)),
    ;
    assert(field_modulus() < value_bound()) by (nonlinear_arith)
        requires
            limb_radix() == 0x1_0000_0000_0000_0000,
            value_bound() == limb_radix() * limb_radix() * limb_radix() * limb_radix(),
            field_modulus() == 0x43e1f593f0000001 + limb_radix() * (0x2833e84879b97091
                + limb_radix() * (0xb85045b68181585d + limb_radix() * 0x30644e72e131a029)),
    ;
}

} // verus!
