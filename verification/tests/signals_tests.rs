use bech32::{FromBase32, ToBase32, Variant};
use juicer::error::ContractError;
use juicer::field::FieldElement;
use juicer::signals::PublicSignals;

const RECIPIENT: &str = "juno14spgzl9ps5tyev32ny74fa6m0s9q9828v0vrga";
const RELAYER: &str = "juno1am5sw4geda8xfvmn4pkzruhv8ah0l3jx5hgchh";

/// Computes, independently of the library, the field element an address
/// encodes to: bech32-decode, then pack the data bytes base-256, most
/// significant first.
fn addr_fe(addr: &str) -> FieldElement {
    let (_hrp, data, _variant) = bech32::decode(addr).unwrap();
    let bytes: Vec<u8> = Vec::<u8>::from_base32(&data).unwrap();
    assert!(bytes.len() <= 31);
    let mut padded = [0u8; 32];
    padded[32 - bytes.len()..].copy_from_slice(&bytes);
    let le = cosmwasm_std::Uint256::from_be_bytes(padded).to_le_bytes();
    FieldElement {
        l0: u64::from_le_bytes(le[0..8].try_into().unwrap()),
        l1: u64::from_le_bytes(le[8..16].try_into().unwrap()),
        l2: u64::from_le_bytes(le[16..24].try_into().unwrap()),
        l3: u64::from_le_bytes(le[24..32].try_into().unwrap()),
    }
}

#[test]
fn test_from_decimal_str_basic() {
    assert_eq!(
        FieldElement::from_decimal_str("0"),
        Some(FieldElement::zero())
    );
    assert_eq!(
        FieldElement::from_decimal_str("42"),
        Some(FieldElement::from_u128(42))
    );
    assert_eq!(
        FieldElement::from_decimal_str("007"),
        Some(FieldElement::from_u128(7))
    );
    assert_eq!(
        FieldElement::from_decimal_str("340282366920938463463374607431768211455"),
        Some(FieldElement::from_u128(u128::MAX))
    );
    assert_eq!(FieldElement::from_decimal_str(""), None);
    assert_eq!(FieldElement::from_decimal_str("12a3"), None);
    assert_eq!(FieldElement::from_decimal_str("-1"), None);
    assert_eq!(FieldElement::from_decimal_str("1 2"), None);
}

#[test]
fn test_from_decimal_str_field_boundary() {
    // The modulus itself is out of range; one less is the largest element.
    let modulus = "21888242871839275222246405745257275088548364400416034343698204186575808495617";
    let max_elem = "21888242871839275222246405745257275088548364400416034343698204186575808495616";
    assert_eq!(FieldElement::from_decimal_str(modulus), None);
    let f = FieldElement::from_decimal_str(max_elem).unwrap();
    assert_eq!(f.l0, 0x43e1f593f0000000);
    assert_eq!(f.l1, 0x2833e84879b97091);
    assert_eq!(f.l2, 0xb85045b68181585d);
    assert_eq!(f.l3, 0x30644e72e131a029);
    // Far past the field and past 256 bits.
    let huge = "999999999999999999999999999999999999999999999999999999999999999999999999999999";
    assert_eq!(FieldElement::from_decimal_str(huge), None);
}

#[test]
fn test_field_element_compare() {
    let a = FieldElement::from_u128(5);
    let b = FieldElement::from_u128(6);
    assert!(a.lt(&b));
    assert!(!b.lt(&a));
    assert!(!a.lt(&a));
    assert!(a.equals(&a));
    assert!(!a.equals(&b));
    assert!(FieldElement::zero().is_zero());
    assert!(!b.is_zero());
}

#[test]
fn test_signals_order_and_values() {
    let ps = PublicSignals::from_values(
        "123".to_string(),
        "456".to_string(),
        RECIPIENT.to_string(),
        "".to_string(),
        7,
    )
    .unwrap();
    let v = ps.get();
    assert_eq!(v.len(), 5);
    assert_eq!(v[0], FieldElement::from_u128(123));
    assert_eq!(v[1], FieldElement::from_u128(456));
    assert_eq!(v[2], addr_fe(RECIPIENT));
    assert_eq!(v[3], FieldElement::zero());
    assert_eq!(v[4], FieldElement::from_u128(7));
}

#[test]
fn test_signals_original_withdrawal_parameters() {
    // The exact public parameters of a real withdrawal must encode.
    let ps = PublicSignals::from_values(
        "7867364560627547019086598689541673085228895175200585554350937642876639323043"
            .to_string(),
        "54154714943715201094961901040590459639892306160131965986154511512546000403"
            .to_string(),
        RECIPIENT.to_string(),
        RELAYER.to_string(),
        0,
    )
    .unwrap();
    assert_eq!(ps.signals[2], addr_fe(RECIPIENT));
    assert_eq!(ps.signals[3], addr_fe(RELAYER));
}

#[test]
fn test_signals_relayer_sentinel() {
    let none = PublicSignals::from_values(
        "1".to_string(),
        "2".to_string(),
        RECIPIENT.to_string(),
        "0".to_string(),
        0,
    )
    .unwrap();
    assert_eq!(none.signals[3], FieldElement::zero());

    let some = PublicSignals::from_values(
        "1".to_string(),
        "2".to_string(),
        RECIPIENT.to_string(),
        RELAYER.to_string(),
        0,
    )
    .unwrap();
    assert_eq!(some.signals[3], addr_fe(RELAYER));
}

#[test]
fn test_signals_malformed() {
    // Non-numeric root.
    assert_eq!(
        PublicSignals::from_values(
            "x".to_string(),
            "2".to_string(),
            RECIPIENT.to_string(),
            "".to_string(),
            0,
        ),
        Err(ContractError::MalformedSignal)
    );
    // Nullifier hash at the field modulus.
    assert_eq!(
        PublicSignals::from_values(
            "1".to_string(),
            "21888242871839275222246405745257275088548364400416034343698204186575808495617"
                .to_string(),
            RECIPIENT.to_string(),
            "".to_string(),
            0,
        ),
        Err(ContractError::MalformedSignal)
    );
    // A recipient that is not a bech32 address at all.
    assert_eq!(
        PublicSignals::from_values(
            "1".to_string(),
            "2".to_string(),
            "not_an_address".to_string(),
            "".to_string(),
            0,
        ),
        Err(ContractError::MalformedSignal)
    );
    // An address with a corrupted checksum.
    let mut corrupted = RECIPIENT.to_string();
    corrupted.pop();
    corrupted.push('q');
    assert_eq!(
        PublicSignals::from_values(
            "1".to_string(),
            "2".to_string(),
            corrupted,
            "".to_string(),
            0,
        ),
        Err(ContractError::MalformedSignal)
    );
    // An address whose decoded data is too wide for one field element.
    let wide = bech32::encode("juno", [7u8; 32].to_base32(), Variant::Bech32).unwrap();
    assert_eq!(
        PublicSignals::from_values(
            "1".to_string(),
            "2".to_string(),
            wide,
            "".to_string(),
            0,
        ),
        Err(ContractError::MalformedSignal)
    );
    // Decoded data of 31 bytes still fits.
    let fits = bech32::encode("juno", [7u8; 31].to_base32(), Variant::Bech32).unwrap();
    assert!(PublicSignals::from_values(
        "1".to_string(),
        "2".to_string(),
        fits,
        "".to_string(),
        0,
    )
    .is_ok());
}
