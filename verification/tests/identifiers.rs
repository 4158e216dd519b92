use scene_stash::error::Error;
use scene_stash::id::{StableId, HEX_WIDTH};

#[test]
fn hex_form_is_thirty_two_lower_case_digits() {
    let id = StableId::from_bits(0x0123_4567_89ab_cdef_0011_2233_4455_6677);
    assert_eq!(id.to_hex(), b"0123456789abcdef0011223344556677".to_vec());
    assert_eq!(id.to_hex().len(), HEX_WIDTH);
}

#[test]
fn hex_form_pads_with_zeros() {
    assert_eq!(StableId::from_bits(0).to_hex(), b"00000000000000000000000000000000".to_vec());
    assert_eq!(StableId::from_bits(0xff).to_hex(), b"000000000000000000000000000000ff".to_vec());
    assert_eq!(StableId::from_bits(u128::MAX).to_hex(), b"ffffffffffffffffffffffffffffffff".to_vec());
}

#[test]
fn hex_form_reads_back() {
    for bits in [0u128, 1, 0xdead_beef, u128::MAX, 1 << 127, 0x0123_4567_89ab_cdef_0011_2233_4455_6677] {
        let id = StableId::from_bits(bits);
        assert_eq!(StableId::from_hex(&id.to_hex()), Ok(id));
    }
}

#[test]
fn hex_form_reads_either_case() {
    let lower = StableId::from_hex(b"0123456789abcdefabcdef0123456789");
    let upper = StableId::from_hex(b"0123456789ABCDEFABCDEF0123456789");
    assert_eq!(lower, Ok(StableId::from_bits(0x0123_4567_89ab_cdef_abcd_ef01_2345_6789)));
    assert_eq!(upper, lower);
}

#[test]
fn hex_form_of_wrong_width_is_malformed() {
    assert_eq!(StableId::from_hex(b""), Err(Error::MalformedId));
    assert_eq!(StableId::from_hex(b"0123456789abcdef0011223344556"), Err(Error::MalformedId));
    assert_eq!(StableId::from_hex(b"0123456789abcdef00112233445566778"), Err(Error::MalformedId));
}

#[test]
fn hex_form_with_a_stray_byte_is_malformed() {
    assert_eq!(StableId::from_hex(b"0123456789abcdef001122334455667g"), Err(Error::MalformedId));
    assert_eq!(StableId::from_hex(b"0123456789abcdef-011223344556677"), Err(Error::MalformedId));
    assert_eq!(StableId::from_hex(b" 123456789abcdef0011223344556677"), Err(Error::MalformedId));
    assert_eq!(StableId::from_hex(b"0123456789abcdef00112233445566/:"), Err(Error::MalformedId));
    assert_eq!(StableId::from_hex(b"0123456789abcdef00112233445566@G"), Err(Error::MalformedId));
    assert_eq!(StableId::from_hex(b"0123456789abcdef00112233445566`0"), Err(Error::MalformedId));
}

#[test]
fn drawn_identifiers_carry_the_version_and_variant_marks() {
    for _ in 0..64 {
        let id = StableId::random();
        assert_eq!((id.bits >> 76) & 0xf, 4);
        assert_eq!((id.bits >> 62) & 0x3, 2);
    }
}

#[test]
fn drawn_identifiers_differ() {
    let a = StableId::random();
    let b = StableId::random();
    let c = StableId::random();
    assert_ne!(a, b);
    assert_ne!(b, c);
    assert_ne!(a, c);
}

#[test]
fn only_the_component_warning_is_a_warning() {
    let warning = Error::UnregisteredComponent { entity: StableId::from_bits(1), kind: 2 };
    assert!(warning.is_warning());
    assert!(!Error::NoSuchEntity.is_warning());
    assert!(!Error::AlreadyStored.is_warning());
    assert!(!Error::NothingStored.is_warning());
    assert!(!Error::MalformedId.is_warning());
}

#[test]
fn binary_form_is_sixteen_bytes_most_significant_first() {
    let id = StableId::from_bits(0x0123_4567_89ab_cdef_0011_2233_4455_6677);
    assert_eq!(
        id.to_bytes(),
        vec![0x01, 0x23, 0x45, 0x67, 0x89, 0xab, 0xcd, 0xef, 0x00, 0x11, 0x22, 0x33, 0x44, 0x55, 0x66, 0x77]
    );
    assert_eq!(StableId::from_bits(1).to_bytes(), vec![0, 0, 0, 0, 0, 0, 0, 0, 0, 0, 0, 0, 0, 0, 0, 1]);
    assert_eq!(StableId::from_bits(u128::MAX).to_bytes(), vec![0xff; 16]);
}

#[test]
fn binary_form_reads_back() {
    for bits in [0u128, 1, 0xdead_beef, u128::MAX, 1 << 127, 0x0123_4567_89ab_cdef_0011_2233_4455_6677] {
        let id = StableId::from_bits(bits);
        assert_eq!(StableId::from_bytes(&id.to_bytes()), Ok(id));
        assert_eq!(id.to_bytes(), bits.to_be_bytes().to_vec());
    }
    let bytes: Vec<u8> = (1..=16).collect();
    assert_eq!(StableId::from_bytes(&bytes).unwrap().to_bytes(), bytes);
}

#[test]
fn binary_form_of_wrong_width_is_malformed() {
    assert_eq!(StableId::from_bytes(&[]), Err(Error::MalformedId));
    assert_eq!(StableId::from_bytes(&[0; 15]), Err(Error::MalformedId));
    assert_eq!(StableId::from_bytes(&[0; 17]), Err(Error::MalformedId));
}
