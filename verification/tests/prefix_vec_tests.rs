use miso_types::element::Element;
use miso_types::elements::Blank;
use miso_types::elements::Flag;
use miso_types::error::Error;
use miso_types::hint::cautious_hint;
use miso_types::U16PrefixVec;
use miso_types::U8PrefixVec;

#[test]
fn it_serializes_u8s() {
    let result = U8PrefixVec::<u8>::from(vec![1, 2, 3, 4]).encode().unwrap();
    assert_eq!(result, vec![4, 1, 2, 3, 4]);
}

#[test]
fn it_serializes_u16s() {
    let result = U8PrefixVec::<u16>::from(vec![1, 2, 3, 4]).encode().unwrap();
    assert_eq!(result, vec![4, 1, 0, 2, 0, 3, 0, 4, 0]);
}

#[test]
fn it_deserializes_u8s() {
    let result = U8PrefixVec::<u8>::decode(&[4, 1, 2, 3, 4]).unwrap();
    assert_eq!(result.0 .0, vec![1, 2, 3, 4]);
}

#[test]
fn it_deserializes_u16s() {
    let result = U8PrefixVec::<u16>::decode(&[4, 1, 0, 2, 0, 3, 0, 4, 0]).unwrap();
    assert_eq!(result.0 .0, vec![1, 2, 3, 4]);
}

#[test]
fn round_trip_narrow_u8() {
    let data: Vec<u8> = (0..200u16).map(|x| (x % 251) as u8).collect();
    let bytes = U8PrefixVec::from(data.clone()).encode().unwrap();
    let (back, used) = U8PrefixVec::<u8>::decode(&bytes).unwrap();
    assert_eq!(back.0, data);
    assert_eq!(used, bytes.len());
}

#[test]
fn round_trip_wide_u16() {
    let data: Vec<u16> = (0..1000u32).map(|x| (x * 13 % 65536) as u16).collect();
    let bytes = U16PrefixVec::from(data.clone()).encode().unwrap();
    let (back, used) = U16PrefixVec::<u16>::decode(&bytes).unwrap();
    assert_eq!(back.0, data);
    assert_eq!(used, bytes.len());
}

#[test]
fn round_trip_flags() {
    let data = vec![Flag(true), Flag(false), Flag(false), Flag(true)];
    let bytes = U8PrefixVec::from(data.clone()).encode().unwrap();
    assert_eq!(bytes, vec![4, 1, 0, 0, 1]);
    let (back, used) = U8PrefixVec::<Flag>::decode(&bytes).unwrap();
    assert_eq!(back.0, data);
    assert_eq!(used, 5);
}

#[test]
fn round_trip_blanks() {
    let data = vec![Blank, Blank, Blank];
    let bytes = U8PrefixVec::from(data.clone()).encode().unwrap();
    assert_eq!(bytes, vec![3]);
    let (back, used) = U8PrefixVec::<Blank>::decode(&bytes).unwrap();
    assert_eq!(back.0.len(), 3);
    assert_eq!(used, 1);
}

#[test]
fn narrow_bound_is_enforced() {
    let at_max: Vec<u8> = vec![7; 255];
    let bytes = U8PrefixVec::from(at_max.clone()).encode().unwrap();
    assert_eq!(bytes.len(), 256);
    assert_eq!(bytes[0], 255);
    let (back, used) = U8PrefixVec::<u8>::decode(&bytes).unwrap();
    assert_eq!(back.0, at_max);
    assert_eq!(used, 256);
    let over: Vec<u8> = vec![7; 256];
    assert_eq!(
        U8PrefixVec::from(over).encode(),
        Err(Error::CountOverflow)
    );
}

#[test]
fn wide_bound_is_enforced() {
    let at_max: Vec<u8> = vec![9; 65535];
    let bytes = U16PrefixVec::from(at_max.clone()).encode().unwrap();
    assert_eq!(bytes.len(), 65537);
    assert_eq!(&bytes[..2], &[255, 255]);
    let (back, used) = U16PrefixVec::<u8>::decode(&bytes).unwrap();
    assert_eq!(back.0, at_max);
    assert_eq!(used, 65537);
    let over: Vec<u8> = vec![9; 65536];
    assert_eq!(
        U16PrefixVec::from(over).encode(),
        Err(Error::CountOverflow)
    );
}

#[test]
fn truncated_input_is_rejected() {
    assert!(matches!(U8PrefixVec::<u8>::decode(&[]), Err(Error::Truncated)));
    assert!(matches!(
        U8PrefixVec::<u8>::decode(&[3, 1, 2]),
        Err(Error::Truncated)
    ));
    assert!(matches!(
        U8PrefixVec::<u16>::decode(&[2, 1, 0, 2]),
        Err(Error::Truncated)
    ));
    assert!(matches!(U16PrefixVec::<u8>::decode(&[1]), Err(Error::Truncated)));
    assert!(matches!(
        U16PrefixVec::<u8>::decode(&[2, 0, 5]),
        Err(Error::Truncated)
    ));
}

#[test]
fn huge_claimed_count_is_rejected_up_front() {
    let (claim_lo, claim_hi) = (255u8, 255u8);
    let input = vec![claim_lo, claim_hi, 1, 2, 3];
    assert!(matches!(
        U16PrefixVec::<u16>::decode(&input),
        Err(Error::Truncated)
    ));
}

#[test]
fn reservation_respects_the_byte_budget() {
    assert_eq!(cautious_hint(10, 1), 10);
    assert_eq!(cautious_hint(65535, 1), 4096);
    assert_eq!(cautious_hint(65535, 2), 2048);
    assert_eq!(cautious_hint(0, 1), 1);
    assert_eq!(cautious_hint(5, 8192), 1);
}

#[test]
fn empty_sequence_is_the_bare_prefix() {
    let narrow = U8PrefixVec::<u8>::from(vec![]).encode().unwrap();
    assert_eq!(narrow, vec![0]);
    let (back, used) = U8PrefixVec::<u8>::decode(&narrow).unwrap();
    assert!(back.0.is_empty());
    assert_eq!(used, 1);

    let wide = U16PrefixVec::<u16>::from(vec![]).encode().unwrap();
    assert_eq!(wide, vec![0, 0]);
    let (back, used) = U16PrefixVec::<u16>::decode(&wide).unwrap();
    assert!(back.0.is_empty());
    assert_eq!(used, 2);
}

#[test]
fn invalid_element_byte_is_rejected() {
    assert!(matches!(
        U8PrefixVec::<Flag>::decode(&[2, 1, 2]),
        Err(Error::ElementError)
    ));
}

#[test]
fn trailing_bytes_are_left_alone() {
    let (vec, used) = U8PrefixVec::<u8>::decode(&[1, 7, 99, 100]).unwrap();
    assert_eq!(vec.0, vec![7]);
    assert_eq!(used, 2);
}

#[test]
fn wide_prefix_is_little_endian() {
    let data: Vec<u8> = vec![5; 300];
    let bytes = U16PrefixVec::from(data).encode().unwrap();
    assert_eq!(bytes[0], 44);
    assert_eq!(bytes[1], 1);
}

#[test]
fn element_wire_widths() {
    assert_eq!(<u8 as Element>::wire_width_exec(), 1);
    assert_eq!(<u16 as Element>::wire_width_exec(), 2);
    assert_eq!(<Flag as Element>::wire_width_exec(), 1);
    assert_eq!(<Blank as Element>::wire_width_exec(), 0);
    assert!(<u8 as Element>::flat_exec());
    assert!(<u16 as Element>::flat_exec());
    assert!(!<Flag as Element>::flat_exec());
    assert!(!<Blank as Element>::flat_exec());
}
