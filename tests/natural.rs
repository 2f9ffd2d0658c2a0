use kaprekar::natural::Natural;

#[test]
fn numbers_from_integers_and_text() {
    assert_eq!(Natural::from_u64(0).digits, vec![0]);
    assert_eq!(Natural::from_u64(6174).digits, vec![6, 1, 7, 4]);
    assert_eq!(Natural::zero(), Natural::from_u64(0));
    assert_eq!(Natural::parse(b"00123"), Some(Natural::from_u64(123)));
    assert_eq!(Natural::parse(b"18446744073709551616").unwrap().to_text(), b"18446744073709551616".to_vec());
    assert_eq!(Natural::parse(b""), None);
    assert_eq!(Natural::parse(b"12a"), None);
    assert_eq!(Natural::parse(b"-3"), None);
}

#[test]
fn successor_and_order() {
    assert_eq!(Natural::from_u64(999).successor(), Natural::from_u64(1000));
    assert_eq!(Natural::parse(b"18446744073709551615").unwrap().successor().to_text(), b"18446744073709551616".to_vec());
    assert!(Natural::from_u64(99).le(&Natural::from_u64(100)));
    assert!(Natural::from_u64(100).le(&Natural::from_u64(100)));
    assert!(!Natural::from_u64(101).le(&Natural::from_u64(100)));
    assert!(Natural::from_u64(5).equals(&Natural::from_u64(5)));
    assert!(!Natural::from_u64(5).equals(&Natural::from_u64(50)));
}

#[test]
fn text_of_numbers() {
    assert_eq!(Natural::from_u64(0).to_text(), b"0".to_vec());
    assert_eq!(Natural::from_u64(495).to_text(), b"495".to_vec());
}
