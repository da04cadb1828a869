use entropy_codec::util::binary::Bin;

#[test]
fn display_test() {
    let bin = Bin::from_bits(vec![false, false, false, true]);
    assert_eq!(bin.to_binary_string(), "1000".to_string());
}

#[test]
fn from_dec_test() {
    assert_eq!(
        Bin::from_dec(8, 5),
        Ok(Bin::from_bits(vec![false, false, false, true, false]))
    );
    assert_eq!(Bin::from_dec(8, 3), Err(()));
}

#[test]
fn to_dec_test() {
    let bin = Bin::from_dec(8, 10).unwrap();
    assert_eq!(bin.to_dec(), 8);
    let bin = Bin::from_dec(8, 4).unwrap();
    assert_eq!(bin.to_dec(), 8);
}

#[test]
fn from_dec_zero_width() {
    assert_eq!(Bin::from_dec(0, 0).unwrap().unwrap(), Vec::<bool>::new());
    assert_eq!(Bin::from_dec(1, 0), Err(()));
}

#[test]
fn from_dec_boundaries() {
    assert_eq!(
        Bin::from_dec(7, 3).unwrap().unwrap(),
        vec![true, true, true]
    );
    assert_eq!(Bin::from_dec(8, 3), Err(()));
    assert_eq!(Bin::from_dec(4095, 12).unwrap().to_dec(), 4095);
    assert_eq!(Bin::from_dec(4096, 12), Err(()));
}

#[test]
fn dec_round_trip_all_bytes() {
    for v in 0..=255usize {
        let bin = Bin::from_dec(v, 8).unwrap();
        assert_eq!(bin.to_dec(), v);
    }
}

#[test]
fn to_dec_empty() {
    assert_eq!(Bin::from_bits(Vec::new()).to_dec(), 0);
}
