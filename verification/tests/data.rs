use logix::sim::primitives::data::Data;

#[test]
fn test_data() {
    let d1 = Data::new(0b1010, 4);
    let d2 = Data::new(0b1100, 4);

    assert_eq!((d1 & d2).value, 0b1000);
    assert_eq!((d1 | d2).value, 0b1110);
    assert_eq!((d1 ^ d2).value, 0b0110);
    assert_eq!((!d1).value, 0b0101);
}

#[test]
fn test_bool() {
    let d1 = Data::bit(true);
    let d2 = Data::bit(false);

    assert_eq!(d1.as_bool(), true);
    assert_eq!(d2.as_bool(), false);
}

#[test]
fn test_display() {
    let d1 = Data::bit(true);
    let d2 = Data::bit(false);

    assert_eq!(d1.to_string(), "🟩");
    assert_eq!(d2.to_string(), "⬛");
}
