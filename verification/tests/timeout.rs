use diveno::game::timeout::{immediately, Timeout};

#[test]
fn order() {
    assert!(Timeout::Forever > Timeout::Milliseconds(12));
    assert!(Timeout::Milliseconds(11) > Timeout::Milliseconds(10));

    assert_eq!(
        Timeout::Forever.min(Timeout::Milliseconds(12)),
        Timeout::Milliseconds(12),
    );
}

#[test]
fn immediately_is_zero_milliseconds() {
    assert_eq!(immediately(), Timeout::Milliseconds(0));
    assert!(immediately() < Timeout::Milliseconds(1));
    assert!(immediately() < Timeout::Forever);
}
