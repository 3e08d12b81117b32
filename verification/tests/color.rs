use rbtree::Color;

#[test]
fn inc_steps_up_in_blackness() {
    assert_eq!(Color::NegativeBlack.inc(), Color::Red);
    assert_eq!(Color::Red.inc(), Color::Black);
    assert_eq!(Color::Black.inc(), Color::DoubleBlack);
}

#[test]
fn dec_steps_down_in_blackness() {
    assert_eq!(Color::DoubleBlack.dec(), Color::Black);
    assert_eq!(Color::Black.dec(), Color::Red);
    assert_eq!(Color::Red.dec(), Color::NegativeBlack);
}

#[test]
fn inc_and_dec_undo_each_other() {
    for c in [Color::Red, Color::Black] {
        assert_eq!(c.inc().dec(), c);
        assert_eq!(c.dec().inc(), c);
    }
    assert_eq!(Color::NegativeBlack.inc().dec(), Color::NegativeBlack);
    assert_eq!(Color::DoubleBlack.dec().inc(), Color::DoubleBlack);
}
