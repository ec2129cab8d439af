//! Handles and their indirect mark.

use atelier_loader::ids::LoadHandle;

#[test]
fn indirect_mark_is_the_top_bit() {
    assert!(!LoadHandle(1).is_indirect());
    assert!(LoadHandle(1).set_indirect().is_indirect());
    assert_eq!(LoadHandle(1).set_indirect(), LoadHandle(0x8000_0000_0000_0001));
    assert_eq!(LoadHandle(5).set_indirect().set_indirect(), LoadHandle(5).set_indirect());
}
