use passgen::getpass::{KeyAction, MaskedInput};

#[test]
fn keys_build_the_password() {
    let mut s = MaskedInput::new();
    assert_eq!(s.on_key(b'a'), KeyAction::Mask);
    s.masked_with_char('*');
    assert_eq!(s.on_key(b'b'), KeyAction::Mask);
    s.masked_with_text("🔒");
    assert_eq!(s.password, vec!['a', 'b']);
    assert_eq!(s.mask_widths, vec![1, 2]);
    assert_eq!(s.position(), 2);
    assert_eq!(s.on_key(b'\r'), KeyAction::Finish);
    assert_eq!(s.password, vec!['a', 'b']);
}

#[test]
fn backspace_erases_last_mask() {
    let mut s = MaskedInput::new();
    s.on_key(b'x');
    s.masked_with_text("🔒");
    assert_eq!(s.on_key(0x7f), KeyAction::Erase(2));
    assert!(s.password.is_empty());
    assert_eq!(s.on_key(0x08), KeyAction::Erase(0));
    assert_eq!(s.position(), 0);
    assert_eq!(s.on_key(b'\n'), KeyAction::Finish);
}

#[test]
fn control_mask_counts_one_column() {
    let mut s = MaskedInput::new();
    s.on_key(b'k');
    s.masked_with_char('\u{7}');
    assert_eq!(s.mask_widths, vec![1]);
}
