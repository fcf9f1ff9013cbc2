use koi::keys::{
    alt_prefixed, control_byte, encode_key, paste_bytes, scroll_action, sgr_mouse_report, Modifiers, ScrollAction,
    SpecialKey,
};

const NONE: Modifiers = Modifiers { shift: false, alt: false, ctrl: false };
const SHIFT: Modifiers = Modifiers { shift: true, alt: false, ctrl: false };
const ALT: Modifiers = Modifiers { shift: false, alt: true, ctrl: false };
const CTRL: Modifiers = Modifiers { shift: false, alt: false, ctrl: true };
const CTRL_SHIFT: Modifiers = Modifiers { shift: true, alt: false, ctrl: true };

#[test]
fn plain_keys() {
    assert_eq!(encode_key(SpecialKey::Enter, NONE, false), b"\r".to_vec());
    assert_eq!(encode_key(SpecialKey::Backspace, NONE, false), b"\x7f".to_vec());
    assert_eq!(encode_key(SpecialKey::Tab, NONE, false), b"\t".to_vec());
    assert_eq!(encode_key(SpecialKey::Tab, SHIFT, false), b"\x1b[Z".to_vec());
    assert_eq!(encode_key(SpecialKey::Escape, NONE, false), b"\x1b".to_vec());
    assert_eq!(encode_key(SpecialKey::Space, NONE, false), b" ".to_vec());
    assert_eq!(encode_key(SpecialKey::Space, CTRL, false), vec![0]);
}

#[test]
fn cursor_keys_follow_mode_and_modifiers() {
    assert_eq!(encode_key(SpecialKey::ArrowUp, NONE, false), b"\x1b[A".to_vec());
    assert_eq!(encode_key(SpecialKey::ArrowUp, NONE, true), b"\x1bOA".to_vec());
    assert_eq!(encode_key(SpecialKey::ArrowUp, ALT, true), b"\x1b[1;3A".to_vec());
    assert_eq!(encode_key(SpecialKey::ArrowLeft, CTRL, false), b"\x1b[1;5D".to_vec());
    assert_eq!(encode_key(SpecialKey::Home, NONE, false), b"\x1b[H".to_vec());
    assert_eq!(encode_key(SpecialKey::End, NONE, true), b"\x1bOF".to_vec());
}

#[test]
fn editing_and_function_keys() {
    assert_eq!(encode_key(SpecialKey::Delete, NONE, false), b"\x1b[3~".to_vec());
    assert_eq!(encode_key(SpecialKey::Delete, CTRL, false), b"\x1b[3;5~".to_vec());
    assert_eq!(encode_key(SpecialKey::PageUp, NONE, false), b"\x1b[5~".to_vec());
    assert_eq!(encode_key(SpecialKey::PageDown, SHIFT, false), b"\x1b[6;2~".to_vec());
    assert_eq!(encode_key(SpecialKey::F1, NONE, false), b"\x1bOP".to_vec());
    assert_eq!(encode_key(SpecialKey::F2, CTRL_SHIFT, false), b"\x1b[1;6Q".to_vec());
    assert_eq!(encode_key(SpecialKey::F5, NONE, false), b"\x1b[15~".to_vec());
    assert_eq!(encode_key(SpecialKey::F10, NONE, false), b"\x1b[21~".to_vec());
    assert_eq!(encode_key(SpecialKey::F12, SHIFT, false), b"\x1b[24;2~".to_vec());
}

#[test]
fn control_and_alt_text() {
    assert_eq!(control_byte('c'), Some(3));
    assert_eq!(control_byte('C'), Some(3));
    assert_eq!(control_byte('['), Some(27));
    assert_eq!(control_byte('@'), Some(0));
    assert_eq!(control_byte('1'), None);
    assert_eq!(alt_prefixed(&b"x".to_vec()), b"\x1bx".to_vec());
}

#[test]
fn pasted_text_is_bracketed_and_sanitized() {
    assert_eq!(paste_bytes(&b"hi".to_vec(), false), b"hi".to_vec());
    assert_eq!(
        paste_bytes(&b"a\x1b[201~b\x1b[200~c".to_vec(), true),
        b"\x1b[200~abc\x1b[201~".to_vec()
    );
    assert_eq!(paste_bytes(&Vec::new(), true), b"\x1b[200~\x1b[201~".to_vec());
}

#[test]
fn mouse_reports() {
    assert_eq!(sgr_mouse_report(0, 12, 3, false), b"\x1b[<0;12;3M".to_vec());
    assert_eq!(sgr_mouse_report(32, 100, 40, false), b"\x1b[<32;100;40M".to_vec());
    assert_eq!(sgr_mouse_report(0, 1, 1, true), b"\x1b[<0;1;1m".to_vec());
}

#[test]
fn wheel_routing() {
    assert_eq!(scroll_action(0, true, true), ScrollAction::Nothing);
    assert_eq!(scroll_action(3, true, false), ScrollAction::Report { button: 64, count: 3 });
    assert_eq!(scroll_action(-2, true, true), ScrollAction::Report { button: 65, count: 2 });
    assert_eq!(scroll_action(-2, false, true), ScrollAction::Arrows { up: false, count: 2 });
    assert_eq!(scroll_action(5, false, false), ScrollAction::Scrollback(5));
    assert_eq!(scroll_action(i32::MIN, false, true), ScrollAction::Arrows { up: false, count: 2_147_483_648 });
}
