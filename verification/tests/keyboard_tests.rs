use lukes_os::keyboard::{key_char, process_scancode, Key, KernelKeyboard};
use pc_keyboard::KeyCode;

fn keyboard() -> KernelKeyboard {
    KernelKeyboard::new()
}

#[test]
fn letter_press_gives_its_character() {
    let mut kb = keyboard();
    assert_eq!(process_scancode(&mut kb, 0x1E), Some('a'));
    // German layout: the key in the Y position gives 'z'.
    assert_eq!(process_scancode(&mut kb, 0x15), Some('z'));
}

#[test]
fn release_gives_nothing() {
    let mut kb = keyboard();
    assert_eq!(process_scancode(&mut kb, 0x9E), None);
}

#[test]
fn shift_makes_capitals() {
    let mut kb = keyboard();
    assert_eq!(process_scancode(&mut kb, 0x2A), None);
    assert_eq!(process_scancode(&mut kb, 0x1E), Some('A'));
    assert_eq!(process_scancode(&mut kb, 0xAA), None);
    assert_eq!(process_scancode(&mut kb, 0x1E), Some('a'));
}

#[test]
fn extended_prefix_alone_gives_nothing() {
    let mut kb = keyboard();
    assert_eq!(process_scancode(&mut kb, 0xE0), None);
}

#[test]
fn key_char_keeps_only_characters() {
    assert_eq!(key_char(Some(Key::Unicode('x'))), Some('x'));
    assert_eq!(key_char(Some(Key::RawKey(KeyCode::ArrowUp))), None);
    assert_eq!(key_char(None), None);
}

#[test]
fn arrow_key_gives_no_character() {
    let mut kb = keyboard();
    // Extended prefix, then cursor up.
    assert_eq!(process_scancode(&mut kb, 0xE0), None);
    assert_eq!(process_scancode(&mut kb, 0x48), None);
    assert_eq!(process_scancode(&mut kb, 0x1E), Some('a'));
}
