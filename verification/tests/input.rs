use wmux::input::{encode_key, encode_key_record, encode_mouse_sgr, encode_paste, encode_send_key, MouseButton};
use wmux::keys::{Key, KeyCode, KeyRecord};

#[test]
fn win32_record() {
    let r = KeyRecord { down: true, repeat: 1, vk: 0x41, sc: 30, ch: 97, ctrl: 0 };
    assert_eq!(encode_key_record(&r), b"\x1b[65;30;97;1;0;1_");
    let up = KeyRecord { down: false, ..r };
    assert_eq!(encode_key_record(&up), b"\x1b[65;30;97;0;0;1_");
}

#[test]
fn vt_keys() {
    assert_eq!(encode_key(Key::ch('a'), false), b"a");
    assert_eq!(encode_key(Key::ctrl('c'), false), b"\x03");
    assert_eq!(encode_key(Key::ctrl(' '), false), b"\x00");
    assert_eq!(encode_key(Key::alt('x'), false), b"\x1bx");
    assert_eq!(encode_key(Key::plain(KeyCode::Enter), false), b"\r");
    assert_eq!(encode_key(Key::plain(KeyCode::Up), false), b"\x1b[A");
    assert_eq!(encode_key(Key::plain(KeyCode::Up), true), b"\x1bOA");
    assert_eq!(encode_key(Key::with_ctrl(KeyCode::Right), false), b"\x1b[1;5C");
    assert_eq!(encode_key(Key::with_shift(KeyCode::Tab), false), b"\x1b[Z");
    assert_eq!(encode_key(Key::plain(KeyCode::PPage), false), b"\x1b[5~");
    assert_eq!(encode_key(Key::with_shift(KeyCode::DC), false), b"\x1b[3;2~");
    assert_eq!(encode_key(Key::plain(KeyCode::F(1)), false), b"\x1bOP");
    assert_eq!(encode_key(Key::plain(KeyCode::F(5)), false), b"\x1b[15~");
    assert_eq!(encode_key(Key::with_alt(KeyCode::F(12)), false), b"\x1b[24;3~");
    assert_eq!(encode_key(Key::ch('é'), false), "é".as_bytes());
}

#[test]
fn send_keys_words() {
    assert_eq!(encode_send_key("ls", false), b"ls");
    assert_eq!(encode_send_key("Enter", false), b"\r");
    assert_eq!(encode_send_key("C-c", false), b"\x03");
    assert_eq!(encode_send_key("x", false), b"x");
    assert_eq!(encode_send_key("Up", false), b"\x1b[A");
}

#[test]
fn sgr_mouse() {
    assert_eq!(encode_mouse_sgr(MouseButton::Left, false, false, false, false, false, 0, 0), b"\x1b[<0;1;1M");
    assert_eq!(encode_mouse_sgr(MouseButton::Left, false, true, false, false, false, 9, 4), b"\x1b[<0;10;5m");
    assert_eq!(encode_mouse_sgr(MouseButton::WheelUp, false, false, false, false, true, 0, 0), b"\x1b[<80;1;1M");
    assert_eq!(encode_mouse_sgr(MouseButton::NoButton, true, false, false, false, false, 2, 2), b"\x1b[<35;3;3M");
}

#[test]
fn paste() {
    assert_eq!(encode_paste("a\r\nb\n", false), b"a\rb\r");
    assert_eq!(encode_paste("x", true), b"\x1b[200~x\x1b[201~");
}
