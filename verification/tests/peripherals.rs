use blockfs::color::{Color, ColorCode};
use blockfs::fs::FsError;
use blockfs::keyboard::decode_scancode;

#[test]
fn scancodes_decode_to_characters() {
    assert_eq!(decode_scancode(0x02), Some('1'));
    assert_eq!(decode_scancode(0x0B), Some('0'));
    assert_eq!(decode_scancode(0x10), Some('q'));
    assert_eq!(decode_scancode(0x1E), Some('a'));
    assert_eq!(decode_scancode(0x2C), Some('z'));
    assert_eq!(decode_scancode(0x32), Some('m'));
    assert_eq!(decode_scancode(0x39), Some(' '));
    assert_eq!(decode_scancode(0x1C), Some('\n'));
}

#[test]
fn unknown_and_release_scancodes_decode_to_nothing() {
    assert_eq!(decode_scancode(0x00), None);
    assert_eq!(decode_scancode(0x01), None);
    assert_eq!(decode_scancode(0x3A), None);
    // key releases carry the high bit
    assert_eq!(decode_scancode(0x02 | 0x80), None);
    assert_eq!(decode_scancode(0xFF), None);
}

#[test]
fn color_codes_pack_background_high_and_foreground_low() {
    assert_eq!(ColorCode::new(Color::Yellow, Color::Black).code(), 0x0E);
    assert_eq!(ColorCode::new(Color::White, Color::Blue).code(), 0x1F);
    assert_eq!(ColorCode::new(Color::Black, Color::White).code(), 0xF0);
    assert_eq!(ColorCode::new(Color::LightCyan, Color::Red).code(), 0x4B);
}

#[test]
fn error_messages_are_one_liners() {
    assert_eq!(FsError::NotFound.message(), "Not found");
    assert_eq!(FsError::AlreadyExists.message(), "Already exists");
    assert_eq!(FsError::NoSpace.message(), "No space left");
    assert_eq!(FsError::NameTooLong.message(), "Name too long");
    assert_eq!(FsError::TooManyBlocks.message(), "File too large");
    assert_eq!(FsError::InvalidArg.message(), "Invalid argument");
}
