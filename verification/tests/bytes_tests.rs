//! Byte-string renderings, down to the exact characters.

use grovedbg::bytes_utils::bytes_as_hex;
use grovedbg::bytes_utils::bytes_as_signed_int;
use grovedbg::bytes_utils::bytes_as_slice;
use grovedbg::bytes_utils::bytes_as_unsigned_int;
use grovedbg::bytes_utils::bytes_as_varint;
use grovedbg::bytes_utils::bytes_by_display_variant;
use grovedbg::bytes_utils::i64_to_dec_string;
use grovedbg::bytes_utils::u64_to_dec_string;
use grovedbg::bytes_utils::BytesDisplayVariant;
use grovedbg::bytes_utils::BytesInput;
use grovedbg::bytes_utils::BytesView;
use grovedbg::display::bytes_as_int;
use grovedbg::display::DisplayVariant;
use grovedbg::path_ctx::full_path_display;
use grovedbg::path_ctx::PathCtx;

#[test]
fn decimal_renderings() {
    assert_eq!(u64_to_dec_string(0), "0");
    assert_eq!(u64_to_dec_string(1234567890), "1234567890");
    assert_eq!(i64_to_dec_string(-42), "-42");
    assert_eq!(i64_to_dec_string(i64::MIN), "-9223372036854775808");
    assert_eq!(i64_to_dec_string(i64::MAX), "9223372036854775807");
}

#[test]
fn hex_rendering_shortens_long_strings() {
    assert_eq!(bytes_as_hex(&[0xde, 0xad, 0xbe, 0xef]), "deadbeef");
    assert_eq!(bytes_as_hex(&[0x00; 16]), "00000000000000000000000000000000");
    assert_eq!(bytes_as_hex(&[0x11; 33]), "111111111111..111111111111");
}

#[test]
fn integer_renderings_carry_their_width() {
    assert_eq!(bytes_as_signed_int(&[0x00, 0x2a]), "i16: 42");
    assert_eq!(bytes_as_signed_int(&[0xff, 0xff]), "i16: -1");
    assert_eq!(bytes_as_signed_int(&[0x80, 0x00, 0x00, 0x00]), "i32: -2147483648");
    assert_eq!(
        bytes_as_signed_int(&[0x00, 0x00, 0x00, 0x00, 0x00, 0x00, 0x00, 0x07]),
        "i64: 7"
    );
    assert_eq!(bytes_as_signed_int(&[1, 2, 3]), "[E]: must be 2/4/8 bytes");

    assert_eq!(bytes_as_unsigned_int(&[0xff, 0xff]), "u16: 65535");
    assert_eq!(bytes_as_unsigned_int(&[0x00, 0x00, 0x01, 0x00]), "u32: 256");
    assert_eq!(
        bytes_as_unsigned_int(&[0xff, 0xff, 0xff, 0xff, 0xff, 0xff, 0xff, 0xff]),
        "u64: 18446744073709551615"
    );

    assert_eq!(
        bytes_as_int(&[0xff, 0xff, 0xff, 0xff, 0xff, 0xff, 0xff, 0xfe]),
        "-2"
    );
    assert_eq!(bytes_as_int(&[1, 2]), "[E]: must be 8 bytes");
}

#[test]
fn varint_rendering_uses_zigzag() {
    // 0x96 0x01 is the zigzag varint encoding of 75.
    assert_eq!(bytes_as_varint(&[0x96, 0x01]), "75");
    assert_eq!(bytes_as_varint(&[0x01]), "-1");
    assert_eq!(bytes_as_varint(&[0x02]), "1");
    // A continuation bit with nothing after it never terminates.
    assert_eq!(bytes_as_varint(&[0x80]), "varint: MSB");
}

#[test]
fn slice_rendering_shortens_after_ten_bytes() {
    assert_eq!(bytes_as_slice(&[]), "[]");
    assert_eq!(bytes_as_slice(&[1, 2, 3]), "[1, 2, 3]");
    assert_eq!(
        bytes_as_slice(&[1, 2, 3, 4, 5, 6, 7, 8, 9, 10, 11]),
        "[1,2,3,4,5,6,7,8,9,10,..."
    );
}

#[test]
fn display_variant_rendering_prefixes_kinds() {
    assert_eq!(
        bytes_by_display_variant(b"", &BytesDisplayVariant::U8),
        "empty"
    );
    assert_eq!(
        bytes_by_display_variant(b"hello", &BytesDisplayVariant::String),
        "str: hello"
    );
    assert_eq!(
        bytes_by_display_variant(&[0xab], &BytesDisplayVariant::Hex),
        "hex: ab"
    );
    assert_eq!(
        bytes_by_display_variant(&[0x00, 0x2a], &BytesDisplayVariant::SignedInt),
        "i16: 42"
    );
    assert_eq!(
        bytes_by_display_variant(&[0x96, 0x01], &BytesDisplayVariant::VarInt),
        "varint: 75"
    );
}

#[test]
fn guesses_follow_byte_lengths() {
    assert_eq!(BytesDisplayVariant::guess(&[1]), BytesDisplayVariant::U8);
    assert_eq!(
        BytesDisplayVariant::guess(&[1; 8]),
        BytesDisplayVariant::SignedInt
    );
    assert_eq!(
        BytesDisplayVariant::guess(&[1; 32]),
        BytesDisplayVariant::Hex
    );
    assert_eq!(
        BytesDisplayVariant::guess(&[1; 5]),
        BytesDisplayVariant::String
    );

    assert_eq!(DisplayVariant::guess(&[1]), DisplayVariant::U8);
    assert_eq!(DisplayVariant::guess(&[1; 8]), DisplayVariant::Int);
    assert_eq!(DisplayVariant::guess(&[1; 32]), DisplayVariant::Hex);
    assert_eq!(DisplayVariant::guess(&[1; 3]), DisplayVariant::String);
}

#[test]
fn bytes_input_round_trips_decimals() {
    let input = BytesInput::new_from_bytes(vec![1, 2, 3]);
    assert_eq!(input.current_input(), "1 2 3");

    let empty = BytesInput::new();
    assert_eq!(empty.current_input(), "");

    let view = BytesView::new(b"hello".to_vec());
    assert_eq!(view.bytes, b"hello".to_vec());
}

#[test]
fn segment_rendering_follows_its_variant() {
    let mut ctx = PathCtx::new();
    let path = ctx.add_path(vec![b"hello".to_vec()]);
    // Five bytes guess as text.
    let rendered = path.last_segment(&ctx).unwrap().view_by_display();
    assert_eq!(rendered, "str: hello");
}

#[test]
fn full_path_display_brackets_segments() {
    assert_eq!(full_path_display(&vec![]), "Root tree");
    assert_eq!(
        full_path_display(&vec![String::from("a"), String::from("b")]),
        "[a, b]"
    );
}
