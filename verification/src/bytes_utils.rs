//! Human-readable renderings of raw byte strings.
//!
//! Keys, values and hashes of the store are arbitrary byte strings; the
//! session renders each one according to a chosen [`BytesDisplayVariant`].
//! The spec functions here pin down every rendering character by
//! character.

use integer_encoding::VarInt;
use vstd::prelude::*;

verus! {

/// How a byte string is rendered for the user.
///
/// The choice never affects identity or bookkeeping, only presentation.
#[derive(Debug, Clone, Copy, PartialEq, Eq, Structural)]
pub enum BytesDisplayVariant {
    U8,
    String,
    Hex,
    SignedInt,
    UnsignedInt,
    VarInt,
}

/// The rendering [`BytesDisplayVariant::guess`] picks for a byte string
/// of the given length.
pub open spec fn spec_guess_variant(len: nat) -> BytesDisplayVariant {
    if len == 1 {
        BytesDisplayVariant::U8
    } else if len == 2 || len == 4 || len == 8 {
        BytesDisplayVariant::SignedInt
    } else if len == 32 {
        BytesDisplayVariant::Hex
    } else {
        BytesDisplayVariant::String
    }
}

impl BytesDisplayVariant {
    /// Picks a plausible rendering from the length alone: single bytes as
    /// numbers, machine-word sizes as signed integers, digest-sized
    /// strings as hex, and everything else as text.
    pub fn guess(bytes: &[u8]) -> (r: Self)
        ensures
            r == spec_guess_variant(bytes@.len()),
    {
        match bytes.len() {
            1 => Self::U8,
            2 | 4 | 8 => Self::SignedInt,
            32 => Self::Hex,
            _ => Self::String,
        }
    }
}

/// Byte-string equality, stated over the abstract sequences.
pub fn bytes_eq(a: &Vec<u8>, b: &Vec<u8>) -> (r: bool)
    ensures
        r == (a@ == b@),
{
    let r = a == b;
    proof {
        if r {
            assert(a@ =~= b@);
        } else if a@ == b@ {
            assert(forall|i: int| 0 <= i < a@.len() ==> a@[i] == b@[i]);
            assert(false);
        }
    }
    r
}

/// A copy of a byte string with the very same contents.
pub fn clone_bytes(v: &Vec<u8>) -> (r: Vec<u8>)
    ensures
        r@ == v@,
{
    let r = v.clone();
    proof {
        assert forall|i: int| 0 <= i < v@.len() implies r@[i] == v@[i] by {
            assert(vstd::pervasive::cloned::<u8>(v@[i], r@[i]));
        }
        assert(r@ =~= v@);
    }
    r
}

/// A copy of an address given as raw byte segments.
pub fn clone_path(p: &Vec<Vec<u8>>) -> (r: Vec<Vec<u8>>)
    ensures
        r.deep_view() == p.deep_view(),
        r@.len() == p@.len(),
{
    let n = p.len();
    let mut r: Vec<Vec<u8>> = Vec::new();
    let mut i: usize = 0;
    while i < n
        invariant
            n == p@.len(),
            i <= n,
            r@.len() == i,
            forall|j: int| 0 <= j < i ==> (#[trigger] r@[j])@ == p@[j]@,
        decreases n - i,
    {
        r.push(clone_bytes(&p[i]));
        i += 1;
    }
    proof {
        assert(r.deep_view() =~~= p.deep_view());
    }
    r
}

/// One lowercase hexadecimal digit for a value below 16.
pub open spec fn hex_digit(n: u8) -> char
    recommends
        n < 16,
{
    if n < 10 {
        ((n + 0x30) as u8) as char
    } else {
        ((n + 0x57) as u8) as char
    }
}

/// The full lowercase hexadecimal rendering: two digits for every byte,
/// high nibble first.
pub open spec fn hex_of(bytes: Seq<u8>) -> Seq<char> {
    Seq::new(bytes.len() * 2, |i: int| if i % 2 == 0 {
        hex_digit(bytes[i / 2] / 16)
    } else {
        hex_digit(bytes[i / 2] % 16)
    })
}

/// Relies on hex::encode: the returned string holds exactly two lowercase
/// hexadecimal digits for every input byte, high nibble first.
#[verifier::external_body]
pub(crate) fn hex_encode(bytes: &[u8]) -> (r: String)
    ensures
        r@ == hex_of(bytes@),
{
    hex::encode(bytes)
}

pub proof fn lemma_hex_of_is_ascii(bytes: Seq<u8>)
    ensures
        vstd::utf8::is_ascii_chars(hex_of(bytes)),
{
    assert forall|i: int| 0 <= i < hex_of(bytes).len() implies '\0' <= #[trigger] hex_of(
        bytes,
    )[i] <= '\u{7f}' by {
        assert(hex_of(bytes)[i] as u32 <= 0x66);
    }
}

/// One decimal digit character for a value below 10.
pub open spec fn dec_digit(n: u8) -> char
    recommends
        n < 10,
{
    ((n + 0x30) as u8) as char
}

/// The usual decimal rendering of a non-negative number, most significant
/// digit first, with no leading zeros (a lone `0` for zero).
pub open spec fn dec_str(n: nat) -> Seq<char>
    decreases n,
{
    if n < 10 {
        seq![dec_digit(n as u8)]
    } else {
        dec_str(n / 10) + seq![dec_digit((n % 10) as u8)]
    }
}

fn dec_digit_str(d: u8) -> (r: &'static str)
    requires
        d < 10,
    ensures
        r@ == seq![dec_digit(d)],
        r@.len() == 1,
{
    proof {
        reveal_strlit("0");
        reveal_strlit("1");
        reveal_strlit("2");
        reveal_strlit("3");
        reveal_strlit("4");
        reveal_strlit("5");
        reveal_strlit("6");
        reveal_strlit("7");
        reveal_strlit("8");
        reveal_strlit("9");
    }
    match d {
        0 => "0",
        1 => "1",
        2 => "2",
        3 => "3",
        4 => "4",
        5 => "5",
        6 => "6",
        7 => "7",
        8 => "8",
        _ => "9",
    }
}

/// Renders a number in decimal, exactly as [`dec_str`] describes.
pub fn u64_to_dec_string(n: u64) -> (r: String)
    ensures
        r@ == dec_str(n as nat),
    decreases n,
{
    if n < 10 {
        let digit: &'static str = dec_digit_str(n as u8);
        String::from_str(digit)
    } else {
        let mut prefix = u64_to_dec_string(n / 10);
        prefix.append(dec_digit_str((n % 10) as u8));
        prefix
    }
}

/// The decimal rendering of an integer, a minus sign in front of
/// negative values.
pub open spec fn dec_str_i64(n: int) -> Seq<char> {
    if n >= 0 {
        dec_str(n as nat)
    } else {
        seq!['-'] + dec_str((-n) as nat)
    }
}

/// Renders a signed number in decimal, exactly as [`dec_str_i64`]
/// describes.
pub fn i64_to_dec_string(n: i64) -> (r: String)
    ensures
        r@ == dec_str_i64(n as int),
{
    if n >= 0 {
        u64_to_dec_string(n as u64)
    } else {
        let wide: i128 = n as i128;
        let mag: u64 = (-wide) as u64;
        proof {
            assert(mag as int == -(n as int));
            reveal_strlit("-");
        }
        let mut s = String::from_str("-");
        let digits = u64_to_dec_string(mag);
        s.append(digits.as_str());
        proof {
            assert(s@ =~= dec_str_i64(n as int));
        }
        s
    }
}

/// 256 to the `k`-th power: the number of byte strings of length `k`.
pub open spec fn pow256(k: nat) -> nat
    decreases k,
{
    if k == 0 {
        1
    } else {
        256 * pow256((k - 1) as nat)
    }
}

/// The number a byte string denotes in big-endian order.
pub open spec fn be_value(s: Seq<u8>) -> nat
    decreases s.len(),
{
    if s.len() == 0 {
        0
    } else {
        (be_value(s.drop_last()) * 256 + s.last()) as nat
    }
}

/// A big-endian value fits in as many bytes as it has.
pub proof fn lemma_be_value_bound(s: Seq<u8>)
    ensures
        be_value(s) < pow256(s.len()),
    decreases s.len(),
{
    if s.len() > 0 {
        lemma_be_value_bound(s.drop_last());
        assert(be_value(s.drop_last()) * 256 + s.last() < pow256(s.len())) by (nonlinear_arith)
            requires
                be_value(s.drop_last()) < pow256((s.len() - 1) as nat),
                s.last() < 256,
                pow256(s.len()) == 256 * pow256((s.len() - 1) as nat),
        {}
    }
}

/// Reads up to eight bytes as a big-endian unsigned number.
pub(crate) fn be_value_u64(bytes: &[u8]) -> (r: u64)
    requires
        bytes@.len() <= 8,
    ensures
        r as nat == be_value(bytes@),
{
    proof {
        assert(pow256(0) == 1);
        assert(pow256(1) == 256);
        assert(pow256(2) == 0x10000);
        assert(pow256(3) == 0x1000000);
        assert(pow256(4) == 0x100000000);
        assert(pow256(5) == 0x10000000000);
        assert(pow256(6) == 0x1000000000000);
        assert(pow256(7) == 0x100000000000000);
        assert(pow256(8) == 0x10000000000000000);
    }
    let n = bytes.len();
    let mut acc: u64 = 0;
    let mut i: usize = 0;
    proof {
        assert(bytes@.take(0) =~= Seq::<u8>::empty());
    }
    while i < n
        invariant
            n == bytes@.len(),
            n <= 8,
            i <= n,
            acc as nat == be_value(bytes@.take(i as int)),
            pow256(8) == 0x10000000000000000,
        decreases n - i,
    {
        proof {
            lemma_be_value_bound(bytes@.take(i as int));
            lemma_pow256_increases(i as nat, 7);
            assert(bytes@.take(i + 1).drop_last() =~= bytes@.take(i as int));
            assert(bytes@.take(i + 1).last() == bytes@[i as int]);
        }
        acc = acc * 256 + (bytes[i] as u64);
        i += 1;
    }
    proof {
        assert(bytes@.take(n as int) =~= bytes@);
    }
    acc
}

/// Larger byte counts can only hold larger values.
proof fn lemma_pow256_increases(a: nat, b: nat)
    requires
        a <= b,
    ensures
        pow256(a) <= pow256(b),
    decreases b,
{
    if a < b {
        lemma_pow256_increases(a, (b - 1) as nat);
        assert(pow256(b) == 256 * pow256((b - 1) as nat));
    }
}

/// The signed reading of a big-endian byte string: two's complement at
/// its own width.
pub open spec fn be_signed(s: Seq<u8>) -> int {
    let v = be_value(s);
    let m = pow256(s.len());
    if v < m / 2 {
        v as int
    } else {
        v - m
    }
}

/// Named result of integer_encoding's variable-length decode of an
/// `i64`: the decoded value and how many bytes it took.
pub uninterp spec fn varint_i64_of(bytes: Seq<u8>) -> Option<(i64, usize)>;

/// Relies on integer_encoding's `VarInt` for `i64`: the decode reads
/// only the given bytes, so the result is a function of them alone,
/// and nothing decodes from an empty input.
#[verifier::external_body]
pub(crate) fn varint_decode_i64(bytes: &[u8]) -> (r: Option<(i64, usize)>)
    ensures
        r == varint_i64_of(bytes@),
        bytes@.len() == 0 ==> r is None,
{
    i64::decode_var(bytes)
}

/// Named result of the standard library's lossy UTF-8 decode.
pub uninterp spec fn utf8_lossy_of(bytes: Seq<u8>) -> Seq<char>;

/// Relies on String::from_utf8_lossy: the result is a function of the
/// bytes alone, and valid UTF-8 decodes to exactly its own characters.
#[verifier::external_body]
pub(crate) fn utf8_lossy(bytes: &[u8]) -> (r: String)
    ensures
        r@ == utf8_lossy_of(bytes@),
        vstd::utf8::valid_utf8(bytes@) ==> r@ == vstd::utf8::decode_utf8(bytes@),
{
    String::from_utf8_lossy(bytes).into_owned()
}

/// The hex rendering shown to the user: full up to 32 digits, first and
/// last 12 digits with `..` between otherwise.
pub open spec fn spec_bytes_as_hex(bytes: Seq<u8>) -> Seq<char> {
    let h = hex_of(bytes);
    if h.len() <= 32 {
        h
    } else {
        h.take(12) + ".."@ + h.skip(h.len() - 12)
    }
}

/// Renders bytes as lowercase hex, shortened for long strings.
pub fn bytes_as_hex(bytes: &[u8]) -> (r: String)
    ensures
        r@ == spec_bytes_as_hex(bytes@),
{
    let hex_str = hex_encode(bytes);
    let n = hex_str.as_str().unicode_len();
    if n <= 32 {
        hex_str
    } else {
        proof {
            lemma_hex_of_is_ascii(bytes@);
            reveal_strlit("..");
        }
        let s = hex_str.as_str();
        let mut buf = String::from_str(s.substring_ascii(0, 12));
        buf.append("..");
        buf.append(s.substring_ascii(n - 12, n));
        proof {
            assert(buf@ =~= spec_bytes_as_hex(bytes@));
        }
        buf
    }
}

/// The signed-integer rendering: byte strings of machine-word sizes
/// carry their width as a prefix, anything else is flagged.
pub open spec fn spec_bytes_as_signed_int(bytes: Seq<u8>) -> Seq<char> {
    if bytes.len() == 2 {
        "i16: "@ + dec_str_i64(be_signed(bytes))
    } else if bytes.len() == 4 {
        "i32: "@ + dec_str_i64(be_signed(bytes))
    } else if bytes.len() == 8 {
        "i64: "@ + dec_str_i64(be_signed(bytes))
    } else {
        "[E]: must be 2/4/8 bytes"@
    }
}

/// The unsigned-integer rendering, by width like the signed one.
pub open spec fn spec_bytes_as_unsigned_int(bytes: Seq<u8>) -> Seq<char> {
    if bytes.len() == 2 {
        "u16: "@ + dec_str(be_value(bytes))
    } else if bytes.len() == 4 {
        "u32: "@ + dec_str(be_value(bytes))
    } else if bytes.len() == 8 {
        "u64: "@ + dec_str(be_value(bytes))
    } else {
        "[E]: must be 2/4/8 bytes"@
    }
}

/// Renders two, four or eight bytes as the big-endian signed number
/// they hold.
pub fn bytes_as_signed_int(bytes: &[u8]) -> (r: String)
    ensures
        r@ == spec_bytes_as_signed_int(bytes@),
{
    let n = bytes.len();
    if n == 2 || n == 4 || n == 8 {
        let v = be_value_u64(bytes);
        proof {
            lemma_be_value_bound(bytes@);
            assert(pow256(0) == 1);
            assert(pow256(1) == 256);
            assert(pow256(2) == 0x10000);
            assert(pow256(3) == 0x1000000);
            assert(pow256(4) == 0x100000000);
            assert(pow256(5) == 0x10000000000);
            assert(pow256(6) == 0x1000000000000);
            assert(pow256(7) == 0x100000000000000);
            assert(pow256(8) == 0x10000000000000000);
        }
        let signed: i64 = if n == 2 {
            if v < 0x8000 {
                v as i64
            } else {
                (v as i64) - 0x10000
            }
        } else if n == 4 {
            if v < 0x80000000 {
                v as i64
            } else {
                (v as i64) - 0x100000000
            }
        } else {
            if v < 0x8000000000000000 {
                v as i64
            } else {
                ((v as i128) - 0x10000000000000000i128) as i64
            }
        };
        proof {
            assert(signed as int == be_signed(bytes@));
            reveal_strlit("i16: ");
            reveal_strlit("i32: ");
            reveal_strlit("i64: ");
        }
        let mut buf = if n == 2 {
            String::from_str("i16: ")
        } else if n == 4 {
            String::from_str("i32: ")
        } else {
            String::from_str("i64: ")
        };
        let digits = i64_to_dec_string(signed);
        buf.append(digits.as_str());
        buf
    } else {
        proof {
            reveal_strlit("[E]: must be 2/4/8 bytes");
        }
        String::from_str("[E]: must be 2/4/8 bytes")
    }
}

/// Renders two, four or eight bytes as the big-endian unsigned number
/// they hold.
pub fn bytes_as_unsigned_int(bytes: &[u8]) -> (r: String)
    ensures
        r@ == spec_bytes_as_unsigned_int(bytes@),
{
    let n = bytes.len();
    if n == 2 || n == 4 || n == 8 {
        let v = be_value_u64(bytes);
        proof {
            reveal_strlit("u16: ");
            reveal_strlit("u32: ");
            reveal_strlit("u64: ");
        }
        let mut buf = if n == 2 {
            String::from_str("u16: ")
        } else if n == 4 {
            String::from_str("u32: ")
        } else {
            String::from_str("u64: ")
        };
        let digits = u64_to_dec_string(v);
        buf.append(digits.as_str());
        buf
    } else {
        proof {
            reveal_strlit("[E]: must be 2/4/8 bytes");
        }
        String::from_str("[E]: must be 2/4/8 bytes")
    }
}

/// The variable-length-integer rendering: the decoded value, or a note
/// that the encoding never terminated.
pub open spec fn spec_bytes_as_varint(bytes: Seq<u8>) -> Seq<char> {
    match varint_i64_of(bytes) {
        Some(p) => dec_str_i64(p.0 as int),
        None => "varint: MSB"@,
    }
}

/// Renders bytes as the variable-length integer they encode.
pub fn bytes_as_varint(bytes: &[u8]) -> (r: String)
    ensures
        r@ == spec_bytes_as_varint(bytes@),
{
    match varint_decode_i64(bytes) {
        Some(decoded) => i64_to_dec_string(decoded.0),
        None => {
            proof {
                reveal_strlit("varint: MSB");
            }
            String::from_str("varint: MSB")
        },
    }
}

/// The `", "`-separated decimal list of a byte string.
pub open spec fn dec_list(s: Seq<u8>) -> Seq<char>
    decreases s.len(),
{
    if s.len() == 0 {
        Seq::empty()
    } else if s.len() == 1 {
        dec_str(s[0] as nat)
    } else {
        dec_list(s.drop_last()) + ", "@ + dec_str(s.last() as nat)
    }
}

/// Each byte rendered in decimal with a trailing comma.
pub open spec fn dec_list_trailing(s: Seq<u8>) -> Seq<char>
    decreases s.len(),
{
    if s.len() == 0 {
        Seq::empty()
    } else {
        dec_list_trailing(s.drop_last()) + dec_str(s.last() as nat) + ","@
    }
}

/// The bracketed decimal rendering of a whole byte string.
pub open spec fn spec_debug_list(s: Seq<u8>) -> Seq<char> {
    "["@ + dec_list(s) + "]"@
}

/// The array rendering shown to the user: bracketed decimals up to ten
/// bytes, the first ten with a trailing ellipsis otherwise.
pub open spec fn spec_bytes_as_slice(s: Seq<u8>) -> Seq<char> {
    if s.len() <= 10 {
        spec_debug_list(s)
    } else {
        "["@ + dec_list_trailing(s.take(10)) + "..."@
    }
}

/// Appends the `", "`-separated decimals of `bytes` to `buf`.
pub(crate) fn append_dec_list(buf: &mut String, bytes: &[u8])
    ensures
        final(buf)@ == old(buf)@ + dec_list(bytes@),
{
    let n = bytes.len();
    let mut i: usize = 0;
    proof {
        reveal_strlit(", ");
        assert(old(buf)@ + dec_list(bytes@.take(0)) =~= old(buf)@);
    }
    while i < n
        invariant
            n == bytes@.len(),
            i <= n,
            buf@ == old(buf)@ + dec_list(bytes@.take(i as int)),
        decreases n - i,
    {
        if i > 0 {
            buf.append(", ");
        }
        let digits = u64_to_dec_string(bytes[i] as u64);
        buf.append(digits.as_str());
        proof {
            reveal_strlit(", ");
            assert(bytes@.take(i + 1).drop_last() =~= bytes@.take(i as int));
            assert(bytes@.take(i + 1).last() == bytes@[i as int]);
            assert(buf@ =~= old(buf)@ + dec_list(bytes@.take(i + 1)));
        }
        i += 1;
    }
    proof {
        assert(bytes@.take(n as int) =~= bytes@);
    }
}

/// Renders a byte string the way a debugger would print the array,
/// shortened after ten bytes.
pub fn bytes_as_slice(bytes: &[u8]) -> (r: String)
    ensures
        r@ == spec_bytes_as_slice(bytes@),
{
    proof {
        reveal_strlit("[");
        reveal_strlit("]");
        reveal_strlit("...");
        reveal_strlit(",");
    }
    let mut buf = String::from_str("[");
    if bytes.len() <= 10 {
        append_dec_list(&mut buf, bytes);
        buf.append("]");
        proof {
            assert(buf@ =~= spec_bytes_as_slice(bytes@));
        }
        buf
    } else {
        let mut i: usize = 0;
        proof {
            assert(buf@ + dec_list_trailing(bytes@.take(10).take(0)) =~= buf@);
        }
        let ghost first_ten = bytes@.take(10);
        let ghost opened = buf@;
        while i < 10
            invariant
                bytes@.len() > 10,
                i <= 10,
                first_ten == bytes@.take(10),
                opened == "["@,
                buf@ == opened + dec_list_trailing(first_ten.take(i as int)),
            decreases 10 - i,
        {
            let digits = u64_to_dec_string(bytes[i] as u64);
            buf.append(digits.as_str());
            buf.append(",");
            proof {
                reveal_strlit(",");
                assert(first_ten.take(i + 1).drop_last() =~= first_ten.take(i as int));
                assert(first_ten.take(i + 1).last() == bytes@[i as int]);
                assert(buf@ =~= opened + dec_list_trailing(first_ten.take(i + 1)));
            }
            i += 1;
        }
        buf.append("...");
        proof {
            assert(first_ten.take(10) =~= first_ten);
            assert(buf@ =~= spec_bytes_as_slice(bytes@));
        }
        buf
    }
}

/// What the session shows for a byte string under each rendering; the
/// empty string is always shown as `empty`.
pub open spec fn spec_bytes_by_display_variant(
    bytes: Seq<u8>,
    variant: BytesDisplayVariant,
) -> Seq<char> {
    if bytes.len() == 0 {
        "empty"@
    } else {
        match variant {
            BytesDisplayVariant::U8 => spec_bytes_as_slice(bytes),
            BytesDisplayVariant::String => "str: "@ + utf8_lossy_of(bytes),
            BytesDisplayVariant::Hex => "hex: "@ + spec_bytes_as_hex(bytes),
            BytesDisplayVariant::SignedInt => spec_bytes_as_signed_int(bytes),
            BytesDisplayVariant::UnsignedInt => spec_bytes_as_unsigned_int(bytes),
            BytesDisplayVariant::VarInt => "varint: "@ + spec_bytes_as_varint(bytes),
        }
    }
}

/// Renders a byte string under the chosen variant, with its kind
/// prefix, as the session displays it inline.
pub fn bytes_by_display_variant(bytes: &[u8], variant: &BytesDisplayVariant) -> (r: String)
    ensures
        r@ == spec_bytes_by_display_variant(bytes@, *variant),
{
    if bytes.len() == 0 {
        proof {
            reveal_strlit("empty");
        }
        return String::from_str("empty");
    }
    match variant {
        BytesDisplayVariant::U8 => bytes_as_slice(bytes),
        BytesDisplayVariant::String => {
            proof {
                reveal_strlit("str: ");
            }
            let mut buf = String::from_str("str: ");
            let text = utf8_lossy(bytes);
            buf.append(text.as_str());
            buf
        },
        BytesDisplayVariant::Hex => {
            proof {
                reveal_strlit("hex: ");
            }
            let mut buf = String::from_str("hex: ");
            let hex = bytes_as_hex(bytes);
            buf.append(hex.as_str());
            buf
        },
        BytesDisplayVariant::SignedInt => bytes_as_signed_int(bytes),
        BytesDisplayVariant::UnsignedInt => bytes_as_unsigned_int(bytes),
        BytesDisplayVariant::VarInt => {
            proof {
                reveal_strlit("varint: ");
            }
            let mut buf = String::from_str("varint: ");
            let v = bytes_as_varint(bytes);
            buf.append(v.as_str());
            buf
        },
    }
}

/// The unabridged rendering under each variant, without kind prefixes:
/// what a hover or detail view shows.
pub open spec fn spec_bytes_by_display_variant_explicit(
    bytes: Seq<u8>,
    variant: BytesDisplayVariant,
) -> Seq<char> {
    match variant {
        BytesDisplayVariant::U8 => spec_debug_list(bytes),
        BytesDisplayVariant::String => utf8_lossy_of(bytes),
        BytesDisplayVariant::Hex => hex_of(bytes),
        BytesDisplayVariant::SignedInt => spec_bytes_as_signed_int(bytes),
        BytesDisplayVariant::UnsignedInt => spec_bytes_as_unsigned_int(bytes),
        BytesDisplayVariant::VarInt => spec_bytes_as_varint(bytes),
    }
}

/// Renders a byte string in full under the chosen variant.
pub fn bytes_by_display_variant_explicit(bytes: &[u8], variant: &BytesDisplayVariant) -> (r:
    String)
    ensures
        r@ == spec_bytes_by_display_variant_explicit(bytes@, *variant),
{
    match variant {
        BytesDisplayVariant::U8 => {
            proof {
                reveal_strlit("[");
                reveal_strlit("]");
            }
            let mut buf = String::from_str("[");
            append_dec_list(&mut buf, bytes);
            buf.append("]");
            proof {
                assert(buf@ =~= spec_debug_list(bytes@));
            }
            buf
        },
        BytesDisplayVariant::String => utf8_lossy(bytes),
        BytesDisplayVariant::Hex => hex_encode(bytes),
        BytesDisplayVariant::SignedInt => bytes_as_signed_int(bytes),
        BytesDisplayVariant::UnsignedInt => bytes_as_unsigned_int(bytes),
        BytesDisplayVariant::VarInt => bytes_as_varint(bytes),
    }
}

/// A byte string together with the rendering chosen for it.
pub struct BytesView {
    pub bytes: Vec<u8>,
    display_variant: BytesDisplayVariant,
}

impl BytesView {
    /// The rendering currently chosen.
    pub closed spec fn spec_display_variant(&self) -> BytesDisplayVariant {
        self.display_variant
    }

    /// The wrapped byte string.
    pub closed spec fn spec_bytes(&self) -> Seq<u8> {
        self.bytes@
    }

    /// Wraps a byte string with a guessed rendering.
    pub fn new(bytes: Vec<u8>) -> (r: BytesView)
        ensures
            r.spec_bytes() == bytes@,
            r.spec_display_variant() == spec_guess_variant(bytes@.len()),
    {
        let display_variant = BytesDisplayVariant::guess(bytes.as_slice());
        BytesView { display_variant, bytes }
    }
}

/// How typed text is parsed into bytes.
#[derive(Debug, Clone, Copy, PartialEq, Eq, Structural)]
pub enum BytesInputVariant {
    U8,
    String,
    Hex,
    VarInt,
    I16,
    I32,
    I64,
    U16,
    U32,
    U64,
}

/// The space-separated decimal rendering of a byte string.
pub open spec fn space_list(s: Seq<u8>) -> Seq<char>
    decreases s.len(),
{
    if s.len() == 0 {
        Seq::empty()
    } else if s.len() == 1 {
        dec_str(s[0] as nat)
    } else {
        space_list(s.drop_last()) + " "@ + dec_str(s.last() as nat)
    }
}

/// A text field whose content stands for a byte string.
pub struct BytesInput {
    input: String,
    input_variant: BytesInputVariant,
}

impl BytesInput {
    /// The text as typed so far.
    pub closed spec fn spec_input(&self) -> Seq<char> {
        self.input@
    }

    /// How the text will be parsed.
    pub closed spec fn spec_input_variant(&self) -> BytesInputVariant {
        self.input_variant
    }

    /// An empty field parsed as a decimal byte list.
    pub fn new() -> (r: BytesInput)
        ensures
            r.spec_input() == Seq::<char>::empty(),
            r.spec_input_variant() == BytesInputVariant::U8,
    {
        BytesInput { input: String::new(), input_variant: BytesInputVariant::U8 }
    }

    /// The text as typed so far.
    pub fn current_input(&self) -> (r: &str)
        ensures
            r@ == self.spec_input(),
    {
        self.input.as_str()
    }

    /// A field pre-filled with the space-separated decimals of `bytes`.
    pub fn new_from_bytes(bytes: Vec<u8>) -> (r: BytesInput)
        ensures
            r.spec_input() == space_list(bytes@),
            r.spec_input_variant() == BytesInputVariant::U8,
    {
        let mut input = String::new();
        let n = bytes.len();
        let mut i: usize = 0;
        proof {
            reveal_strlit(" ");
            assert(input@ =~= space_list(bytes@.take(0)));
        }
        while i < n
            invariant
                n == bytes@.len(),
                i <= n,
                input@ == space_list(bytes@.take(i as int)),
            decreases n - i,
        {
            if i > 0 {
                input.append(" ");
            }
            let digits = u64_to_dec_string(bytes[i] as u64);
            input.append(digits.as_str());
            proof {
                reveal_strlit(" ");
                assert(bytes@.take(i + 1).drop_last() =~= bytes@.take(i as int));
                assert(bytes@.take(i + 1).last() == bytes@[i as int]);
                assert(input@ =~= space_list(bytes@.take(i + 1)));
            }
            i += 1;
        }
        proof {
            assert(bytes@.take(n as int) =~= bytes@);
        }
        BytesInput { input, input_variant: BytesInputVariant::U8 }
    }
}

} // verus!
