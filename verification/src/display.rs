//! The compact rendering palette used next to nodes and elements.
//!
//! Unlike [`crate::bytes_utils::BytesDisplayVariant`], which labels each
//! rendering, this palette shows the bare value: it is what inline node
//! labels use.

use vstd::prelude::*;

use crate::bytes_utils::be_signed;
use crate::bytes_utils::be_value_u64;
use crate::bytes_utils::dec_str_i64;
use crate::bytes_utils::hex_of;
use crate::bytes_utils::i64_to_dec_string;
use crate::bytes_utils::spec_bytes_as_hex;
use crate::bytes_utils::spec_bytes_as_slice;
use crate::bytes_utils::spec_bytes_as_varint;
use crate::bytes_utils::spec_debug_list;
use crate::bytes_utils::utf8_lossy_of;

verus! {

/// How a byte string is rendered inline.
#[derive(Debug, Clone, Copy, PartialEq, Eq, Structural)]
pub enum DisplayVariant {
    U8,
    String,
    Hex,
    Int,
    VarInt,
}

/// The rendering [`DisplayVariant::guess`] picks for a byte string of
/// the given length.
pub open spec fn spec_guess_display(len: nat) -> DisplayVariant {
    if len == 1 {
        DisplayVariant::U8
    } else if len == 8 {
        DisplayVariant::Int
    } else if len == 32 {
        DisplayVariant::Hex
    } else {
        DisplayVariant::String
    }
}

impl DisplayVariant {
    /// Picks a plausible rendering from the length alone.
    pub fn guess(bytes: &[u8]) -> (r: Self)
        ensures
            r == spec_guess_display(bytes@.len()),
    {
        match bytes.len() {
            1 => DisplayVariant::U8,
            8 => DisplayVariant::Int,
            32 => DisplayVariant::Hex,
            _ => DisplayVariant::String,
        }
    }
}

/// The signed rendering of exactly eight bytes; anything else is
/// flagged.
pub open spec fn spec_bytes_as_int(bytes: Seq<u8>) -> Seq<char> {
    if bytes.len() == 8 {
        dec_str_i64(be_signed(bytes))
    } else {
        "[E]: must be 8 bytes"@
    }
}

/// Renders eight bytes as the big-endian signed number they hold.
pub fn bytes_as_int(bytes: &[u8]) -> (r: String)
    ensures
        r@ == spec_bytes_as_int(bytes@),
{
    if bytes.len() == 8 {
        let v = be_value_u64(bytes);
        proof {
            crate::bytes_utils::lemma_be_value_bound(bytes@);
            assert(crate::bytes_utils::pow256(0) == 1);
            assert(crate::bytes_utils::pow256(1) == 256);
            assert(crate::bytes_utils::pow256(2) == 0x10000);
            assert(crate::bytes_utils::pow256(3) == 0x1000000);
            assert(crate::bytes_utils::pow256(4) == 0x100000000);
            assert(crate::bytes_utils::pow256(5) == 0x10000000000);
            assert(crate::bytes_utils::pow256(6) == 0x1000000000000);
            assert(crate::bytes_utils::pow256(7) == 0x100000000000000);
            assert(crate::bytes_utils::pow256(8) == 0x10000000000000000);
        }
        let signed: i64 = if v < 0x8000000000000000 {
            v as i64
        } else {
            ((v as i128) - 0x10000000000000000i128) as i64
        };
        proof {
            assert(signed as int == be_signed(bytes@));
        }
        i64_to_dec_string(signed)
    } else {
        proof {
            reveal_strlit("[E]: must be 8 bytes");
        }
        String::from_str("[E]: must be 8 bytes")
    }
}

/// What an inline label shows for a byte string under each rendering:
/// the bare value, with no kind prefix.
pub open spec fn spec_display_by_variant(bytes: Seq<u8>, variant: DisplayVariant) -> Seq<char> {
    match variant {
        DisplayVariant::U8 => spec_bytes_as_slice(bytes),
        DisplayVariant::String => utf8_lossy_of(bytes),
        DisplayVariant::Hex => spec_bytes_as_hex(bytes),
        DisplayVariant::Int => spec_bytes_as_int(bytes),
        DisplayVariant::VarInt => spec_bytes_as_varint(bytes),
    }
}

/// Renders a byte string for an inline label.
pub fn bytes_by_display_variant(bytes: &[u8], variant: &DisplayVariant) -> (r: String)
    ensures
        r@ == spec_display_by_variant(bytes@, *variant),
{
    match variant {
        DisplayVariant::U8 => crate::bytes_utils::bytes_as_slice(bytes),
        DisplayVariant::String => crate::bytes_utils::utf8_lossy(bytes),
        DisplayVariant::Hex => crate::bytes_utils::bytes_as_hex(bytes),
        DisplayVariant::Int => bytes_as_int(bytes),
        DisplayVariant::VarInt => crate::bytes_utils::bytes_as_varint(bytes),
    }
}

/// The unabridged rendering for hovers and detail views.
pub open spec fn spec_display_by_variant_explicit(
    bytes: Seq<u8>,
    variant: DisplayVariant,
) -> Seq<char> {
    match variant {
        DisplayVariant::U8 => spec_debug_list(bytes),
        DisplayVariant::String => utf8_lossy_of(bytes),
        DisplayVariant::Hex => hex_of(bytes),
        DisplayVariant::Int => spec_bytes_as_int(bytes),
        DisplayVariant::VarInt => spec_bytes_as_varint(bytes),
    }
}

/// Renders a byte string in full for a detail view.
pub fn bytes_by_display_variant_explicit(bytes: &[u8], variant: &DisplayVariant) -> (r: String)
    ensures
        r@ == spec_display_by_variant_explicit(bytes@, *variant),
{
    match variant {
        DisplayVariant::U8 => {
            proof {
                reveal_strlit("[");
                reveal_strlit("]");
            }
            let mut buf = String::from_str("[");
            crate::bytes_utils::append_dec_list(&mut buf, bytes);
            buf.append("]");
            proof {
                assert(buf@ =~= spec_debug_list(bytes@));
            }
            buf
        },
        DisplayVariant::String => crate::bytes_utils::utf8_lossy(bytes),
        DisplayVariant::Hex => crate::bytes_utils::hex_encode(bytes),
        DisplayVariant::Int => bytes_as_int(bytes),
        DisplayVariant::VarInt => crate::bytes_utils::bytes_as_varint(bytes),
    }
}

} // verus!
