//! The fixed bijection between bytes and 256 printable Unicode scalars.
//!
//! Bytes in the printable ranges `0x21..=0x7e`, `0xa1..=0xac` and `0xae..=0xff`
//! stand for themselves; the 68 others take the scalars from `U+0100` on, in
//! ascending byte order. A visible scalar is handled as its UTF-8 encoding.
use vstd::prelude::*;

verus! {

/// Whether `b` is drawn as itself in the visible alphabet.
pub open spec fn is_printable(b: u8) -> bool {
    (0x21 <= b && b <= 0x7e) || (0xa1 <= b && b <= 0xac) || (0xae <= b)
}

/// The scalar value that stands for byte `b`.
pub open spec fn visible_code(b: u8) -> u32 {
    if b <= 0x20 {
        (b + 256) as u32
    } else if b <= 0x7e {
        b as u32
    } else if b <= 0xa0 {
        (b + 162) as u32
    } else if b == 0xad {
        323
    } else {
        b as u32
    }
}

/// UTF-8 encoding of a scalar below `U+0800`.
pub open spec fn utf8_short(code: u32) -> Seq<u8> {
    if code < 0x80 {
        seq![code as u8]
    } else {
        seq![(0xc0 + code / 64) as u8, (0x80 + code % 64) as u8]
    }
}

/// The UTF-8 bytes of the visible scalar of `b`.
pub open spec fn visible_utf8(b: u8) -> Seq<u8> {
    utf8_short(visible_code(b))
}

/// The byte whose visible scalar is `code`, if any.
pub open spec fn byte_of_code(code: u32) -> Option<u8> {
    if 0x21 <= code <= 0x7e || 0xa1 <= code <= 0xac || 0xae <= code <= 0xff {
        Some(code as u8)
    } else if 0x100 <= code <= 0x120 {
        Some((code - 256) as u8)
    } else if 0x121 <= code <= 0x142 {
        Some((code - 162) as u8)
    } else if code == 0x143 {
        Some(0xad)
    } else {
        None
    }
}

/// Whether `c` may lead the two-byte encoding of a visible scalar.
pub open spec fn is_visible_lead(c: u8) -> bool {
    0xc2 <= c && c <= 0xc5
}

/// Whether `c` is a UTF-8 continuation byte.
pub open spec fn is_continuation(c: u8) -> bool {
    0x80 <= c && c <= 0xbf
}

/// The byte that a one- or two-byte sequence stands for, if it is the
/// encoding of a visible scalar.
pub open spec fn decode_visible(s: Seq<u8>) -> Option<u8> {
    if s.len() == 1 && 0x21 <= s[0] && s[0] <= 0x7e {
        Some(s[0])
    } else if s.len() == 2 && is_visible_lead(s[0]) && is_continuation(s[1]) {
        byte_of_code(((s[0] - 0xc0) * 64 + (s[1] - 0x80)) as u32)
    } else {
        None
    }
}

/// Whether `c` is an ASCII whitespace or a C0 or C1 control scalar.
pub open spec fn is_space_or_control(c: u32) -> bool {
    c <= 0x20 || (0x7f <= c && c <= 0x9f)
}

/// Decoding a visible encoding gives back exactly its byte, and nothing else
/// decodes to that byte.
pub proof fn lemma_decode_visible(s: Seq<u8>, b: u8)
    ensures
        decode_visible(s) == Some(b) <==> s == visible_utf8(b),
{
    if s == visible_utf8(b) {
        assert(decode_visible(s) == Some(b));
    }
    if decode_visible(s) == Some(b) {
        assert(s =~= visible_utf8(b));
    }
}

/// Maps a byte to the UTF-8 bytes of its visible scalar.
pub fn to_visible(b: u8) -> (r: Vec<u8>)
    ensures
        r@ == visible_utf8(b),
{
    let code: u32 = if b <= 0x20 {
        b as u32 + 256
    } else if b <= 0x7e {
        b as u32
    } else if b <= 0xa0 {
        b as u32 + 162
    } else if b == 0xad {
        323
    } else {
        b as u32
    };
    if code < 0x80 {
        let r = vec![code as u8];
        assert(r@ =~= visible_utf8(b));
        r
    } else {
        let r = vec![(0xc0 + code / 64) as u8, (0x80 + code % 64) as u8];
        assert(r@ =~= visible_utf8(b));
        r
    }
}

/// Maps the UTF-8 bytes of a visible scalar back to its byte; `None` when
/// `sym` encodes no visible scalar.
pub fn to_byte(sym: &[u8]) -> (r: Option<u8>)
    ensures
        r == decode_visible(sym@),
        forall|b: u8| r == Some(b) <==> sym@ == visible_utf8(b),
{
    proof {
        assert forall|b: u8| decode_visible(sym@) == Some(b) <==> sym@ == visible_utf8(b) by {
            lemma_decode_visible(sym@, b);
        }
    }
    if sym.len() == 1 {
        let c = sym[0];
        if 0x21 <= c && c <= 0x7e {
            return Some(c);
        }
        return None;
    }
    if sym.len() != 2 {
        return None;
    }
    let (c0, c1) = (sym[0], sym[1]);
    if !(0xc2 <= c0 && c0 <= 0xc5 && 0x80 <= c1 && c1 <= 0xbf) {
        return None;
    }
    let code: u32 = (c0 as u32 - 0xc0) * 64 + (c1 as u32 - 0x80);
    if (0xa1 <= code && code <= 0xac) || (0xae <= code && code <= 0xff) {
        Some(code as u8)
    } else if 0x100 <= code && code <= 0x120 {
        Some((code - 256) as u8)
    } else if 0x121 <= code && code <= 0x142 {
        Some((code - 162) as u8)
    } else if code == 0x143 {
        Some(0xad)
    } else {
        None
    }
}

/// The visible map is a bijection onto 256 scalars, none of them whitespace
/// or a control character, and `to_byte` undoes `to_visible`.
pub proof fn lemma_visible_bijection()
    ensures
        forall|b: u8| #[trigger] decode_visible(visible_utf8(b)) == Some(b),
        forall|b1: u8, b2: u8|
            b1 != b2 ==> #[trigger] visible_code(b1) != #[trigger] visible_code(b2),
        forall|b: u8| !is_space_or_control(#[trigger] visible_code(b)),
        forall|b: u8| #[trigger] visible_code(b) < 0x800,
{
    assert forall|b: u8| #[trigger] decode_visible(visible_utf8(b)) == Some(b) by {
        lemma_decode_visible(visible_utf8(b), b);
    }
}

} // verus!
