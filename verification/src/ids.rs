//! Random identifiers and their text form.

use vstd::prelude::*;
use crate::text::{
    append_bytes, ascii_string, copy_range, hex_encode, hex_lower, is_ascii_bytes, lemma_ascii_utf8,
    lemma_hex_lower_ascii, utf8,
};

verus! {

/// The hyphenated text form of a UUID's 16 bytes: lowercase hexadecimal in
/// groups of 8, 4, 4, 4 and 12 digits.
pub open spec fn uuid_text(b: Seq<u8>) -> Seq<u8> {
    hex_lower(b.subrange(0, 4)) + seq![45u8] + hex_lower(b.subrange(4, 6)) + seq![45u8]
        + hex_lower(b.subrange(6, 8)) + seq![45u8] + hex_lower(b.subrange(8, 10)) + seq![45u8]
        + hex_lower(b.subrange(10, 16))
}

/// The bytes of a version 4 (random) UUID in the RFC 4122 variant: sixteen
/// bytes, the high nibble of byte 6 is 4 and the two high bits of byte 8 are
/// `10`.
pub open spec fn is_v4_uuid(b: Seq<u8>) -> bool {
    &&& b.len() == 16
    &&& b[6] / 16 == 4
    &&& b[8] / 64 == 2
}

/// The text of a version 4 UUID is 36 characters long, with hyphens at
/// positions 8, 13, 18 and 23, the version digit `4` at position 14 and a
/// variant digit `8`, `9`, `a` or `b` at position 19. So no such text is the
/// all-zero UUID.
pub proof fn law_v4_uuid_text(b: Seq<u8>)
    requires
        is_v4_uuid(b),
    ensures
        uuid_text(b).len() == 36,
        uuid_text(b)[8] == 45u8 && uuid_text(b)[13] == 45u8 && uuid_text(b)[18] == 45u8
            && uuid_text(b)[23] == 45u8,
        uuid_text(b)[14] == 52u8,
        uuid_text(b)[19] == 56u8 || uuid_text(b)[19] == 57u8 || uuid_text(b)[19] == 97u8
            || uuid_text(b)[19] == 98u8,
        uuid_text(b) != uuid_text(Seq::new(16, |i: int| 0u8)),
{
    lemma_hex_two(b.subrange(6, 8));
    lemma_hex_two(b.subrange(8, 10));
    lemma_hex_len(b.subrange(0, 4));
    lemma_hex_len(b.subrange(4, 6));
    lemma_hex_len(b.subrange(10, 16));
    let t = uuid_text(b);
    let h2 = hex_lower(b.subrange(6, 8));
    let h3 = hex_lower(b.subrange(8, 10));
    assert(t[14] == h2[0]);
    assert(t[19] == h3[0]);
    assert(b.subrange(6, 8)[0] == b[6]);
    assert(b.subrange(8, 10)[0] == b[8]);
    let z = Seq::new(16, |i: int| 0u8);
    lemma_hex_two(z.subrange(6, 8));
    lemma_hex_len(z.subrange(0, 4));
    lemma_hex_len(z.subrange(4, 6));
    lemma_hex_two(z.subrange(8, 10));
    lemma_hex_len(z.subrange(10, 16));
    let tz = uuid_text(z);
    assert(z.subrange(6, 8)[0] == 0u8);
    assert(tz[14] == hex_lower(z.subrange(6, 8))[0]);
    assert(tz[14] == 48u8);
}

proof fn lemma_hex_len(b: Seq<u8>)
    ensures
        hex_lower(b).len() == 2 * b.len(),
    decreases b.len(),
{
    if b.len() > 0 {
        lemma_hex_len(b.drop_last());
    }
}

proof fn lemma_hex_two(b: Seq<u8>)
    requires
        b.len() == 2,
    ensures
        hex_lower(b).len() == 4,
        hex_lower(b)[0] == crate::text::hex_digit((b[0] / 16) as int),
{
    reveal_with_fuel(hex_lower, 3);
    let one = b.drop_last();
    assert(one.drop_last() =~= Seq::<u8>::empty());
    assert(one.last() == b[0]);
    assert(hex_lower(one) =~= seq![
        crate::text::hex_digit((b[0] / 16) as int),
        crate::text::hex_digit((b[0] % 16) as int),
    ]);
}

/// Sixteen random bytes laid out as a version 4 UUID.
///
/// Trusted: calls `uuid::Uuid::new_v4` and takes its bytes. Its source masks
/// a random `u128` so that the high nibble of byte 6 is the version (4) and
/// the two high bits of byte 8 are the RFC 4122 variant (`10`). It panics
/// only when the operating system refuses random bytes. The other bits are
/// random and nothing is said of them.
#[verifier::external_body]
pub(crate) fn random_uuid() -> (b: Vec<u8>)
    ensures
        b@.len() == 16,
        b@[6] / 16 == 4,
        b@[8] / 64 == 2,
{
    uuid::Uuid::new_v4().as_bytes().to_vec()
}

/// The hyphenated text form of a UUID given by its 16 bytes.
pub fn uuid_string(bytes: &[u8]) -> (s: String)
    requires
        bytes@.len() == 16,
    ensures
        utf8(s@) == uuid_text(bytes@),
        s@.len() == 36,
{
    let mut out: Vec<u8> = Vec::new();
    let a = copy_range(bytes, 0, 4);
    append_bytes(&mut out, &hex_encode(&a));
    out.push(45);
    let b = copy_range(bytes, 4, 6);
    append_bytes(&mut out, &hex_encode(&b));
    out.push(45);
    let c = copy_range(bytes, 6, 8);
    append_bytes(&mut out, &hex_encode(&c));
    out.push(45);
    let d = copy_range(bytes, 8, 10);
    append_bytes(&mut out, &hex_encode(&d));
    out.push(45);
    let e = copy_range(bytes, 10, 16);
    append_bytes(&mut out, &hex_encode(&e));
    proof {
        let g = bytes@;
        lemma_hex_lower_ascii(g.subrange(0, 4));
        lemma_hex_lower_ascii(g.subrange(4, 6));
        lemma_hex_lower_ascii(g.subrange(6, 8));
        lemma_hex_lower_ascii(g.subrange(8, 10));
        lemma_hex_lower_ascii(g.subrange(10, 16));
        assert(out@ =~= uuid_text(g));
        let t = uuid_text(g);
        assert(is_ascii_bytes(t)) by {
            assert forall|i: int| 0 <= i < t.len() implies #[trigger] t[i] < 128 by {
                let h0 = hex_lower(g.subrange(0, 4));
                let h1 = hex_lower(g.subrange(4, 6));
                let h2 = hex_lower(g.subrange(6, 8));
                let h3 = hex_lower(g.subrange(8, 10));
                let h4 = hex_lower(g.subrange(10, 16));
                if i < 8 {
                    assert(t[i] == h0[i]);
                } else if i == 8 {
                } else if i < 13 {
                    assert(t[i] == h1[i - 9]);
                } else if i == 13 {
                } else if i < 18 {
                    assert(t[i] == h2[i - 14]);
                } else if i == 18 {
                } else if i < 23 {
                    assert(t[i] == h3[i - 19]);
                } else if i == 23 {
                } else {
                    assert(t[i] == h4[i - 24]);
                }
            }
        }
        lemma_ascii_utf8(t);
    }
    ascii_string(out)
}

} // verus!
