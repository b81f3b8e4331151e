//! The order of keys: the bytes of a text are ordered as its characters, so a
//! scan of the keys with a prefix lists the records in id order.

use vstd::prelude::*;
use vstd::utf8::*;
use crate::keys::{branch_key_of, branch_prefix_of, char_code, key_of};
use crate::records::Text;
use crate::text::{text_lt, text_lt_total};

verus! {

/// The order of byte strings: by the first byte that differs, and a proper
/// prefix before every longer string.
pub open spec fn bytes_lt(a: Seq<u8>, b: Seq<u8>) -> bool
    decreases a.len(),
{
    if b.len() == 0 {
        false
    } else if a.len() == 0 {
        true
    } else if a[0] == b[0] {
        bytes_lt(a.drop_first(), b.drop_first())
    } else {
        a[0] < b[0]
    }
}

/// No two byte strings are each before the other.
proof fn bytes_lt_asymmetric(a: Seq<u8>, b: Seq<u8>)
    requires
        bytes_lt(a, b),
    ensures
        !bytes_lt(b, a),
        a != b,
    decreases a.len(),
{
    if a.len() > 0 && b.len() > 0 && a[0] == b[0] {
        bytes_lt_asymmetric(a.drop_first(), b.drop_first());
    }
}

/// The first byte that differs decides.
proof fn difference_decides(a: Seq<u8>, b: Seq<u8>, k: int)
    requires
        0 <= k < a.len(),
        k < b.len(),
        forall|i: int| 0 <= i < k ==> a[i] == b[i],
        a[k] < b[k],
    ensures
        bytes_lt(a, b),
    decreases k,
{
    if k > 0 {
        assert(a[0] == b[0]);
        assert forall|i: int| 0 <= i < k - 1 implies a.drop_first()[i] == b.drop_first()[i] by {
            assert(a[i + 1] == b[i + 1]);
        }
        difference_decides(a.drop_first(), b.drop_first(), k - 1);
    }
}

/// A common start does not decide.
pub proof fn common_start(head: Seq<u8>, a: Seq<u8>, b: Seq<u8>)
    ensures
        bytes_lt(head + a, head + b) == bytes_lt(a, b),
    decreases head.len(),
{
    if head.len() == 0 {
        assert(head + a =~= a);
        assert(head + b =~= b);
    } else {
        assert((head + a).drop_first() =~= head.drop_first() + a);
        assert((head + b).drop_first() =~= head.drop_first() + b);
        common_start(head.drop_first(), a, b);
    }
}

/// The bytes of a smaller character differ from those of a greater one at a
/// place where both have a byte, and are smaller there.
proof fn scalars_differ(c: u32, d: u32) -> (k: int)
    requires
        is_scalar(c),
        is_scalar(d),
        c < d,
    ensures
        0 <= k < encode_scalar(c).len(),
        k < encode_scalar(d).len(),
        forall|i: int| 0 <= i < k ==> encode_scalar(c)[i] == encode_scalar(d)[i],
        encode_scalar(c)[k] < encode_scalar(d)[k],
{
    if has_width_1_encoding(c) {
        assert(has_width_1_encoding(c) && has_width_1_encoding(d) && c < d ==> leading_byte_width_1(
            c,
        ) < leading_byte_width_1(d)) by (bit_vector);
        assert(has_width_1_encoding(c) ==> leading_byte_width_1(c) < 0x80) by (bit_vector);
        assert(leading_byte_width_2(d) >= 0x80) by (bit_vector);
        assert(leading_byte_width_3(d) >= 0x80) by (bit_vector);
        assert(leading_byte_width_4(d) >= 0x80) by (bit_vector);
        0
    } else if has_width_2_encoding(c) {
        assert(leading_byte_width_2(c) < 0xE0) by (bit_vector);
        assert(leading_byte_width_3(d) >= 0xE0) by (bit_vector);
        assert(leading_byte_width_4(d) >= 0xE0) by (bit_vector);
        assert(has_width_2_encoding(c) && has_width_2_encoding(d) && c < d ==> leading_byte_width_2(
            c,
        ) < leading_byte_width_2(d) || (leading_byte_width_2(c) == leading_byte_width_2(d)
            && last_continuation_byte(c) < last_continuation_byte(d))) by (bit_vector);
        if has_width_2_encoding(d) && leading_byte_width_2(c) == leading_byte_width_2(d) {
            1
        } else {
            0
        }
    } else if has_width_3_encoding(c) {
        assert(leading_byte_width_3(c) < 0xF0) by (bit_vector);
        assert(leading_byte_width_4(d) >= 0xF0) by (bit_vector);
        assert(has_width_3_encoding(c) && has_width_3_encoding(d) && c < d ==> leading_byte_width_3(
            c,
        ) < leading_byte_width_3(d) || (leading_byte_width_3(c) == leading_byte_width_3(d) && (
        second_last_continuation_byte(c) < second_last_continuation_byte(d) || (
        second_last_continuation_byte(c) == second_last_continuation_byte(d)
            && last_continuation_byte(c) < last_continuation_byte(d))))) by (bit_vector);
        if has_width_3_encoding(d) && leading_byte_width_3(c) == leading_byte_width_3(d) {
            if second_last_continuation_byte(c) == second_last_continuation_byte(d) {
                2
            } else {
                1
            }
        } else {
            0
        }
    } else {
        assert(has_width_4_encoding(c) && has_width_4_encoding(d) && c < d ==> leading_byte_width_4(
            c,
        ) < leading_byte_width_4(d) || (leading_byte_width_4(c) == leading_byte_width_4(d) && (
        third_last_continuation_byte(c) < third_last_continuation_byte(d) || (
        third_last_continuation_byte(c) == third_last_continuation_byte(d) && (
        second_last_continuation_byte(c) < second_last_continuation_byte(d) || (
        second_last_continuation_byte(c) == second_last_continuation_byte(d)
            && last_continuation_byte(c) < last_continuation_byte(d))))))) by (bit_vector);
        if leading_byte_width_4(c) == leading_byte_width_4(d) {
            if third_last_continuation_byte(c) == third_last_continuation_byte(d) {
                if second_last_continuation_byte(c) == second_last_continuation_byte(d) {
                    3
                } else {
                    2
                }
            } else {
                1
            }
        } else {
            0
        }
    }
}

/// A text before another has its bytes before the other's.
proof fn utf8_increases(a: Text, b: Text)
    requires
        text_lt(a, b),
    ensures
        bytes_lt(encode_utf8(a), encode_utf8(b)),
    decreases a.len(),
{
    if a.len() == 0 {
        assert(encode_utf8(b).len() > 0);
    } else if a[0] == b[0] {
        utf8_increases(a.drop_first(), b.drop_first());
        common_start(
            encode_scalar(a[0] as u32),
            encode_utf8(a.drop_first()),
            encode_utf8(b.drop_first()),
        );
    } else {
        char_is_scalar(a[0]);
        char_is_scalar(b[0]);
        char_code(a[0]);
        char_code(b[0]);
        let c = a[0] as u32;
        let d = b[0] as u32;
        let k = scalars_differ(c, d);
        let x = encode_utf8(a);
        let y = encode_utf8(b);
        assert forall|i: int| 0 <= i < k implies x[i] == y[i] by {
            assert(x[i] == encode_scalar(c)[i]);
            assert(y[i] == encode_scalar(d)[i]);
        }
        difference_decides(x, y, k);
    }
}

/// The bytes of texts are ordered as the texts are.
pub proof fn utf8_keeps_order(a: Text, b: Text)
    ensures
        bytes_lt(encode_utf8(a), encode_utf8(b)) == text_lt(a, b),
{
    text_lt_total(a, b);
    if text_lt(a, b) {
        utf8_increases(a, b);
    } else if text_lt(b, a) {
        utf8_increases(b, a);
        bytes_lt_asymmetric(encode_utf8(b), encode_utf8(a));
    } else if bytes_lt(encode_utf8(a), encode_utf8(b)) {
        bytes_lt_asymmetric(encode_utf8(a), encode_utf8(b));
    }
}

/// A scan of the keys with a prefix lists the records in id order: two keys with
/// the same prefix are ordered as their ids, and so are the index entries of one
/// branch.
pub proof fn keys_keep_id_order(prefix: Text, branch: Text, a: Text, b: Text)
    ensures
        bytes_lt(key_of(prefix, a), key_of(prefix, b)) == text_lt(a, b),
        bytes_lt(branch_key_of(branch, a), branch_key_of(branch, b)) == text_lt(a, b),
{
    utf8_keeps_order(a, b);
    common_start(encode_utf8(prefix), encode_utf8(a), encode_utf8(b));
    common_start(branch_prefix_of(branch), encode_utf8(a), encode_utf8(b));
}

} // verus!
