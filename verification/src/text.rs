//! Shortening text for display in fixed-width columns.

use vstd::prelude::*;
use vstd::string::{StringExecFns, StringSliceAdditionalSpecFns};
use vstd::utf8::{
    decode_utf8, decode_utf8_encode_utf8, encode_utf8, encode_utf8_decode_utf8, encode_utf8_valid_utf8,
    is_ascii_chars, is_ascii_chars_encode_utf8, is_char_boundary, valid_utf8_split,
};

verus! {

/// The text shown for `s` in a column `max_len` bytes wide: `s` itself
/// when its UTF-8 encoding fits, else its first `max_len - 3` bytes
/// followed by `...`.
pub open spec fn truncated(s: Seq<char>, max_len: int) -> Seq<char> {
    let bytes = encode_utf8(s);
    if bytes.len() <= max_len {
        s
    } else {
        decode_utf8(bytes.subrange(0, max_len - 3)) + "..."@
    }
}

/// Whether `s` can be cut for a column `max_len` bytes wide: it fits, or
/// the cut falls at a character boundary past the start.
pub open spec fn can_truncate(s: Seq<char>, max_len: int) -> bool {
    encode_utf8(s).len() > max_len ==> max_len >= 3 && is_char_boundary(encode_utf8(s), max_len - 3)
}

/// `s` shortened to at most `max_len` bytes, the cut marked with `...`.
pub fn truncate(s: &str, max_len: usize) -> (r: String)
    requires
        encode_utf8(s@).len() <= usize::MAX,
        can_truncate(s@, max_len as int),
    ensures
        r@ == truncated(s@, max_len as int),
{
    if s.len() <= max_len {
        s.to_owned()
    } else {
        let (head, _) = s.split_at(max_len - 3);
        proof {
            encode_utf8_decode_utf8(head@);
            assert(head.spec_bytes() == encode_utf8(head@));
        }
        let r = head.to_owned().concat("...");
        assert(head@ == decode_utf8(encode_utf8(s@).subrange(0, max_len - 3)));
        r
    }
}

proof fn lemma_encode_concat(a: Seq<char>, b: Seq<char>)
    ensures
        encode_utf8(a + b) == encode_utf8(a) + encode_utf8(b),
    decreases a.len(),
{
    if a.len() == 0 {
        assert(a + b =~= b);
        assert(encode_utf8(a) + encode_utf8(b) =~= encode_utf8(b));
    } else {
        lemma_encode_concat(a.drop_first(), b);
        assert((a + b).drop_first() =~= a.drop_first() + b);
        assert((a + b)[0] == a[0]);
    }
}

/// What is shown for `s` in a column `max_len` bytes wide takes at most
/// `max_len` bytes.
pub proof fn lemma_truncated_fits(s: Seq<char>, max_len: int)
    requires
        max_len >= 0,
        can_truncate(s, max_len),
    ensures
        encode_utf8(truncated(s, max_len)).len() <= max_len,
{
    let bytes = encode_utf8(s);
    if bytes.len() > max_len {
        let prefix = bytes.subrange(0, max_len - 3);
        encode_utf8_valid_utf8(s);
        valid_utf8_split(bytes, max_len - 3);
        decode_utf8_encode_utf8(prefix);
        lemma_encode_concat(decode_utf8(prefix), "..."@);
        reveal_strlit("...");
        assert(is_ascii_chars("..."@));
        is_ascii_chars_encode_utf8("..."@);
    }
}

} // verus!
