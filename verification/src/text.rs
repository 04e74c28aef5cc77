//! Helpers on strings and bytes that the parser and the value model share.
use vstd::prelude::*;
use vstd::utf8::{encode_utf8_decode_utf8, is_ascii_chars};

verus! {

/// `String::push` of the standard library, taken on trust: afterwards the
/// string holds what it held before and `ch` behind it.
pub assume_specification[ std::string::String::push ](s: &mut std::string::String, ch: char)
    ensures
        final(s)@ == old(s)@.push(ch),
;

/// The text that a byte source stands for: one character per byte, the
/// character whose code is the byte.
pub open spec fn decode(bytes: Seq<u8>) -> Seq<char> {
    Seq::new(bytes.len(), |i: int| bytes[i] as char)
}

/// A text of ASCII characters is what its bytes stand for.
pub proof fn lemma_decode_ascii(chars: Seq<char>)
    requires
        is_ascii_chars(chars),
    ensures
        decode(Seq::new(chars.len(), |i: int| chars[i] as u8)) == chars,
{
    let bytes = Seq::new(chars.len(), |i: int| chars[i] as u8);
    assert forall|i: int| 0 <= i < chars.len() implies decode(bytes)[i] == chars[i] by {
        assert('\0' <= chars[i] <= '\u{7f}');
    }
    assert(decode(bytes) =~= chars);
}

/// Tells whether two string slices hold the same characters.
pub fn str_eq(a: &str, b: &str) -> (same: bool)
    ensures
        same == (a@ == b@),
{
    let x = a.as_bytes();
    let y = b.as_bytes();
    proof {
        encode_utf8_decode_utf8(a@);
        encode_utf8_decode_utf8(b@);
    }
    if x.len() != y.len() {
        return false;
    }
    let mut i: usize = 0;
    while i < x.len()
        invariant
            i <= x@.len(),
            x@.len() == y@.len(),
            forall|k: int| 0 <= k < i ==> x@[k] == y@[k],
            a@ == b@ ==> x@ == y@,
        decreases x@.len() - i,
    {
        if x[i] != y[i] {
            return false;
        }
        i += 1;
    }
    assert(x@ =~= y@);
    true
}

} // verus!
