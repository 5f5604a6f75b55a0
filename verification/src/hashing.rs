//! Hashes of texts.

use std::collections::hash_map::DefaultHasher;
use std::hash::Hasher;

use vstd::prelude::*;
use vstd::string::*;
use vstd::utf8::encode_utf8;

verus! {

/// What writing a text adds to what a hasher was given: the bytes of the text, and
/// a byte that no text holds, so that the text ends there.
pub open spec fn text_writes(s: Seq<char>) -> Seq<Seq<u8>> {
    seq![encode_utf8(s), seq![0xffu8]]
}

pub fn write_text(h: &mut DefaultHasher, s: &str)
    ensures
        final(h)@ == old(h)@ + text_writes(s@),
{
    let ghost was = h@;
    h.write(s.as_bytes());
    let mut end: Vec<u8> = Vec::new();
    end.push(0xff);
    h.write(end.as_slice());
    assert(end@ =~= seq![0xffu8]);
    assert(h@ =~= was + text_writes(s@));
}

} // verus!
