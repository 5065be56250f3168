//! Byte strings: comparing them, copying them, and writing them down as text.
use vstd::prelude::*;
use vstd::utf8::{encode_utf8, valid_utf8};

verus! {

/// The bytes of an ASCII text, one per character.
pub open spec fn ascii(text: Seq<char>) -> Seq<u8> {
    Seq::new(text.len(), |i: int| text[i] as u8)
}

/// The byte strings of a list.
pub open spec fn views(list: Seq<Vec<u8>>) -> Seq<Seq<u8>> {
    Seq::new(list.len(), |i: int| list[i]@)
}

/// Whether two byte strings are the same.
pub fn same_bytes(a: &[u8], b: &[u8]) -> (same: bool)
    ensures
        same == (a@ == b@),
{
    if a.len() != b.len() {
        return false;
    }
    let mut i: usize = 0;
    while i < a.len()
        invariant
            a@.len() == b@.len(),
            i <= a@.len(),
            forall|j: int| 0 <= j < i ==> a@[j] == b@[j],
        decreases a@.len() - i,
    {
        if a[i] != b[i] {
            return false;
        }
        i = i + 1;
    }
    assert(a@ =~= b@);
    true
}

/// A copy of a byte string.
pub fn copy_bytes(bytes: &[u8]) -> (copy: Vec<u8>)
    ensures
        copy@ == bytes@,
{
    let mut copy: Vec<u8> = Vec::new();
    copy.extend_from_slice(bytes);
    assert(copy@ =~= bytes@);
    copy
}

/// Appends a byte string to another.
pub fn append_bytes(dest: &mut Vec<u8>, bytes: &[u8])
    ensures
        final(dest)@ == old(dest)@ + bytes@,
{
    let ghost before = dest@;
    dest.extend_from_slice(bytes);
    assert(dest@ =~= before + bytes@);
}

/// The bytes of an ASCII text.
pub fn ascii_bytes(text: &str) -> (bytes: Vec<u8>)
    requires
        vstd::string::is_ascii(text),
    ensures
        bytes@ == ascii(text@),
{
    broadcast use vstd::string::is_ascii_spec_bytes;

    let bytes = copy_bytes(text.as_bytes());
    assert(bytes@ =~= ascii(text@));
    bytes
}

/// `std::str::from_utf8`: the text that bytes are the UTF-8 encoding of, if they
/// are.
#[verifier::external_body]
pub(crate) fn text_of(bytes: &[u8]) -> (r: Option<&str>)
    ensures
        match r {
            Some(text) => valid_utf8(bytes@) && encode_utf8(text@) == bytes@,
            None => !valid_utf8(bytes@),
        },
{
    std::str::from_utf8(bytes).ok()
}

/// A list of byte strings stands for the same byte strings, one by one, and an ASCII text
/// for the bytes of its characters.
pub proof fn items_stand_for_themselves(list: Seq<Vec<u8>>, text: Seq<char>, i: int)
    ensures
        views(list).len() == list.len(),
        0 <= i < list.len() ==> views(list)[i] == list[i]@,
        ascii(text).len() == text.len(),
        0 <= i < text.len() ==> ascii(text)[i] == text[i] as u8,
{
}

} // verus!
