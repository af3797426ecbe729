//! Sets of words, held as finite state transducers.
use vstd::prelude::*;
use vstd::utf8::encode_utf8;

verus! {

/// `fst::Set`, an immutable set of byte strings.
#[verifier::external_type_specification]
#[verifier::external_body]
#[verifier::reject_recursive_types(D)]
pub struct ExFstSet<D>(fst::Set<D>);

/// The byte strings that a set holds.
pub uninterp spec fn words_of(set: fst::Set<&[u8]>) -> Set<Seq<u8>>;

/// `fst::Set::contains` tells whether the UTF-8 bytes of a word are one of the byte strings of the
/// set.
///
/// The bytes that a set was made from are a valid transducer: `fst::Set::new` leaves that to its
/// caller, and `fst::Set::from_iter` makes sure of it.
#[verifier::external_body]
pub(crate) fn set_contains(set: &fst::Set<&[u8]>, word: &str) -> (b: bool)
    ensures
        b == words_of(*set).contains(encode_utf8(word@)),
{
    set.contains(word)
}

} // verus!
