//! The player registry: live pieces held in a `slab::Slab`, keyed by the
//! slot that the slab hands out when a player joins.
use vstd::prelude::*;
use slab::Slab;
use crate::piece::PieceState;

verus! {

#[verifier::external_type_specification]
#[verifier::external_body]
#[verifier::reject_recursive_types(T)]
pub struct ExSlab<T>(slab::Slab<T>);

/// The pieces that a slab holds, by key.
pub uninterp spec fn slab_contents(s: Slab<PieceState>) -> Map<usize, PieceState>;

/// Relies on `Slab::new`: a new slab holds nothing.
#[verifier::external_body]
pub(crate) fn slab_new() -> (r: Slab<PieceState>)
    ensures
        slab_contents(r) =~= Map::empty(),
{
    Slab::new()
}

/// Relies on `Slab::len`: the number of stored values.
#[verifier::external_body]
pub(crate) fn slab_len(s: &Slab<PieceState>) -> (r: usize)
    ensures
        r == slab_contents(*s).len(),
{
    s.len()
}

/// Relies on `Slab::get`: the value stored under `key`, or `None` where the key is vacant.
#[verifier::external_body]
pub(crate) fn slab_get(s: &Slab<PieceState>, key: usize) -> (r: Option<PieceState>)
    ensures
        r == (if slab_contents(*s).contains_key(key) {
            Some(slab_contents(*s)[key])
        } else {
            None::<PieceState>
        }),
{
    s.get(key).copied()
}

/// Relies on `IndexMut` for `Slab`: the value under an occupied key is replaced.
#[verifier::external_body]
pub(crate) fn slab_set(s: &mut Slab<PieceState>, key: usize, value: PieceState)
    requires
        slab_contents(*old(s)).contains_key(key),
    ensures
        slab_contents(*final(s)) == slab_contents(*old(s)).insert(key, value),
{
    s[key] = value;
}

/// Relies on `Slab::insert`: the value is stored under a key that was vacant,
/// which is returned. The slab grows its storage only when every slot is
/// taken, so below 2^32 values it stays far from `isize::MAX` bytes.
#[verifier::external_body]
pub(crate) fn slab_insert(s: &mut Slab<PieceState>, value: PieceState) -> (r: usize)
    requires
        slab_contents(*old(s)).len() < 0x1_0000_0000,
    ensures
        !slab_contents(*old(s)).contains_key(r),
        slab_contents(*final(s)) == slab_contents(*old(s)).insert(r, value),
{
    s.insert(value)
}

/// Relies on `Slab::try_remove`: the value under `key` is taken out, if there is one.
#[verifier::external_body]
pub(crate) fn slab_try_remove(s: &mut Slab<PieceState>, key: usize) -> (r: Option<PieceState>)
    ensures
        slab_contents(*final(s)) == slab_contents(*old(s)).remove(key),
        r == (if slab_contents(*old(s)).contains_key(key) {
            Some(slab_contents(*old(s))[key])
        } else {
            None::<PieceState>
        }),
{
    s.try_remove(key)
}

/// Relies on `Slab::iter`: every occupied key is visited exactly once.
#[verifier::external_body]
pub(crate) fn slab_keys(s: &Slab<PieceState>) -> (r: Vec<usize>)
    ensures
        r@.no_duplicates(),
        r@.to_set() == slab_contents(*s).dom(),
{
    s.iter().map(|(k, _)| k).collect()
}

} // verus!
