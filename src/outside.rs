//! The calls this library makes into fst, sdset, crossbeam-channel and std,
//! each with the contract it relies on.
use vstd::prelude::*;

use crate::order::{is_sorted_set_of, strictly_sorted};

verus! {

#[verifier::external_type_specification]
#[verifier::external_body]
pub struct ExFstSet(fst::Set);

#[verifier::external_type_specification]
#[verifier::external_body]
pub struct ExFstError(fst::Error);

#[verifier::external_type_specification]
#[verifier::external_body]
#[verifier::reject_recursive_types(T)]
pub struct ExSender<T>(crossbeam_channel::Sender<T>);

/// The keys of an fst set, in the order its stream yields them.
pub uninterp spec fn fst_keys(s: fst::Set) -> Seq<Seq<u8>>;

/// Whether a set was produced by fst's own builder (as opposed to read from
/// bytes that only pass `Set::from_bytes`'s header check).
pub uninterp spec fn fst_built(s: fst::Set) -> bool;

/// What `str::to_lowercase` makes of a string.
pub uninterp spec fn lower_of(s: Seq<char>) -> Seq<char>;

/// Relies on `fst::Set::from_iter`: it inserts the keys in the order given
/// and fails only on a key less than the previous one (it writes to memory,
/// and reads back the bytes it just built); the set built holds exactly the
/// keys inserted, and its stream yields them once each, ascending.
#[verifier::external_body]
pub(crate) fn build_set(keys: &Vec<Vec<u8>>) -> (r: Result<fst::Set, fst::Error>)
    ensures
        strictly_sorted(keys.deep_view()) ==> r is Ok,
        r matches Ok(s) ==> fst_built(s),
        r matches Ok(s) ==> is_sorted_set_of(fst_keys(s), keys.deep_view().to_set()),
{
    fst::Set::from_iter(keys.iter())
}

/// Relies on `fst::Set::stream` and `Stream::into_bytes`: the keys of a set
/// that fst's builder produced, once each, in lexicographic byte order.
#[verifier::external_body]
pub(crate) fn read_keys(s: &fst::Set) -> (r: Vec<Vec<u8>>)
    requires
        fst_built(*s),
    ensures
        r.deep_view() == fst_keys(*s),
        strictly_sorted(r.deep_view()),
{
    s.stream().into_bytes()
}

/// Relies on `fst::OpBuilder::union` over the streams of both sets, built
/// into a new set with `SetBuilder::extend_stream`: the union stream yields
/// each key of either set once, ascending, so building never meets a key out
/// of order, and the new set holds exactly those keys. This holds of sets
/// that fst's builder produced.
#[verifier::external_body]
pub(crate) fn union_sets(a: &fst::Set, b: &fst::Set) -> (r: Result<fst::Set, fst::Error>)
    requires
        fst_built(*a),
        fst_built(*b),
    ensures
        r is Ok,
        r matches Ok(s) ==> fst_built(s),
        r matches Ok(s) ==> is_sorted_set_of(fst_keys(s), fst_keys(*a).to_set() + fst_keys(*b).to_set()),
{
    let op = fst::set::OpBuilder::new().add(a.stream()).add(b.stream()).union();
    let mut builder = fst::SetBuilder::memory();
    builder.extend_stream(op)?;
    fst::Set::from_bytes(builder.into_inner()?)
}

/// Relies on `sdset::SetBuf::from_dirty` (sort, then dedup) and
/// `SetBuf::into_vec`: the distinct items, in the order of `Vec<u8>`, which is
/// lexicographic byte order.
#[verifier::external_body]
pub(crate) fn sort_dedup(v: Vec<Vec<u8>>) -> (r: Vec<Vec<u8>>)
    ensures
        is_sorted_set_of(r.deep_view(), v.deep_view().to_set()),
{
    sdset::SetBuf::from_dirty(v).into_vec()
}

/// Relies on `str::to_lowercase`: the result depends on the characters alone.
#[verifier::external_body]
pub(crate) fn lowercase(s: &str) -> (r: String)
    ensures
        r@ == lower_of(s@),
{
    s.to_lowercase()
}

/// Relies on `crossbeam_channel::Sender::try_send` to signal the applier
/// without blocking; a full or disconnected channel is ignored.
#[verifier::external_body]
pub(crate) fn notify(s: &crossbeam_channel::Sender<()>) {
    let _ = s.try_send(());
}

} // verus!
