//! Bookkeeping of cascades: which output filters stay after some outputs
//! have disconnected.

use vstd::prelude::*;
use std::collections::HashMap;

verus! {

broadcast use vstd::std_specs::hash::group_hash_axioms;

/// Maps a cascade output index to
/// * `true`: set destination = black hole
/// * `false`: drop filter
///
/// The index one past the last output stands for the finalizer.
pub type CleanupIndices = HashMap<usize, bool>;

/// Records what output `n` asked for after it handled an event: with
/// `Some(true)` to be silenced (it then drops what it matches), with
/// `Some(false)` to be dropped, at the next cleanup; with `None`, nothing.
pub fn note_output(clx: &mut CleanupIndices, n: usize, request: Option<bool>)
    ensures
        request matches Some(keep) ==> final(clx)@ == old(clx)@.insert(n, keep),
        request is None ==> final(clx)@ == old(clx)@,
{
    if let Some(keep) = request {
        clx.insert(n, keep);
    }
}

/// What an output of a direct cascade did with the event it was handed.
#[derive(Debug, Clone, Copy, PartialEq, Eq, Structural)]
pub enum FilterOutcome {
    /// Its filter did not match: the event goes on to the next output.
    Kept,
    /// It matched and took the event (forwarded or dropped it).
    Forwarded,
    /// It matched, the destination is gone, and it asks to drop what it
    /// matches from now on.
    ChangeToBlackhole,
    /// It matched, the destination is gone, and it asks to be removed.
    Disconnected,
}

/// The routing step after output `n` handled the event: tells whether the
/// event goes on to the next output (it was kept), and records in `clx`
/// what the output asked for: to become a black hole (`true`) or to be
/// removed (`false`) at the next cleanup.
pub fn route_step(clx: &mut CleanupIndices, n: usize, outcome: FilterOutcome) -> (go_on: bool)
    ensures
        go_on <==> outcome is Kept,
        outcome is ChangeToBlackhole ==> final(clx)@ == old(clx)@.insert(n, true),
        outcome is Disconnected ==> final(clx)@ == old(clx)@.insert(n, false),
        outcome is Kept || outcome is Forwarded ==> final(clx)@ == old(clx)@,
{
    match outcome {
        FilterOutcome::Kept => true,
        FilterOutcome::Forwarded => false,
        FilterOutcome::ChangeToBlackhole => {
            note_output(clx, n, Some(true));
            false
        },
        FilterOutcome::Disconnected => {
            note_output(clx, n, Some(false));
            false
        },
    }
}

/// Records whether the finalizer of a cascade with `n_outs` outputs
/// accepted what it was handed; one that refused is dropped at the next
/// cleanup, under the index one past the last output.
pub fn note_finalizer(clx: &mut CleanupIndices, n_outs: usize, accepted: bool)
    ensures
        accepted ==> final(clx)@ == old(clx)@,
        !accepted ==> final(clx)@ == old(clx)@.insert(n_outs, false),
{
    if !accepted {
        clx.insert(n_outs, false);
    }
}

/// The outputs that stay after a cleanup with `clx`, in their order: an
/// output mapped to `false` is dropped, one mapped to `true` is kept with its
/// flag set (it now drops what it matches), any other is kept unchanged.
pub open spec fn kept_outs<F>(outs: Seq<(F, bool)>, clx: Map<usize, bool>) -> Seq<(F, bool)>
    decreases outs.len(),
{
    if outs.len() == 0 {
        Seq::empty()
    } else {
        let prev = kept_outs(outs.drop_last(), clx);
        let n = (outs.len() - 1) as usize;
        if clx.contains_key(n) {
            if clx[n] {
                prev.push((outs.last().0, true))
            } else {
                prev
            }
        } else {
            prev.push(outs.last())
        }
    }
}

/// Whether some output in `outs` still forwards (its flag is not set).
pub open spec fn has_forwarding_out<F>(outs: Seq<(F, bool)>) -> bool {
    exists|i: int| 0 <= i < outs.len() && !(#[trigger] outs[i]).1
}

/// Helper, designed to be called by the cleanup of a cascade: removes the
/// finalizer if `clx` holds the index one past the last output, drops or
/// silences the outputs that `clx` names, and returns whether anything in the
/// cascade is still active (a finalizer, or an output that forwards).
pub fn cleanup<F, Z>(outs: &mut Vec<(F, bool)>, finalize: &mut Option<Z>, clx: CleanupIndices) -> (any_active_out: bool)
    ensures
        clx@.contains_key(old(outs)@.len() as usize) ==> *final(finalize) is None,
        !clx@.contains_key(old(outs)@.len() as usize) ==> *final(finalize) == *old(finalize),
        final(outs)@ == kept_outs(old(outs)@, clx@),
        any_active_out == (*final(finalize) is Some || has_forwarding_out(final(outs)@)),
{
    let mut clx = clx;
    let ghost clx0 = clx@;
    let n_outs = outs.len();
    if clx.remove(&n_outs).is_some() {
        // the finalizer is invalidated
        *finalize = None;
    }
    let mut any_active_out = finalize.is_some();
    let mut pending: Vec<(F, bool)> = Vec::new();
    std::mem::swap(&mut pending, outs);
    let ghost all = pending@;
    let mut n: usize = 0;
    while n < n_outs
        invariant
            0 <= n <= n_outs,
            n_outs == all.len(),
            pending@ == all.subrange(n as int, all.len() as int),
            outs@ == kept_outs(all.subrange(0, n as int), clx0),
            clx@ == clx0.remove(n_outs),
            any_active_out == (*finalize is Some || has_forwarding_out(outs@)),
        decreases n_outs - n,
    {
        let ghost before = outs@;
        assert(all.subrange(0, n + 1).drop_last() =~= all.subrange(0, n as int));
        let (f, silenced) = pending.remove(0);
        match clx.get(&n) {
            Some(drop_only) => {
                if *drop_only {
                    outs.push((f, true));
                }
            },
            None => {
                any_active_out = any_active_out || !silenced;
                outs.push((f, silenced));
            },
        }
        proof {
            if outs@.len() > before.len() {
                assert forall|i: int| 0 <= i < before.len() implies #[trigger] outs@[i] == before[i] by {}
                if has_forwarding_out(before) {
                    let w = choose|i: int| 0 <= i < before.len() && !(#[trigger] before[i]).1;
                    assert(outs@[w] == before[w]);
                }
                if has_forwarding_out(outs@) && !has_forwarding_out(before) {
                    let w = choose|i: int| 0 <= i < outs@.len() && !(#[trigger] outs@[i]).1;
                    if w < before.len() {
                        assert(outs@[w] == before[w]);
                        assert(!before[w].1);
                    }
                    assert(w == before.len());
                }
                let last = outs@[before.len() as int];
                if !last.1 {
                    assert(has_forwarding_out(outs@));
                }
            }
        }
        n = n + 1;
        assert(pending@ =~= all.subrange(n as int, all.len() as int));
    }
    assert(all.subrange(0, n_outs as int) =~= all);
    any_active_out
}

} // verus!
