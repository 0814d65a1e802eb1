//! The mathematical model of an event queue with listener cursors, and the
//! laws that every operation on it keeps.
//!
//! A queue holds a sequence of events and, for each listener, the position in
//! that sequence of the first event the listener has not seen yet.  What a
//! listener will receive next is `pending(k)`: the events from its position
//! to the end.  Every operation is stated here as a transformation of the
//! model; the executable queue in `intern` is proved to follow them.

use vstd::prelude::*;
use slotmap::DefaultKey;

verus! {

/// Identifies a listener within one queue.
pub type ListenerKey = DefaultKey;

/// Abstract state of an event queue.
#[verifier::reject_recursive_types(K)]
pub struct QueueModel<K, T> {
    /// Read position of every live listener.
    pub positions: Map<K, usize>,
    /// The buffered events, oldest first.
    pub events: Seq<T>,
}

/// `p` is the smallest read position of `positions`.
pub open spec fn is_min_position<K>(positions: Map<K, usize>, p: usize) -> bool {
    &&& exists|k: K| positions.dom().contains(k) && #[trigger] positions[k] == p
    &&& forall|k: K| positions.dom().contains(k) ==> p <= #[trigger] positions[k]
}

impl<K, T> QueueModel<K, T> {
    /// The listeners are finitely many, none reads past the end, and the
    /// events fit in memory.
    pub open spec fn wf(self) -> bool {
        &&& self.positions.dom().finite()
        &&& self.events.len() <= usize::MAX
        &&& forall|k: K| #[trigger] self.positions.dom().contains(k)
            ==> self.positions[k] <= self.events.len()
    }

    /// Whether `k` is a live listener.
    pub open spec fn has_listener(self, k: K) -> bool {
        self.positions.dom().contains(k)
    }

    /// Whether any listener is live.
    pub open spec fn has_listeners(self) -> bool {
        self.positions.dom() != Set::<K>::empty()
    }

    /// No event that every live listener has received stays buffered: some
    /// listener has not received the first buffered event yet (it reads from
    /// position 0), and with no listener nothing is buffered.
    pub open spec fn clean(self) -> bool {
        &&& self.has_listeners() ==> exists|k: K| self.has_listener(k) && #[trigger] self.positions[k] == 0
        &&& !self.has_listeners() ==> self.events.len() == 0
    }

    /// The events that listener `k` has not received yet.
    pub open spec fn pending(self, k: K) -> Seq<T> {
        self.events.subrange(self.positions[k] as int, self.events.len() as int)
    }

    /// The lowest read position, or 0 when there is no listener.
    pub open spec fn min_position(self) -> usize {
        if self.has_listeners() {
            choose|p: usize| is_min_position(self.positions, p)
        } else {
            0
        }
    }

    /// Removes the events that every listener has seen, moving every read
    /// position back by their number; with no listener, every event goes.
    pub open spec fn cleaned(self) -> QueueModel<K, T> {
        let m = self.min_position();
        if !self.has_listeners() {
            QueueModel { events: Seq::empty(), ..self }
        } else if m == 0 {
            self
        } else {
            QueueModel {
                positions: self.positions.map_values(|p: usize| (p - m) as usize),
                events: self.events.subrange(m as int, self.events.len() as int),
            }
        }
    }

    /// A listener `k` is added, positioned after every buffered event.
    pub open spec fn with_listener(self, k: K) -> QueueModel<K, T> {
        QueueModel { positions: self.positions.insert(k, self.events.len() as usize), ..self }
    }

    /// Listener `k` is dropped, and nothing else changes.
    pub open spec fn forgotten(self, k: K) -> QueueModel<K, T> {
        QueueModel { positions: self.positions.remove(k), ..self }
    }

    /// Listener `k` is dropped; if it was holding back the cleanup, or no
    /// listener is left, the cleanup runs.
    pub open spec fn without_listener(self, k: K) -> QueueModel<K, T> {
        let rest = self.forgotten(k);
        if (self.has_listener(k) && self.positions[k] == 0) || !rest.has_listeners() {
            rest.cleaned()
        } else {
            rest
        }
    }

    /// An event is buffered if, and only if, some listener is live.
    pub open spec fn emitted(self, e: T) -> QueueModel<K, T> {
        if self.has_listeners() {
            QueueModel { events: self.events.push(e), ..self }
        } else {
            self
        }
    }

    /// Events are buffered if, and only if, some listener is live.
    pub open spec fn extended(self, es: Seq<T>) -> QueueModel<K, T> {
        if self.has_listeners() {
            QueueModel { events: self.events + es, ..self }
        } else {
            self
        }
    }

    /// An event is buffered, whether or not some listener is live.
    pub open spec fn pushed(self, e: T) -> QueueModel<K, T> {
        QueueModel { events: self.events.push(e), ..self }
    }

    /// Events are buffered, whether or not some listener is live.
    pub open spec fn appended(self, es: Seq<T>) -> QueueModel<K, T> {
        QueueModel { events: self.events + es, ..self }
    }

    /// Listener `k` has received all its pending events; if it was holding
    /// back the cleanup, the cleanup runs.
    pub open spec fn pulled(self, k: K) -> QueueModel<K, T> {
        let moved = self.with_listener(k);
        if self.positions[k] == 0 {
            moved.cleaned()
        } else {
            moved
        }
    }

    /// Listener `k` has received the first of its pending events, if it had
    /// any; if it was holding back the cleanup, the cleanup runs.
    pub open spec fn peek_finished(self, k: K) -> QueueModel<K, T> {
        if self.has_listener(k) && self.positions[k] < self.events.len() {
            let moved = QueueModel {
                positions: self.positions.insert(k, (self.positions[k] + 1) as usize),
                ..self
            };
            if self.positions[k] == 0 {
                moved.cleaned()
            } else {
                moved
            }
        } else {
            self
        }
    }
}

/// Every finite, non-empty map of read positions has a smallest one.
pub proof fn lemma_min_position_exists<K>(positions: Map<K, usize>)
    requires
        positions.dom().finite(),
        positions.dom() != Set::<K>::empty(),
    ensures
        exists|p: usize| is_min_position(positions, p),
    decreases positions.dom().len(),
{
    let k = positions.dom().choose();
    assert(positions.dom().contains(k)) by {
        assert(positions.dom().len() != 0) by {
            if positions.dom().len() == 0 {
                positions.dom().lemma_len0_is_empty();
            }
        }
    }
    let rest = positions.remove(k);
    if rest.dom() == Set::<K>::empty() {
        assert(is_min_position(positions, positions[k])) by {
            assert forall|j: K| positions.dom().contains(j) implies positions[k] <= #[trigger] positions[j] by {
                if j != k {
                    assert(rest.dom().contains(j));
                }
            }
        }
    } else {
        lemma_min_position_exists(rest);
        let q = choose|p: usize| is_min_position(rest, p);
        let low = if positions[k] < q { positions[k] } else { q };
        assert(is_min_position(positions, low)) by {
            let w = choose|j: K| rest.dom().contains(j) && #[trigger] rest[j] == q;
            if positions[k] < q {
                assert(positions.dom().contains(k) && positions[k] == low);
            } else {
                assert(positions.dom().contains(w) && positions[w] == low);
            }
            assert forall|j: K| positions.dom().contains(j) implies low <= #[trigger] positions[j] by {
                if j != k {
                    assert(rest.dom().contains(j));
                    assert(q <= rest[j]);
                }
            }
        }
    }
}

/// The smallest read position is unique, and `min_position` is it.
pub proof fn lemma_min_position_is_min<K, T>(q: QueueModel<K, T>, p: usize)
    requires
        is_min_position(q.positions, p),
    ensures
        q.min_position() == p,
{
    let c = choose|x: usize| is_min_position(q.positions, x);
    let k = choose|k: K| q.positions.dom().contains(k) && #[trigger] q.positions[k] == p;
    assert(q.has_listeners()) by {
        assert(q.positions.dom().contains(k));
    }
    let kc = choose|k: K| q.positions.dom().contains(k) && #[trigger] q.positions[k] == c;
    assert(c <= q.positions[k]);
    assert(p <= q.positions[kc]);
}

/// Law: the cleanup never changes what any listener will receive; it keeps
/// the set of listeners and the queue's well-formedness, and afterwards no
/// event that every listener has already received remains buffered.
pub proof fn lemma_cleanup_keeps_pending<K, T>(q: QueueModel<K, T>)
    requires
        q.wf(),
    ensures
        q.cleaned().wf(),
        q.cleaned().positions.dom() == q.positions.dom(),
        forall|k: K| #[trigger] q.positions.dom().contains(k)
            ==> q.cleaned().pending(k) == q.pending(k),
        q.has_listeners() ==> q.cleaned().min_position() == 0,
        !q.has_listeners() ==> q.cleaned().events.len() == 0,
{
    let m = q.min_position();
    if q.has_listeners() {
        lemma_min_position_exists(q.positions);
        let c = choose|p: usize| is_min_position(q.positions, p);
        assert(is_min_position(q.positions, m));
        let c2 = q.cleaned();
        let w = choose|k: K| q.positions.dom().contains(k) && #[trigger] q.positions[k] == m;
        assert(m <= q.events.len());
        if m != 0 {
            assert(c2.positions.dom() =~= q.positions.dom());
            assert forall|k: K| #[trigger] q.positions.dom().contains(k)
                implies c2.pending(k) == q.pending(k) by {
                assert(m <= q.positions[k]);
                assert(c2.positions[k] == q.positions[k] - m);
                assert(c2.pending(k) =~= q.pending(k));
            }
            assert(c2.positions[w] == 0);
        }
        assert(is_min_position(c2.positions, 0)) by {
            assert(c2.positions.dom().contains(w) && c2.positions[w] == 0);
        }
        lemma_min_position_is_min(c2, 0);
    }
}

/// Law: a new listener receives nothing that was emitted before it was
/// created, and the listeners already there are not affected.
pub proof fn lemma_new_listener_starts_empty<K, T>(q: QueueModel<K, T>, k: K)
    requires
        q.wf(),
        !q.has_listener(k),
    ensures
        q.with_listener(k).wf(),
        q.with_listener(k).pending(k) == Seq::<T>::empty(),
        forall|j: K| #[trigger] q.has_listener(j)
            ==> q.with_listener(k).pending(j) == q.pending(j),
{
    assert(q.with_listener(k).pending(k) =~= Seq::<T>::empty());
}

/// Law: an emitted event is received by every live listener, after the
/// events it had not received yet; with no listener it is dropped.
pub proof fn lemma_emit_reaches_every_listener<K, T>(q: QueueModel<K, T>, e: T)
    requires
        q.wf(),
        q.events.len() < usize::MAX,
    ensures
        q.emitted(e).wf(),
        q.emitted(e).positions == q.positions,
        forall|k: K| #[trigger] q.has_listener(k)
            ==> q.emitted(e).pending(k) == q.pending(k).push(e),
        !q.has_listeners() ==> q.emitted(e) == q,
{
    assert forall|k: K| #[trigger] q.has_listener(k)
        implies q.emitted(e).pending(k) == q.pending(k).push(e) by {
        assert(q.has_listeners()) by {
            assert(q.positions.dom().contains(k));
        }
        assert(q.emitted(e).pending(k) =~= q.pending(k).push(e));
    }
}

/// Law: emitting several events at once is received like emitting them one
/// after the other.
pub proof fn lemma_extend_reaches_every_listener<K, T>(q: QueueModel<K, T>, es: Seq<T>)
    requires
        q.wf(),
        q.events.len() + es.len() <= usize::MAX,
    ensures
        q.extended(es).wf(),
        q.extended(es).positions == q.positions,
        forall|k: K| #[trigger] q.has_listener(k)
            ==> q.extended(es).pending(k) == q.pending(k) + es,
{
    assert forall|k: K| #[trigger] q.has_listener(k)
        implies q.extended(es).pending(k) == q.pending(k) + es by {
        assert(q.has_listeners()) by {
            assert(q.positions.dom().contains(k));
        }
        assert(q.extended(es).pending(k) =~= q.pending(k) + es);
    }
}

/// Law: a pushed event is received by every live listener, after the events
/// it had not received yet; pushing several is like pushing them in order.
pub proof fn lemma_push_reaches_every_listener<K, T>(q: QueueModel<K, T>, es: Seq<T>)
    requires
        q.wf(),
        q.events.len() + es.len() <= usize::MAX,
    ensures
        q.appended(es).wf(),
        q.appended(es).positions == q.positions,
        forall|k: K| #[trigger] q.has_listener(k) ==> q.appended(es).pending(k) == q.pending(k) + es,
        forall|e: T| es == seq![e] ==> #[trigger] q.pushed(e) == q.appended(es),
{
    assert forall|k: K| #[trigger] q.has_listener(k)
        implies q.appended(es).pending(k) == q.pending(k) + es by {
        assert(q.appended(es).pending(k) =~= q.pending(k) + es);
    }
    assert forall|e: T| es == seq![e] implies #[trigger] q.pushed(e) == q.appended(es) by {
        assert(q.events.push(e) =~= q.events + es);
    }
}

/// Law: after a listener has received its pending events it has nothing
/// pending, and what every other listener will receive is unchanged; when
/// that listener was the one holding back the cleanup, the events that every
/// listener has now received are gone.
pub proof fn lemma_pull_clears_only_own<K, T>(q: QueueModel<K, T>, k: K)
    requires
        q.wf(),
        q.has_listener(k),
    ensures
        q.pulled(k).wf(),
        q.pulled(k).positions.dom() == q.positions.dom(),
        q.pulled(k).pending(k) == Seq::<T>::empty(),
        forall|j: K| #[trigger] q.has_listener(j) && j != k
            ==> q.pulled(k).pending(j) == q.pending(j),
        q.positions[k] == 0 ==> q.pulled(k).min_position() == 0,
{
    let moved = q.with_listener(k);
    assert(moved.positions.dom() =~= q.positions.dom());
    assert(moved.pending(k) =~= Seq::<T>::empty());
    if q.positions[k] == 0 {
        lemma_cleanup_keeps_pending(moved);
    }
}

/// Law: dropping a listener leaves what every other listener will receive
/// unchanged; once no listener is left, no event stays buffered.
pub proof fn lemma_remove_keeps_others<K, T>(q: QueueModel<K, T>, k: K)
    requires
        q.wf(),
    ensures
        q.without_listener(k).wf(),
        q.without_listener(k).positions.dom() == q.positions.dom().remove(k),
        forall|j: K| #[trigger] q.has_listener(j) && j != k
            ==> q.without_listener(k).pending(j) == q.pending(j),
        !q.without_listener(k).has_listeners() ==> q.without_listener(k).events.len() == 0,
{
    let rest = QueueModel { positions: q.positions.remove(k), ..q };
    assert(rest == q.forgotten(k));
    assert forall|j: K| #[trigger] q.has_listener(j) && j != k implies rest.pending(j) == q.pending(j) by {
        assert(rest.positions[j] == q.positions[j]);
    }
    if (q.has_listener(k) && q.positions[k] == 0) || !rest.has_listeners() {
        lemma_cleanup_keeps_pending(rest);
        assert forall|j: K| #[trigger] q.has_listener(j) && j != k implies q.without_listener(k).pending(j) == q.pending(j) by {
            assert(rest.positions.dom().contains(j));
        }
    }
}

/// Law: finishing a peek removes exactly the first pending event of that
/// listener, and no other listener is affected.
pub proof fn lemma_peek_finish_drops_first<K, T>(q: QueueModel<K, T>, k: K)
    requires
        q.wf(),
        q.has_listener(k),
    ensures
        q.peek_finished(k).wf(),
        q.peek_finished(k).positions.dom() == q.positions.dom(),
        q.pending(k).len() > 0 ==> q.peek_finished(k).pending(k) == q.pending(k).drop_first(),
        q.pending(k).len() == 0 ==> q.peek_finished(k) == q,
        forall|j: K| #[trigger] q.has_listener(j) && j != k
            ==> q.peek_finished(k).pending(j) == q.pending(j),
{
    if q.positions[k] < q.events.len() {
        let moved = QueueModel {
            positions: q.positions.insert(k, (q.positions[k] + 1) as usize),
            ..q
        };
        assert(moved.positions.dom() =~= q.positions.dom());
        assert(moved.pending(k) =~= q.pending(k).drop_first());
        if q.positions[k] == 0 {
            lemma_cleanup_keeps_pending(moved);
        }
    }
}

/// A queue whose lowest read position is 0 has a listener reading from 0.
proof fn lemma_min_zero_is_clean<K, T>(q: QueueModel<K, T>)
    requires
        q.wf(),
        q.has_listeners(),
        q.min_position() == 0,
    ensures
        q.clean(),
{
    lemma_min_position_exists(q.positions);
    let c = choose|p: usize| is_min_position(q.positions, p);
    let k = choose|k: K| q.positions.dom().contains(k) && #[trigger] q.positions[k] == c;
    assert(q.has_listener(k) && q.positions[k] == 0);
}

/// The cleanup leaves a clean queue.
proof fn lemma_cleaned_is_clean<K, T>(q: QueueModel<K, T>)
    requires
        q.wf(),
    ensures
        q.cleaned().clean(),
{
    lemma_cleanup_keeps_pending(q);
    if q.has_listeners() {
        assert(q.cleaned().positions.dom() == q.positions.dom());
        lemma_min_zero_is_clean(q.cleaned());
    }
}

/// Law: in a clean queue, no buffered event has been received by every
/// listener: some listener has every buffered event pending, so the buffer
/// is exactly as long as the longest pending list; with no listener the
/// buffer is empty.
pub proof fn lemma_clean_buffer_is_longest_pending<K, T>(q: QueueModel<K, T>)
    requires
        q.wf(),
        q.clean(),
    ensures
        q.has_listeners() ==> exists|k: K| q.has_listener(k) && #[trigger] q.pending(k) == q.events,
        forall|k: K| #[trigger] q.has_listener(k) ==> q.pending(k).len() <= q.events.len(),
        !q.has_listeners() ==> q.events.len() == 0,
{
    if q.has_listeners() {
        let k = choose|k: K| q.has_listener(k) && #[trigger] q.positions[k] == 0;
        assert(q.pending(k) =~= q.events);
    }
}

/// Law: every operation on a clean queue leaves it clean: creating a
/// listener, emitting or extending, pulling, finishing a peek, removing a
/// listener, and the cleanup itself.
pub proof fn lemma_operations_keep_clean<K, T>(q: QueueModel<K, T>, k: K, e: T, es: Seq<T>)
    requires
        q.wf(),
        q.clean(),
    ensures
        !q.has_listener(k) ==> q.with_listener(k).clean(),
        q.emitted(e).clean(),
        q.extended(es).clean(),
        q.has_listener(k) ==> q.pulled(k).clean(),
        q.has_listener(k) ==> q.peek_finished(k).clean(),
        q.without_listener(k).clean(),
        q.cleaned().clean(),
{
    lemma_cleaned_is_clean(q);
    // a new listener
    if !q.has_listener(k) {
        let w = q.with_listener(k);
        assert(w.has_listener(k));
        assert(w.has_listeners()) by {
            assert(w.positions.dom().contains(k));
        }
        if q.has_listeners() {
            let j = choose|j: K| q.has_listener(j) && #[trigger] q.positions[j] == 0;
            assert(w.has_listener(j) && w.positions[j] == 0);
        } else {
            assert(w.positions[k] == 0);
        }
    }
    // emitting and extending leave the positions alone
    if q.has_listeners() {
        let j = choose|j: K| q.has_listener(j) && #[trigger] q.positions[j] == 0;
        assert(q.emitted(e).has_listener(j) && q.emitted(e).positions[j] == 0);
        assert(q.extended(es).has_listener(j) && q.extended(es).positions[j] == 0);
    }
    // pulling
    if q.has_listener(k) {
        lemma_pull_clears_only_own(q, k);
        let p = q.pulled(k);
        assert(p.has_listener(k));
        assert(p.has_listeners()) by {
            assert(p.positions.dom().contains(k));
        }
        if q.positions[k] == 0 {
            lemma_min_zero_is_clean(p);
        } else {
            let j = choose|j: K| q.has_listener(j) && #[trigger] q.positions[j] == 0;
            assert(j != k);
            assert(p.has_listener(j) && p.positions[j] == 0);
        }
    }
    // finishing a peek
    if q.has_listener(k) {
        lemma_peek_finish_drops_first(q, k);
        let p = q.peek_finished(k);
        assert(p.has_listeners()) by {
            assert(p.positions.dom().contains(k));
        }
        if q.positions[k] < q.events.len() {
            let moved = QueueModel { positions: q.positions.insert(k, (q.positions[k] + 1) as usize), ..q };
            if q.positions[k] == 0 {
                assert(moved.has_listeners()) by {
                    assert(moved.positions.dom().contains(k));
                }
                lemma_cleaned_is_clean(moved);
            } else {
                let j = choose|j: K| q.has_listener(j) && #[trigger] q.positions[j] == 0;
                assert(j != k);
                assert(p.has_listener(j) && p.positions[j] == 0);
            }
        }
    }
    // removing a listener
    let rest = q.forgotten(k);
    assert(rest.wf());
    if (q.has_listener(k) && q.positions[k] == 0) || !rest.has_listeners() {
        lemma_cleaned_is_clean(rest);
    } else {
        if !q.has_listeners() {
            assert(rest.positions.dom() =~= Set::<K>::empty());
        }
        let j = choose|j: K| q.has_listener(j) && #[trigger] q.positions[j] == 0;
        assert(j != k);
        assert(rest.has_listener(j) && rest.positions[j] == 0);
    }
}

} // verus!
