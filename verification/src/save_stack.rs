//! The stack of saved draw states that a renderer keeps while it replays
//! display commands: transformations and layers, with the position of the
//! topmost of each kind.

use vstd::prelude::*;

verus! {

/// A saved draw state: a transformation or a layer.
#[derive(Debug)]
pub enum SaveState<T, L> {
    Transform(T),
    Layer(L),
}

/// Saved draw states, with the position of the topmost transformation and of
/// the topmost layer.
#[derive(Debug)]
pub struct SaveStack<T, L> {
    stack: Vec<SaveState<T, L>>,
    top_transform: Option<usize>,
    top_layer: Option<usize>,
}

/// How far from the end of `s` the last transformation lies (0 for the last
/// element), if `s` holds one.
pub open spec fn last_transform_from_end<T, L>(s: Seq<SaveState<T, L>>) -> Option<int>
    decreases s.len(),
{
    if s.len() == 0 {
        None
    } else if s.last() is Transform {
        Some(0)
    } else {
        match last_transform_from_end(s.drop_last()) {
            Some(p) => Some(p + 1),
            None => None,
        }
    }
}

/// How far from the end of `s` the last layer lies (0 for the last element),
/// if `s` holds one.
pub open spec fn last_layer_from_end<T, L>(s: Seq<SaveState<T, L>>) -> Option<int>
    decreases s.len(),
{
    if s.len() == 0 {
        None
    } else if s.last() is Layer {
        Some(0)
    } else {
        match last_layer_from_end(s.drop_last()) {
            Some(p) => Some(p + 1),
            None => None,
        }
    }
}

/// The positions of `last_*_from_end` lie inside the sequence.
proof fn lemma_from_end_bounded<T, L>(s: Seq<SaveState<T, L>>)
    ensures
        last_transform_from_end(s) matches Some(p) ==> 0 <= p < s.len(),
        last_layer_from_end(s) matches Some(p) ==> 0 <= p < s.len(),
    decreases s.len(),
{
    if s.len() > 0 {
        lemma_from_end_bounded(s.drop_last());
    }
}

/// An `Option<usize>` read as an optional integer.
pub open spec fn opt_int(o: Option<usize>) -> Option<int> {
    match o {
        Some(p) => Some(p as int),
        None => None,
    }
}

impl<T, L> SaveStack<T, L> {
    /// The saved states, bottom first.
    pub closed spec fn states(self) -> Seq<SaveState<T, L>> {
        self.stack@
    }

    /// The recorded position of the topmost transformation.
    pub closed spec fn spec_top_transform(self) -> Option<usize> {
        self.top_transform
    }

    /// The recorded position of the topmost layer.
    pub closed spec fn spec_top_layer(self) -> Option<usize> {
        self.top_layer
    }

    /// The recorded transformation position, if any, points at a
    /// transformation.
    pub open spec fn transform_ok(self) -> bool {
        self.spec_top_transform() matches Some(idx) ==> idx < self.states().len()
            && self.states()[idx as int] is Transform
    }

    /// The recorded layer position, if any, points at a layer.
    pub open spec fn layer_ok(self) -> bool {
        self.spec_top_layer() matches Some(idx) ==> idx < self.states().len()
            && self.states()[idx as int] is Layer
    }

    /// An empty stack.
    pub fn new() -> (s: Self)
        ensures
            s.states() == Seq::<SaveState<T, L>>::empty(),
            s.spec_top_transform() is None,
            s.spec_top_layer() is None,
    {
        SaveStack { stack: Vec::new(), top_transform: None, top_layer: None }
    }

    /// Pushes a state; it becomes the topmost of its kind.
    pub fn save(&mut self, state: SaveState<T, L>)
        requires
            old(self).states().len() < usize::MAX,
        ensures
            final(self).states() == old(self).states().push(state),
            state is Transform ==> final(self).spec_top_transform() == Some(old(self).states().len() as usize)
                && final(self).spec_top_layer() == old(self).spec_top_layer(),
            state is Layer ==> final(self).spec_top_layer() == Some(old(self).states().len() as usize)
                && final(self).spec_top_transform() == old(self).spec_top_transform(),
    {
        let len = self.stack.len();
        match &state {
            SaveState::Transform(_) => {
                self.top_transform = Some(len);
            },
            SaveState::Layer(_) => {
                self.top_layer = Some(len);
            },
        }
        self.stack.push(state);
    }

    /// How far from the end the last transformation lies.
    fn find_transform_from_end(stack: &Vec<SaveState<T, L>>) -> (r: Option<usize>)
        ensures
            opt_int(r) == last_transform_from_end(stack@),
    {
        let mut n: usize = 0;
        assert(stack@.subrange(0, stack@.len() as int) =~= stack@);
        while n < stack.len()
            invariant
                0 <= n <= stack@.len(),
                last_transform_from_end(stack@) == (match last_transform_from_end(
                    stack@.subrange(0, stack@.len() - n),
                ) {
                    Some(p) => Some(p + n),
                    None => None,
                }),
            decreases stack@.len() - n,
        {
            let idx = stack.len() - 1 - n;
            let ghost prefix = stack@.subrange(0, stack@.len() - n);
            assert(prefix.drop_last() =~= stack@.subrange(0, stack@.len() - n - 1));
            match &stack[idx] {
                SaveState::Transform(_) => {
                    return Some(n);
                },
                SaveState::Layer(_) => {},
            }
            n = n + 1;
        }
        assert(stack@.subrange(0, 0) =~= Seq::<SaveState<T, L>>::empty());
        None
    }

    /// How far from the end the last layer lies.
    fn find_layer_from_end(stack: &Vec<SaveState<T, L>>) -> (r: Option<usize>)
        ensures
            opt_int(r) == last_layer_from_end(stack@),
    {
        let mut n: usize = 0;
        assert(stack@.subrange(0, stack@.len() as int) =~= stack@);
        while n < stack.len()
            invariant
                0 <= n <= stack@.len(),
                last_layer_from_end(stack@) == (match last_layer_from_end(
                    stack@.subrange(0, stack@.len() - n),
                ) {
                    Some(p) => Some(p + n),
                    None => None,
                }),
            decreases stack@.len() - n,
        {
            let idx = stack.len() - 1 - n;
            let ghost prefix = stack@.subrange(0, stack@.len() - n);
            assert(prefix.drop_last() =~= stack@.subrange(0, stack@.len() - n - 1));
            match &stack[idx] {
                SaveState::Layer(_) => {
                    return Some(n);
                },
                SaveState::Transform(_) => {},
            }
            n = n + 1;
        }
        assert(stack@.subrange(0, 0) =~= Seq::<SaveState<T, L>>::empty());
        None
    }

    /// Pops the topmost state, if any.  The recorded position of its kind is
    /// then set to how far from the end of the remaining stack the last state
    /// of that kind lies (an offset from the end, not an index).
    pub fn restore(&mut self) -> (r: Option<SaveState<T, L>>)
        ensures
            old(self).states().len() == 0 ==> r is None && *final(self) == *old(self),
            old(self).states().len() > 0 ==> r == Some(old(self).states().last())
                && final(self).states() == old(self).states().drop_last(),
            r matches Some(SaveState::Transform(_)) ==> opt_int(final(self).spec_top_transform())
                == last_transform_from_end(final(self).states())
                && final(self).spec_top_layer() == old(self).spec_top_layer(),
            r matches Some(SaveState::Layer(_)) ==> opt_int(final(self).spec_top_layer())
                == last_layer_from_end(final(self).states())
                && final(self).spec_top_transform() == old(self).spec_top_transform(),
    {
        let state = if self.stack.len() > 0 {
            let last = self.stack.len() - 1;
            Some(self.stack.remove(last))
        } else {
            None
        };
        match &state {
            Some(SaveState::Transform(_)) => {
                self.top_transform = Self::find_transform_from_end(&self.stack);
            },
            Some(SaveState::Layer(_)) => {
                self.top_layer = Self::find_layer_from_end(&self.stack);
            },
            None => {},
        }
        state
    }

    /// The topmost transformation, if one is recorded.  The recorded
    /// position must point at a transformation (otherwise the lookup fails).
    pub fn peek_transform(&self) -> (r: Option<&T>)
        requires
            self.transform_ok(),
        ensures
            self.spec_top_transform() is None ==> r is None,
            self.spec_top_transform() matches Some(idx) ==> r matches Some(t)
                && self.states()[idx as int] == SaveState::<T, L>::Transform(*t),
    {
        match self.top_transform {
            Some(idx) => match &self.stack[idx] {
                SaveState::Transform(transform) => Some(transform),
                SaveState::Layer(_) => None,
            },
            None => None,
        }
    }

    /// The topmost layer, if one is recorded.  The recorded position must
    /// point at a layer (otherwise the lookup fails).
    pub fn peek_layer(&self) -> (r: Option<&L>)
        requires
            self.layer_ok(),
        ensures
            self.spec_top_layer() is None ==> r is None,
            self.spec_top_layer() matches Some(idx) ==> r matches Some(l)
                && self.states()[idx as int] == SaveState::<T, L>::Layer(*l),
    {
        match self.top_layer {
            Some(idx) => match &self.stack[idx] {
                SaveState::Layer(layer) => Some(layer),
                SaveState::Transform(_) => None,
            },
            None => None,
        }
    }
}

impl<T, L> Default for SaveStack<T, L> {
    fn default() -> (s: Self)
        ensures
            s.states() == Seq::<SaveState<T, L>>::empty(),
            s.spec_top_transform() is None,
            s.spec_top_layer() is None,
    {
        SaveStack::new()
    }
}

/// Law: restoring right after a save hands back the saved state, and the
/// saved states are again those before the save.  (The recorded topmost
/// positions are recomputed by the restore, not brought back.)
pub proof fn lemma_restore_pops_the_save<T, L>(
    s: SaveStack<T, L>,
    state: SaveState<T, L>,
    saved: SaveStack<T, L>,
    restored: SaveStack<T, L>,
    r: Option<SaveState<T, L>>,
)
    requires
        saved.states() == s.states().push(state),
        r == Some(saved.states().last()),
        restored.states() == saved.states().drop_last(),
    ensures
        r == Some(state),
        restored.states() == s.states(),
{
    assert(s.states().push(state).drop_last() =~= s.states());
}

/// Law: right after a transformation (layer) is saved, the recorded position
/// of the topmost transformation (layer) points at it, so that peeking
/// returns it.
pub proof fn lemma_saved_is_topmost<T, L>(s: SaveStack<T, L>, state: SaveState<T, L>, after: SaveStack<T, L>)
    requires
        after.states() == s.states().push(state),
        state is Transform ==> after.spec_top_transform() == Some(s.states().len() as usize),
        state is Layer ==> after.spec_top_layer() == Some(s.states().len() as usize),
        s.states().len() < usize::MAX,
    ensures
        state is Transform ==> after.transform_ok() && after.states()[after.spec_top_transform()->Some_0 as int] == state,
        state is Layer ==> after.layer_ok() && after.states()[after.spec_top_layer()->Some_0 as int] == state,
{
}

} // verus!
