//! Helpers of the GPU renderer that do not touch the GPU: the gradient-stop
//! array and the render plan of a command group.

use vstd::prelude::*;

verus! {

/// Copies up to 32 items (the gradient stops a GPU gradient holds) into a
/// fixed-size array; the slots past the items hold `T::default()`.
pub fn copy_to_array<T: Sized + Default + Copy>(src: &[T]) -> (array: [T; 32])
    requires
        src@.len() <= 32,
    ensures
        array@.len() == 32,
        array@.take(src@.len() as int) == src@,
        exists|d: T|
            call_ensures(<T as Default>::default, (), d) && forall|i: int|
                src@.len() <= i < 32 ==> #[trigger] array@[i] == d,
{
    let d = T::default();
    let mut array = [d; 32];
    let mut i: usize = 0;
    while i < src.len()
        invariant
            0 <= i <= src@.len() <= 32,
            array@.len() == 32,
            forall|j: int| 0 <= j < i ==> #[trigger] array@[j] == src@[j],
            forall|j: int| src@.len() <= j < 32 ==> #[trigger] array@[j] == d,
        decreases src@.len() - i,
    {
        array[i] = src[i];
        i = i + 1;
    }
    assert(array@.take(src@.len() as int) =~= src@);
    array
}

/// What a display command of a command group is, as far as the render plan
/// is concerned.
#[derive(Debug, Clone, Copy, PartialEq, Eq)]
pub enum CmdKind {
    /// A graphics item: filled or stroked geometry, images.
    Graphics,
    /// A text item.
    Text,
    /// Saves the transform and clip.
    Save,
    /// Saves into an offscreen layer (drawn back with an opacity).
    SaveLayer,
    /// Restores the last save.
    Restore,
    /// Anything else (backdrop filters, clips, transforms, clears).
    Other,
}

/// One step of the render plan of a command group.
#[derive(Debug, Clone, Copy, PartialEq, Eq)]
pub enum RenderKind {
    /// Draws the mesh of the graphics item at this command index.
    DrawMesh(usize),
    /// Saves the state.
    Save,
    /// Opens an offscreen layer for the save-layer command at this index.
    SaveTexture(usize),
    /// Restores the last save.
    Restore,
}

/// Whether a render step opens a save.
pub open spec fn is_save(step: RenderKind) -> bool {
    step is Save || step is SaveTexture
}

/// The number of saves among the steps.
pub open spec fn saves(steps: Seq<RenderKind>) -> nat
    decreases steps.len(),
{
    if steps.len() == 0 {
        0
    } else {
        saves(steps.drop_last()) + if is_save(steps.last()) { 1nat } else { 0nat }
    }
}

/// The number of restores among the steps.
pub open spec fn restores(steps: Seq<RenderKind>) -> nat
    decreases steps.len(),
{
    if steps.len() == 0 {
        0
    } else {
        restores(steps.drop_last()) + if steps.last() is Restore { 1nat } else { 0nat }
    }
}

/// The steps that the commands give, with the number of saves left open:
/// a graphics item draws its mesh, a save or save-layer opens a save, a
/// restore closes the last open save and is dropped when none is open, and
/// the other commands give no step.
pub open spec fn plan_steps(cmds: Seq<CmdKind>) -> (Seq<RenderKind>, nat)
    decreases cmds.len(),
{
    if cmds.len() == 0 {
        (Seq::empty(), 0)
    } else {
        let (steps, open) = plan_steps(cmds.drop_last());
        let index = (cmds.len() - 1) as usize;
        match cmds.last() {
            CmdKind::Graphics => (steps.push(RenderKind::DrawMesh(index)), open),
            CmdKind::Save => (steps.push(RenderKind::Save), open + 1),
            CmdKind::SaveLayer => (steps.push(RenderKind::SaveTexture(index)), open + 1),
            CmdKind::Restore => if open > 0 {
                (steps.push(RenderKind::Restore), (open - 1) as nat)
            } else {
                (steps, open)
            },
            _ => (steps, open),
        }
    }
}

/// `steps` followed by `count` restores.
pub open spec fn with_restores(steps: Seq<RenderKind>, count: nat) -> Seq<RenderKind>
    decreases count,
{
    if count == 0 {
        steps
    } else {
        with_restores(steps, (count - 1) as nat).push(RenderKind::Restore)
    }
}

/// The render plan of a command group: its steps, and, when the group is
/// protected, one restore for each save still open at its end.
pub open spec fn render_plan(cmds: Seq<CmdKind>, protected: bool) -> Seq<RenderKind> {
    let (steps, open) = plan_steps(cmds);
    if protected {
        with_restores(steps, open)
    } else {
        steps
    }
}

/// No prefix of the steps restores more than it saves.
pub open spec fn balanced_prefixes(steps: Seq<RenderKind>) -> bool {
    forall|n: int| 0 <= n <= steps.len() ==> restores(#[trigger] steps.take(n)) <= saves(steps.take(n))
}

proof fn lemma_push_counts(steps: Seq<RenderKind>, step: RenderKind)
    ensures
        saves(steps.push(step)) == saves(steps) + if is_save(step) { 1nat } else { 0nat },
        restores(steps.push(step)) == restores(steps) + if step is Restore { 1nat } else { 0nat },
{
    assert(steps.push(step).drop_last() =~= steps);
}

proof fn lemma_push_balanced(steps: Seq<RenderKind>, step: RenderKind)
    requires
        balanced_prefixes(steps),
        restores(steps.push(step)) <= saves(steps.push(step)),
    ensures
        balanced_prefixes(steps.push(step)),
{
    let longer = steps.push(step);
    assert forall|n: int| 0 <= n <= longer.len() implies restores(#[trigger] longer.take(n)) <= saves(
        longer.take(n),
    ) by {
        if n <= steps.len() {
            assert(longer.take(n) =~= steps.take(n));
        } else {
            assert(longer.take(n) =~= longer);
        }
    }
}

proof fn lemma_plan_steps(cmds: Seq<CmdKind>)
    ensures
        restores(plan_steps(cmds).0) + plan_steps(cmds).1 == saves(plan_steps(cmds).0),
        balanced_prefixes(plan_steps(cmds).0),
    decreases cmds.len(),
{
    if cmds.len() == 0 {
        let empty = Seq::<RenderKind>::empty();
        assert forall|n: int| 0 <= n <= empty.len() implies restores(#[trigger] empty.take(n)) <= saves(
            empty.take(n),
        ) by {
            assert(empty.take(n) =~= empty);
        }
    } else {
        let (steps, open) = plan_steps(cmds.drop_last());
        lemma_plan_steps(cmds.drop_last());
        let index = (cmds.len() - 1) as usize;
        match cmds.last() {
            CmdKind::Graphics => {
                lemma_push_counts(steps, RenderKind::DrawMesh(index));
                lemma_push_balanced(steps, RenderKind::DrawMesh(index));
            },
            CmdKind::Save => {
                lemma_push_counts(steps, RenderKind::Save);
                lemma_push_balanced(steps, RenderKind::Save);
            },
            CmdKind::SaveLayer => {
                lemma_push_counts(steps, RenderKind::SaveTexture(index));
                lemma_push_balanced(steps, RenderKind::SaveTexture(index));
            },
            CmdKind::Restore => {
                if open > 0 {
                    lemma_push_counts(steps, RenderKind::Restore);
                    lemma_push_balanced(steps, RenderKind::Restore);
                }
            },
            _ => {},
        }
    }
}

proof fn lemma_with_restores(steps: Seq<RenderKind>, count: nat)
    requires
        balanced_prefixes(steps),
        restores(steps) + count <= saves(steps),
    ensures
        saves(with_restores(steps, count)) == saves(steps),
        restores(with_restores(steps, count)) == restores(steps) + count,
        balanced_prefixes(with_restores(steps, count)),
    decreases count,
{
    if count > 0 {
        let shorter = with_restores(steps, (count - 1) as nat);
        lemma_with_restores(steps, (count - 1) as nat);
        lemma_push_counts(shorter, RenderKind::Restore);
        lemma_push_balanced(shorter, RenderKind::Restore);
    }
}

/// The render plan of a command group is balanced: no prefix of it restores
/// more than it saved, and a protected group restores every save it made.
pub proof fn lemma_render_plan_balanced(cmds: Seq<CmdKind>, protected: bool)
    ensures
        protected ==> restores(render_plan(cmds, protected)) == saves(render_plan(cmds, protected)),
        balanced_prefixes(render_plan(cmds, protected)),
{
    lemma_plan_steps(cmds);
    let (steps, open) = plan_steps(cmds);
    if protected {
        lemma_with_restores(steps, open);
    }
}

/// Law: a restore command gives a restore step exactly when the steps so
/// far hold more saves than restores, that is when some save is open;
/// otherwise it gives no step.
pub proof fn lemma_restore_closes_an_open_save(p: Seq<CmdKind>)
    ensures
        ({
            let before = plan_steps(p).0;
            let after = plan_steps(p.push(CmdKind::Restore)).0;
            &&& saves(before) > restores(before) ==> after == before.push(RenderKind::Restore)
            &&& saves(before) <= restores(before) ==> after == before
        }),
{
    lemma_plan_steps(p);
    let cmds = p.push(CmdKind::Restore);
    assert(cmds.drop_last() =~= p);
}

/// Law: the steps for some commands begin with the steps for any prefix of
/// them: a later command never changes an earlier step.
pub proof fn lemma_steps_extend(p: Seq<CmdKind>, c: CmdKind)
    ensures
        plan_steps(p).0.is_prefix_of(plan_steps(p.push(c)).0),
        plan_steps(p.push(c)).0.len() <= plan_steps(p).0.len() + 1,
{
    let cmds = p.push(c);
    assert(cmds.drop_last() =~= p);
    let before = plan_steps(p).0;
    assert(before.is_prefix_of(before));
    assert(before.is_prefix_of(before.push(RenderKind::Save)));
    assert(before.is_prefix_of(before.push(RenderKind::Restore)));
    assert(before.is_prefix_of(before.push(RenderKind::DrawMesh((cmds.len() - 1) as usize))));
    assert(before.is_prefix_of(before.push(RenderKind::SaveTexture((cmds.len() - 1) as usize))));
}

/// Law: the mesh of command `i` is drawn exactly when command `i` is a
/// graphics item, and a layer is opened for command `i` exactly when it is
/// a save-layer.
pub proof fn lemma_draws_exactly_the_graphics(cmds: Seq<CmdKind>, i: int)
    requires
        0 <= i < cmds.len(),
        cmds.len() <= usize::MAX,
    ensures
        plan_steps(cmds).0.contains(RenderKind::DrawMesh(i as usize)) <==> cmds[i] is Graphics,
        plan_steps(cmds).0.contains(RenderKind::SaveTexture(i as usize)) <==> cmds[i] is SaveLayer,
    decreases cmds.len(),
{
    lemma_step_indices_below(cmds);
    let p = cmds.drop_last();
    let before = plan_steps(p).0;
    let after = plan_steps(cmds).0;
    let n = cmds.len() - 1;
    if i < n {
        lemma_draws_exactly_the_graphics(p, i);
        assert(p[i] == cmds[i]);
        lemma_steps_extend(p, cmds.last());
        assert(cmds == p.push(cmds.last()));
        lemma_step_indices_below(p);
        if before.contains(RenderKind::DrawMesh(i as usize)) {
            let j = choose|j: int| 0 <= j < before.len() && before[j] == RenderKind::DrawMesh(i as usize);
            assert(after[j] == before[j]);
        }
        if before.contains(RenderKind::SaveTexture(i as usize)) {
            let j = choose|j: int| 0 <= j < before.len() && before[j] == RenderKind::SaveTexture(i as usize);
            assert(after[j] == before[j]);
        }
        if after.contains(RenderKind::DrawMesh(i as usize)) {
            let j = choose|j: int| 0 <= j < after.len() && after[j] == RenderKind::DrawMesh(i as usize);
            if j >= before.len() {
                assert(i as usize != n as usize);
            } else {
                assert(after[j] == before[j]);
            }
        }
        if after.contains(RenderKind::SaveTexture(i as usize)) {
            let j = choose|j: int| 0 <= j < after.len() && after[j] == RenderKind::SaveTexture(i as usize);
            if j >= before.len() {
                assert(i as usize != n as usize);
            } else {
                assert(after[j] == before[j]);
            }
        }
    } else {
        lemma_step_indices_below(p);
        assert(!before.contains(RenderKind::DrawMesh(i as usize))) by {
            if before.contains(RenderKind::DrawMesh(i as usize)) {
                let j = choose|j: int| 0 <= j < before.len() && before[j] == RenderKind::DrawMesh(i as usize);
                assert(step_index_below(before[j], p.len() as int));
            }
        }
        assert(!before.contains(RenderKind::SaveTexture(i as usize))) by {
            if before.contains(RenderKind::SaveTexture(i as usize)) {
                let j = choose|j: int| 0 <= j < before.len() && before[j] == RenderKind::SaveTexture(i as usize);
                assert(step_index_below(before[j], p.len() as int));
            }
        }
        if cmds[i] is Graphics {
            assert(after[before.len() as int] == RenderKind::DrawMesh(i as usize));
        }
        if cmds[i] is SaveLayer {
            assert(after[before.len() as int] == RenderKind::SaveTexture(i as usize));
        }
        if after.contains(RenderKind::DrawMesh(i as usize)) {
            let j = choose|j: int| 0 <= j < after.len() && after[j] == RenderKind::DrawMesh(i as usize);
            if j < before.len() {
                assert(after[j] == before[j]);
            }
        }
        if after.contains(RenderKind::SaveTexture(i as usize)) {
            let j = choose|j: int| 0 <= j < after.len() && after[j] == RenderKind::SaveTexture(i as usize);
            if j < before.len() {
                assert(after[j] == before[j]);
            }
        }
    }
}

/// A step that refers to a command refers to one of the first `n`.
spec fn step_index_below(step: RenderKind, n: int) -> bool {
    match step {
        RenderKind::DrawMesh(i) => i < n,
        RenderKind::SaveTexture(i) => i < n,
        _ => true,
    }
}

proof fn lemma_step_indices_below(cmds: Seq<CmdKind>)
    ensures
        forall|j: int| 0 <= j < plan_steps(cmds).0.len() ==> step_index_below(#[trigger] plan_steps(cmds).0[j], cmds.len() as int),
    decreases cmds.len(),
{
    if cmds.len() > 0 {
        let p = cmds.drop_last();
        lemma_step_indices_below(p);
        let before = plan_steps(p).0;
        let after = plan_steps(cmds).0;
        lemma_steps_extend(p, cmds.last());
        assert(cmds == p.push(cmds.last()));
        assert forall|j: int| 0 <= j < after.len() implies step_index_below(#[trigger] after[j], cmds.len() as int) by {
            if j < before.len() {
                assert(after[j] == before[j]);
                assert(step_index_below(before[j], p.len() as int));
            }
        }
    }
}

/// Plans how a command group is rendered: one step per graphics item, save
/// and save-layer, a restore for each restore command that closes an open
/// save, and, unless `protected` is `Some(false)`, a restore for each save
/// left open at the end, so that the group leaks no transform or clip.
pub fn plan_render(cmds: &[CmdKind], protected: Option<bool>) -> (r: Vec<RenderKind>)
    ensures
        r@ == render_plan(cmds@, protected.unwrap_or(true)),
        protected.unwrap_or(true) ==> restores(r@) == saves(r@),
        forall|n: int| 0 <= n <= r@.len() ==> restores(#[trigger] r@.take(n)) <= saves(r@.take(n)),
{
    let mut render: Vec<RenderKind> = Vec::new();
    let mut open: usize = 0;
    let mut i: usize = 0;
    while i < cmds.len()
        invariant
            0 <= i <= cmds@.len(),
            open <= i,
            (render@, open as nat) == plan_steps(cmds@.take(i as int)),
        decreases cmds@.len() - i,
    {
        assert(cmds@.take(i + 1).drop_last() =~= cmds@.take(i as int));
        match cmds[i] {
            CmdKind::Graphics => render.push(RenderKind::DrawMesh(i)),
            CmdKind::Save => {
                open = open + 1;
                render.push(RenderKind::Save);
            },
            CmdKind::SaveLayer => {
                open = open + 1;
                render.push(RenderKind::SaveTexture(i));
            },
            CmdKind::Restore => {
                if open > 0 {
                    open = open - 1;
                    render.push(RenderKind::Restore);
                }
            },
            _ => {},
        }
        i = i + 1;
    }
    assert(cmds@.take(cmds@.len() as int) =~= cmds@);
    let ghost steps = render@;
    if protected.unwrap_or(true) {
        let mut k: usize = 0;
        while k < open
            invariant
                k <= open,
                render@ == with_restores(steps, k as nat),
            decreases open - k,
        {
            render.push(RenderKind::Restore);
            k = k + 1;
        }
    }
    proof {
        lemma_render_plan_balanced(cmds@, protected.unwrap_or(true));
    }
    render
}

} // verus!
