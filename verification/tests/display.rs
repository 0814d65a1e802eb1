use reclutch::cascade::{cleanup, note_finalizer, note_output, route_step, FilterOutcome};
use reclutch::display::{
    check_resource, CommandGroup, CommandGroupHandle, LineCap, LineJoin, PushAction, ResourceKind,
    ResourceReference,
};
use reclutch::error::ReferenceError;
use reclutch::gpu::{copy_to_array, plan_render, CmdKind, RenderKind};
use reclutch::save_stack::{SaveStack, SaveState};
use std::collections::HashMap;

#[test]
fn resource_reference_id() {
    assert_eq!(ResourceReference::Image(3).id(), 3);
    assert_eq!(ResourceReference::Font(8).id(), 8);
}

#[test]
fn command_group_handle_keeps_its_id() {
    assert_eq!(CommandGroupHandle::new(42).id(), 42);
}

#[test]
fn command_group_pushes_then_maintains() {
    let mut group = CommandGroup::new();
    assert!(group.will_repaint());
    assert_eq!(group.push(), PushAction::Push);
    group.pushed(CommandGroupHandle::new(7));
    assert!(!group.will_repaint());
    assert_eq!(group.push(), PushAction::Maintain(CommandGroupHandle::new(7)));
    group.repaint();
    assert!(group.will_repaint());
    assert_eq!(group.push(), PushAction::Modify(CommandGroupHandle::new(7)));
    assert!(!group.will_repaint());
}

#[test]
fn line_defaults() {
    assert_eq!(LineCap::default(), LineCap::Flat);
    assert_eq!(LineJoin::default(), LineJoin::Miter);
}

#[test]
fn save_then_restore_hands_back_the_saved_states() {
    let mut stack: SaveStack<u8, char> = SaveStack::new();
    stack.save(SaveState::Transform(1));
    stack.save(SaveState::Layer('a'));
    assert_eq!(stack.peek_transform(), Some(&1));
    assert_eq!(stack.peek_layer(), Some(&'a'));
    match stack.restore() {
        Some(SaveState::Layer(l)) => assert_eq!(l, 'a'),
        _ => panic!("expected the saved layer"),
    }
    assert_eq!(stack.peek_layer(), None);
    match stack.restore() {
        Some(SaveState::Transform(t)) => assert_eq!(t, 1),
        _ => panic!("expected the saved transform"),
    }
    assert!(stack.restore().is_none());
}

#[test]
fn restore_of_the_only_transform_clears_it() {
    let mut stack: SaveStack<u8, char> = SaveStack::new();
    stack.save(SaveState::Layer('a'));
    stack.save(SaveState::Transform(1));
    match stack.restore() {
        Some(SaveState::Transform(t)) => assert_eq!(t, 1),
        _ => panic!("expected a transform"),
    }
    assert_eq!(stack.peek_transform(), None);
    assert_eq!(stack.peek_layer(), Some(&'a'));
}

#[test]
fn copy_to_array_copies_thirty_two_items() {
    let src: Vec<u32> = (0..32).collect();
    let array = copy_to_array(&src);
    assert_eq!(array[0], 0);
    assert_eq!(array[31], 31);
    assert_eq!(&array[..], &src[..]);
}

#[test]
fn copy_to_array_pads_fewer_stops_with_the_default() {
    let src: Vec<u32> = vec![7, 8, 9];
    let array = copy_to_array(&src);
    assert_eq!(&array[..3], &[7, 8, 9]);
    assert!(array[3..].iter().all(|x| *x == 0));
}

#[test]
fn copy_to_array_of_no_stops_is_all_default() {
    let array = copy_to_array::<u8>(&[]);
    assert_eq!(array, [0u8; 32]);
}

#[test]
fn render_plan_draws_saves_and_restores_in_order() {
    let cmds = [
        CmdKind::Save,
        CmdKind::Graphics,
        CmdKind::Text,
        CmdKind::SaveLayer,
        CmdKind::Graphics,
        CmdKind::Restore,
        CmdKind::Other,
    ];
    assert_eq!(
        plan_render(&cmds, Some(false)),
        vec![
            RenderKind::Save,
            RenderKind::DrawMesh(1),
            RenderKind::SaveTexture(3),
            RenderKind::DrawMesh(4),
            RenderKind::Restore,
        ]
    );
}

#[test]
fn protected_render_plan_closes_every_open_save() {
    let cmds = [CmdKind::Save, CmdKind::SaveLayer, CmdKind::Graphics];
    let expected = vec![
        RenderKind::Save,
        RenderKind::SaveTexture(1),
        RenderKind::DrawMesh(2),
        RenderKind::Restore,
        RenderKind::Restore,
    ];
    assert_eq!(plan_render(&cmds, None), expected);
    assert_eq!(plan_render(&cmds, Some(true)), expected);
    assert_eq!(plan_render(&cmds, Some(false)), expected[..3].to_vec());
}

#[test]
fn unmatched_restore_is_dropped_from_the_plan() {
    let cmds = [CmdKind::Restore, CmdKind::Graphics, CmdKind::Restore];
    assert_eq!(plan_render(&cmds, None), vec![RenderKind::DrawMesh(1)]);
}

#[test]
fn cascade_cleanup_drops_and_silences_outputs() {
    let mut outs = vec![('a', false), ('b', false), ('c', false)];
    let mut finalize = Some(());
    let mut clx = HashMap::new();
    clx.insert(0usize, false);
    clx.insert(2usize, true);
    assert!(cleanup(&mut outs, &mut finalize, clx));
    assert_eq!(outs, vec![('b', false), ('c', true)]);
    assert_eq!(finalize, Some(()));
}

#[test]
fn cascade_cleanup_removes_the_finalizer() {
    let mut outs = vec![('a', true)];
    let mut finalize = Some(());
    let mut clx = HashMap::new();
    clx.insert(1usize, false);
    assert!(!cleanup(&mut outs, &mut finalize, clx));
    assert_eq!(finalize, None);
    assert_eq!(outs, vec![('a', true)]);
}

#[test]
fn resource_check_draws_only_a_stored_resource_of_the_needed_kind() {
    let image = ResourceReference::Image(4);
    assert_eq!(check_resource(ResourceKind::Image, image, Some(ResourceKind::Image)), Ok(true));
    assert_eq!(check_resource(ResourceKind::Image, image, Some(ResourceKind::Font)), Ok(false));
    assert_eq!(
        check_resource(ResourceKind::Image, image, None),
        Err(ReferenceError::InvalidResource(4))
    );
    assert_eq!(
        check_resource(ResourceKind::Font, image, Some(ResourceKind::Font)),
        Err(ReferenceError::MismatchedResource(4))
    );
    assert_eq!(
        check_resource(ResourceKind::Font, ResourceReference::Font(9), None),
        Err(ReferenceError::InvalidResource(9))
    );
}

#[test]
fn cascade_notes_what_outputs_and_finalizer_ask_for() {
    let mut clx = HashMap::new();
    note_output(&mut clx, 0, None);
    note_output(&mut clx, 1, Some(true));
    note_output(&mut clx, 2, Some(false));
    note_finalizer(&mut clx, 3, true);
    assert_eq!(clx.len(), 2);
    note_finalizer(&mut clx, 3, false);
    assert_eq!(clx.get(&1), Some(&true));
    assert_eq!(clx.get(&2), Some(&false));
    assert_eq!(clx.get(&3), Some(&false));

    let mut outs = vec![('a', false), ('b', false), ('c', false)];
    let mut finalize = Some(());
    assert!(cleanup(&mut outs, &mut finalize, clx));
    assert_eq!(outs, vec![('a', false), ('b', true)]);
    assert_eq!(finalize, None);
}

#[test]
fn routing_goes_on_only_past_outputs_that_keep_the_event() {
    let mut clx = HashMap::new();
    assert!(route_step(&mut clx, 0, FilterOutcome::Kept));
    assert!(!route_step(&mut clx, 1, FilterOutcome::Forwarded));
    assert!(clx.is_empty());
    assert!(!route_step(&mut clx, 2, FilterOutcome::ChangeToBlackhole));
    assert!(!route_step(&mut clx, 3, FilterOutcome::Disconnected));
    assert_eq!(clx.get(&2), Some(&true));
    assert_eq!(clx.get(&3), Some(&false));
    assert_eq!(clx.len(), 2);
}
