use reclutch::command_list::CommandList;
use reclutch::display::CommandGroupHandle;

fn ids(list: &CommandList<Vec<u8>>) -> Vec<u64> {
    list.flattened().into_iter().map(|(id, _, _, _)| id).collect()
}

#[test]
fn test_command_ordering() {
    let mut list: CommandList<Vec<u8>> = CommandList::default();

    let a = CommandGroupHandle::new(0);
    let b = CommandGroupHandle::new(1);
    let c = CommandGroupHandle::new(2);

    list.push(Vec::new(), 0, None, None, a);
    list.push(Vec::new(), 0, None, None, b);
    list.push(Vec::new(), 0, None, None, c);

    assert_eq!(ids(&list), &[0, 1, 2]);

    list.maintain(b);
    list.maintain(a);
    list.maintain(c);

    assert_eq!(ids(&list), &[1, 0, 2]);
}

#[test]
fn layers_come_lowest_depth_first() {
    let mut list: CommandList<Vec<u8>> = CommandList::default();
    list.push(vec![1], 5, None, None, CommandGroupHandle::new(1));
    list.push(vec![2], -3, None, None, CommandGroupHandle::new(2));
    list.push(vec![3], 0, None, None, CommandGroupHandle::new(3));
    list.push(vec![4], -3, None, None, CommandGroupHandle::new(4));
    assert_eq!(ids(&list), &[2, 4, 3, 1]);
    let flat = list.flattened();
    assert_eq!(*flat[0].1, vec![2]);
    assert_eq!(*flat[3].1, vec![1]);
}

#[test]
fn push_get_modify_remove() {
    let mut list: CommandList<Vec<u8>> = CommandList::default();
    let h = CommandGroupHandle::new(7);
    assert_eq!(list.get(h), None);
    list.push(vec![1, 2], 0, Some(false), Some(false), h);
    assert_eq!(list.get(h), Some(&vec![1, 2]));
    let flat = list.flattened();
    assert_eq!(flat.len(), 1);
    assert_eq!((flat[0].0, flat[0].2, flat[0].3), (7, false, None));

    list.modify(h, vec![3], 2, None, None);
    assert_eq!(list.get(h), Some(&vec![3]));
    let flat = list.flattened();
    assert_eq!(flat.len(), 1);
    assert_eq!((flat[0].0, flat[0].2, flat[0].3), (7, true, Some(true)));

    assert_eq!(list.remove(h), Some(vec![3]));
    assert_eq!(list.get(h), None);
    assert_eq!(list.remove(h), None);
    assert!(list.flattened().is_empty());
}

#[test]
fn pushing_an_id_again_replaces_its_group() {
    let mut list: CommandList<Vec<u8>> = CommandList::default();
    list.push(vec![1], 0, None, None, CommandGroupHandle::new(1));
    list.push(vec![2], 0, None, None, CommandGroupHandle::new(2));
    list.push(vec![3], 0, None, None, CommandGroupHandle::new(1));
    assert_eq!(ids(&list), &[2, 1]);
    assert_eq!(list.get(CommandGroupHandle::new(1)), Some(&vec![3]));
}

#[test]
fn maintaining_an_unknown_group_changes_nothing() {
    let mut list: CommandList<Vec<u8>> = CommandList::default();
    list.push(vec![1], 0, None, None, CommandGroupHandle::new(1));
    list.push(vec![2], 0, None, None, CommandGroupHandle::new(2));
    list.maintain(CommandGroupHandle::new(9));
    assert_eq!(ids(&list), &[1, 2]);
}

#[test]
fn unmaintained_groups_are_dropped() {
    let mut list: CommandList<Vec<u8>> = CommandList::default();
    let a = CommandGroupHandle::new(0);
    let b = CommandGroupHandle::new(1);
    list.push(vec![1], 0, None, None, a);
    list.push(vec![2], 0, None, Some(false), b);

    let (draws, marks) = list.plan_present(&[true, true]);
    assert_eq!(draws, &[0, 1]);
    assert_eq!(marks, &[(true, 0)]);
    assert_eq!(list.present(&[true, true]), &[0, 1]);
    assert_eq!(list.flattened()[0].3, Some(false));

    // not maintained since: not drawn, and dropped
    let (draws, marks) = list.plan_present(&[true, true]);
    assert_eq!(draws, &[1]);
    assert_eq!(marks, &[(false, 0)]);
    assert_eq!(list.present(&[true, true]), &[1]);
    assert_eq!(ids(&list), &[1]);
    assert_eq!(list.get(a), None);
    assert_eq!(list.get(b), Some(&vec![2]));
}

#[test]
fn maintained_groups_stay() {
    let mut list: CommandList<Vec<u8>> = CommandList::default();
    let a = CommandGroupHandle::new(0);
    list.push(vec![1], 0, None, None, a);
    for _ in 0..3 {
        let (draws, marks) = list.plan_present(&[true]);
        assert_eq!(draws, &[0]);
        assert_eq!(marks, &[(true, 0)]);
        assert_eq!(list.present(&[true]), &[0]);
        list.maintain(a);
    }
    assert_eq!(list.get(a), Some(&vec![1]));
}

#[test]
fn invisible_groups_are_neither_drawn_nor_marked() {
    let mut list: CommandList<Vec<u8>> = CommandList::default();
    list.push(vec![1], 0, None, None, CommandGroupHandle::new(0));
    list.push(vec![2], 0, None, None, CommandGroupHandle::new(1));
    let (draws, marks) = list.plan_present(&[false, true]);
    assert_eq!(draws, &[1]);
    assert_eq!(marks, &[(true, 1)]);
    assert_eq!(list.present(&[false, true]), &[1]);
    let flat = list.flattened();
    assert_eq!((flat[0].0, flat[0].3), (0, Some(true)));
    assert_eq!((flat[1].0, flat[1].3), (1, Some(false)));
}

#[test]
fn pushing_an_id_again_elsewhere_moves_its_group() {
    let mut list: CommandList<Vec<u8>> = CommandList::default();
    let a = CommandGroupHandle::new(7);
    list.push(vec![1], 0, None, None, a);
    list.push(vec![2], 5, None, None, a);
    assert_eq!(ids(&list), &[7]);
    assert_eq!(list.get(a), Some(&vec![2]));
    assert_eq!(list.present(&[true]), &[7]);
    assert_eq!(list.present(&[true]), &[] as &[u64]);
    assert_eq!(list.get(a), None);
}
