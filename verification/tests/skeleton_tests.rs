use mursten::skeleton::{arm_base_link, l_link, Change, ChangeError, Definition, Joint, LinkTransform, SlotId};

#[test]
fn assert_link0_transform_is_identity() {
    let s = Definition::new(arm_base_link());
    assert!(s.has_link(0));
    assert_eq!(s.links(), vec![0]);

    let t = s.get_link_transform(0);
    assert_eq!(t, LinkTransform { up: 0 })
}

#[test]
fn can_add_link_with_fixed_joint() {
    let mut s = Definition::new(arm_base_link());
    s.apply(Change::Add {
        link: l_link(),
        to_parent_slot: SlotId(0, 'n'),
        joint: Joint::Fixed,
        local_slot_name: 'p',
    })
    .expect("Failed to add l_link");
    assert!(s.has_link(1));
    assert_eq!(s.links(), vec![0, 1]);

    let t = s.get_link_transform(1);
    assert_eq!(t, LinkTransform { up: 2 })
}

#[test]
fn add_link_to_unexisting_slot_fails() {
    let mut s = Definition::new(arm_base_link());
    let res = s.apply(Change::Add {
        link: l_link(),
        to_parent_slot: SlotId(4, 'n'),
        joint: Joint::Fixed,
        local_slot_name: 'p',
    });
    assert_eq!(res, Err(ChangeError::UnexistingLink(4)));

    let res = s.apply(Change::Add {
        link: l_link(),
        to_parent_slot: SlotId(0, 'q'),
        joint: Joint::Fixed,
        local_slot_name: 'p',
    });
    assert_eq!(res, Err(ChangeError::UnexistingSlot(0, 'q')));
}

#[test]
fn add_multiple_links_with_fixed_joint() {
    let mut s = Definition::new(arm_base_link());
    s.apply(Change::Add {
        link: l_link(),
        to_parent_slot: SlotId(0, 'n'),
        joint: Joint::Fixed,
        local_slot_name: 'p',
    })
    .expect("Failed to add first l_link");

    s.apply(Change::Add {
        link: l_link(),
        to_parent_slot: SlotId(1, 'n'),
        joint: Joint::Fixed,
        local_slot_name: 'p',
    })
    .expect("Failed to add second l_link");

    assert!(s.has_link(2));
    assert_eq!(s.links(), vec![0, 1, 2]);

    let t = s.get_link_transform(2);
    assert_eq!(t, LinkTransform { up: 4 })
}

#[test]
fn joints_record_both_slots() {
    let mut s = Definition::new(arm_base_link());
    s.apply(Change::Add {
        link: l_link(),
        to_parent_slot: SlotId(0, 'n'),
        joint: Joint::Fixed,
        local_slot_name: 'p',
    })
    .unwrap();
    assert_eq!(s.joints.len(), 1);
    assert_eq!(s.joints[0].0, SlotId(0, 'n'));
    assert_eq!(s.joints[0].2, SlotId(1, 'p'));
    assert_eq!(s.last_link_id, 1);
}

#[test]
fn arm_links_hold_unit_offsets_along_up() {
    let base = arm_base_link();
    assert_eq!(base.slots.len(), 1);
    assert_eq!(base.slots[0].0, 'n');
    assert_eq!(base.slots[0].1.position, [0f32.to_bits(), 0f32.to_bits(), 1f32.to_bits()]);
    assert_eq!(base.slots[0].1.orientation, [0f32.to_bits(), 0f32.to_bits(), 0f32.to_bits(), 1f32.to_bits()]);
    let l = l_link();
    assert_eq!(l.slots.len(), 2);
    assert_eq!(l.slots[0].0, 'p');
    assert_eq!(l.slots[0].1.position, [0f32.to_bits(), 0f32.to_bits(), 1f32.to_bits()]);
    assert_eq!(l.slots[1].0, 'n');
    assert_eq!(l.slots[1].1.position, [0f32.to_bits(), 0f32.to_bits(), (-1f32).to_bits()]);
}

#[test]
fn links_are_added_to_a_definition_with_gaps() {
    let mut links = std::collections::HashMap::new();
    links.insert(0, arm_base_link());
    links.insert(3, l_link());
    let mut s = Definition { last_link_id: 5, links, joints: vec![] };
    let res = s.apply(Change::Add {
        link: l_link(),
        to_parent_slot: SlotId(3, 'n'),
        joint: Joint::Fixed,
        local_slot_name: 'p',
    });
    assert_eq!(res, Ok(()));
    assert_eq!(s.last_link_id, 6);
    assert!(s.links.contains_key(&6));
    assert_eq!(s.joints.len(), 1);
    assert_eq!(s.joints[0].0, SlotId(3, 'n'));
    assert_eq!(s.joints[0].2, SlotId(6, 'p'));
    let res = s.apply(Change::Add {
        link: l_link(),
        to_parent_slot: SlotId(2, 'n'),
        joint: Joint::Fixed,
        local_slot_name: 'p',
    });
    assert_eq!(res, Err(ChangeError::UnexistingLink(2)));
    assert_eq!(s.last_link_id, 6);
}
