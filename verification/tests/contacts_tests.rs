use mursten::contacts::{would_collide, ContactEvent, CurrentContacts};

fn sorted(mut v: Vec<(u64, u64)>) -> Vec<(u64, u64)> {
    v.sort();
    v
}

#[test]
fn new_contacts_start_once() {
    let mut c = CurrentContacts::new();
    let events = c.update(&vec![(1, 2), (2, 1), (1, 2)], &vec![]);
    assert_eq!(events, vec![ContactEvent::Started(1, 2), ContactEvent::Started(2, 1)]);
    assert_eq!(sorted(c.list()), vec![(1, 2), (2, 1)]);
    let events = c.update(&vec![(1, 2), (2, 1)], &vec![]);
    assert!(events.is_empty());
}

#[test]
fn contacts_end_only_when_apart() {
    let mut c = CurrentContacts::new();
    c.update(&vec![(1, 2), (3, 4)], &vec![]);
    // No longer touching, but still close: the contact holds.
    let events = c.update(&vec![], &vec![]);
    assert!(events.is_empty());
    assert_eq!(sorted(c.list()), vec![(1, 2), (3, 4)]);
    // Apart now: it ends.
    let events = c.update(&vec![], &vec![(3, 4)]);
    assert_eq!(events, vec![ContactEvent::Ended(3, 4)]);
    assert_eq!(c.list(), vec![(1, 2)]);
}

#[test]
fn a_touching_pair_does_not_end_even_if_reported_apart() {
    let mut c = CurrentContacts::new();
    c.update(&vec![(1, 2)], &vec![]);
    let events = c.update(&vec![(1, 2), (5, 6)], &vec![(1, 2), (5, 6)]);
    assert_eq!(events, vec![ContactEvent::Started(5, 6)]);
    assert_eq!(sorted(c.list()), vec![(1, 2), (5, 6)]);
}

#[test]
fn starts_come_before_ends() {
    let mut c = CurrentContacts::new();
    c.update(&vec![(1, 2)], &vec![]);
    let events = c.update(&vec![(7, 8)], &vec![(1, 2)]);
    assert_eq!(events, vec![ContactEvent::Started(7, 8), ContactEvent::Ended(1, 2)]);
    assert_eq!(c.list(), vec![(7, 8)]);
}

#[test]
fn a_body_that_would_run_into_another_stays() {
    let contacts = vec![(1, 2), (3, 1)];
    assert!(would_collide(&contacts, 1));
    assert!(would_collide(&contacts, 3));
    assert!(!would_collide(&contacts, 2));
    assert!(!would_collide(&vec![], 1));
}
