use vstd::prelude::*;

verus! {

broadcast use vstd::seq_lib::group_seq_properties;

/// A body of the simple physics, by its number.
pub type Body = u64;

/// Two bodies touching: the first is the one that would run into the second.
pub type Contact = (Body, Body);

/// A contact that begins or ends.
#[derive(Clone, Copy, Debug, PartialEq, Eq, Structural)]
pub enum ContactEvent {
    Started(Body, Body),
    Ended(Body, Body),
}

/// The contacts that hold now, each once.
#[derive(Debug)]
pub struct CurrentContacts {
    set: Vec<Contact>,
}

fn copy_contacts(s: &Vec<Contact>) -> (r: Vec<Contact>)
    ensures
        r@ == s@,
{
    let mut r: Vec<Contact> = Vec::new();
    let mut i: usize = 0;
    while i < s.len()
        invariant
            i <= s@.len(),
            r@ == s@.take(i as int),
        decreases s@.len() - i,
    {
        r.push(s[i]);
        i = i + 1;
        assert(r@ =~= s@.take(i as int));
    }
    assert(r@ =~= s@);
    r
}

fn contains(s: &Vec<Contact>, c: Contact) -> (b: bool)
    ensures
        b == s@.contains(c),
{
    let mut i: usize = 0;
    while i < s.len()
        invariant
            i <= s@.len(),
            forall|j: int| 0 <= j < i ==> s@[j] != c,
        decreases s@.len() - i,
    {
        let d = s[i];
        if d.0 == c.0 && d.1 == c.1 {
            assert(s@[i as int] == c);
            return true;
        }
        i = i + 1;
    }
    false
}

/// The contacts that end: they held, no longer touch, and lie apart.
pub open spec fn ended_contacts(old: Set<Contact>, new: Set<Contact>, apart: Set<Contact>) -> Set<Contact> {
    old.difference(new).intersect(apart)
}

/// The events of one step: a start for each new contact that did not hold,
/// an end for each contact that ends.
pub open spec fn step_events(old: Set<Contact>, new: Set<Contact>, apart: Set<Contact>) -> Set<ContactEvent> {
    Set::new(
        |e: ContactEvent|
            match e {
                ContactEvent::Started(a, b) => new.contains((a, b)) && !old.contains((a, b)),
                ContactEvent::Ended(a, b) => ended_contacts(old, new, apart).contains((a, b)),
            },
    )
}

impl CurrentContacts {
    #[verifier::type_invariant]
    closed spec fn inv(self) -> bool {
        self.set@.no_duplicates()
    }

    /// The contacts, as a set.
    pub closed spec fn pairs(&self) -> Set<Contact> {
        self.set@.to_set()
    }

    /// No contacts.
    pub fn new() -> (c: CurrentContacts)
        ensures
            c.pairs() == Set::<Contact>::empty(),
    {
        let c = CurrentContacts { set: Vec::new() };
        assert(c.pairs() =~= Set::<Contact>::empty());
        c
    }

    /// The contacts, each once.
    pub fn list(&self) -> (r: Vec<Contact>)
        ensures
            r@.to_set() == self.pairs(),
            r@.no_duplicates(),
    {
        proof {
            use_type_invariant(self);
        }
        copy_contacts(&self.set)
    }

    /// One step of contact keeping. `new_contacts` are the pairs that
    /// would touch after this step's move; `apart` are pairs found apart by
    /// more than the contact margin, or with a body gone. Every new pair
    /// that did not hold starts; every pair that held, is not new and lies
    /// apart ends; the rest hold on. Starts come before ends.
    pub fn update(&mut self, new_contacts: &Vec<Contact>, apart: &Vec<Contact>) -> (events: Vec<ContactEvent>)
        ensures
            final(self).pairs() == old(self).pairs().union(new_contacts@.to_set()).difference(
                ended_contacts(old(self).pairs(), new_contacts@.to_set(), apart@.to_set()),
            ),
            events@.to_set() == step_events(old(self).pairs(), new_contacts@.to_set(), apart@.to_set()),
            events@.no_duplicates(),
            forall|i: int, j: int|
                0 <= i < j < events@.len() && #[trigger] events@[j] is Started ==> #[trigger] events@[i] is Started,
    {
        proof {
            use_type_invariant(&*self);
        }
        let ghost old_pairs = self.pairs();
        let ghost new = new_contacts@.to_set();
        let ghost ap = apart@.to_set();
        let mut set = copy_contacts(&self.set);
        assert(new_contacts@.take(0).to_set() =~= Set::<Contact>::empty());
        assert(set@.to_set() =~= old_pairs.union(new_contacts@.take(0).to_set()));
        let mut events: Vec<ContactEvent> = Vec::new();
        let mut i: usize = 0;
        while i < new_contacts.len()
            invariant
                i <= new_contacts@.len(),
                set@.no_duplicates(),
                set@.to_set() == old_pairs.union(new_contacts@.take(i as int).to_set()),
                events@.no_duplicates(),
                forall|k: int| 0 <= k < events@.len() ==> #[trigger] events@[k] is Started,
                events@.to_set() == Set::new(
                    |e: ContactEvent|
                        e matches ContactEvent::Started(a, b) && new_contacts@.take(i as int).contains((a, b))
                            && !old_pairs.contains((a, b)),
                ),
            decreases new_contacts@.len() - i,
        {
            let c = new_contacts[i];
            let ghost seen = new_contacts@.take(i as int);
            assert(new_contacts@.take(i + 1) =~= seen.push(c));
            proof {
                seen.lemma_push_to_set_commute(c);
            }
            if !contains(&set, c) {
                proof {
                    assert(!set@.to_set().contains(c));
                    assert(!old_pairs.contains(c));
                    assert(!seen.to_set().contains(c));
                    assert(!seen.contains(c));
                    assert(!events@.contains(ContactEvent::Started(c.0, c.1))) by {
                        if events@.contains(ContactEvent::Started(c.0, c.1)) {
                            assert(events@.to_set().contains(ContactEvent::Started(c.0, c.1)));
                        }
                    }
                }
                let ghost before = events@;
                let ghost set_before = set@;
                events.push(ContactEvent::Started(c.0, c.1));
                set.push(c);
                proof {
                    set_before.lemma_push_to_set_commute(c);
                }
                proof {
                    assert(events@ == before.push(ContactEvent::Started(c.0, c.1)));
                    before.lemma_push_to_set_commute(ContactEvent::Started(c.0, c.1));
                    assert forall|e: ContactEvent|
                        events@.to_set().contains(e) == (e matches ContactEvent::Started(a, b)
                            && new_contacts@.take(i + 1).contains((a, b)) && !old_pairs.contains((a, b))) by {
                        if let ContactEvent::Started(a, b) = e {
                            assert(new_contacts@.take(i + 1).contains((a, b)) == (seen.contains((a, b)) || (a, b) == c));
                        }
                    }
                    assert(events@.to_set() =~= Set::new(
                        |e: ContactEvent|
                            e matches ContactEvent::Started(a, b) && new_contacts@.take(i + 1).contains((a, b))
                                && !old_pairs.contains((a, b)),
                    ));
                    assert(set@.to_set() =~= old_pairs.union(new_contacts@.take(i + 1).to_set()));
                }
            } else {
                proof {
                    assert(events@.to_set() =~= Set::new(
                        |e: ContactEvent|
                            e matches ContactEvent::Started(a, b) && new_contacts@.take(i + 1).contains((a, b))
                                && !old_pairs.contains((a, b)),
                    )) by {
                        assert forall|e: ContactEvent|
                            #![trigger events@.to_set().contains(e)]
                            e matches ContactEvent::Started(a, b) && (a, b) == c implies !(
                        !old_pairs.contains(c) && !seen.contains(c)) by {
                            assert(set@.to_set().contains(c));
                        }
                    }
                    assert(set@.to_set() =~= old_pairs.union(new_contacts@.take(i + 1).to_set()));
                }
            }
            i = i + 1;
        }
        proof {
            assert(new_contacts@.take(i as int) =~= new_contacts@);
        }
        let n_started = events.len();
        let mut kept: Vec<Contact> = Vec::new();
        assert(events@.take(n_started as int) =~= events@);
        assert(events@.skip(n_started as int) =~= Seq::<ContactEvent>::empty());
        assert(set@.take(0) =~= Seq::<Contact>::empty());
        assert(events@.skip(n_started as int).to_set() =~= Set::<ContactEvent>::empty());
        assert(kept@.to_set() =~= Set::<Contact>::empty());
        assert(set@.take(0).to_set() =~= Set::<Contact>::empty());
        let mut j: usize = 0;
        while j < set.len()
            invariant
                j <= set@.len(),
                set@.no_duplicates(),
                set@.to_set() == old_pairs.union(new),
                new == new_contacts@.to_set(),
                ap == apart@.to_set(),
                n_started <= events@.len(),
                events@.no_duplicates(),
                forall|k: int| 0 <= k < n_started ==> #[trigger] events@[k] is Started,
                forall|k: int| n_started <= k < events@.len() ==> #[trigger] events@[k] is Ended,
                events@.take(n_started as int).to_set() == Set::new(
                    |e: ContactEvent|
                        e matches ContactEvent::Started(a, b) && new.contains((a, b)) && !old_pairs.contains((a, b)),
                ),
                events@.skip(n_started as int).to_set() == Set::new(
                    |e: ContactEvent|
                        e matches ContactEvent::Ended(a, b) && set@.take(j as int).contains((a, b))
                            && ended_contacts(old_pairs, new, ap).contains((a, b)),
                ),
                kept@.no_duplicates(),
                kept@.to_set() == set@.take(j as int).to_set().difference(ended_contacts(old_pairs, new, ap)),
            decreases set@.len() - j,
        {
            let c = set[j];
            let ghost seen = set@.take(j as int);
            assert(set@.take(j + 1) =~= seen.push(c));
            proof {
                seen.lemma_push_to_set_commute(c);
                assert(set@[j as int] == c);
                assert(set@.to_set().contains(c));
            }
            assert(!seen.contains(c)) by {
                if seen.contains(c) {
                    let k = choose|k: int| 0 <= k < seen.len() && seen[k] == c;
                    assert(set@[k] == set@[j as int]);
                }
            }
            let ends = !contains(new_contacts, c) && contains(apart, c);
            proof {
                if ends {
                    assert(old_pairs.contains(c));
                }
            }
            let ghost before = events@;
            let ghost kept_before = kept@;
            if ends {
                proof {
                    assert(!before.contains(ContactEvent::Ended(c.0, c.1))) by {
                        if before.contains(ContactEvent::Ended(c.0, c.1)) {
                            let k = choose|k: int| 0 <= k < before.len() && before[k] == ContactEvent::Ended(c.0, c.1);
                            assert(before.skip(n_started as int)[k - n_started] == before[k]);
                            assert(before.skip(n_started as int).to_set().contains(ContactEvent::Ended(c.0, c.1)));
                        }
                    }
                }
                events.push(ContactEvent::Ended(c.0, c.1));
                proof {
                    assert(events@.take(n_started as int) =~= before.take(n_started as int));
                    assert(events@.skip(n_started as int) =~= before.skip(n_started as int).push(
                        ContactEvent::Ended(c.0, c.1),
                    ));
                    before.skip(n_started as int).lemma_push_to_set_commute(ContactEvent::Ended(c.0, c.1));
                    assert forall|e: ContactEvent|
                        events@.skip(n_started as int).to_set().contains(e) == (e matches ContactEvent::Ended(a, b)
                            && set@.take(j + 1).contains((a, b)) && ended_contacts(old_pairs, new, ap).contains(
                            (a, b),
                        )) by {
                        if let ContactEvent::Ended(a, b) = e {
                            assert(set@.take(j + 1).contains((a, b)) == (seen.contains((a, b)) || (a, b) == c));
                        }
                    }
                    assert(events@.skip(n_started as int).to_set() =~= Set::new(
                        |e: ContactEvent|
                            e matches ContactEvent::Ended(a, b) && set@.take(j + 1).contains((a, b))
                                && ended_contacts(old_pairs, new, ap).contains((a, b)),
                    ));
                    assert(kept@.to_set() =~= set@.take(j + 1).to_set().difference(
                        ended_contacts(old_pairs, new, ap),
                    ));
                }
            } else {
                proof {
                    assert(!kept@.contains(c)) by {
                        if kept@.contains(c) {
                            assert(kept@.to_set().contains(c));
                        }
                    }
                }
                kept.push(c);
                proof {
                    kept_before.lemma_push_to_set_commute(c);
                    assert(kept@.to_set() =~= kept_before.to_set().insert(c));
                    assert(kept@.to_set() =~= set@.take(j + 1).to_set().difference(
                        ended_contacts(old_pairs, new, ap),
                    ));
                    assert(events@.skip(n_started as int).to_set() =~= Set::new(
                        |e: ContactEvent|
                            e matches ContactEvent::Ended(a, b) && set@.take(j + 1).contains((a, b))
                                && ended_contacts(old_pairs, new, ap).contains((a, b)),
                    ));
                }
            }
            j = j + 1;
        }
        proof {
            assert(set@.take(j as int) =~= set@);
            assert forall|e: ContactEvent| events@.to_set().contains(e) == step_events(old_pairs, new, ap).contains(e) by {
                if events@.to_set().contains(e) {
                    let k = choose|k: int| 0 <= k < events@.len() && events@[k] == e;
                    if k < n_started {
                        assert(events@.take(n_started as int)[k] == e);
                        assert(events@.take(n_started as int).to_set().contains(e));
                    } else {
                        assert(events@.skip(n_started as int)[k - n_started] == e);
                        assert(events@.skip(n_started as int).to_set().contains(e));
                    }
                }
                if step_events(old_pairs, new, ap).contains(e) {
                    match e {
                        ContactEvent::Started(a, b) => {
                            assert(events@.take(n_started as int).to_set().contains(e));
                            let k = choose|k: int| 0 <= k < n_started && events@.take(n_started as int)[k] == e;
                            assert(events@[k] == e);
                        },
                        ContactEvent::Ended(a, b) => {
                            assert(set@.to_set().contains((a, b)));
                            assert(set@.contains((a, b)));
                            assert(events@.skip(n_started as int).to_set().contains(e));
                            let k = choose|k: int|
                                0 <= k < events@.len() - n_started && events@.skip(n_started as int)[k] == e;
                            assert(events@[k + n_started] == e);
                        },
                    }
                }
            }
            assert(events@.to_set() =~= step_events(old_pairs, new, ap));
            assert(kept@.to_set() =~= old_pairs.union(new).difference(ended_contacts(old_pairs, new, ap)));
        }
        self.set = kept;
        events
    }
}

/// Whether a body would run into another after this step's move, and so
/// stays where it is.
pub fn would_collide(new_contacts: &Vec<Contact>, body: Body) -> (b: bool)
    ensures
        b == exists|other: Body| new_contacts@.contains((body, other)),
{
    let mut i: usize = 0;
    while i < new_contacts.len()
        invariant
            i <= new_contacts@.len(),
            forall|k: int| 0 <= k < i ==> new_contacts@[k].0 != body,
        decreases new_contacts@.len() - i,
    {
        if new_contacts[i].0 == body {
            assert(new_contacts@.contains((body, new_contacts@[i as int].1))) by {
                assert(new_contacts@[i as int] == (body, new_contacts@[i as int].1));
            }
            return true;
        }
        i = i + 1;
    }
    assert forall|other: Body| !new_contacts@.contains((body, other)) by {
        if new_contacts@.contains((body, other)) {
            let k = choose|k: int| 0 <= k < new_contacts@.len() && new_contacts@[k] == (body, other);
        }
    }
    false
}

} // verus!
