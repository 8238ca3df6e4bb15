use vstd::prelude::*;
use std::collections::HashMap;
use vstd::std_specs::iter::IteratorSpec;

verus! {

broadcast use vstd::std_specs::hash::group_hash_axioms;

pub type LinkId = usize;

pub type SlotName = char;

pub type Variable = String;

pub type Effector = String;

/// A slot of a link: the link and the slot's name in it.
#[derive(Debug, Default, Clone, Copy, PartialEq, Eq, Structural)]
pub struct SlotId(pub LinkId, pub SlotName);

/// Where a slot sits on its link. Coordinates are kept as the bits of
/// their `f32` values.
#[derive(Debug, Default, Clone, Copy, PartialEq, Eq)]
pub struct Slot {
    pub position: [u32; 3],
    pub orientation: [u32; 4],
}

/// A rigid piece of a skeleton, with named slots where other links attach.
#[derive(Debug)]
pub struct Link {
    pub slots: Vec<(SlotName, Slot)>,
}

/// A number of a joint: a named variable, or a constant kept as the bits of
/// its `f32` value.
#[derive(Debug)]
pub enum FloatValue {
    Variable(Variable),
    Constant(u32),
}

/// How two links are joined.
#[derive(Debug)]
pub enum Joint {
    Fixed,
    TwistingJoint(FloatValue),
    RotationalJoin(FloatValue),
}

/// The bounds of a variable, as bits of `f32` values.
#[derive(Debug, Default, Clone, Copy, PartialEq, Eq)]
pub struct VariableConstraint {
    pub min: Option<u32>,
    pub max: Option<u32>,
}

/// A change to a skeleton definition.
#[derive(Debug)]
pub enum Change {
    Replace { link: LinkId, with: Link },
    Add { link: Link, to_parent_slot: SlotId, joint: Joint, local_slot_name: SlotName },
    ReplaceJoint { at: SlotId, with: Joint },
    Deatach { from: SlotId },
    RemoveLink { at: SlotId },
}

/// Why a change was refused.
#[derive(Debug, Clone, Copy, PartialEq, Eq, Structural)]
pub enum ChangeError {
    UnexistingLink(LinkId),
    UnexistingSlot(LinkId, SlotName),
}

/// A skeleton: links by number (`0` is the root), and the joints between
/// slots of links.
#[derive(Debug)]
pub struct Definition {
    pub last_link_id: LinkId,
    pub links: HashMap<LinkId, Link>,
    pub joints: Vec<(SlotId, Joint, SlotId)>,
}

/// A translation along the up axis, in link lengths.
#[derive(Debug, Clone, Copy, PartialEq, Eq, Structural)]
pub struct LinkTransform {
    pub up: u32,
}

pub open spec fn link_transform(target: LinkId) -> LinkTransform {
    if target == 0 {
        LinkTransform { up: 0 }
    } else if target == 1 {
        LinkTransform { up: 2 }
    } else {
        LinkTransform { up: 4 }
    }
}

pub open spec fn has_slot(slots: Seq<(SlotName, Slot)>, name: SlotName) -> bool {
    exists|i: int| 0 <= i < slots.len() && slots[i].0 == name
}

fn link_has_slot(link: &Link, name: SlotName) -> (b: bool)
    ensures
        b == has_slot(link.slots@, name),
{
    let mut i: usize = 0;
    while i < link.slots.len()
        invariant
            i <= link.slots@.len(),
            forall|j: int| 0 <= j < i ==> link.slots@[j].0 != name,
        decreases link.slots@.len() - i,
    {
        if link.slots[i].0 == name {
            assert(link.slots@[i as int].0 == name);
            return true;
        }
        i = i + 1;
    }
    false
}

impl Definition {
    /// The links are numbered from `0` to `last_link_id`, with no gap.
    pub open spec fn wf(&self) -> bool {
        forall|k: LinkId| #[trigger] self.links@.contains_key(k) <==> k <= self.last_link_id
    }

    /// No link is numbered above `last_link_id`.
    pub open spec fn numbered(&self) -> bool {
        forall|k: LinkId| #[trigger] self.links@.contains_key(k) ==> k <= self.last_link_id
    }

    /// A skeleton of one link, the root.
    pub fn new(link0: Link) -> (d: Definition)
        ensures
            d.wf(),
            d.last_link_id == 0,
            d.links@ == Map::<LinkId, Link>::empty().insert(0, link0),
            d.joints@.len() == 0,
    {
        let mut links: HashMap<LinkId, Link> = HashMap::new();
        let ghost l = link0;
        links.insert(0, link0);
        let d = Definition { last_link_id: 0, links, joints: Vec::new() };
        assert(d.links@ =~= Map::<LinkId, Link>::empty().insert(0, l));
        d
    }

    /// Applies a change. Only adding a link is supported: the new link gets
    /// the next number and is joined by `joint` to slot `to_parent_slot`,
    /// which must exist.
    pub fn apply(&mut self, change: Change) -> (r: Result<(), ChangeError>)
        requires
            change is Add,
            match change {
                Change::Add { to_parent_slot: p, .. } => old(self).links@.contains_key(p.0) && has_slot(
                    old(self).links@[p.0].slots@,
                    p.1,
                ) ==> old(self).last_link_id < usize::MAX,
                _ => true,
            },
        ensures
            old(self).wf() ==> final(self).wf(),
            old(self).numbered() ==> final(self).numbered(),
            match change {
                Change::Add { link, to_parent_slot: p, joint, local_slot_name } => {
                    if !old(self).links@.contains_key(p.0) {
                        r == Err::<(), ChangeError>(ChangeError::UnexistingLink(p.0)) && *final(self) == *old(self)
                    } else if !has_slot(old(self).links@[p.0].slots@, p.1) {
                        r == Err::<(), ChangeError>(ChangeError::UnexistingSlot(p.0, p.1)) && *final(self)
                            == *old(self)
                    } else {
                        &&& r is Ok
                        &&& final(self).last_link_id == old(self).last_link_id + 1
                        &&& final(self).links@ == old(self).links@.insert(final(self).last_link_id, link)
                        &&& final(self).joints@ == old(self).joints@.push(
                            (p, joint, SlotId(final(self).last_link_id, local_slot_name)),
                        )
                    }
                },
                _ => false,
            },
    {
        match change {
            Change::Add { link, to_parent_slot, joint, local_slot_name } => {
                if !self.links.contains_key(&to_parent_slot.0) {
                    return Err(ChangeError::UnexistingLink(to_parent_slot.0));
                }
                let found = match self.links.get(&to_parent_slot.0) {
                    Some(parent) => link_has_slot(parent, to_parent_slot.1),
                    None => false,
                };
                if !found {
                    return Err(ChangeError::UnexistingSlot(to_parent_slot.0, to_parent_slot.1));
                }
                self.last_link_id = self.last_link_id + 1;
                let id = self.last_link_id;
                self.links.insert(id, link);
                self.joints.push((to_parent_slot, joint, SlotId(id, local_slot_name)));
                proof {
                    if old(self).wf() {
                        assert forall|k: LinkId| #[trigger] self.links@.contains_key(k) <==> k <= self.last_link_id by {
                            if k < self.last_link_id {
                                assert(old(self).links@.contains_key(k));
                            }
                        }
                    }
                }
                Ok(())
            },
            _ => {
                assert(false);
                Err(ChangeError::UnexistingLink(0))
            },
        }
    }

    /// Where a link stands relative to the root link.
    pub fn get_link_transform(&self, link_id: LinkId) -> (t: LinkTransform)
        ensures
            t == link_transform(link_id),
    {
        self.get_link_transform_from(0, link_id)
    }

    /// Where link `target_link_id` stands relative to link `origin_link_id`;
    /// every link is taken to stand two lengths above the one before it,
    /// up to the second.
    pub fn get_link_transform_from(&self, origin_link_id: LinkId, target_link_id: LinkId) -> (t: LinkTransform)
        ensures
            t == link_transform(target_link_id),
    {
        if target_link_id == 0 {
            LinkTransform { up: 0 }
        } else if target_link_id == 1 {
            LinkTransform { up: 2 }
        } else {
            LinkTransform { up: 4 }
        }
    }

    /// Always true.
    pub fn has_link(&self, lr: LinkId) -> (b: bool)
        ensures
            b,
    {
        true
    }

    /// The numbers of the links, in increasing order.
    pub fn links(&self) -> (l: Vec<LinkId>)
        ensures
            l@.to_set() == self.links@.dom(),
            forall|i: int, j: int| 0 <= i < j < l@.len() ==> l@[i] < l@[j],
    {
        let mut l: Vec<LinkId> = Vec::new();
        for k in it: self.links.keys()
            invariant
                l@ == it.seq().take(it.index()).unref(),
                it.seq() == vstd::std_specs::hash::spec_keys_iter(&self.links).remaining(),
            ensures
                l@ == vstd::std_specs::hash::spec_keys_iter(&self.links).remaining().unref(),
        {
            assert(it.seq().take(it.index() + 1).unref() =~= it.seq().take(it.index()).unref().push(*k));
            l.push(*k);
        }
        proof {
            let v = vstd::std_specs::hash::spec_keys_iter(&self.links).remaining();
            assert(v.unref().to_set() == self.links@.dom());
            assert(v.no_duplicates());
            assert(l@.no_duplicates()) by {
                assert forall|i: int, j: int| 0 <= i < l@.len() && 0 <= j < l@.len() && i != j implies l@[i]
                    != l@[j] by {
                    assert(l@[i] == *v[i] && l@[j] == *v[j]);
                }
            }
        }
        sort_ids(l)
    }
}

/// The numbers, in increasing order.
fn sort_ids(v: Vec<LinkId>) -> (r: Vec<LinkId>)
    requires
        v@.no_duplicates(),
    ensures
        r@.to_set() == v@.to_set(),
        forall|i: int, j: int| 0 <= i < j < r@.len() ==> r@[i] < r@[j],
{
    let mut r: Vec<LinkId> = Vec::new();
    let mut i: usize = 0;
    while i < v.len()
        invariant
            i <= v@.len(),
            v@.no_duplicates(),
            r@.to_set() == v@.take(i as int).to_set(),
            forall|a: int, b: int| 0 <= a < b < r@.len() ==> r@[a] < r@[b],
        decreases v@.len() - i,
    {
        let x = v[i];
        assert(!v@.take(i as int).contains(x)) by {
            if v@.take(i as int).contains(x) {
                let w = v@.take(i as int);
                let k = choose|k: int| 0 <= k < w.len() && w[k] == x;
                assert(v@[k] == v@[i as int]);
            }
        }
        let mut p: usize = 0;
        while p < r.len() && r[p] < x
            invariant
                p <= r@.len(),
                forall|a: int| 0 <= a < p ==> r@[a] < x,
            decreases r@.len() - p,
        {
            p = p + 1;
        }
        let ghost before = r@;
        r.insert(p, x);
        proof {
            assert(!before.to_set().contains(x));
            if p < before.len() {
                assert(before[p as int] != x);
                assert(before[p as int] > x);
            }
            assert forall|a: int, b: int| 0 <= a < b < r@.len() implies r@[a] < r@[b] by {
                if b < p {
                    assert(r@[a] == before[a] && r@[b] == before[b]);
                } else if b == p {
                    assert(r@[a] == before[a]);
                } else if a < p {
                    assert(r@[b] == before[b - 1]);
                    if a < p {
                        assert(r@[a] == before[a]);
                    }
                    if p < before.len() {
                        assert(before[p as int] <= before[b - 1] || b - 1 == p);
                    }
                } else if a == p {
                    assert(r@[b] == before[b - 1]);
                    assert(before[p as int] > x);
                    if b - 1 > p {
                        assert(before[p as int] < before[b - 1]);
                    }
                } else {
                    assert(r@[a] == before[a - 1] && r@[b] == before[b - 1]);
                }
            }
            assert(v@.take(i + 1) =~= v@.take(i as int).push(x));
            assert forall|y: LinkId| r@.to_set().contains(y) == v@.take(i + 1).to_set().contains(y) by {
                if r@.contains(y) {
                    let k = choose|k: int| 0 <= k < r@.len() && r@[k] == y;
                    if k < p {
                        assert(before[k] == y);
                        assert(before.to_set().contains(y));
                    } else if k > p {
                        assert(before[k - 1] == y);
                        assert(before.to_set().contains(y));
                    }
                    if y != x {
                        assert(v@.take(i as int).to_set().contains(y));
                        let w = v@.take(i as int);
                        let m = choose|m: int| 0 <= m < w.len() && w[m] == y;
                        assert(v@.take(i + 1)[m] == y);
                    } else {
                        assert(v@.take(i + 1)[i as int] == y);
                    }
                }
                if v@.take(i + 1).contains(y) {
                    let w = v@.take(i + 1);
                    let m = choose|m: int| 0 <= m < w.len() && w[m] == y;
                    if m < i {
                        assert(v@.take(i as int)[m] == y);
                        assert(before.to_set().contains(y));
                        let k = choose|k: int| 0 <= k < before.len() && before[k] == y;
                        if k < p {
                            assert(r@[k] == y);
                        } else {
                            assert(r@[k + 1] == y);
                        }
                    } else {
                        assert(r@[p as int] == y);
                    }
                }
            }
            assert(r@.to_set() =~= v@.take(i + 1).to_set());
        }
        i = i + 1;
    }
    assert(v@.take(v@.len() as int) =~= v@);
    r
}

/// The bits of `0.0f32`.
pub const F32_ZERO: u32 = 0x0000_0000;

/// The bits of `1.0f32`.
pub const F32_ONE: u32 = 0x3f80_0000;

/// The bits of `-1.0f32`.
pub const F32_MINUS_ONE: u32 = 0xbf80_0000;

/// A slot `units` (as `f32` bits) along the up axis, not turned.
pub open spec fn up_slot(units: u32) -> Slot {
    Slot { position: [F32_ZERO, F32_ZERO, units], orientation: [F32_ZERO, F32_ZERO, F32_ZERO, F32_ONE] }
}

fn make_up_slot(units: u32) -> (s: Slot)
    ensures
        s == up_slot(units),
{
    Slot { position: [F32_ZERO, F32_ZERO, units], orientation: [F32_ZERO, F32_ZERO, F32_ZERO, F32_ONE] }
}

/// The base of an arm: one slot, `n`, one unit up.
pub fn arm_base_link() -> (l: Link)
    ensures
        l.slots@ == seq![('n', up_slot(F32_ONE))],
{
    let slots = vec![('n', make_up_slot(F32_ONE))];
    Link { slots }
}

/// A piece of an arm: slot `p` one unit up and slot `n` one unit down.
pub fn l_link() -> (l: Link)
    ensures
        l.slots@ == seq![('p', up_slot(F32_ONE)), ('n', up_slot(F32_MINUS_ONE))],
{
    let slots = vec![('p', make_up_slot(F32_ONE)), ('n', make_up_slot(F32_MINUS_ONE))];
    Link { slots }
}

} // verus!
