use vstd::prelude::*;
use std::collections::HashMap;
use vstd::std_specs::iter::IteratorSpec;

verus! {

broadcast use vstd::std_specs::hash::group_hash_axioms;

/// A skeleton placed in the world: which definition, and the value of each
/// of its variables, kept as the bits of an `f32`.
#[derive(Debug)]
pub struct Instance {
    pub skeleton_name: String,
    pub variables: HashMap<String, u32>,
}

/// A number of a part: a named variable, or a constant kept as the bits of
/// its `f32` value.
#[derive(Debug, Clone)]
pub enum FloatValue {
    Variable(String),
    Constant(u32),
}

/// A piece of a skeleton: a move (three `f32`s, as bits), a turn, or a
/// named end effector.
#[derive(Debug, Clone)]
pub enum Part {
    Translation(u32, u32, u32),
    Rotation(FloatValue),
    EndEffector(String),
}

/// The bounds of a variable, as bits of `f32` values.
#[derive(Debug, Default, Clone, Copy)]
pub struct VariableConstraint {
    pub min: Option<u32>,
    pub max: Option<u32>,
}

/// A part of a skeleton and the part it hangs from, if any.
#[derive(Debug, Clone)]
pub struct PartEntry {
    pub attached_to: Option<usize>,
    pub part: Part,
}

/// A skeleton made of parts, each under its number; `next_part_id` is the
/// number the next part gets.
#[derive(Debug)]
pub struct Definition {
    pub next_part_id: usize,
    pub entries: HashMap<usize, PartEntry>,
}

/// A change to a skeleton of parts.
pub enum Change {
    Delete(usize),
    AddToRoot(Part),
    AddToPart(usize, Part),
    Replace(usize, Part),
}

/// The part that a change names does not exist.
#[derive(Debug, Clone)]
pub struct PartDoesNotExist(pub usize);

impl Default for Definition {
    fn default() -> (d: Definition)
        ensures
            d.next_part_id == 0,
            d.entries@ == Map::<usize, PartEntry>::empty(),
    {
        Definition { next_part_id: 0, entries: HashMap::new() }
    }
}

/// An entry once part `id` is gone: what hung from `id` hangs from nothing.
pub open spec fn detached(e: PartEntry, id: usize) -> PartEntry {
    if e.attached_to == Some(id) {
        PartEntry { attached_to: None, part: e.part }
    } else {
        e
    }
}

/// The entries once part `id` is deleted.
pub open spec fn deleted(m: Map<usize, PartEntry>, id: usize) -> Map<usize, PartEntry> {
    Map::new(|k: usize| m.contains_key(k) && k != id, |k: usize| detached(m[k], id))
}

/// What a change does to a skeleton of parts: numbers and entries after it.
pub open spec fn applied(next: usize, m: Map<usize, PartEntry>, change: Change) -> (usize, Map<usize, PartEntry>) {
    match change {
        Change::Delete(id) => (next, deleted(m, id)),
        Change::AddToRoot(part) => ((next + 1) as usize, m.insert(next, PartEntry { attached_to: None, part })),
        Change::AddToPart(pid, part) => (
            (next + 1) as usize,
            m.insert(next, PartEntry { attached_to: Some(pid), part }),
        ),
        Change::Replace(id, part) => (next, m.insert(id, PartEntry { attached_to: m[id].attached_to, part })),
    }
}

/// The changes a skeleton can take: one that adds needs a number left, and
/// one that replaces needs the part to be there.
pub open spec fn can_apply(next: usize, m: Map<usize, PartEntry>, change: Change) -> bool {
    match change {
        Change::Delete(_) => true,
        Change::AddToRoot(_) | Change::AddToPart(_, _) => next < usize::MAX,
        Change::Replace(id, _) => m.contains_key(id),
    }
}

/// The names of the variables that the turns of a skeleton use.
pub open spec fn variables_of(m: Map<usize, PartEntry>) -> Set<Seq<char>> {
    Set::new(
        |v: Seq<char>|
            exists|k: usize|
                #![trigger m[k]]
                m.contains_key(k) && (m[k].part matches Part::Rotation(FloatValue::Variable(s)) && s@ == v),
    )
}

/// The numbers of the entries of a map, each once.
fn keys_of(m: &HashMap<usize, PartEntry>) -> (r: Vec<usize>)
    ensures
        r@.to_set() == m@.dom(),
{
    let mut r: Vec<usize> = Vec::new();
    for (k, _e) in it: m.iter()
        invariant
            r@ == it.seq().take(it.index()).map_values(|p: (&usize, &PartEntry)| *p.0),
            it.seq() == vstd::std_specs::hash::spec_hash_map_iter(m).remaining(),
        ensures
            r@ == vstd::std_specs::hash::spec_hash_map_iter(m).remaining().map_values(
                |p: (&usize, &PartEntry)| *p.0,
            ),
    {
        assert(it.seq().take(it.index() + 1).map_values(|p: (&usize, &PartEntry)| *p.0) =~= it.seq().take(
            it.index(),
        ).map_values(|p: (&usize, &PartEntry)| *p.0).push(*k));
        r.push(*k);
    }
    proof {
        let v = vstd::std_specs::hash::spec_hash_map_iter(m).remaining();
        assert forall|k: usize| r@.to_set().contains(k) == m@.dom().contains(k) by {
            if r@.to_set().contains(k) {
                let i = choose|i: int| 0 <= i < r@.len() && r@[i] == k;
                assert(m@.contains_key(*v[i].0));
            }
            if m@.contains_key(k) {
                assert(v.contains((&k, &m@[k])));
                let i = choose|i: int| 0 <= i < v.len() && v[i] == (&k, &m@[k]);
                assert(r@[i] == k);
            }
        }
        assert(r@.to_set() =~= m@.dom());
    }
    r
}

impl Definition {
    /// Applies a change: deleting a part lets what hung from it hang from
    /// nothing; adding gives the part the next number; replacing keeps
    /// where the part hangs. Every change succeeds.
    pub fn apply(&mut self, change: Change) -> (r: Result<(), PartDoesNotExist>)
        requires
            can_apply(old(self).next_part_id, old(self).entries@, change),
        ensures
            r is Ok,
            (final(self).next_part_id, final(self).entries@) == applied(
                old(self).next_part_id,
                old(self).entries@,
                change,
            ),
    {
        let ghost c = change;
        match change {
            Change::Delete(id) => {
                let _ = self.entries.remove(&id);
                let ghost m0 = self.entries@;
                let keys = keys_of(&self.entries);
                let mut i: usize = 0;
                while i < keys.len()
                    invariant
                        c == Change::Delete(id),
                        m0 == old(self).entries@.remove(id),
                        keys@.to_set() == m0.dom(),
                        i <= keys@.len(),
                        self.next_part_id == old(self).next_part_id,
                        self.entries@.dom() == m0.dom(),
                        forall|k: usize|
                            #[trigger] m0.contains_key(k) ==> self.entries@[k] == if keys@.take(i as int).contains(k) {
                                detached(m0[k], id)
                            } else {
                                m0[k]
                            },
                    decreases keys@.len() - i,
                {
                    let k = keys[i];
                    assert(keys@.to_set().contains(k));
                    let ghost before = self.entries@;
                    match self.entries.remove(&k) {
                        Some(e) => {
                            let hangs_from_id = match e.attached_to {
                                Some(p) => p == id,
                                None => false,
                            };
                            if hangs_from_id {
                                self.entries.insert(k, PartEntry { attached_to: None, part: e.part });
                            } else {
                                self.entries.insert(k, e);
                            }
                        },
                        None => {},
                    }
                    assert(self.entries@ == before.insert(k, detached(before[k], id)));
                    assert(keys@.take(i + 1) =~= keys@.take(i as int).push(k));
                    assert forall|k2: usize| #[trigger] m0.contains_key(k2) implies self.entries@[k2] == if keys@.take(
                        i + 1,
                    ).contains(k2) {
                        detached(m0[k2], id)
                    } else {
                        m0[k2]
                    } by {
                        if k2 != k {
                            assert(keys@.take(i + 1).contains(k2) == keys@.take(i as int).contains(k2));
                        } else {
                            assert(keys@.take(i + 1)[i as int] == k2);
                            assert(keys@.take(i + 1).contains(k2));
                        }
                    }
                    i = i + 1;
                    assert(self.entries@.dom() =~= m0.dom());
                }
                proof {
                    assert forall|k: usize| m0.contains_key(k) implies keys@.take(i as int).contains(k) by {
                        assert(keys@.to_set().contains(k));
                        assert(keys@.take(i as int) =~= keys@);
                    }
                    assert(self.entries@ =~= deleted(old(self).entries@, id));
                }
            },
            Change::AddToRoot(part) => {
                let id = self.next_part_id;
                self.next_part_id = self.next_part_id + 1;
                self.entries.insert(id, PartEntry { part, attached_to: None });
            },
            Change::AddToPart(pid, part) => {
                let id = self.next_part_id;
                self.next_part_id = self.next_part_id + 1;
                self.entries.insert(id, PartEntry { part, attached_to: Some(pid) });
            },
            Change::Replace(id, part) => {
                match self.entries.remove(&id) {
                    Some(e) => {
                        self.entries.insert(id, PartEntry { attached_to: e.attached_to, part });
                    },
                    None => {},
                }
            },
        }
        Ok(())
    }
}

/// The texts of a list of strings.
pub open spec fn names(r: Seq<String>) -> Seq<Seq<char>> {
    r.map_values(|s: String| s@)
}

fn contains_name(r: &Vec<String>, s: &String) -> (b: bool)
    ensures
        b == names(r@).contains(s@),
{
    let mut j: usize = 0;
    while j < r.len()
        invariant
            j <= r@.len(),
            forall|i: int| 0 <= i < j ==> r@[i]@ != s@,
        decreases r@.len() - j,
    {
        if r[j] == *s {
            assert(names(r@)[j as int] == s@);
            return true;
        }
        j = j + 1;
    }
    assert forall|i: int| 0 <= i < names(r@).len() implies names(r@)[i] != s@ by {
        assert(names(r@)[i] == r@[i]@);
    }
    false
}

impl Definition {
    /// The names of the variables that the turns of the skeleton use, each
    /// once, in the order in which the entries are walked.
    pub fn variables(&self) -> (r: Vec<String>)
        ensures
            names(r@).to_set() == variables_of(self.entries@),
            names(r@).no_duplicates(),
    {
        let ghost m = self.entries@;
        let mut r: Vec<String> = Vec::new();
        for (_k, e) in it: self.entries.iter()
            invariant
                m == self.entries@,
                it.seq() == vstd::std_specs::hash::spec_hash_map_iter(&self.entries).remaining(),
                names(r@).no_duplicates(),
                forall|v: Seq<char>| names(r@).contains(v) ==> #[trigger] variables_of(m).contains(v),
                forall|j: int|
                    #![trigger it.seq()[j]]
                    0 <= j < it.index() ==> (it.seq()[j].1.part matches Part::Rotation(FloatValue::Variable(s))
                        ==> names(r@).contains(s@)),
        {
            let ghost v = it.seq();
            let ghost idx = it.index();
            proof {
                assert(m.contains_key(*v[idx].0) && m[*v[idx].0] == *v[idx].1);
            }
            let ghost before = r@;
            match &e.part {
                Part::Rotation(FloatValue::Variable(var)) => {
                    if !contains_name(&r, var) {
                        let name = var.clone();
                        r.push(name);
                        proof {
                            assert(names(r@) =~= names(before).push(var@));
                            assert(variables_of(m).contains(var@));
                        }
                    }
                    assert(names(r@)[names(r@).len() - 1] == var@ || names(before).contains(var@));
                    assert(names(r@).contains(var@));
                },
                _ => {},
            }
            proof {
                assert forall|w: Seq<char>| names(before).contains(w) implies names(r@).contains(w) by {
                    let i = choose|i: int| 0 <= i < names(before).len() && names(before)[i] == w;
                    assert(names(r@)[i] == w);
                }
                assert(*e == *v[idx].1);
            }
        }
        proof {
            let v = vstd::std_specs::hash::spec_hash_map_iter(&self.entries).remaining();
            assert forall|w: Seq<char>| #[trigger] variables_of(m).contains(w) implies names(r@).contains(w) by {
                let k = choose|k: usize|
                    #![trigger m[k]]
                    m.contains_key(k) && (m[k].part matches Part::Rotation(FloatValue::Variable(s)) && s@ == w);
                assert(v.contains((&k, &m[k])));
                let j = choose|j: int| 0 <= j < v.len() && v[j] == (&k, &m[k]);
            }
            assert(names(r@).to_set() =~= variables_of(m));
        }
        r
    }
}

/// Why a name cannot be given to a new skeleton.
#[derive(Clone, Copy, Debug, PartialEq, Eq, Structural)]
pub enum NewNameProblem {
    Empty,
    Taken,
}

impl NewNameProblem {
    /// The message shown for the problem.
    pub fn message(&self) -> (m: &'static str)
        ensures
            *self == NewNameProblem::Empty ==> m@ == "Name cant be empty"@,
            *self == NewNameProblem::Taken ==> m@ == "Already exists a skeleton with the given name"@,
    {
        match self {
            NewNameProblem::Empty => "Name cant be empty",
            NewNameProblem::Taken => "Already exists a skeleton with the given name",
        }
    }
}

/// Whether `name` can name a new skeleton among those named `existing`: it
/// must not be empty, nor taken.
pub fn check_new_skeleton_name(name: &String, existing: &Vec<String>) -> (r: Result<(), NewNameProblem>)
    ensures
        name@.len() == 0 ==> r == Err::<(), NewNameProblem>(NewNameProblem::Empty),
        name@.len() > 0 && names(existing@).contains(name@) ==> r == Err::<(), NewNameProblem>(
            NewNameProblem::Taken,
        ),
        name@.len() > 0 && !names(existing@).contains(name@) ==> r is Ok,
{
    if name.as_str().is_empty() {
        return Err(NewNameProblem::Empty);
    }
    if contains_name(existing, name) {
        return Err(NewNameProblem::Taken);
    }
    Ok(())
}

} // verus!
