use vstd::prelude::*;
use crate::model::{
    all_valid, children_deps, children_ref_slot, children_rename_ok, dependents_set, depends_on, direct_deps,
    fold_slots, has_key, insert_all, insert_entry, key_index, keys_unique, kind_measure, kind_of,
    lemma_children_rename_ok, lemma_insert_entry, lemma_kind_step, lemma_lookup_at, lemma_remove_entry,
    lemma_rename_children, lookup, model_ends, refs_slot,
    remove_entry, rename_allowed, rename_children, rename_in, rename_model, rename_ok, renamed_block,
    slot_users, slots_end, slots_fuel, slots_spec, structure_deps, structure_slots_fuel, uses_slot,
    validate_ends, validate_spec, without_slot, ArtifactV, BlockV, ConnectionV, StructureV, deps_fuel, deps_concat,
    deps_end, deps_spec, dedup, lemma_dedup_to_set, dependents_fuel, dependents_end, dependents_spec,
};

verus! {

// ---------------------------------------------------------------------------
// Sub-structures
// ---------------------------------------------------------------------------

/// What a sub-structure is built on, its parent is built on too.
proof fn lemma_children_deps_include(s: StructureV, n: int, i: int, x: Seq<char>)
    requires
        0 <= i < n <= s.c.len(),
        s.c[i].1 is Structure,
        structure_deps(s.c[i].1->Structure_0).contains(x),
    ensures
        children_deps(s, n).contains(x),
    decreases n,
{
    let here = match s.c[n - 1].1 {
        ConnectionV::Structure(ch) => structure_deps(ch),
        ConnectionV::Slot(_) => Seq::empty(),
    };
    assert(children_deps(s, n) == here + children_deps(s, n - 1));
    if i == n - 1 {
        let k = choose|k: int| 0 <= k < here.len() && here[k] == x;
        assert((here + children_deps(s, n - 1))[k] == x);
    } else {
        lemma_children_deps_include(s, n - 1, i, x);
        let rest = children_deps(s, n - 1);
        let k = choose|k: int| 0 <= k < rest.len() && rest[k] == x;
        assert((here + rest)[here.len() + k] == x);
    }
}

/// The sub-structure connected under a name is built on nothing that its
/// parent is not built on.
proof fn lemma_child_deps(s: StructureV, name: Seq<char>, x: Seq<char>)
    requires
        lookup(s.c, name) matches Some(ConnectionV::Structure(ch)) && structure_deps(ch).contains(x),
    ensures
        structure_deps(s).contains(x),
{
    let i = key_index(s.c, name);
    lemma_children_deps_include(s, s.c.len() as int, i, x);
    let cd = children_deps(s, s.c.len() as int);
    let k = choose|k: int| 0 <= k < cd.len() && cd[k] == x;
    assert(structure_deps(s) == seq![s.a_ref] + cd);
    assert(structure_deps(s)[k + 1] == x);
}

// ---------------------------------------------------------------------------
// More fuel gives the same slots
// ---------------------------------------------------------------------------

proof fn lemma_slots_fuel_step(m: Map<Seq<char>, ArtifactV>, a: Seq<char>, f: nat)
    requires
        slots_fuel(m, a, f) is Some,
    ensures
        slots_fuel(m, a, f + 1) == slots_fuel(m, a, f),
    decreases f, 0nat,
{
    if m.contains_key(a) {
        if let ArtifactV::Structure(s) = m[a] {
            if s.a_ref != a {
                lemma_structure_slots_fuel_step(m, s, (f - 1) as nat);
            }
        }
    }
}

proof fn lemma_structure_slots_fuel_step(m: Map<Seq<char>, ArtifactV>, s: StructureV, f: nat)
    requires
        structure_slots_fuel(m, s, f) is Some,
    ensures
        structure_slots_fuel(m, s, f + 1) == structure_slots_fuel(m, s, f),
    decreases f, 0nat,
{
    if f > 0 {
        lemma_slots_fuel_step(m, s.a_ref, (f - 1) as nat);
        if let Some(Ok(inner)) = slots_fuel(m, s.a_ref, (f - 1) as nat) {
            lemma_fold_slots_step(m, s, inner, inner.len(), (f - 1) as nat);
        }
    }
}

proof fn lemma_fold_slots_step(
    m: Map<Seq<char>, ArtifactV>,
    s: StructureV,
    inner: Seq<(Seq<char>, Seq<char>)>,
    n: nat,
    f: nat,
)
    requires
        fold_slots(m, s, inner, n, f) is Some,
    ensures
        fold_slots(m, s, inner, n, f + 1) == fold_slots(m, s, inner, n, f),
    decreases f, n,
{
    if n > 0 && n <= inner.len() {
        lemma_fold_slots_step(m, s, inner, (n - 1) as nat, f);
        if let Some(Ok(acc)) = fold_slots(m, s, inner, (n - 1) as nat, f) {
            if let Some(ConnectionV::Structure(child)) = lookup(s.c, inner[n - 1].0) {
                lemma_structure_slots_fuel_step(m, child, f);
            }
        }
    }
}

proof fn lemma_slots_fuel_mono(m: Map<Seq<char>, ArtifactV>, a: Seq<char>, f: nat, g: nat)
    requires
        slots_fuel(m, a, f) is Some,
        f <= g,
    ensures
        slots_fuel(m, a, g) == slots_fuel(m, a, f),
    decreases g - f,
{
    if f < g {
        lemma_slots_fuel_step(m, a, f);
        lemma_slots_fuel_mono(m, a, f + 1, g);
    }
}

/// Two models that give the same slots at every fuel give the same slots.
proof fn lemma_slots_spec_agree(m: Map<Seq<char>, ArtifactV>, m2: Map<Seq<char>, ArtifactV>, a: Seq<char>)
    requires
        slots_end(m, a),
        forall|f: nat| #[trigger] slots_fuel(m2, a, f) == slots_fuel(m, a, f),
    ensures
        slots_end(m2, a),
        slots_spec(m2, a) == slots_spec(m, a),
{
    let f1 = choose|f: nat| #[trigger] slots_fuel(m, a, f) is Some;
    assert(slots_fuel(m2, a, f1) is Some);
    let f2 = choose|f: nat| #[trigger] slots_fuel(m2, a, f) is Some;
    assert(slots_fuel(m, a, f2) is Some);
    if f1 <= f2 {
        lemma_slots_fuel_mono(m, a, f1, f2);
    } else {
        lemma_slots_fuel_mono(m, a, f2, f1);
    }
}

// ---------------------------------------------------------------------------
// Removing an artifact that nothing is built on
// ---------------------------------------------------------------------------

proof fn lemma_kind_without(m: Map<Seq<char>, ArtifactV>, r: Seq<char>, a: Seq<char>, bc: Seq<Seq<char>>)
    requires
        m.dom().finite(),
        dependents_set(m, r).is_empty(),
        a != r,
    ensures
        kind_of(m.remove(r), a, bc) == kind_of(m, a, bc),
    decreases kind_measure(m, a, bc), (if m.contains_key(a) { 1nat } else { 0nat }),
{
    let m2 = m.remove(r);
    assert(m2.dom() =~= m.dom().remove(r));
    if m.contains_key(a) {
        if let ArtifactV::Structure(s) = m[a] {
            if !bc.push(a).contains(s.a_ref) {
                assert(structure_deps(s)[0] == s.a_ref);
                assert(s.a_ref != r) by {
                    if s.a_ref == r {
                        assert(depends_on(m, a, r));
                        assert(dependents_set(m, r).contains(a));
                    }
                }
                lemma_kind_step(m, a, bc, s.a_ref);
                lemma_kind_without(m, r, s.a_ref, bc.push(a));
            }
        }
    }
}

proof fn lemma_slots_fuel_without(m: Map<Seq<char>, ArtifactV>, r: Seq<char>, a: Seq<char>, f: nat)
    requires
        dependents_set(m, r).is_empty(),
        a != r,
    ensures
        slots_fuel(m.remove(r), a, f) == slots_fuel(m, a, f),
    decreases f, 0nat,
{
    if f > 0 && m.contains_key(a) {
        if let ArtifactV::Structure(s) = m[a] {
            if s.a_ref != a {
                assert(!structure_deps(s).contains(r)) by {
                    if structure_deps(s).contains(r) {
                        assert(direct_deps(m, a) == structure_deps(s));
                        assert(dependents_set(m, r).contains(a));
                    }
                }
                lemma_structure_slots_without(m, r, s, (f - 1) as nat);
            }
        }
    }
}

proof fn lemma_structure_slots_without(m: Map<Seq<char>, ArtifactV>, r: Seq<char>, s: StructureV, f: nat)
    requires
        dependents_set(m, r).is_empty(),
        !structure_deps(s).contains(r),
    ensures
        structure_slots_fuel(m.remove(r), s, f) == structure_slots_fuel(m, s, f),
    decreases f, 0nat,
{
    if f > 0 {
        assert(structure_deps(s)[0] == s.a_ref);
        lemma_slots_fuel_without(m, r, s.a_ref, (f - 1) as nat);
        if let Some(Ok(inner)) = slots_fuel(m, s.a_ref, (f - 1) as nat) {
            lemma_fold_without(m, r, s, inner, inner.len(), (f - 1) as nat);
        }
    }
}

proof fn lemma_fold_without(
    m: Map<Seq<char>, ArtifactV>,
    r: Seq<char>,
    s: StructureV,
    inner: Seq<(Seq<char>, Seq<char>)>,
    n: nat,
    f: nat,
)
    requires
        dependents_set(m, r).is_empty(),
        !structure_deps(s).contains(r),
    ensures
        fold_slots(m.remove(r), s, inner, n, f) == fold_slots(m, s, inner, n, f),
    decreases f, n,
{
    if n > 0 && n <= inner.len() {
        lemma_fold_without(m, r, s, inner, (n - 1) as nat, f);
        if let Some(ConnectionV::Structure(child)) = lookup(s.c, inner[n - 1].0) {
            assert(!structure_deps(child).contains(r)) by {
                if structure_deps(child).contains(r) {
                    lemma_child_deps(s, inner[n - 1].0, r);
                }
            }
            lemma_structure_slots_without(m, r, child, f);
        }
    }
}

/// Removing an artifact that no artifact of a valid model is built on
/// leaves the model valid, and checking it still ends.
pub proof fn lemma_safe_removal_keeps_validity(m: Map<Seq<char>, ArtifactV>, r: Seq<char>)
    requires
        m.dom().finite(),
        model_ends(m),
        all_valid(m),
        dependents_set(m, r).is_empty(),
    ensures
        model_ends(m.remove(r)),
        all_valid(m.remove(r)),
{
    let m2 = m.remove(r);
    assert forall|a: Seq<char>| m2.contains_key(a) implies #[trigger] validate_ends(m2, a) && validate_spec(m2, a)
        == validate_spec(m, a) by {
        assert(m.contains_key(a) && a != r);
        assert(validate_ends(m, a));
        lemma_kind_without(m, r, a, Seq::empty());
        if kind_of(m, a, Seq::empty()) is Ok {
            assert forall|f: nat| #[trigger] slots_fuel(m2, a, f) == slots_fuel(m, a, f) by {
                lemma_slots_fuel_without(m, r, a, f);
            }
            lemma_slots_spec_agree(m, m2, a);
        }
    }
    assert forall|a: Seq<char>| m2.contains_key(a) implies #[trigger] validate_spec(m2, a) is Ok by {
        assert(validate_ends(m2, a));
        assert(validate_spec(m, a) is Ok);
    }
}

// ---------------------------------------------------------------------------
// Removing a slot of a block that no structure uses
// ---------------------------------------------------------------------------

/// A structure that connects slot `slot` of `a` is built on `a`.
proof fn lemma_refs_slot_deps(s: StructureV, a: Seq<char>, slot: Seq<char>)
    requires
        refs_slot(s, a, slot),
    ensures
        structure_deps(s).contains(a),
    decreases s, 1int,
{
    if s.a_ref == a && has_key(s.c, slot) {
        assert(structure_deps(s)[0] == a);
    } else {
        lemma_children_ref_slot_deps(s, s.c.len() as int, a, slot);
        let cd = children_deps(s, s.c.len() as int);
        let k = choose|k: int| 0 <= k < cd.len() && cd[k] == a;
        assert(structure_deps(s)[k + 1] == a);
    }
}

proof fn lemma_children_ref_slot_deps(s: StructureV, n: int, a: Seq<char>, slot: Seq<char>)
    requires
        children_ref_slot(s, n, a, slot),
    ensures
        children_deps(s, n).contains(a),
    decreases s, 0int, n,
{
    if 0 < n <= s.c.len() {
        let here = match s.c[n - 1].1 {
            ConnectionV::Structure(ch) => structure_deps(ch),
            ConnectionV::Slot(_) => Seq::empty(),
        };
        let rest = children_deps(s, n - 1);
        assert(children_deps(s, n) == here + rest);
        if let ConnectionV::Structure(ch) = s.c[n - 1].1 {
            if refs_slot(ch, a, slot) {
                lemma_refs_slot_deps(ch, a, slot);
                let k = choose|k: int| 0 <= k < here.len() && here[k] == a;
                assert((here + rest)[k] == a);
                return;
            }
        }
        lemma_children_ref_slot_deps(s, n - 1, a, slot);
        let k = choose|k: int| 0 <= k < rest.len() && rest[k] == a;
        assert((here + rest)[here.len() + k] == a);
    }
}

/// A sub-structure that connects the slot makes its parent connect it.
proof fn lemma_children_ref_slot_include(s: StructureV, n: int, i: int, a: Seq<char>, slot: Seq<char>)
    requires
        0 <= i < n <= s.c.len(),
        s.c[i].1 is Structure,
        refs_slot(s.c[i].1->Structure_0, a, slot),
    ensures
        children_ref_slot(s, n, a, slot),
    decreases n,
{
    if i < n - 1 {
        lemma_children_ref_slot_include(s, n - 1, i, a, slot);
    }
}

proof fn lemma_child_refs_slot(s: StructureV, name: Seq<char>, a: Seq<char>, slot: Seq<char>)
    requires
        lookup(s.c, name) matches Some(ConnectionV::Structure(ch)) && refs_slot(ch, a, slot),
    ensures
        refs_slot(s, a, slot),
{
    lemma_children_ref_slot_include(s, s.c.len() as int, key_index(s.c, name), a, slot);
}

/// Dropping an inner slot that the structure does not connect changes
/// nothing in what the structure exposes.
proof fn lemma_fold_drop_unconnected(
    m: Map<Seq<char>, ArtifactV>,
    s: StructureV,
    inner: Seq<(Seq<char>, Seq<char>)>,
    idx: int,
    n: int,
    f: nat,
)
    requires
        0 <= idx < inner.len(),
        lookup(s.c, inner[idx].0) is None,
        0 <= n <= inner.len(),
    ensures
        fold_slots(m, s, inner.remove(idx), (if n <= idx { n } else { n - 1 }) as nat, f) == fold_slots(
            m,
            s,
            inner,
            n as nat,
            f,
        ),
    decreases n,
{
    let t = inner.remove(idx);
    if n > 0 {
        lemma_fold_drop_unconnected(m, s, inner, idx, n - 1, f);
        if n <= idx {
            assert(t[n - 1] == inner[n - 1]);
        } else if n == idx + 1 {
        } else {
            assert(t[n - 2] == inner[n - 1]);
        }
    }
}

/// `m` with slot `sl` of block `a` dropped.
pub open spec fn slot_removed(m: Map<Seq<char>, ArtifactV>, a: Seq<char>, sl: Seq<char>) -> Map<
    Seq<char>,
    ArtifactV,
> {
    m.insert(a, ArtifactV::Block(without_slot(m[a]->Block_0, sl)))
}

proof fn lemma_kind_slot_removed(
    m: Map<Seq<char>, ArtifactV>,
    a: Seq<char>,
    sl: Seq<char>,
    x: Seq<char>,
    bc: Seq<Seq<char>>,
)
    requires
        m.dom().finite(),
        m.contains_key(a),
        m[a] is Block,
    ensures
        kind_of(slot_removed(m, a, sl), x, bc) == kind_of(m, x, bc),
    decreases kind_measure(m, x, bc), (if m.contains_key(x) { 1nat } else { 0nat }),
{
    let m2 = slot_removed(m, a, sl);
    assert(m2.dom() =~= m.dom());
    if m.contains_key(x) {
        if let ArtifactV::Structure(s) = m[x] {
            if !bc.push(x).contains(s.a_ref) {
                lemma_kind_step(m, x, bc, s.a_ref);
                lemma_kind_slot_removed(m, a, sl, s.a_ref, bc.push(x));
            }
        }
    }
}

proof fn lemma_slots_fuel_slot_removed(
    m: Map<Seq<char>, ArtifactV>,
    a: Seq<char>,
    sl: Seq<char>,
    x: Seq<char>,
    f: nat,
)
    requires
        m.contains_key(a),
        m[a] is Block,
        slot_users(m, a, sl).is_empty(),
        x != a,
    ensures
        slots_fuel(slot_removed(m, a, sl), x, f) == slots_fuel(m, x, f),
    decreases f, 0nat,
{
    if f > 0 && m.contains_key(x) {
        if let ArtifactV::Structure(s) = m[x] {
            if s.a_ref != x {
                assert(!refs_slot(s, a, sl)) by {
                    if refs_slot(s, a, sl) {
                        lemma_refs_slot_deps(s, a, sl);
                        assert(direct_deps(m, x) == structure_deps(s));
                        assert(uses_slot(m, x, a, sl));
                        assert(slot_users(m, a, sl).contains(x));
                    }
                }
                lemma_structure_slots_slot_removed(m, a, sl, s, (f - 1) as nat);
            }
        }
    }
}

proof fn lemma_structure_slots_slot_removed(
    m: Map<Seq<char>, ArtifactV>,
    a: Seq<char>,
    sl: Seq<char>,
    s: StructureV,
    f: nat,
)
    requires
        m.contains_key(a),
        m[a] is Block,
        slot_users(m, a, sl).is_empty(),
        !refs_slot(s, a, sl),
    ensures
        structure_slots_fuel(slot_removed(m, a, sl), s, f) == structure_slots_fuel(m, s, f),
    decreases f, 0nat,
{
    let m2 = slot_removed(m, a, sl);
    if f > 0 {
        let g = (f - 1) as nat;
        if s.a_ref != a {
            lemma_slots_fuel_slot_removed(m, a, sl, s.a_ref, g);
            if let Some(Ok(inner)) = slots_fuel(m, s.a_ref, g) {
                lemma_fold_slot_removed(m, a, sl, s, inner, inner.len(), g);
            }
        } else if g > 0 {
            let b = m[a]->Block_0;
            let inner = b.slots;
            let inner2 = remove_entry(inner, sl);
            assert(slots_fuel(m, a, g) == Some(Ok::<Seq<(Seq<char>, Seq<char>)>, Seq<char>>(inner)));
            assert(slots_fuel(m2, a, g) == Some(Ok::<Seq<(Seq<char>, Seq<char>)>, Seq<char>>(inner2)));
            lemma_fold_slot_removed(m, a, sl, s, inner2, inner2.len(), g);
            if has_key(inner, sl) {
                let idx = key_index(inner, sl);
                assert(!has_key(s.c, sl));
                assert(lookup(s.c, inner[idx].0) is None);
                lemma_fold_drop_unconnected(m, s, inner, idx, inner.len() as int, g);
                assert(inner2 == inner.remove(idx));
            }
        }
    }
}

proof fn lemma_fold_slot_removed(
    m: Map<Seq<char>, ArtifactV>,
    a: Seq<char>,
    sl: Seq<char>,
    s: StructureV,
    inner: Seq<(Seq<char>, Seq<char>)>,
    n: nat,
    f: nat,
)
    requires
        m.contains_key(a),
        m[a] is Block,
        slot_users(m, a, sl).is_empty(),
        !refs_slot(s, a, sl),
    ensures
        fold_slots(slot_removed(m, a, sl), s, inner, n, f) == fold_slots(m, s, inner, n, f),
    decreases f, n,
{
    if n > 0 && n <= inner.len() {
        lemma_fold_slot_removed(m, a, sl, s, inner, (n - 1) as nat, f);
        if let Some(ConnectionV::Structure(child)) = lookup(s.c, inner[n - 1].0) {
            assert(!refs_slot(child, a, sl)) by {
                if refs_slot(child, a, sl) {
                    lemma_child_refs_slot(s, inner[n - 1].0, a, sl);
                }
            }
            lemma_structure_slots_slot_removed(m, a, sl, child, f);
        }
    }
}

/// Dropping a slot of a block of a valid model, when no structure built on
/// the block connects that slot, leaves the model valid, and checking it
/// still ends.
pub proof fn lemma_safe_slot_removal_keeps_validity(m: Map<Seq<char>, ArtifactV>, a: Seq<char>, sl: Seq<char>)
    requires
        m.dom().finite(),
        model_ends(m),
        all_valid(m),
        m.contains_key(a),
        m[a] is Block,
        slot_users(m, a, sl).is_empty(),
    ensures
        model_ends(slot_removed(m, a, sl)),
        all_valid(slot_removed(m, a, sl)),
{
    let m2 = slot_removed(m, a, sl);
    assert(m2.dom() =~= m.dom());
    assert forall|x: Seq<char>| m2.contains_key(x) implies #[trigger] validate_ends(m2, x) && validate_spec(m2, x)
        is Ok by {
        assert(validate_ends(m, x));
        assert(validate_spec(m, x) is Ok);
        lemma_kind_slot_removed(m, a, sl, x, Seq::empty());
        if x != a {
            assert forall|f: nat| #[trigger] slots_fuel(m2, x, f) == slots_fuel(m, x, f) by {
                lemma_slots_fuel_slot_removed(m, a, sl, x, f);
            }
            lemma_slots_spec_agree(m, m2, x);
        } else {
            assert(slots_fuel(m2, a, 1) is Some);
            let f = choose|f: nat| #[trigger] slots_fuel(m2, a, f) is Some;
            assert(f > 0);
        }
    }
    assert forall|x: Seq<char>| m2.contains_key(x) implies #[trigger] validate_spec(m2, x) is Ok by {
        assert(validate_ends(m2, x));
    }
}

// ---------------------------------------------------------------------------
// Renaming a slot of a block
// ---------------------------------------------------------------------------

/// No structure of `s`, at any depth, connects a name twice.
pub open spec fn conns_unique(s: StructureV) -> bool
    decreases s,
{
    keys_unique(s.c) && children_unique(s, s.c.len() as int)
}

pub open spec fn children_unique(s: StructureV, n: int) -> bool
    decreases s, n,
{
    if n <= 0 || n > s.c.len() {
        true
    } else {
        (match s.c[n - 1].1 {
            ConnectionV::Structure(ch) => conns_unique(ch),
            ConnectionV::Slot(_) => true,
        }) && children_unique(s, n - 1)
    }
}

/// No block names a slot twice and no structure connects a name twice, as
/// with every model built from the library's types.
pub open spec fn model_wf(m: Map<Seq<char>, ArtifactV>) -> bool {
    forall|x: Seq<char>|
        #[trigger] m.contains_key(x) ==> match m[x] {
            ArtifactV::Structure(s) => conns_unique(s),
            ArtifactV::Block(b) => keys_unique(b.slots),
        }
}

/// The names in an association list.
pub open spec fn key_set<V>(v: Seq<(Seq<char>, V)>) -> Set<Seq<char>> {
    Set::new(|k: Seq<char>| has_key(v, k))
}

/// A connection after renaming inside its sub-structure.
pub open spec fn renamed_conn(c: ConnectionV, a: Seq<char>, old: Seq<char>, new: Seq<char>) -> ConnectionV {
    match c {
        ConnectionV::Structure(ch) => ConnectionV::Structure(rename_in(ch, a, old, new)),
        ConnectionV::Slot(x) => ConnectionV::Slot(x),
    }
}

proof fn lemma_has_key_insert<V>(s: Seq<(Seq<char>, V)>, k: Seq<char>, v: V, k2: Seq<char>)
    ensures
        has_key(insert_entry(s, k, v), k2) == (has_key(s, k2) || k2 == k),
{
    let t = insert_entry(s, k, v);
    if has_key(s, k) {
        let idx = key_index(s, k);
        if has_key(s, k2) {
            let j = choose|j: int| 0 <= j < s.len() && s[j].0 == k2;
            assert(t[j].0 == k2);
        }
        if has_key(t, k2) {
            let j = choose|j: int| 0 <= j < t.len() && t[j].0 == k2;
            if j != idx {
                assert(s[j].0 == k2);
            }
        }
        assert(t[idx].0 == k);
    } else {
        if has_key(s, k2) {
            let j = choose|j: int| 0 <= j < s.len() && s[j].0 == k2;
            assert(t[j].0 == k2);
        }
        if has_key(t, k2) {
            let j = choose|j: int| 0 <= j < t.len() && t[j].0 == k2;
            if j < s.len() {
                assert(s[j].0 == k2);
            }
        }
        assert(t[s.len() as int].0 == k);
    }
}

proof fn lemma_key_set_insert_all(
    acc: Seq<(Seq<char>, Seq<char>)>,
    cs: Seq<(Seq<char>, Seq<char>)>,
    n: nat,
    k: Seq<char>,
)
    requires
        n <= cs.len(),
    ensures
        has_key(insert_all(acc, cs, n), k) == (has_key(acc, k) || has_key(cs.take(n as int), k)),
    decreases n,
{
    if n > 0 {
        lemma_key_set_insert_all(acc, cs, (n - 1) as nat, k);
        lemma_has_key_insert(insert_all(acc, cs, (n - 1) as nat), cs[n - 1].0, cs[n - 1].1, k);
        let t = cs.take(n as int);
        let u = cs.take(n - 1);
        if has_key(t, k) {
            let j = choose|j: int| 0 <= j < t.len() && t[j].0 == k;
            if j < n - 1 {
                assert(u[j].0 == k);
            }
        }
        if has_key(u, k) {
            let j = choose|j: int| 0 <= j < u.len() && u[j].0 == k;
            assert(t[j].0 == k);
        }
        assert(t[n - 1].0 == cs[n - 1].0);
    }
}

/// Whether the slot `e` of the artifact a structure is built on can be
/// carried through: unless it is connected to a sub-structure, whose slots
/// must then be found.
pub open spec fn step_ok(m: Map<Seq<char>, ArtifactV>, s: StructureV, e: (Seq<char>, Seq<char>), f: nat) -> bool {
    match lookup(s.c, e.0) {
        Some(ConnectionV::Structure(ch)) => structure_slots_fuel(m, ch, f) matches Some(Ok(_)),
        _ => true,
    }
}

/// The names that slot `e` brings to what a structure exposes.
pub open spec fn brought(m: Map<Seq<char>, ArtifactV>, s: StructureV, e: (Seq<char>, Seq<char>), f: nat) -> Set<
    Seq<char>,
> {
    match lookup(s.c, e.0) {
        Some(ConnectionV::Structure(ch)) => match structure_slots_fuel(m, ch, f) {
            Some(Ok(cs)) => key_set(cs),
            _ => Set::empty(),
        },
        Some(ConnectionV::Slot(outer)) => set![outer],
        None => Set::empty(),
    }
}

/// Collecting the slots of a structure succeeds when every slot of what it
/// is built on can be carried through, and gives the names they bring.
proof fn lemma_fold_ok(
    m: Map<Seq<char>, ArtifactV>,
    s: StructureV,
    inner: Seq<(Seq<char>, Seq<char>)>,
    n: nat,
    f: nat,
)
    requires
        n <= inner.len(),
    ensures
        (fold_slots(m, s, inner, n, f) matches Some(Ok(_))) == (forall|i: int|
            0 <= i < n ==> #[trigger] step_ok(m, s, inner[i], f)),
        fold_slots(m, s, inner, n, f) matches Some(Ok(acc)) ==> forall|k: Seq<char>|
            has_key(acc, k) == exists|i: int| 0 <= i < n && #[trigger] brought(m, s, inner[i], f).contains(k),
    decreases n,
{
    if n > 0 {
        lemma_fold_ok(m, s, inner, (n - 1) as nat, f);
        let prev = fold_slots(m, s, inner, (n - 1) as nat, f);
        let e = inner[n - 1];
        if let Some(Ok(acc)) = prev {
            match lookup(s.c, e.0) {
                None => {},
                Some(ConnectionV::Slot(outer)) => {
                    assert forall|k: Seq<char>| has_key(insert_entry(acc, outer, e.1), k) == (has_key(acc, k) || k == outer) by {
                        lemma_has_key_insert(acc, outer, e.1, k);
                    }
                },
                Some(ConnectionV::Structure(child)) => {
                    if let Some(Ok(cs)) = structure_slots_fuel(m, child, f) {
                        assert forall|k: Seq<char>| has_key(insert_all(acc, cs, cs.len()), k) == (has_key(acc, k) || has_key(cs, k)) by {
                            lemma_key_set_insert_all(acc, cs, cs.len(), k);
                            assert(cs.take(cs.len() as int) =~= cs);
                        }
                    }
                },
            }
            if let Some(Ok(acc2)) = fold_slots(m, s, inner, n, f) {
                assert forall|k: Seq<char>| has_key(acc2, k) == exists|i: int| 0 <= i < n && #[trigger] brought(m, s, inner[i], f).contains(k) by {
                    if has_key(acc2, k) {
                        if has_key(acc, k) {
                            let i = choose|i: int| 0 <= i < n - 1 && #[trigger] brought(m, s, inner[i], f).contains(k);
                        } else {
                            assert(brought(m, s, inner[n - 1], f).contains(k));
                        }
                    }
                    if exists|i: int| 0 <= i < n && #[trigger] brought(m, s, inner[i], f).contains(k) {
                        let i = choose|i: int| 0 <= i < n && #[trigger] brought(m, s, inner[i], f).contains(k);
                        if i < n - 1 {
                            assert(has_key(acc, k));
                        }
                    }
                }
            }
        }
        assert((forall|i: int| 0 <= i < n ==> #[trigger] step_ok(m, s, inner[i], f)) == ((forall|i: int|
            0 <= i < n - 1 ==> #[trigger] step_ok(m, s, inner[i], f)) && step_ok(m, s, inner[n - 1], f))) by {
            if forall|i: int| 0 <= i < n - 1 ==> #[trigger] step_ok(m, s, inner[i], f) {
                if step_ok(m, s, inner[n - 1], f) {
                    assert forall|i: int| 0 <= i < n implies #[trigger] step_ok(m, s, inner[i], f) by {
                        if i == n - 1 {
                        }
                    }
                }
            }
        }
        assert((fold_slots(m, s, inner, n, f) matches Some(Ok(_))) == ((prev matches Some(Ok(_))) && step_ok(
            m,
            s,
            e,
            f,
        )));
    }
}

pub open spec fn renamed_opt(c: Option<ConnectionV>, a: Seq<char>, old: Seq<char>, new: Seq<char>) -> Option<
    ConnectionV,
> {
    match c {
        Some(x) => Some(renamed_conn(x, a, old, new)),
        None => None,
    }
}

/// What a renamed structure connects under `k`.
pub open spec fn renamed_lookup(s: StructureV, a: Seq<char>, old: Seq<char>, new: Seq<char>, k: Seq<char>) -> Option<
    ConnectionV,
> {
    if s.a_ref == a {
        if k == new {
            Some(renamed_conn(lookup(s.c, old)->0, a, old, new))
        } else if k == old {
            None
        } else {
            renamed_opt(lookup(s.c, k), a, old, new)
        }
    } else {
        renamed_opt(lookup(s.c, k), a, old, new)
    }
}

proof fn lemma_rename_children_lookup(s: StructureV, a: Seq<char>, old: Seq<char>, new: Seq<char>, k: Seq<char>)
    requires
        keys_unique(s.c),
    ensures
        keys_unique(rename_children(s, s.c.len() as int, a, old, new)),
        lookup(rename_children(s, s.c.len() as int, a, old, new), k) == renamed_opt(lookup(s.c, k), a, old, new),
{
    let n = s.c.len() as int;
    let c2 = rename_children(s, n, a, old, new);
    lemma_rename_children(s, n, a, old, new);
    assert forall|i: int, j: int| 0 <= i < c2.len() && 0 <= j < c2.len() && c2[i].0 == c2[j].0 implies i == j by {
        assert(c2[i].0 == s.c[i].0 && c2[j].0 == s.c[j].0);
    }
    if has_key(s.c, k) {
        let i = key_index(s.c, k);
        lemma_lookup_at(s.c, i);
        assert(c2[i].0 == k);
        lemma_lookup_at(c2, i);
    } else {
        if has_key(c2, k) {
            let i = choose|i: int| 0 <= i < c2.len() && c2[i].0 == k;
            assert(s.c[i].0 == k);
        }
    }
}

proof fn lemma_rename_lookup(s: StructureV, a: Seq<char>, old: Seq<char>, new: Seq<char>, k: Seq<char>)
    requires
        keys_unique(s.c),
        s.a_ref == a ==> has_key(s.c, old),
        old != new,
    ensures
        lookup(rename_in(s, a, old, new).c, k) == renamed_lookup(s, a, old, new, k),
{
    let c2 = rename_children(s, s.c.len() as int, a, old, new);
    lemma_rename_children_lookup(s, a, old, new, k);
    lemma_rename_children_lookup(s, a, old, new, old);
    if s.a_ref == a {
        let r = remove_entry(c2, old);
        lemma_remove_entry(c2, old);
        let v = lookup(c2, old)->0;
        lemma_insert_entry(r, new, v);
        if k != new && k != old {
            assert(lookup(insert_entry(r, new, v), k) == lookup(r, k));
            assert(lookup(r, k) == lookup(c2, k));
        }
        if k == old {
            assert(lookup(insert_entry(r, new, v), k) == lookup(r, k));
            assert(!has_key(r, old));
        }
    }
}

proof fn lemma_children_unique_at(s: StructureV, n: int, i: int)
    requires
        0 <= i < n <= s.c.len(),
        children_unique(s, n),
    ensures
        s.c[i].1 matches ConnectionV::Structure(ch) ==> conns_unique(ch),
    decreases n,
{
    if i < n - 1 {
        lemma_children_unique_at(s, n - 1, i);
    }
}

/// The sub-structure connected under a name keeps what its parent has.
proof fn lemma_child_of(s: StructureV, a: Seq<char>, old: Seq<char>, name: Seq<char>)
    requires
        lookup(s.c, name) matches Some(ConnectionV::Structure(_)),
    ensures
        lookup(s.c, name) matches Some(ConnectionV::Structure(ch)) && (conns_unique(s) ==> conns_unique(ch)) && (
        rename_ok(s, a, old) ==> rename_ok(ch, a, old)) && (forall|x: Seq<char>|
            structure_deps(ch).contains(x) ==> structure_deps(s).contains(x)),
{
    let i = key_index(s.c, name);
    if conns_unique(s) {
        lemma_children_unique_at(s, s.c.len() as int, i);
    }
    if rename_ok(s, a, old) {
        lemma_children_rename_ok(s, s.c.len() as int, i, a, old);
    }
    assert forall|x: Seq<char>| structure_deps(lookup(s.c, name)->0->Structure_0).contains(x) implies structure_deps(
        s,
    ).contains(x) by {
        lemma_child_deps(s, name, x);
    }
}

/// A structure not built on `a` at any depth is left as it is.
proof fn lemma_rename_unrelated(s: StructureV, a: Seq<char>, old: Seq<char>, new: Seq<char>)
    requires
        !structure_deps(s).contains(a),
    ensures
        rename_in(s, a, old, new) == s,
        rename_ok(s, a, old),
    decreases s, 1int,
{
    assert(structure_deps(s)[0] == s.a_ref);
    lemma_rename_children_unrelated(s, s.c.len() as int, a, old, new);
    assert(rename_children(s, s.c.len() as int, a, old, new) =~= s.c);
}

proof fn lemma_rename_children_unrelated(s: StructureV, n: int, a: Seq<char>, old: Seq<char>, new: Seq<char>)
    requires
        !structure_deps(s).contains(a),
        0 <= n <= s.c.len(),
    ensures
        rename_children(s, n, a, old, new) == s.c.take(n),
        children_rename_ok(s, n, a, old),
    decreases s, 0int, n,
{
    if n > 0 {
        lemma_rename_children_unrelated(s, n - 1, a, old, new);
        if let ConnectionV::Structure(ch) = s.c[n - 1].1 {
            assert(!structure_deps(ch).contains(a)) by {
                if structure_deps(ch).contains(a) {
                    lemma_children_deps_include(s, s.c.len() as int, n - 1, a);
                    let cd = children_deps(s, s.c.len() as int);
                    let k = choose|k: int| 0 <= k < cd.len() && cd[k] == a;
                    assert(structure_deps(s)[k + 1] == a);
                }
            }
            lemma_rename_unrelated(ch, a, old, new);
        }
        assert(s.c.take(n) =~= s.c.take(n - 1).push(s.c[n - 1]));
    }
}

/// `j` indexes `s`.
pub open spec fn is_index<A>(s: Seq<A>, j: int) -> bool {
    0 <= j < s.len()
}

/// Slot `e2` of one structure is carried through exactly when slot `e` of
/// another is, and then brings the same names.
#[verifier::opaque]
pub open spec fn carried_alike(
    m: Map<Seq<char>, ArtifactV>,
    s: StructureV,
    e: (Seq<char>, Seq<char>),
    m2: Map<Seq<char>, ArtifactV>,
    s2: StructureV,
    e2: (Seq<char>, Seq<char>),
    g: nat,
) -> bool {
    &&& step_ok(m2, s2, e2, g) == step_ok(m, s, e, g)
    &&& step_ok(m, s, e, g) ==> brought(m2, s2, e2, g) == brought(m, s, e, g)
}

proof fn lemma_fold_corresponds(
    m: Map<Seq<char>, ArtifactV>,
    s: StructureV,
    inner: Seq<(Seq<char>, Seq<char>)>,
    m2: Map<Seq<char>, ArtifactV>,
    s2: StructureV,
    inner2: Seq<(Seq<char>, Seq<char>)>,
    g: nat,
)
    requires
        forall|j: int| #[trigger] is_index(inner2, j) ==> exists|i: int|
                0 <= i < inner.len() && #[trigger] carried_alike(m, s, inner[i], m2, s2, inner2[j], g),
        forall|i: int| #[trigger] is_index(inner, i) ==> exists|j: int|
                0 <= j < inner2.len() && #[trigger] carried_alike(m, s, inner[i], m2, s2, inner2[j], g),
    ensures
        (fold_slots(m2, s2, inner2, inner2.len(), g) matches Some(Ok(_))) == (fold_slots(
            m,
            s,
            inner,
            inner.len(),
            g,
        ) matches Some(Ok(_))),
        fold_slots(m, s, inner, inner.len(), g) matches Some(Ok(_)) ==> key_set(
            fold_slots(m2, s2, inner2, inner2.len(), g)->0->Ok_0,
        ) == key_set(fold_slots(m, s, inner, inner.len(), g)->0->Ok_0),
{
    reveal(carried_alike);
    lemma_fold_ok(m, s, inner, inner.len(), g);
    lemma_fold_ok(m2, s2, inner2, inner2.len(), g);
    if fold_slots(m, s, inner, inner.len(), g) matches Some(Ok(_)) {
        assert forall|j: int| 0 <= j < inner2.len() implies #[trigger] step_ok(m2, s2, inner2[j], g) by {
            assert(is_index(inner2, j));
            let i = choose|i: int| 0 <= i < inner.len() && #[trigger] carried_alike(m, s, inner[i], m2, s2, inner2[j], g);
        }
        let v = fold_slots(m, s, inner, inner.len(), g)->0->Ok_0;
        let v2 = fold_slots(m2, s2, inner2, inner2.len(), g)->0->Ok_0;
        assert forall|k: Seq<char>| key_set(v2).contains(k) == key_set(v).contains(k) by {
            if has_key(v2, k) {
                let j = choose|j: int| 0 <= j < inner2.len() && #[trigger] brought(m2, s2, inner2[j], g).contains(k);
                assert(is_index(inner2, j));
                let i = choose|i: int| 0 <= i < inner.len() && #[trigger] carried_alike(m, s, inner[i], m2, s2, inner2[j], g);
                assert(step_ok(m, s, inner[i], g));
                assert(brought(m, s, inner[i], g).contains(k));
            }
            if has_key(v, k) {
                let i = choose|i: int| 0 <= i < inner.len() && #[trigger] brought(m, s, inner[i], g).contains(k);
                assert(is_index(inner, i));
                let j = choose|j: int| 0 <= j < inner2.len() && #[trigger] carried_alike(m, s, inner[i], m2, s2, inner2[j], g);
                assert(step_ok(m, s, inner[i], g));
                assert(brought(m2, s2, inner2[j], g).contains(k));
            }
        }
        assert(key_set(v2) =~= key_set(v));
    } else {
        let i = choose|i: int| 0 <= i < inner.len() && !#[trigger] step_ok(m, s, inner[i], g);
        assert(is_index(inner, i));
        let j = choose|j: int| 0 <= j < inner2.len() && #[trigger] carried_alike(m, s, inner[i], m2, s2, inner2[j], g);
        assert(!step_ok(m2, s2, inner2[j], g));
    }
}

/// The conditions under which slot `old` of block `a` is renamed `new`.
pub open spec fn rename_goes_ahead(m: Map<Seq<char>, ArtifactV>, a: Seq<char>, old: Seq<char>, new: Seq<char>) -> bool {
    &&& model_wf(m)
    &&& rename_allowed(m, a, old, new)
    &&& m.contains_key(a)
    &&& m[a] is Block
    &&& has_key(m[a]->Block_0.slots, old)
    &&& !has_key(m[a]->Block_0.slots, new)
}

/// `rename_goes_ahead`, kept folded in the proofs below.
#[verifier::opaque]
spec fn ahead(m: Map<Seq<char>, ArtifactV>, a: Seq<char>, old: Seq<char>, new: Seq<char>) -> bool {
    rename_goes_ahead(m, a, old, new)
}

proof fn lemma_rename_model_at(m: Map<Seq<char>, ArtifactV>, a: Seq<char>, old: Seq<char>, new: Seq<char>, x: Seq<char>)
    requires
        ahead(m, a, old, new),
    ensures
        m.contains_key(a),
        m[a] is Block,
        old != new,
        model_wf(m),
        rename_model(m, a, old, new).dom() == m.dom(),
        rename_model(m, a, old, new)[a] == ArtifactV::Block(renamed_block(m[a]->Block_0, old, new)),
        x != a && m.contains_key(x) && m[x] is Block ==> rename_model(m, a, old, new)[x] == m[x],
        x != a && m.contains_key(x) && m[x] is Structure ==> rename_model(m, a, old, new)[x] == ArtifactV::Structure(
            rename_in(m[x]->Structure_0, a, old, new),
        ) && rename_ok(m[x]->Structure_0, a, old) && conns_unique(m[x]->Structure_0),
{
    reveal(ahead);
    let m1 = m.insert(a, ArtifactV::Block(renamed_block(m[a]->Block_0, old, new)));
    let m2 = rename_model(m, a, old, new);
    assert(m2.dom() =~= m.dom());
    assert(!depends_on(m1, a, a));
    if x != a && m.contains_key(x) {
        assert(m1[x] == m[x]);
        assert(depends_on(m1, x, a) == depends_on(m, x, a));
        if let ArtifactV::Structure(s) = m[x] {
            assert(conns_unique(s));
            if depends_on(m, x, a) {
                assert(rename_ok(s, a, old));
            } else {
                assert(direct_deps(m, x) == structure_deps(s));
                lemma_rename_unrelated(s, a, old, new);
            }
        }
    }
}

proof fn lemma_kind_renamed(
    m: Map<Seq<char>, ArtifactV>,
    a: Seq<char>,
    old: Seq<char>,
    new: Seq<char>,
    x: Seq<char>,
    bc: Seq<Seq<char>>,
)
    requires
        m.dom().finite(),
        ahead(m, a, old, new),
    ensures
        kind_of(rename_model(m, a, old, new), x, bc) == kind_of(m, x, bc),
    decreases kind_measure(m, x, bc), (if m.contains_key(x) { 1nat } else { 0nat }),
{
    let m2 = rename_model(m, a, old, new);
    lemma_rename_model_at(m, a, old, new, x);
    if m.contains_key(x) {
        if let ArtifactV::Structure(s) = m[x] {
            if !bc.push(x).contains(s.a_ref) {
                lemma_kind_step(m, x, bc, s.a_ref);
                lemma_kind_renamed(m, a, old, new, s.a_ref, bc.push(x));
            }
        }
    }
}

proof fn lemma_slots_renamed(
    m: Map<Seq<char>, ArtifactV>,
    a: Seq<char>,
    old: Seq<char>,
    new: Seq<char>,
    x: Seq<char>,
    f: nat,
)
    requires
        ahead(m, a, old, new),
        x != a,
    ensures
        (slots_fuel(rename_model(m, a, old, new), x, f) matches Some(Ok(_))) == (slots_fuel(m, x, f) matches Some(
            Ok(_),
        )),
        slots_fuel(m, x, f) matches Some(Ok(_)) ==> key_set(slots_fuel(rename_model(m, a, old, new), x, f)->0->Ok_0)
            == key_set(slots_fuel(m, x, f)->0->Ok_0),
    decreases f, 0nat,
{
    lemma_rename_model_at(m, a, old, new, x);
    if f > 0 && m.contains_key(x) {
        if let ArtifactV::Structure(s) = m[x] {
            assert(rename_in(s, a, old, new).a_ref == s.a_ref);
            if s.a_ref != x {
                lemma_structure_slots_renamed(m, a, old, new, s, (f - 1) as nat);
            }
        }
    }
}

proof fn lemma_structure_slots_renamed(
    m: Map<Seq<char>, ArtifactV>,
    a: Seq<char>,
    old: Seq<char>,
    new: Seq<char>,
    s: StructureV,
    f: nat,
)
    requires
        ahead(m, a, old, new),
        conns_unique(s),
        rename_ok(s, a, old),
    ensures
        (structure_slots_fuel(rename_model(m, a, old, new), rename_in(s, a, old, new), f) matches Some(Ok(_)))
            == (structure_slots_fuel(m, s, f) matches Some(Ok(_))),
        structure_slots_fuel(m, s, f) matches Some(Ok(_)) ==> key_set(
            structure_slots_fuel(rename_model(m, a, old, new), rename_in(s, a, old, new), f)->0->Ok_0,
        ) == key_set(structure_slots_fuel(m, s, f)->0->Ok_0),
    decreases f, 0nat,
{
    if f > 0 {
        let g = (f - 1) as nat;
        assert(rename_in(s, a, old, new).a_ref == s.a_ref);
        if s.a_ref != a {
            lemma_renamed_on_other(m, a, old, new, s, g);
        } else {
            lemma_renamed_on_block(m, a, old, new, s, g);
        }
    }
}

/// The renamed structure, built on an artifact other than `a`, carries
/// the slots of that artifact through as the original does.
#[verifier::rlimit(100)]
proof fn lemma_renamed_on_other(
    m: Map<Seq<char>, ArtifactV>,
    a: Seq<char>,
    old: Seq<char>,
    new: Seq<char>,
    s: StructureV,
    g: nat,
)
    requires
        ahead(m, a, old, new),
        conns_unique(s),
        rename_ok(s, a, old),
        s.a_ref != a,
    ensures
        (structure_slots_fuel(rename_model(m, a, old, new), rename_in(s, a, old, new), g + 1) matches Some(Ok(_)))
            == (structure_slots_fuel(m, s, g + 1) matches Some(Ok(_))),
        structure_slots_fuel(m, s, g + 1) matches Some(Ok(_)) ==> key_set(
            structure_slots_fuel(rename_model(m, a, old, new), rename_in(s, a, old, new), g + 1)->0->Ok_0,
        ) == key_set(structure_slots_fuel(m, s, g + 1)->0->Ok_0),
    decreases g, 4nat,
{
    let m2 = rename_model(m, a, old, new);
    let s2 = rename_in(s, a, old, new);
    assert(s2.a_ref == s.a_ref);
    lemma_slots_renamed(m, a, old, new, s.a_ref, g);
    if slots_fuel(m, s.a_ref, g) matches Some(Ok(_)) {
        let inner = slots_fuel(m, s.a_ref, g)->0->Ok_0;
        let inner2 = slots_fuel(m2, s.a_ref, g)->0->Ok_0;
        lemma_other_forward(m, a, old, new, s, inner, inner2, g);
        lemma_other_backward(m, a, old, new, s, inner, inner2, g);
        lemma_fold_corresponds(m, s, inner, m2, s2, inner2, g);
    }
}

proof fn lemma_other_forward(
    m: Map<Seq<char>, ArtifactV>,
    a: Seq<char>,
    old: Seq<char>,
    new: Seq<char>,
    s: StructureV,
    inner: Seq<(Seq<char>, Seq<char>)>,
    inner2: Seq<(Seq<char>, Seq<char>)>,
    g: nat,
)
    requires
        ahead(m, a, old, new),
        conns_unique(s),
        rename_ok(s, a, old),
        s.a_ref != a,
        key_set(inner2) == key_set(inner),
    ensures
        forall|j: int| #[trigger] is_index(inner2, j) ==> exists|i: int|
                0 <= i < inner.len() && #[trigger] carried_alike(
                    m,
                    s,
                    inner[i],
                    rename_model(m, a, old, new),
                    rename_in(s, a, old, new),
                    inner2[j],
                    g,
                ),
    decreases g, 3nat,
{
    assert forall|j: int| #[trigger] is_index(inner2, j) implies exists|i: int|
        0 <= i < inner.len() && #[trigger] carried_alike(
            m,
            s,
            inner[i],
            rename_model(m, a, old, new),
            rename_in(s, a, old, new),
            inner2[j],
            g,
        ) by {
        let k = inner2[j].0;
        assert(has_key(inner2, k));
        assert(key_set(inner2).contains(k));
        assert(key_set(inner).contains(k));
        lemma_other_match(m, a, old, new, s, inner, inner2[j], g);
    }
}

proof fn lemma_other_backward(
    m: Map<Seq<char>, ArtifactV>,
    a: Seq<char>,
    old: Seq<char>,
    new: Seq<char>,
    s: StructureV,
    inner: Seq<(Seq<char>, Seq<char>)>,
    inner2: Seq<(Seq<char>, Seq<char>)>,
    g: nat,
)
    requires
        ahead(m, a, old, new),
        conns_unique(s),
        rename_ok(s, a, old),
        s.a_ref != a,
        key_set(inner2) == key_set(inner),
    ensures
        forall|i: int| #[trigger] is_index(inner, i) ==> exists|j: int|
                0 <= j < inner2.len() && #[trigger] carried_alike(
                    m,
                    s,
                    inner[i],
                    rename_model(m, a, old, new),
                    rename_in(s, a, old, new),
                    inner2[j],
                    g,
                ),
    decreases g, 3nat,
{
    lemma_rename_model_at(m, a, old, new, a);
    assert forall|i: int| #[trigger] is_index(inner, i) implies exists|j: int|
        0 <= j < inner2.len() && #[trigger] carried_alike(
            m,
            s,
            inner[i],
            rename_model(m, a, old, new),
            rename_in(s, a, old, new),
            inner2[j],
            g,
        ) by {
        let k = inner[i].0;
        assert(has_key(inner, k));
        assert(key_set(inner).contains(k));
        assert(key_set(inner2).contains(k));
        let j = choose|j: int| 0 <= j < inner2.len() && inner2[j].0 == k;
        lemma_rename_lookup(s, a, old, new, k);
        lemma_key_renamed(m, a, old, new, s, inner, i, inner2[j], g);
    }
}


/// A slot `e2` whose name is among those of `inner` is carried through the
/// renamed structure as the slot of `inner` with that name.
proof fn lemma_other_match(
    m: Map<Seq<char>, ArtifactV>,
    a: Seq<char>,
    old: Seq<char>,
    new: Seq<char>,
    s: StructureV,
    inner: Seq<(Seq<char>, Seq<char>)>,
    e2: (Seq<char>, Seq<char>),
    g: nat,
)
    requires
        ahead(m, a, old, new),
        conns_unique(s),
        rename_ok(s, a, old),
        s.a_ref != a,
        has_key(inner, e2.0),
    ensures
        exists|i: int|
            0 <= i < inner.len() && #[trigger] carried_alike(
                m,
                s,
                inner[i],
                rename_model(m, a, old, new),
                rename_in(s, a, old, new),
                e2,
                g,
            ),
    decreases g, 2nat,
{
    let k = e2.0;
    lemma_rename_model_at(m, a, old, new, a);
    let i = choose|i: int| 0 <= i < inner.len() && inner[i].0 == k;
    lemma_rename_lookup(s, a, old, new, k);
    lemma_key_renamed(m, a, old, new, s, inner, i, e2, g);
}

/// The renamed structure, built on block `a`, carries the renamed slots of
/// the block through as the original carries the old ones.
#[verifier::rlimit(100)]
proof fn lemma_renamed_on_block(
    m: Map<Seq<char>, ArtifactV>,
    a: Seq<char>,
    old: Seq<char>,
    new: Seq<char>,
    s: StructureV,
    g: nat,
)
    requires
        ahead(m, a, old, new),
        conns_unique(s),
        rename_ok(s, a, old),
        s.a_ref == a,
    ensures
        (structure_slots_fuel(rename_model(m, a, old, new), rename_in(s, a, old, new), g + 1) matches Some(Ok(_)))
            == (structure_slots_fuel(m, s, g + 1) matches Some(Ok(_))),
        structure_slots_fuel(m, s, g + 1) matches Some(Ok(_)) ==> key_set(
            structure_slots_fuel(rename_model(m, a, old, new), rename_in(s, a, old, new), g + 1)->0->Ok_0,
        ) == key_set(structure_slots_fuel(m, s, g + 1)->0->Ok_0),
    decreases g, 4nat,
{
    let m2 = rename_model(m, a, old, new);
    let s2 = rename_in(s, a, old, new);
    assert(s2.a_ref == s.a_ref);
    lemma_rename_model_at(m, a, old, new, a);
    if g > 0 {
        let inner = m[a]->Block_0.slots;
        assert(slots_fuel(m, a, g) == Some(Ok::<Seq<(Seq<char>, Seq<char>)>, Seq<char>>(inner)));
        let inner2 = renamed_slots(m, a, old, new);
        assert(slots_fuel(m2, a, g) == Some(Ok::<Seq<(Seq<char>, Seq<char>)>, Seq<char>>(inner2)));
        lemma_block_forward(m, a, old, new, s, g);
        lemma_block_backward(m, a, old, new, s, g);
        lemma_fold_corresponds(m, s, inner, m2, s2, inner2, g);
    }
}

/// The slots of block `a` once renamed.
spec fn renamed_slots(m: Map<Seq<char>, ArtifactV>, a: Seq<char>, old: Seq<char>, new: Seq<char>) -> Seq<
    (Seq<char>, Seq<char>),
> {
    renamed_block(m[a]->Block_0, old, new).slots
}

proof fn lemma_block_forward(
    m: Map<Seq<char>, ArtifactV>,
    a: Seq<char>,
    old: Seq<char>,
    new: Seq<char>,
    s: StructureV,
    g: nat,
)
    requires
        ahead(m, a, old, new),
        conns_unique(s),
        rename_ok(s, a, old),
        s.a_ref == a,
    ensures
        forall|j: int| #[trigger] is_index(renamed_slots(m, a, old, new), j) ==> exists|i: int|
                0 <= i < m[a]->Block_0.slots.len() && #[trigger] carried_alike(
                    m,
                    s,
                    m[a]->Block_0.slots[i],
                    rename_model(m, a, old, new),
                    rename_in(s, a, old, new),
                    renamed_slots(m, a, old, new)[j],
                    g,
                ),
    decreases g, 3nat,
{
    let inner2 = renamed_slots(m, a, old, new);
    assert forall|j: int| #[trigger] is_index(inner2, j) implies exists|i: int|
        0 <= i < m[a]->Block_0.slots.len() && #[trigger] carried_alike(
            m,
            s,
            m[a]->Block_0.slots[i],
            rename_model(m, a, old, new),
            rename_in(s, a, old, new),
            inner2[j],
            g,
        ) by {
        assert(has_key(inner2, inner2[j].0));
        lemma_block_match(m, a, old, new, s, inner2[j], g);
    }
}

proof fn lemma_block_backward(
    m: Map<Seq<char>, ArtifactV>,
    a: Seq<char>,
    old: Seq<char>,
    new: Seq<char>,
    s: StructureV,
    g: nat,
)
    requires
        ahead(m, a, old, new),
        conns_unique(s),
        rename_ok(s, a, old),
        s.a_ref == a,
    ensures
        forall|i: int| #[trigger] is_index(m[a]->Block_0.slots, i) ==> exists|j: int|
                0 <= j < renamed_slots(m, a, old, new).len() && #[trigger] carried_alike(
                    m,
                    s,
                    m[a]->Block_0.slots[i],
                    rename_model(m, a, old, new),
                    rename_in(s, a, old, new),
                    renamed_slots(m, a, old, new)[j],
                    g,
                ),
    decreases g, 3nat,
{
    reveal(ahead);
    let inner = m[a]->Block_0.slots;
    assert(model_wf(m) && m.contains_key(a));
    assert(keys_unique(inner));
    let r = remove_entry(inner, old);
    let kind = lookup(inner, old)->0;
    let inner2 = insert_entry(r, new, kind);
    assert(inner2 == renamed_slots(m, a, old, new));
    lemma_remove_entry(inner, old);
    lemma_insert_entry(r, new, kind);
    assert(has_key(s.c, old));
    assert forall|i: int| #[trigger] is_index(inner, i) implies exists|j: int|
        0 <= j < inner2.len() && #[trigger] carried_alike(
            m,
            s,
            inner[i],
            rename_model(m, a, old, new),
            rename_in(s, a, old, new),
            inner2[j],
            g,
        ) by {
        let k = inner[i].0;
        let k2 = if k == old { new } else { k };
        lemma_has_key_insert(r, new, kind, k2);
        if k != old {
            assert(has_key(inner, k));
            assert(lookup(r, k) == lookup(inner, k));
            assert(k != new);
        }
        assert(has_key(inner2, k2));
        let j = key_index(inner2, k2);
        lemma_rename_lookup(s, a, old, new, k2);
        lemma_key_renamed(m, a, old, new, s, inner, i, inner2[j], g);
    }
}

/// A slot `e2` of the renamed block is carried through the renamed
/// structure as the slot of the block it comes from.
proof fn lemma_block_match(
    m: Map<Seq<char>, ArtifactV>,
    a: Seq<char>,
    old: Seq<char>,
    new: Seq<char>,
    s: StructureV,
    e2: (Seq<char>, Seq<char>),
    g: nat,
)
    requires
        ahead(m, a, old, new),
        conns_unique(s),
        rename_ok(s, a, old),
        s.a_ref == a,
        has_key(renamed_block(m[a]->Block_0, old, new).slots, e2.0),
    ensures
        exists|i: int|
            0 <= i < m[a]->Block_0.slots.len() && #[trigger] carried_alike(
                m,
                s,
                m[a]->Block_0.slots[i],
                rename_model(m, a, old, new),
                rename_in(s, a, old, new),
                e2,
                g,
            ),
    decreases g, 2nat,
{
    reveal(ahead);
    let inner = m[a]->Block_0.slots;
    assert(model_wf(m) && m.contains_key(a));
    assert(keys_unique(inner));
    let r = remove_entry(inner, old);
    let kind = lookup(inner, old)->0;
    lemma_remove_entry(inner, old);
    assert(has_key(s.c, old));
    let k = e2.0;
    lemma_has_key_insert(r, new, kind, k);
    if k == new {
        let i = key_index(inner, old);
        lemma_rename_lookup(s, a, old, new, new);
        lemma_key_renamed(m, a, old, new, s, inner, i, e2, g);
    } else {
        assert(has_key(r, k));
        assert(k != old);
        assert(lookup(r, k) == lookup(inner, k));
        let i = key_index(inner, k);
        lemma_rename_lookup(s, a, old, new, k);
        lemma_key_renamed(m, a, old, new, s, inner, i, e2, g);
    }
}

/// Slot `inner[i]` is carried through the renamed structure as `e2`, whose
/// name the renamed structure connects as the original connects the name
/// of `inner[i]`.
proof fn lemma_key_renamed(
    m: Map<Seq<char>, ArtifactV>,
    a: Seq<char>,
    old: Seq<char>,
    new: Seq<char>,
    s: StructureV,
    inner: Seq<(Seq<char>, Seq<char>)>,
    i: int,
    e2: (Seq<char>, Seq<char>),
    g: nat,
)
    requires
        ahead(m, a, old, new),
        conns_unique(s),
        rename_ok(s, a, old),
        0 <= i < inner.len(),
        lookup(rename_in(s, a, old, new).c, e2.0) == renamed_opt(lookup(s.c, inner[i].0), a, old, new),
    ensures
        carried_alike(m, s, inner[i], rename_model(m, a, old, new), rename_in(s, a, old, new), e2, g),
    decreases g, 1nat,
{
    reveal(carried_alike);
    if let Some(ConnectionV::Structure(ch)) = lookup(s.c, inner[i].0) {
        lemma_child_of(s, a, old, inner[i].0);
        lemma_structure_slots_renamed(m, a, old, new, ch, g);
    }
}

/// Renaming a slot of a block of a valid model, with the connections of
/// that slot in the structures built on the block, leaves the model valid,
/// and checking it still ends.
pub proof fn lemma_rename_keeps_validity(m: Map<Seq<char>, ArtifactV>, a: Seq<char>, old: Seq<char>, new: Seq<char>)
    requires
        m.dom().finite(),
        model_ends(m),
        all_valid(m),
        rename_goes_ahead(m, a, old, new),
    ensures
        model_ends(rename_model(m, a, old, new)),
        all_valid(rename_model(m, a, old, new)),
{
    let m2 = rename_model(m, a, old, new);
    assert(ahead(m, a, old, new)) by {
        reveal(ahead);
    }
    lemma_rename_model_at(m, a, old, new, a);
    assert forall|x: Seq<char>| m2.contains_key(x) implies #[trigger] validate_ends(m2, x) && validate_spec(m2, x)
        is Ok by {
        assert(validate_ends(m, x));
        assert(validate_spec(m, x) is Ok);
        lemma_kind_renamed(m, a, old, new, x, Seq::empty());
        if x != a {
            let f1 = choose|f: nat| #[trigger] slots_fuel(m, x, f) is Some;
            lemma_slots_renamed(m, a, old, new, x, f1);
            assert(slots_fuel(m2, x, f1) is Some);
            let f2 = choose|f: nat| #[trigger] slots_fuel(m2, x, f) is Some;
            if f1 <= f2 {
                lemma_slots_fuel_mono(m2, x, f1, f2);
            } else {
                lemma_slots_fuel_mono(m2, x, f2, f1);
            }
        } else {
            assert(slots_fuel(m2, a, 1) is Some);
            let f = choose|f: nat| #[trigger] slots_fuel(m2, a, f) is Some;
            assert(f > 0);
        }
    }
    assert forall|x: Seq<char>| m2.contains_key(x) implies #[trigger] validate_spec(m2, x) is Ok by {
        assert(validate_ends(m2, x));
    }
}

/// The slots of `x` at fuel `f`, where they are found, are its slots.
proof fn lemma_slots_at(m: Map<Seq<char>, ArtifactV>, x: Seq<char>, f: nat)
    requires
        slots_fuel(m, x, f) is Some,
    ensures
        slots_end(m, x),
        slots_spec(m, x) == slots_fuel(m, x, f)->0,
{
    let f2 = choose|f: nat| #[trigger] slots_fuel(m, x, f) is Some;
    if f <= f2 {
        lemma_slots_fuel_mono(m, x, f, f2);
    } else {
        lemma_slots_fuel_mono(m, x, f2, f);
    }
}

/// Renaming a slot of a block leaves the rest of the model as it was: the
/// same artifacts; every artifact with the same main kind; every other
/// block as it was; every other artifact whose slots can be found, with
/// slots found under the same names. A valid model stays valid, and where
/// checking the renamed model ends, it is valid only if the model was.
pub proof fn lemma_rename_keeps_the_rest(m: Map<Seq<char>, ArtifactV>, a: Seq<char>, old: Seq<char>, new: Seq<char>)
    requires
        m.dom().finite(),
        model_ends(m),
        rename_goes_ahead(m, a, old, new),
    ensures
        rename_model(m, a, old, new).dom() == m.dom(),
        rename_model(m, a, old, new)[a] == ArtifactV::Block(renamed_block(m[a]->Block_0, old, new)),
        forall|x: Seq<char>|
            x != a && m.contains_key(x) && m[x] is Block ==> #[trigger] rename_model(m, a, old, new)[x] == m[x],
        forall|x: Seq<char>, bc: Seq<Seq<char>>|
            #[trigger] kind_of(rename_model(m, a, old, new), x, bc) == kind_of(m, x, bc),
        forall|x: Seq<char>|
            x != a && m.contains_key(x) && kind_of(m, x, Seq::empty()) is Ok && #[trigger] slots_spec(m, x) is Ok
                ==> slots_spec(rename_model(m, a, old, new), x) is Ok && key_set(
                slots_spec(rename_model(m, a, old, new), x)->Ok_0,
            ) == key_set(slots_spec(m, x)->Ok_0),
        all_valid(m) ==> all_valid(rename_model(m, a, old, new)),
        model_ends(rename_model(m, a, old, new)) ==> (all_valid(rename_model(m, a, old, new)) == all_valid(m)),
{
    let m2 = rename_model(m, a, old, new);
    assert(ahead(m, a, old, new)) by {
        reveal(ahead);
    }
    lemma_rename_model_at(m, a, old, new, a);
    assert forall|x: Seq<char>| x != a && m.contains_key(x) && m[x] is Block implies #[trigger] m2[x] == m[x] by {
        lemma_rename_model_at(m, a, old, new, x);
    }
    assert forall|x: Seq<char>, bc: Seq<Seq<char>>| #[trigger] kind_of(m2, x, bc) == kind_of(m, x, bc) by {
        lemma_kind_renamed(m, a, old, new, x, bc);
    }
    assert forall|x: Seq<char>|
        x != a && m.contains_key(x) && kind_of(m, x, Seq::empty()) is Ok && #[trigger] slots_spec(m, x) is Ok implies
        slots_spec(m2, x) is Ok && key_set(slots_spec(m2, x)->Ok_0) == key_set(slots_spec(m, x)->Ok_0) by {
        assert(validate_ends(m, x));
        let f1 = choose|f: nat| #[trigger] slots_fuel(m, x, f) is Some;
        lemma_slots_at(m, x, f1);
        lemma_slots_renamed(m, a, old, new, x, f1);
        lemma_slots_at(m2, x, f1);
    }
    if all_valid(m) {
        lemma_rename_keeps_validity(m, a, old, new);
    }
    if model_ends(m2) && all_valid(m2) {
        assert forall|x: Seq<char>| m.contains_key(x) implies #[trigger] validate_spec(m, x) is Ok by {
            assert(validate_spec(m2, x) is Ok);
            assert(kind_of(m2, x, Seq::empty()) == kind_of(m, x, Seq::empty()));
            assert(validate_ends(m, x));
            let f1 = choose|f: nat| #[trigger] slots_fuel(m, x, f) is Some;
            lemma_slots_at(m, x, f1);
            if x == a {
                assert(f1 > 0);
            } else {
                assert(validate_ends(m2, x));
                let f2 = choose|f: nat| #[trigger] slots_fuel(m2, x, f) is Some;
                lemma_slots_at(m2, x, f2);
                let f = if f1 <= f2 { f2 } else { f1 };
                lemma_slots_fuel_mono(m, x, f1, f);
                lemma_slots_fuel_mono(m2, x, f2, f);
                lemma_slots_renamed(m, a, old, new, x, f);
            }
        }
    }
}

// ---------------------------------------------------------------------------
// Dependencies
// ---------------------------------------------------------------------------

proof fn lemma_deps_fuel_step(m: Map<Seq<char>, ArtifactV>, a: Seq<char>, f: nat)
    requires
        deps_fuel(m, a, f) is Some,
    ensures
        deps_fuel(m, a, f + 1) == deps_fuel(m, a, f),
    decreases f, 0nat,
{
    let ds = direct_deps(m, a);
    lemma_deps_concat_step(m, ds, ds.len(), (f - 1) as nat);
}

proof fn lemma_deps_concat_step(m: Map<Seq<char>, ArtifactV>, ds: Seq<Seq<char>>, n: nat, f: nat)
    requires
        deps_concat(m, ds, n, f) is Some,
    ensures
        deps_concat(m, ds, n, f + 1) == deps_concat(m, ds, n, f),
    decreases f, n,
{
    if n > 0 && n <= ds.len() {
        lemma_deps_concat_step(m, ds, (n - 1) as nat, f);
        lemma_deps_fuel_step(m, ds[n - 1], f);
    }
}

proof fn lemma_deps_fuel_mono(m: Map<Seq<char>, ArtifactV>, a: Seq<char>, f: nat, g: nat)
    requires
        deps_fuel(m, a, f) is Some,
        f <= g,
    ensures
        deps_fuel(m, a, g) == deps_fuel(m, a, f),
    decreases g - f,
{
    if f < g {
        lemma_deps_fuel_step(m, a, f);
        lemma_deps_fuel_mono(m, a, f + 1, g);
    }
}

/// The dependencies found with any fuel that finds them are the dependencies.
proof fn lemma_deps_at(m: Map<Seq<char>, ArtifactV>, a: Seq<char>, f: nat)
    requires
        deps_fuel(m, a, f) is Some,
    ensures
        deps_end(m, a),
        deps_spec(m, a) == deps_fuel(m, a, f)->0,
{
    let g = choose|g: nat| #[trigger] deps_fuel(m, a, g) is Some;
    if f <= g {
        lemma_deps_fuel_mono(m, a, f, g);
    } else {
        lemma_deps_fuel_mono(m, a, g, f);
    }
}

/// What the dependencies of the first `n` artifacts of `ds` put together hold.
proof fn lemma_deps_concat_contains(m: Map<Seq<char>, ArtifactV>, ds: Seq<Seq<char>>, n: nat, f: nat)
    requires
        n <= ds.len(),
        deps_concat(m, ds, n, f) is Some,
    ensures
        forall|i: int| 0 <= i < n ==> #[trigger] deps_fuel(m, ds[i], f) is Some,
        forall|e: Seq<char>|
            deps_concat(m, ds, n, f)->0.contains(e) <==> exists|i: int|
                0 <= i < n && #[trigger] deps_fuel(m, ds[i], f)->0.contains(e),
    decreases n,
{
    if n > 0 {
        lemma_deps_concat_contains(m, ds, (n - 1) as nat, f);
        let x = deps_concat(m, ds, (n - 1) as nat, f)->0;
        let y = deps_fuel(m, ds[n - 1], f)->0;
        assert forall|e: Seq<char>|
            deps_concat(m, ds, n, f)->0.contains(e) <==> exists|i: int|
                0 <= i < n && #[trigger] deps_fuel(m, ds[i], f)->0.contains(e) by {
            if (x + y).contains(e) {
                let j = choose|j: int| 0 <= j < (x + y).len() && (x + y)[j] == e;
                if j < x.len() {
                    assert(x[j] == e);
                    assert(x.contains(e));
                } else {
                    assert(y[j - x.len()] == e);
                    assert(deps_fuel(m, ds[n - 1], f)->0.contains(e));
                }
            }
            if exists|i: int| 0 <= i < n && #[trigger] deps_fuel(m, ds[i], f)->0.contains(e) {
                let i = choose|i: int| 0 <= i < n && #[trigger] deps_fuel(m, ds[i], f)->0.contains(e);
                if i < n - 1 {
                    assert(x.contains(e));
                    let j = choose|j: int| 0 <= j < x.len() && x[j] == e;
                    assert((x + y)[j] == e);
                } else {
                    let j = choose|j: int| 0 <= j < y.len() && y[j] == e;
                    assert((x + y)[x.len() + j] == e);
                }
            }
        }
    }
}

/// The dependencies of an artifact are closed: each artifact it is built on
/// directly is among them, and so is every dependency of each of those;
/// and nothing else is.
pub proof fn lemma_dependencies_closed(m: Map<Seq<char>, ArtifactV>, a: Seq<char>)
    requires
        deps_end(m, a),
    ensures
        forall|d: Seq<char>|
            #[trigger] direct_deps(m, a).contains(d) ==> deps_end(m, d) && deps_spec(m, a).contains(d) && (
            forall|e: Seq<char>| deps_spec(m, d).contains(e) ==> deps_spec(m, a).contains(e)),
        forall|e: Seq<char>|
            #[trigger] deps_spec(m, a).contains(e) ==> direct_deps(m, a).contains(e) || exists|d: Seq<char>|
                direct_deps(m, a).contains(d) && deps_spec(m, d).contains(e),
{
    let f = choose|f: nat| #[trigger] deps_fuel(m, a, f) is Some;
    let g = (f - 1) as nat;
    let ds = direct_deps(m, a);
    let t = deps_concat(m, ds, ds.len(), g)->0;
    lemma_deps_concat_contains(m, ds, ds.len(), g);
    lemma_dedup_to_set(ds + t);
    let r = deps_spec(m, a);
    assert(r == dedup(ds + t));
    assert forall|e: Seq<char>| r.contains(e) <==> (ds + t).contains(e) by {
        assert(r.to_set().contains(e) == (ds + t).to_set().contains(e));
    }
    assert forall|d: Seq<char>|
        #[trigger] direct_deps(m, a).contains(d) implies deps_end(m, d) && deps_spec(m, a).contains(d) && (
        forall|e: Seq<char>| deps_spec(m, d).contains(e) ==> deps_spec(m, a).contains(e)) by {
        let i = choose|i: int| 0 <= i < ds.len() && ds[i] == d;
        assert(deps_fuel(m, ds[i], g) is Some);
        lemma_deps_at(m, d, g);
        assert((ds + t)[i] == d);
        assert forall|e: Seq<char>| deps_spec(m, d).contains(e) implies deps_spec(m, a).contains(e) by {
            assert(deps_fuel(m, ds[i], g)->0.contains(e));
            assert(t.contains(e));
            let j = choose|j: int| 0 <= j < t.len() && t[j] == e;
            assert((ds + t)[ds.len() + j] == e);
        }
    }
    assert forall|e: Seq<char>|
        #[trigger] deps_spec(m, a).contains(e) implies direct_deps(m, a).contains(e) || exists|d: Seq<char>|
            direct_deps(m, a).contains(d) && deps_spec(m, d).contains(e) by {
        let j = choose|j: int| 0 <= j < (ds + t).len() && (ds + t)[j] == e;
        if j < ds.len() {
            assert(ds[j] == e);
        } else {
            assert(t[j - ds.len()] == e);
            assert(t.contains(e));
            let i = choose|i: int| 0 <= i < ds.len() && #[trigger] deps_fuel(m, ds[i], g)->0.contains(e);
            lemma_deps_at(m, ds[i], g);
            assert(direct_deps(m, a).contains(ds[i]));
        }
    }
}

proof fn lemma_dependents_fuel_step(m: Map<Seq<char>, ArtifactV>, a: Seq<char>, f: nat)
    requires
        dependents_fuel(m, a, f) is Some,
    ensures
        dependents_fuel(m, a, f + 1) == dependents_fuel(m, a, f),
    decreases f,
{
    let g = (f - 1) as nat;
    assert forall|d: Seq<char>| #[trigger] dependents_set(m, a).contains(d) implies dependents_fuel(m, d, f)
        == dependents_fuel(m, d, g) by {
        lemma_dependents_fuel_step(m, d, g);
    }
    let x = dependents_fuel(m, a, f + 1)->0;
    let y = dependents_fuel(m, a, f)->0;
    assert(x =~= y);
}

proof fn lemma_dependents_fuel_mono(m: Map<Seq<char>, ArtifactV>, a: Seq<char>, f: nat, g: nat)
    requires
        dependents_fuel(m, a, f) is Some,
        f <= g,
    ensures
        dependents_fuel(m, a, g) == dependents_fuel(m, a, f),
    decreases g - f,
{
    if f < g {
        lemma_dependents_fuel_step(m, a, f);
        lemma_dependents_fuel_mono(m, a, f + 1, g);
    }
}

proof fn lemma_dependents_at(m: Map<Seq<char>, ArtifactV>, a: Seq<char>, f: nat)
    requires
        dependents_fuel(m, a, f) is Some,
    ensures
        dependents_end(m, a),
        dependents_spec(m, a) == dependents_fuel(m, a, f)->0,
{
    let g = choose|g: nat| #[trigger] dependents_fuel(m, a, g) is Some;
    if f <= g {
        lemma_dependents_fuel_mono(m, a, f, g);
    } else {
        lemma_dependents_fuel_mono(m, a, g, f);
    }
}

/// The dependents of an artifact are closed: each artifact built on it
/// directly is among them, and so is every dependent of each of those; and
/// nothing else is.
pub proof fn lemma_dependents_closed(m: Map<Seq<char>, ArtifactV>, a: Seq<char>)
    requires
        dependents_end(m, a),
    ensures
        forall|d: Seq<char>|
            #[trigger] dependents_set(m, a).contains(d) ==> dependents_end(m, d) && dependents_spec(m, a).contains(d)
                && (forall|e: Seq<char>| dependents_spec(m, d).contains(e) ==> dependents_spec(m, a).contains(e)),
        forall|e: Seq<char>|
            #[trigger] dependents_spec(m, a).contains(e) ==> dependents_set(m, a).contains(e) || exists|d: Seq<char>|
                dependents_set(m, a).contains(d) && dependents_spec(m, d).contains(e),
{
    let f = choose|f: nat| #[trigger] dependents_fuel(m, a, f) is Some;
    let g = (f - 1) as nat;
    assert forall|d: Seq<char>| #[trigger] dependents_set(m, a).contains(d) implies dependents_end(m, d)
        && dependents_spec(m, a).contains(d) && (forall|e: Seq<char>|
        dependents_spec(m, d).contains(e) ==> dependents_spec(m, a).contains(e)) by {
        lemma_dependents_at(m, d, g);
    }
    assert forall|e: Seq<char>| #[trigger] dependents_spec(m, a).contains(e) implies dependents_set(m, a).contains(e)
        || exists|d: Seq<char>| dependents_set(m, a).contains(d) && dependents_spec(m, d).contains(e) by {
        if !dependents_set(m, a).contains(e) {
            let d = choose|d: Seq<char>|
                #[trigger] dependents_set(m, a).contains(d) && dependents_fuel(m, d, g)->0.contains(e);
            lemma_dependents_at(m, d, g);
        }
    }
}

} // verus!
