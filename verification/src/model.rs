use vstd::prelude::*;

verus! {

// ---------------------------------------------------------------------------
// Names
// ---------------------------------------------------------------------------

/// A textual name; every name of the model (artifact references, slot names,
/// slot kinds) is compared and copied through this trait.
pub trait Key: View<V = Seq<char>> + Sized {
    fn key_eq(&self, other: &Self) -> (b: bool)
        ensures
            b == (self@ == other@),
    ;

    fn key_clone(&self) -> (r: Self)
        ensures
            r == *self,
    ;

    fn as_string(&self) -> (r: &String)
        ensures
            r@ == self@,
    ;
}

/// The name under which an artifact is stored in a model.
#[derive(Debug, Clone, Eq, PartialEq, Hash)]
pub struct ArtifactReference(String);

/// The name of a slot of a block or of a structure.
#[derive(Debug, Clone, Eq, PartialEq, Hash)]
pub struct SlotName(String);

/// The kind of a slot (and the main kind of a block).
#[derive(Debug, Clone, Eq, PartialEq, Hash)]
pub struct SlotKind(String);

impl View for ArtifactReference {
    type V = Seq<char>;

    closed spec fn view(&self) -> Seq<char> {
        self.0@
    }
}

impl View for SlotName {
    type V = Seq<char>;

    closed spec fn view(&self) -> Seq<char> {
        self.0@
    }
}

impl View for SlotKind {
    type V = Seq<char>;

    closed spec fn view(&self) -> Seq<char> {
        self.0@
    }
}

impl Key for ArtifactReference {
    fn key_eq(&self, other: &Self) -> (b: bool) {
        self.0 == other.0
    }

    fn key_clone(&self) -> (r: Self) {
        ArtifactReference(self.0.clone())
    }

    fn as_string(&self) -> (r: &String) {
        &self.0
    }
}

impl Key for SlotName {
    fn key_eq(&self, other: &Self) -> (b: bool) {
        self.0 == other.0
    }

    fn key_clone(&self) -> (r: Self) {
        SlotName(self.0.clone())
    }

    fn as_string(&self) -> (r: &String) {
        &self.0
    }
}

impl Key for SlotKind {
    fn key_eq(&self, other: &Self) -> (b: bool) {
        self.0 == other.0
    }

    fn key_clone(&self) -> (r: Self) {
        SlotKind(self.0.clone())
    }

    fn as_string(&self) -> (r: &String) {
        &self.0
    }
}

/// Builds an artifact reference.
pub fn ar(x: &str) -> (r: ArtifactReference)
    ensures
        r@ == x@,
{
    ArtifactReference(String::from_str(x))
}

/// Builds a slot name.
pub fn sn(x: &str) -> (r: SlotName)
    ensures
        r@ == x@,
{
    SlotName(String::from_str(x))
}

/// Builds a slot kind.
pub fn sk(x: &str) -> (r: SlotKind)
    ensures
        r@ == x@,
{
    SlotKind(String::from_str(x))
}

impl ArtifactReference {
    pub fn as_str(&self) -> (r: &str)
        ensures
            r@ == self@,
    {
        self.0.as_str()
    }
}

impl SlotName {
    pub fn as_str(&self) -> (r: &str)
        ensures
            r@ == self@,
    {
        self.0.as_str()
    }

    /// The text under which a slot name is shown: a quote before the name.
    pub fn display(&self) -> (r: String)
        ensures
            r@ == seq!['\''] + self@,
    {
        let mut r = String::from_str("'");
        proof {
            reveal_strlit("'");
        }
        r.append(self.0.as_str());
        r
    }
}

impl SlotKind {
    pub fn as_str(&self) -> (r: &str)
        ensures
            r@ == self@,
    {
        self.0.as_str()
    }

    /// The text under which a slot kind is shown: the kind in square brackets.
    pub fn display(&self) -> (r: String)
        ensures
            r@ == seq!['['] + self@ + seq![']'],
    {
        let mut r = String::from_str("[");
        proof {
            reveal_strlit("[");
            reveal_strlit("]");
        }
        r.append(self.0.as_str());
        r.append("]");
        r
    }
}

// ---------------------------------------------------------------------------
// Association lists with unique keys
// ---------------------------------------------------------------------------

pub open spec fn has_key<V>(s: Seq<(Seq<char>, V)>, k: Seq<char>) -> bool {
    exists|i: int| 0 <= i < s.len() && s[i].0 == k
}

pub open spec fn keys_unique<V>(s: Seq<(Seq<char>, V)>) -> bool {
    forall|i: int, j: int| 0 <= i < s.len() && 0 <= j < s.len() && s[i].0 == s[j].0 ==> i == j
}

pub open spec fn key_index<V>(s: Seq<(Seq<char>, V)>, k: Seq<char>) -> int {
    choose|i: int| 0 <= i < s.len() && s[i].0 == k
}

/// The value stored under `k`, if any.
pub open spec fn lookup<V>(s: Seq<(Seq<char>, V)>, k: Seq<char>) -> Option<V> {
    if has_key(s, k) {
        Some(s[key_index(s, k)].1)
    } else {
        None
    }
}

/// Storing `v` under `k`: an existing entry keeps its place, a new one goes last.
pub open spec fn insert_entry<V>(s: Seq<(Seq<char>, V)>, k: Seq<char>, v: V) -> Seq<(Seq<char>, V)> {
    if has_key(s, k) {
        s.update(key_index(s, k), (k, v))
    } else {
        s.push((k, v))
    }
}

/// Dropping the entry of `k`, if any; the others keep their order.
pub open spec fn remove_entry<V>(s: Seq<(Seq<char>, V)>, k: Seq<char>) -> Seq<(Seq<char>, V)> {
    if has_key(s, k) {
        s.remove(key_index(s, k))
    } else {
        s
    }
}

/// The keys of an association list, in order.
pub open spec fn keys_of<V>(s: Seq<(Seq<char>, V)>) -> Seq<Seq<char>> {
    s.map_values(|p: (Seq<char>, V)| p.0)
}

/// The map that an association list stands for.
pub open spec fn map_of<V>(s: Seq<(Seq<char>, V)>) -> Map<Seq<char>, V> {
    Map::new(|k: Seq<char>| has_key(s, k), |k: Seq<char>| lookup(s, k)->0)
}

pub proof fn lemma_lookup_at<V>(s: Seq<(Seq<char>, V)>, i: int)
    requires
        keys_unique(s),
        0 <= i < s.len(),
    ensures
        has_key(s, s[i].0),
        key_index(s, s[i].0) == i,
        lookup(s, s[i].0) == Some(s[i].1),
{
    assert(has_key(s, s[i].0));
}

pub proof fn lemma_insert_entry<V>(s: Seq<(Seq<char>, V)>, k: Seq<char>, v: V)
    requires
        keys_unique(s),
    ensures
        keys_unique(insert_entry(s, k, v)),
        lookup(insert_entry(s, k, v), k) == Some(v),
        forall|k2: Seq<char>| k2 != k ==> lookup(#[trigger] insert_entry(s, k, v), k2) == lookup(s, k2),
        map_of(insert_entry(s, k, v)) == map_of(s).insert(k, v),
        has_key(s, k) ==> insert_entry(s, k, v).len() == s.len(),
        !has_key(s, k) ==> insert_entry(s, k, v).len() == s.len() + 1,
{
    let t = insert_entry(s, k, v);
    if has_key(s, k) {
        let idx = key_index(s, k);
        assert(keys_unique(t));
        assert(t[idx].0 == k);
        lemma_lookup_at(t, idx);
        assert forall|k2: Seq<char>| k2 != k implies lookup(t, k2) == lookup(s, k2) by {
            if has_key(s, k2) {
                let j = key_index(s, k2);
                lemma_lookup_at(s, j);
                assert(t[j] == s[j]);
                lemma_lookup_at(t, j);
            } else {
                if has_key(t, k2) {
                    let j = key_index(t, k2);
                    assert(s[j].0 == k2);
                }
            }
        }
    } else {
        assert(keys_unique(t));
        lemma_lookup_at(t, s.len() as int);
        assert forall|k2: Seq<char>| k2 != k implies lookup(t, k2) == lookup(s, k2) by {
            if has_key(s, k2) {
                let j = key_index(s, k2);
                lemma_lookup_at(s, j);
                lemma_lookup_at(t, j);
            } else {
                if has_key(t, k2) {
                    let j = key_index(t, k2);
                    assert(s[j].0 == k2);
                }
            }
        }
    }
    assert forall|k2: Seq<char>| #[trigger] has_key(t, k2) == (has_key(s, k2) || k2 == k) by {
        if k2 != k {
            assert(lookup(t, k2) == lookup(s, k2));
        }
    }
    assert(map_of(t) =~= map_of(s).insert(k, v));
}

pub proof fn lemma_remove_entry<V>(s: Seq<(Seq<char>, V)>, k: Seq<char>)
    requires
        keys_unique(s),
    ensures
        keys_unique(remove_entry(s, k)),
        !has_key(remove_entry(s, k), k),
        forall|k2: Seq<char>| k2 != k ==> lookup(#[trigger] remove_entry(s, k), k2) == lookup(s, k2),
        map_of(remove_entry(s, k)) == map_of(s).remove(k),
        has_key(s, k) ==> remove_entry(s, k).len() + 1 == s.len(),
        !has_key(s, k) ==> remove_entry(s, k).len() == s.len(),
{
    let t = remove_entry(s, k);
    if has_key(s, k) {
        let idx = key_index(s, k);
        assert forall|i: int, j: int|
            0 <= i < t.len() && 0 <= j < t.len() && t[i].0 == t[j].0 implies i == j by {
            let si = if i < idx { i } else { i + 1 };
            let sj = if j < idx { j } else { j + 1 };
            assert(t[i] == s[si]);
            assert(t[j] == s[sj]);
        }
        assert forall|i: int| 0 <= i < t.len() implies t[i].0 != k by {
            let si = if i < idx { i } else { i + 1 };
            assert(t[i] == s[si]);
        }
        assert forall|k2: Seq<char>| k2 != k implies lookup(t, k2) == lookup(s, k2) by {
            if has_key(s, k2) {
                let j = key_index(s, k2);
                lemma_lookup_at(s, j);
                let tj = if j < idx { j } else { j - 1 };
                assert(t[tj] == s[j]);
                lemma_lookup_at(t, tj);
            } else {
                if has_key(t, k2) {
                    let j = key_index(t, k2);
                    let sj = if j < idx { j } else { j + 1 };
                    assert(t[j] == s[sj]);
                }
            }
        }
    }
    assert forall|k2: Seq<char>| #[trigger] has_key(t, k2) == (has_key(s, k2) && k2 != k) by {
        if k2 != k {
            assert(lookup(t, k2) == lookup(s, k2));
        }
    }
    assert(map_of(t) =~= map_of(s).remove(k));
}

/// A finite map from names to values, kept as a list in insertion order in
/// which no name occurs twice.
#[derive(Debug)]
pub struct Assoc<K: Key, V> {
    entries: Vec<(K, V)>,
}

impl<K: Key, V> Assoc<K, V> {
    /// The entries, each name taken by its text.
    pub closed spec fn entries(&self) -> Seq<(Seq<char>, V)> {
        self.entries@.map_values(|p: (K, V)| (p.0@, p.1))
    }

    pub open spec fn map(&self) -> Map<Seq<char>, V> {
        map_of(self.entries())
    }

    #[verifier::type_invariant]
    closed spec fn inv(self) -> bool {
        keys_unique(self.entries())
    }

    pub fn new() -> (r: Self)
        ensures
            r.entries() == Seq::<(Seq<char>, V)>::empty(),
    {
        let r = Assoc { entries: Vec::new() };
        assert(r.entries() =~= Seq::<(Seq<char>, V)>::empty());
        r
    }

    pub fn len(&self) -> (r: usize)
        ensures
            r == self.entries().len(),
    {
        self.entries.len()
    }

    pub fn is_empty(&self) -> (r: bool)
        ensures
            r == (self.entries().len() == 0),
    {
        self.entries.len() == 0
    }

    pub fn key_at(&self, i: usize) -> (r: &K)
        requires
            i < self.entries().len(),
        ensures
            r@ == self.entries()[i as int].0,
    {
        &self.entries[i].0
    }

    pub fn value_at(&self, i: usize) -> (r: &V)
        requires
            i < self.entries().len(),
        ensures
            *r == self.entries()[i as int].1,
    {
        &self.entries[i].1
    }

    fn find(&self, k: &K) -> (r: Option<usize>)
        ensures
            match r {
                Some(i) => i < self.entries().len() && self.entries()[i as int].0 == k@,
                None => !has_key(self.entries(), k@),
            },
    {
        let mut i: usize = 0;
        while i < self.entries.len()
            invariant
                i <= self.entries@.len(),
                forall|j: int| 0 <= j < i ==> self.entries()[j].0 != k@,
            decreases self.entries@.len() - i,
        {
            if self.entries[i].0.key_eq(k) {
                return Some(i);
            }
            i = i + 1;
        }
        None
    }

    pub fn contains_key(&self, k: &K) -> (r: bool)
        ensures
            r == has_key(self.entries(), k@),
    {
        self.find(k).is_some()
    }

    pub fn get(&self, k: &K) -> (r: Option<&V>)
        ensures
            r is Some == has_key(self.entries(), k@),
            r is Some ==> *(r->0) == lookup(self.entries(), k@)->0,
    {
        proof {
            use_type_invariant(self);
        }
        match self.find(k) {
            Some(i) => {
                proof {
                    lemma_lookup_at(self.entries(), i as int);
                }
                Some(&self.entries[i].1)
            },
            None => None,
        }
    }

    pub fn insert(&mut self, k: K, v: V)
        ensures
            final(self).entries() == insert_entry(old(self).entries(), k@, v),
    {
        proof {
            use_type_invariant(&*self);
        }
        let ghost old_e = self.entries();
        match self.find(&k) {
            Some(i) => {
                proof {
                    lemma_lookup_at(old_e, i as int);
                }
                let mut e: Vec<(K, V)> = Vec::new();
                std::mem::swap(&mut e, &mut self.entries);
                e.set(i, (k, v));
                proof {
                    lemma_insert_entry(old_e, k@, v);
                }
                assert(e@.map_values(|p: (K, V)| (p.0@, p.1)) =~= insert_entry(old_e, k@, v));
                self.entries = e;
            },
            None => {
                let mut e: Vec<(K, V)> = Vec::new();
                std::mem::swap(&mut e, &mut self.entries);
                e.push((k, v));
                proof {
                    lemma_insert_entry(old_e, k@, v);
                }
                assert(e@.map_values(|p: (K, V)| (p.0@, p.1)) =~= insert_entry(old_e, k@, v));
                self.entries = e;
            },
        }
        proof {
            lemma_insert_entry(old_e, k@, v);
        }
    }

    fn into_entries(self) -> (r: Vec<(K, V)>)
        ensures
            r@ == self.entries@,
            r@.map_values(|p: (K, V)| (p.0@, p.1)) == self.entries(),
            keys_unique(self.entries()),
    {
        proof {
            use_type_invariant(&self);
        }
        self.entries
    }

    fn from_entries(v: Vec<(K, V)>) -> (r: Self)
        requires
            keys_unique(v@.map_values(|p: (K, V)| (p.0@, p.1))),
        ensures
            r.entries() == v@.map_values(|p: (K, V)| (p.0@, p.1)),
    {
        Assoc { entries: v }
    }

    pub fn remove(&mut self, k: &K) -> (r: Option<V>)
        ensures
            final(self).entries() == remove_entry(old(self).entries(), k@),
            r == lookup(old(self).entries(), k@),
    {
        proof {
            use_type_invariant(&*self);
        }
        let ghost old_e = self.entries();
        proof {
            lemma_remove_entry(old_e, k@);
        }
        match self.find(k) {
            Some(i) => {
                proof {
                    lemma_lookup_at(old_e, i as int);
                }
                let mut e: Vec<(K, V)> = Vec::new();
                std::mem::swap(&mut e, &mut self.entries);
                let (_, v) = e.remove(i);
                assert(e@.map_values(|p: (K, V)| (p.0@, p.1)) =~= remove_entry(old_e, k@));
                self.entries = e;
                Some(v)
            },
            None => None,
        }
    }
}


impl<K: Key, V: Key> Assoc<K, V> {
    /// A copy of a map whose keys and values are names.
    pub fn copy(&self) -> (r: Self)
        ensures
            r.entries() == self.entries(),
    {
        proof {
            use_type_invariant(self);
        }
        let mut v: Vec<(K, V)> = Vec::new();
        let mut i: usize = 0;
        while i < self.entries.len()
            invariant
                i <= self.entries@.len(),
                v@.len() == i,
                forall|j: int| 0 <= j < i ==> #[trigger] v@[j] == self.entries@[j],
                keys_unique(self.entries()),
            decreases self.entries@.len() - i,
        {
            proof {
                use_type_invariant(self);
            }
            let k = self.entries[i].0.key_clone();
            let x = self.entries[i].1.key_clone();
            v.push((k, x));
            i = i + 1;
        }
        proof {
            use_type_invariant(self);
        }
        assert(v@.map_values(|p: (K, V)| (p.0@, p.1)) =~= self.entries());
        Assoc { entries: v }
    }
}


// ---------------------------------------------------------------------------
// Artifacts
// ---------------------------------------------------------------------------

/// An indivisible artifact: a main slot kind and named slots of given kinds.
#[derive(Debug)]
pub struct Block {
    pub main_slot_kind: SlotKind,
    pub slots: Assoc<SlotName, SlotKind>,
}

/// An artifact built on another one (`a_ref`), with some of its slots
/// connected to sub-structures or exposed under another slot name.
#[derive(Debug)]
pub struct Structure {
    pub a_ref: ArtifactReference,
    pub c: Assoc<SlotName, Connection>,
}

#[derive(Debug)]
pub enum Connection {
    Structure(Structure),
    Slot(SlotName),
}

#[derive(Debug)]
pub enum Artifact {
    Block(Block),
    Structure(Structure),
}

pub struct BlockV {
    pub main_slot_kind: Seq<char>,
    pub slots: Seq<(Seq<char>, Seq<char>)>,
}

pub struct StructureV {
    pub a_ref: Seq<char>,
    pub c: Seq<(Seq<char>, ConnectionV)>,
}

pub enum ConnectionV {
    Structure(StructureV),
    Slot(Seq<char>),
}

pub enum ArtifactV {
    Block(BlockV),
    Structure(StructureV),
}

pub closed spec fn slot_map_view(m: &Assoc<SlotName, SlotKind>) -> Seq<(Seq<char>, Seq<char>)> {
    m.entries().map_values(|p: (Seq<char>, SlotKind)| (p.0, p.1@))
}

pub closed spec fn connection_view(c: &Connection) -> ConnectionV
    decreases c,
{
    match c {
        Connection::Structure(s) => ConnectionV::Structure(structure_view(s)),
        Connection::Slot(n) => ConnectionV::Slot(n@),
    }
}

pub closed spec fn structure_view(s: &Structure) -> StructureV
    decreases s,
{
    StructureV { a_ref: s.a_ref@, c: connections_view(s, s.c.entries@.len() as int) }
}

closed spec fn connections_view(s: &Structure, n: int) -> Seq<(Seq<char>, ConnectionV)>
    decreases s, n,
{
    if n <= 0 || n > s.c.entries@.len() {
        Seq::empty()
    } else {
        proof {
            assert(decreases_to!(s => s.c.entries@[n - 1].1)) by {
                assert(decreases_to!(s.c.entries => s.c.entries@));
            }
        }
        connections_view(s, n - 1).push(
            (s.c.entries@[n - 1].0@, connection_view(&s.c.entries@[n - 1].1)),
        )
    }
}

proof fn lemma_connections_view(s: &Structure, n: int)
    requires
        0 <= n <= s.c.entries@.len(),
    ensures
        connections_view(s, n).len() == n,
        forall|i: int|
            0 <= i < n ==> #[trigger] connections_view(s, n)[i] == (
                s.c.entries@[i].0@,
                connection_view(&s.c.entries@[i].1),
            ),
    decreases n,
{
    if n > 0 {
        lemma_connections_view(s, n - 1);
    }
}

/// The view of a structure lists its connections in the order of `c`.
pub proof fn lemma_structure_view(s: &Structure)
    ensures
        structure_view(s).a_ref == s.a_ref@,
        structure_view(s).c.len() == s.c.entries().len(),
        forall|i: int|
            0 <= i < s.c.entries().len() ==> #[trigger] structure_view(s).c[i] == (
                s.c.entries()[i].0,
                connection_view(&s.c.entries()[i].1),
            ),
{
    lemma_connections_view(s, s.c.entries@.len() as int);
}

/// The view of a connection follows its variant.
pub proof fn lemma_connection_view(c: &Connection)
    ensures
        connection_view(c) == (match c {
            Connection::Structure(s) => ConnectionV::Structure(structure_view(s)),
            Connection::Slot(n) => ConnectionV::Slot(n@),
        }),
{
}

impl View for Structure {
    type V = StructureV;

    open spec fn view(&self) -> StructureV {
        structure_view(self)
    }
}

impl View for Connection {
    type V = ConnectionV;

    open spec fn view(&self) -> ConnectionV {
        connection_view(self)
    }
}

impl View for Block {
    type V = BlockV;

    open spec fn view(&self) -> BlockV {
        BlockV { main_slot_kind: self.main_slot_kind@, slots: slot_map_view(&self.slots) }
    }
}

impl View for Artifact {
    type V = ArtifactV;

    open spec fn view(&self) -> ArtifactV {
        match self {
            Artifact::Block(b) => ArtifactV::Block(b@),
            Artifact::Structure(s) => ArtifactV::Structure(s@),
        }
    }
}

pub proof fn lemma_slot_map_view(m: &Assoc<SlotName, SlotKind>)
    ensures
        slot_map_view(m).len() == m.entries().len(),
        forall|i: int|
            0 <= i < m.entries().len() ==> #[trigger] slot_map_view(m)[i] == (
                m.entries()[i].0,
                m.entries()[i].1@,
            ),
{
}

impl Artifact {
    /// Whether the artifact is built out of others.
    pub fn composite(&self) -> (r: bool)
        ensures
            r == (self@ is Structure),
    {
        if let Artifact::Structure(_) = self {
            true
        } else {
            false
        }
    }
}


fn copy_connection(c: &Connection) -> (r: Connection)
    ensures
        r@ == c@,
    decreases c,
{
    match c {
        Connection::Structure(s) => Connection::Structure(copy_structure(s)),
        Connection::Slot(n) => Connection::Slot(n.key_clone()),
    }
}

fn copy_structure(s: &Structure) -> (r: Structure)
    ensures
        r@ == s@,
    decreases s,
{
    proof {
        use_type_invariant(&s.c);
    }
    let mut v: Vec<(SlotName, Connection)> = Vec::new();
    let mut i: usize = 0;
    let n = s.c.entries.len();
    while i < n
        invariant
            n == s.c.entries@.len(),
            i <= n,
            v@.len() == i,
            forall|j: int|
                0 <= j < i ==> #[trigger] v@[j].0 == s.c.entries@[j].0 && v@[j].1@
                    == s.c.entries@[j].1@,
            keys_unique(s.c.entries()),
        decreases n - i,
    {
        proof {
            assert(decreases_to!(s => s.c.entries@[i as int].1)) by {
                assert(decreases_to!(s.c.entries => s.c.entries@));
            }
        }
        let k = s.c.entries[i].0.key_clone();
        let x = copy_connection(&s.c.entries[i].1);
        let ghost prev = v@;
        v.push((k, x));
        assert(v@[i as int].0 == s.c.entries@[i as int].0);
        assert(forall|j: int| 0 <= j < i ==> v@[j] == prev[j]);
        i = i + 1;
    }
    assert(v@.map_values(|p: (SlotName, Connection)| (p.0@, p.1)).map_values(
        |p: (Seq<char>, Connection)| p.0,
    ) =~= s.c.entries().map_values(|p: (Seq<char>, Connection)| p.0));
    assert(keys_unique(v@.map_values(|p: (SlotName, Connection)| (p.0@, p.1)))) by {
        assert forall|a: int, b: int|
            0 <= a < v@.len() && 0 <= b < v@.len() && v@[a].0@ == v@[b].0@ implies a == b by {
            assert(s.c.entries()[a].0 == v@[a].0@);
            assert(s.c.entries()[b].0 == v@[b].0@);
        }
    }
    let r = Structure { a_ref: s.a_ref.key_clone(), c: Assoc { entries: v } };
    proof {
        lemma_structure_view(&r);
        lemma_structure_view(s);
        assert(structure_view(&r).c =~= structure_view(s).c);
    }
    r
}

fn copy_block(b: &Block) -> (r: Block)
    ensures
        r@ == b@,
{
    Block { main_slot_kind: b.main_slot_kind.key_clone(), slots: b.slots.copy() }
}

fn copy_artifact(a: &Artifact) -> (r: Artifact)
    ensures
        r@ == a@,
{
    match a {
        Artifact::Block(b) => Artifact::Block(copy_block(b)),
        Artifact::Structure(s) => Artifact::Structure(copy_structure(s)),
    }
}

impl Clone for Structure {
    fn clone(&self) -> (r: Self)
        ensures
            r@ == self@,
    {
        copy_structure(self)
    }
}

impl Clone for Connection {
    fn clone(&self) -> (r: Self)
        ensures
            r@ == self@,
    {
        copy_connection(self)
    }
}

impl Clone for Block {
    fn clone(&self) -> (r: Self)
        ensures
            r@ == self@,
    {
        copy_block(self)
    }
}

impl Clone for Artifact {
    fn clone(&self) -> (r: Self)
        ensures
            r@ == self@,
    {
        copy_artifact(self)
    }
}


// ---------------------------------------------------------------------------
// Models
// ---------------------------------------------------------------------------

/// The texts of a list of artifact references.
pub open spec fn names(s: Seq<ArtifactReference>) -> Seq<Seq<char>> {
    s.map_values(|a: ArtifactReference| a@)
}

#[derive(Debug)]
pub enum GettingKindOfError {
    Unexistent(Vec<ArtifactReference>, ArtifactReference),
    RecursionDetected(Vec<ArtifactReference>, ArtifactReference),
}

pub enum KindErrorV {
    Unexistent(Seq<Seq<char>>, Seq<char>),
    RecursionDetected(Seq<Seq<char>>, Seq<char>),
}

pub open spec fn kind_error_view(e: GettingKindOfError) -> KindErrorV {
    match e {
        GettingKindOfError::Unexistent(bc, a) => KindErrorV::Unexistent(names(bc@), a@),
        GettingKindOfError::RecursionDetected(bc, a) => KindErrorV::RecursionDetected(
            names(bc@),
            a@,
        ),
    }
}

pub open spec fn kind_result_view(r: Result<SlotKind, GettingKindOfError>) -> Result<
    Seq<char>,
    KindErrorV,
> {
    match r {
        Ok(k) => Ok(k@),
        Err(e) => Err(kind_error_view(e)),
    }
}

/// How many artifacts the search for a main slot kind may still visit.
pub open spec fn kind_measure(m: Map<Seq<char>, ArtifactV>, a: Seq<char>, bc: Seq<Seq<char>>) -> nat {
    m.dom().difference(bc.to_set().insert(a)).len()
}

pub proof fn lemma_kind_step(
    m: Map<Seq<char>, ArtifactV>,
    a: Seq<char>,
    bc: Seq<Seq<char>>,
    next: Seq<char>,
)
    requires
        m.dom().finite(),
        m.contains_key(a),
        !bc.push(a).contains(next),
    ensures
        m.contains_key(next) ==> kind_measure(m, next, bc.push(a)) < kind_measure(m, a, bc),
        !m.contains_key(next) ==> kind_measure(m, next, bc.push(a)) == kind_measure(m, a, bc),
{
    broadcast use vstd::set::group_set_axioms;
    broadcast use vstd::seq_lib::group_seq_properties;

    let d = m.dom().difference(bc.to_set().insert(a));
    let d2 = m.dom().difference(bc.push(a).to_set().insert(next));
    assert(bc.push(a).to_set() =~= bc.to_set().insert(a));
    assert(!bc.contains(next)) by {
        if bc.contains(next) {
            let i = choose|i: int| 0 <= i < bc.len() && bc[i] == next;
            assert(bc.push(a)[i] == next);
        }
    }
    assert(next != a) by {
        assert(bc.push(a)[bc.len() as int] == a);
    }
    vstd::set_lib::lemma_len_subset(d, m.dom());
    if m.contains_key(next) {
        assert(d2 =~= d.remove(next));
    } else {
        assert(d2 =~= d);
    }
}

/// The main slot kind of `a`, found by following the artifacts that
/// structures are built on; `bc` lists the structures already passed.
pub open spec fn kind_of(m: Map<Seq<char>, ArtifactV>, a: Seq<char>, bc: Seq<Seq<char>>) -> Result<
    Seq<char>,
    KindErrorV,
>
    decreases kind_measure(m, a, bc), (if m.contains_key(a) { 1nat } else { 0nat }),
    when m.dom().finite()
{
    if !m.contains_key(a) {
        Err(KindErrorV::Unexistent(bc, a))
    } else {
        match m[a] {
            ArtifactV::Block(b) => Ok(b.main_slot_kind),
            ArtifactV::Structure(s) => {
                if bc.push(a).contains(s.a_ref) {
                    Err(KindErrorV::RecursionDetected(bc.push(a), s.a_ref))
                } else {
                    proof {
                        lemma_kind_step(m, a, bc, s.a_ref);
                    }
                    kind_of(m, s.a_ref, bc.push(a))
                }
            },
        }
    }
}

fn copy_refs(v: &Vec<ArtifactReference>) -> (r: Vec<ArtifactReference>)
    ensures
        r@ == v@,
{
    let mut r: Vec<ArtifactReference> = Vec::new();
    let mut i: usize = 0;
    while i < v.len()
        invariant
            i <= v@.len(),
            r@ =~= v@.take(i as int),
        decreases v@.len() - i,
    {
        r.push(v[i].key_clone());
        assert(v@.take(i + 1) =~= v@.take(i as int).push(v@[i as int]));
        i = i + 1;
    }
    assert(v@.take(v@.len() as int) =~= v@);
    r
}

fn refs_contain(v: &Vec<ArtifactReference>, a: &ArtifactReference) -> (r: bool)
    ensures
        r == names(v@).contains(a@),
{
    let mut i: usize = 0;
    while i < v.len()
        invariant
            i <= v@.len(),
            forall|j: int| 0 <= j < i ==> v@[j]@ != a@,
        decreases v@.len() - i,
    {
        if v[i].key_eq(a) {
            assert(names(v@)[i as int] == a@);
            return true;
        }
        i = i + 1;
    }
    assert(!names(v@).contains(a@)) by {
        if names(v@).contains(a@) {
            let j = choose|j: int| 0 <= j < names(v@).len() && names(v@)[j] == a@;
            assert(v@[j]@ == a@);
        }
    }
    false
}

/// A store of artifacts, each under its reference.
pub trait Model: Sized {
    /// The artifacts of the model, by the text of their reference.
    spec fn artifacts(&self) -> Map<Seq<char>, ArtifactV>;

    proof fn lemma_finite(&self)
        ensures
            self.artifacts().dom().finite(),
    ;

    fn set_artifact(&mut self, aref: ArtifactReference, artifact: Artifact)
        ensures
            final(self).artifacts() == old(self).artifacts().insert(aref@, artifact@),
    ;

    fn remove_artifact(&mut self, aref: &ArtifactReference)
        ensures
            final(self).artifacts() == old(self).artifacts().remove(aref@),
    ;

    fn get_artifact(&self, aref: &ArtifactReference) -> (r: Option<&Artifact>)
        ensures
            r is Some == self.artifacts().contains_key(aref@),
            r is Some ==> (r->0)@ == self.artifacts()[aref@],
    ;

    fn list_artifacts(&self) -> (r: Vec<ArtifactReference>)
        ensures
            names(r@).no_duplicates(),
            names(r@).to_set() == self.artifacts().dom(),
    ;

    fn is_finite(&self) -> (r: bool)
        ensures
            r,
    {
        true
    }

    fn exists_artifact(&self, aref: &ArtifactReference) -> (r: bool)
        ensures
            r == self.artifacts().contains_key(aref@),
    {
        self.get_artifact(aref).is_some()
    }

}

/// The main slot kind of an artifact in any model, following the chain of
/// structures from the artifacts already in `breadcrumb`.
pub fn kind_with_breadcrumb<M: Model>(
    m: &M,
    aref: &ArtifactReference,
    breadcrumb: Vec<ArtifactReference>,
) -> (r: Result<SlotKind, GettingKindOfError>)
    ensures
        kind_result_view(r) == kind_of(m.artifacts(), aref@, names(breadcrumb@)),
    decreases kind_measure(m.artifacts(), aref@, names(breadcrumb@)),
        (if m.artifacts().contains_key(aref@) { 1nat } else { 0nat }),
{
    proof {
        m.lemma_finite();
    }
    let mut breadcrumb = breadcrumb;
    match m.get_artifact(aref) {
        None => Err(GettingKindOfError::Unexistent(copy_refs(&breadcrumb), aref.key_clone())),
        Some(Artifact::Block(block)) => Ok(block.main_slot_kind.key_clone()),
        Some(Artifact::Structure(structure)) => {
            let ghost bc = names(breadcrumb@);
            breadcrumb.push(aref.key_clone());
            assert(names(breadcrumb@) =~= bc.push(aref@));
            if refs_contain(&breadcrumb, &structure.a_ref) {
                return Err(
                    GettingKindOfError::RecursionDetected(
                        copy_refs(&breadcrumb),
                        structure.a_ref.key_clone(),
                    ),
                );
            }
            proof {
                lemma_kind_step(m.artifacts(), aref@, bc, structure.a_ref@);
            }
            kind_with_breadcrumb(m, &structure.a_ref, breadcrumb)
        },
    }
}


// ---------------------------------------------------------------------------
// Slots of artifacts
// ---------------------------------------------------------------------------

/// Why the slots of an artifact could not be found.
#[derive(Debug)]
pub struct GettingSlotOfError(pub String);

pub open spec fn msg_missing(a: Seq<char>) -> Seq<char> {
    "Could not get artifact "@ + a
}

pub open spec fn msg_self_reference(a: Seq<char>) -> Seq<char> {
    "Structure "@ + a + " references to itself"@
}

/// `acc` after storing, in order, the first `n` entries of `cs`.
pub open spec fn insert_all(
    acc: Seq<(Seq<char>, Seq<char>)>,
    cs: Seq<(Seq<char>, Seq<char>)>,
    n: nat,
) -> Seq<(Seq<char>, Seq<char>)>
    decreases n,
{
    if n == 0 || n > cs.len() {
        acc
    } else {
        let prev = insert_all(acc, cs, (n - 1) as nat);
        insert_entry(prev, cs[n - 1].0, cs[n - 1].1)
    }
}

/// The slots of artifact `a`, when `f` nested steps suffice to find them
/// (`None` otherwise).
pub open spec fn slots_fuel(m: Map<Seq<char>, ArtifactV>, a: Seq<char>, f: nat) -> Option<
    Result<Seq<(Seq<char>, Seq<char>)>, Seq<char>>,
>
    decreases f, 0nat,
{
    if f == 0 {
        None
    } else if !m.contains_key(a) {
        Some(Err(msg_missing(a)))
    } else {
        match m[a] {
            ArtifactV::Block(b) => Some(Ok(b.slots)),
            ArtifactV::Structure(s) => {
                if s.a_ref == a {
                    Some(Err(msg_self_reference(a)))
                } else {
                    structure_slots_fuel(m, s, (f - 1) as nat)
                }
            },
        }
    }
}

/// The slots exposed by a structure: those of the artifact it is built on,
/// renamed by slot connections, plus those of connected sub-structures.
pub open spec fn structure_slots_fuel(m: Map<Seq<char>, ArtifactV>, s: StructureV, f: nat) -> Option<
    Result<Seq<(Seq<char>, Seq<char>)>, Seq<char>>,
>
    decreases f, 0nat,
{
    if f == 0 {
        None
    } else {
        match slots_fuel(m, s.a_ref, (f - 1) as nat) {
            Some(Ok(inner)) => fold_slots(m, s, inner, inner.len(), (f - 1) as nat),
            other => other,
        }
    }
}

/// The slots collected from the first `n` inner slots of `s`.
pub open spec fn fold_slots(
    m: Map<Seq<char>, ArtifactV>,
    s: StructureV,
    inner: Seq<(Seq<char>, Seq<char>)>,
    n: nat,
    f: nat,
) -> Option<Result<Seq<(Seq<char>, Seq<char>)>, Seq<char>>>
    decreases f, n,
{
    if n == 0 || n > inner.len() {
        Some(Ok(Seq::empty()))
    } else {
        match fold_slots(m, s, inner, (n - 1) as nat, f) {
            Some(Ok(acc)) => {
                let name = inner[n - 1].0;
                let kind = inner[n - 1].1;
                match lookup(s.c, name) {
                    None => Some(Ok(acc)),
                    Some(ConnectionV::Slot(outer)) => Some(Ok(insert_entry(acc, outer, kind))),
                    Some(ConnectionV::Structure(child)) => match structure_slots_fuel(m, child, f) {
                        Some(Ok(cs)) => Some(Ok(insert_all(acc, cs, cs.len()))),
                        other => other,
                    },
                }
            },
            other => other,
        }
    }
}

pub proof fn lemma_fold_slots_prefix(
    m: Map<Seq<char>, ArtifactV>,
    s: StructureV,
    inner: Seq<(Seq<char>, Seq<char>)>,
    i: nat,
    n: nat,
    f: nat,
)
    requires
        i <= n <= inner.len(),
        fold_slots(m, s, inner, n, f) is Some,
    ensures
        fold_slots(m, s, inner, i, f) is Some,
        fold_slots(m, s, inner, i, f) matches Some(Err(e)) ==> fold_slots(m, s, inner, n, f) == Some(
            Err::<Seq<(Seq<char>, Seq<char>)>, Seq<char>>(e),
        ),
    decreases n - i,
{
    if i < n {
        lemma_fold_slots_prefix(m, s, inner, i + 1, n, f);
    }
}

/// Whether the search for the slots of `a` ends.
pub open spec fn slots_end(m: Map<Seq<char>, ArtifactV>, a: Seq<char>) -> bool {
    exists|f: nat| #[trigger] slots_fuel(m, a, f) is Some
}

/// The slots of `a` (or why they cannot be found), where the search ends.
pub open spec fn slots_spec(m: Map<Seq<char>, ArtifactV>, a: Seq<char>) -> Result<
    Seq<(Seq<char>, Seq<char>)>,
    Seq<char>,
> {
    slots_fuel(m, a, choose|f: nat| #[trigger] slots_fuel(m, a, f) is Some)->0
}

/// Whether the search for the slots of structure `s` ends.
pub open spec fn structure_slots_end(m: Map<Seq<char>, ArtifactV>, s: StructureV) -> bool {
    exists|f: nat| #[trigger] structure_slots_fuel(m, s, f) is Some
}

pub open spec fn structure_slots_spec(m: Map<Seq<char>, ArtifactV>, s: StructureV) -> Result<
    Seq<(Seq<char>, Seq<char>)>,
    Seq<char>,
> {
    structure_slots_fuel(m, s, choose|f: nat| #[trigger] structure_slots_fuel(m, s, f) is Some)->0
}

pub open spec fn slots_result_view(r: Result<Assoc<SlotName, SlotKind>, GettingSlotOfError>) -> Result<
    Seq<(Seq<char>, Seq<char>)>,
    Seq<char>,
> {
    match r {
        Ok(m) => Ok(slot_map_view(&m)),
        Err(e) => Err(e.0@),
    }
}

proof fn lemma_slot_view_insert(m: &Assoc<SlotName, SlotKind>, k: Seq<char>, v: SlotKind)
    requires
        keys_unique(m.entries()),
    ensures
        insert_entry(m.entries(), k, v).map_values(|p: (Seq<char>, SlotKind)| (p.0, p.1@))
            == insert_entry(slot_map_view(m), k, v@),
        keys_unique(slot_map_view(m)),
{
    let s = m.entries();
    let t = slot_map_view(m);
    assert(keys_unique(t)) by {
        assert forall|i: int, j: int| 0 <= i < t.len() && 0 <= j < t.len() && t[i].0 == t[j].0 implies i
            == j by {
            assert(t[i].0 == s[i].0);
            assert(t[j].0 == s[j].0);
        }
    }
    assert(has_key(s, k) == has_key(t, k)) by {
        if has_key(s, k) {
            let i = key_index(s, k);
            assert(t[i].0 == k);
        }
        if has_key(t, k) {
            let i = key_index(t, k);
            assert(s[i].0 == k);
        }
    }
    if has_key(s, k) {
        let i = key_index(s, k);
        lemma_lookup_at(s, i);
        assert(t[i].0 == k);
        lemma_lookup_at(t, i);
    }
    assert(insert_entry(s, k, v).map_values(|p: (Seq<char>, SlotKind)| (p.0, p.1@)) =~= insert_entry(
        t,
        k,
        v@,
    ));
}

/// Lookups in a structure and in its view agree.
proof fn lemma_structure_lookup(s: &Structure, k: Seq<char>)
    requires
        keys_unique(s.c.entries()),
    ensures
        keys_unique(structure_view(s).c),
        has_key(structure_view(s).c, k) == has_key(s.c.entries(), k),
        has_key(s.c.entries(), k) ==> lookup(structure_view(s).c, k)->0 == connection_view(
            &lookup(s.c.entries(), k)->0,
        ),
{
    lemma_structure_view(s);
    let e = s.c.entries();
    let t = structure_view(s).c;
    assert(keys_unique(t)) by {
        assert forall|i: int, j: int| 0 <= i < t.len() && 0 <= j < t.len() && t[i].0 == t[j].0 implies i
            == j by {
            assert(t[i].0 == e[i].0);
            assert(t[j].0 == e[j].0);
        }
    }
    if has_key(e, k) {
        let i = key_index(e, k);
        lemma_lookup_at(e, i);
        assert(t[i].0 == k);
        lemma_lookup_at(t, i);
    }
    if has_key(t, k) {
        let i = key_index(t, k);
        assert(e[i].0 == k);
    }
}

fn missing_error(aref: &ArtifactReference) -> (r: GettingSlotOfError)
    ensures
        r.0@ == msg_missing(aref@),
{
    let mut e = String::from_str("Could not get artifact ");
    e.append(aref.as_str());
    GettingSlotOfError(e)
}

fn self_reference_error(aref: &ArtifactReference) -> (r: GettingSlotOfError)
    ensures
        r.0@ == msg_self_reference(aref@),
{
    let mut e = String::from_str("Structure ");
    e.append(aref.as_str());
    e.append(" references to itself");
    GettingSlotOfError(e)
}

fn slots_rec<M: Model>(m: &M, aref: &ArtifactReference, Ghost(f): Ghost<nat>) -> (r: Result<
    Assoc<SlotName, SlotKind>,
    GettingSlotOfError,
>)
    requires
        slots_fuel(m.artifacts(), aref@, f) is Some,
    ensures
        slots_result_view(r) == slots_fuel(m.artifacts(), aref@, f)->0,
    decreases f, 0nat,
{
    match m.get_artifact(aref) {
        None => Err(missing_error(aref)),
        Some(Artifact::Block(block)) => Ok(block.slots.copy()),
        Some(Artifact::Structure(structure)) => {
            if aref.key_eq(&structure.a_ref) {
                return Err(self_reference_error(aref));
            }
            structure_slots_rec(m, structure, Ghost((f - 1) as nat))
        },
    }
}

fn structure_slots_rec<M: Model>(m: &M, structure: &Structure, Ghost(f): Ghost<nat>) -> (r: Result<
    Assoc<SlotName, SlotKind>,
    GettingSlotOfError,
>)
    requires
        structure_slots_fuel(m.artifacts(), structure@, f) is Some,
    ensures
        slots_result_view(r) == structure_slots_fuel(m.artifacts(), structure@, f)->0,
    decreases f, 0nat,
{
    let ghost mm = m.artifacts();
    let ghost sv = structure@;
    proof {
        lemma_structure_view(structure);
        use_type_invariant(&structure.c);
    }
    let inner = match slots_rec(m, &structure.a_ref, Ghost((f - 1) as nat)) {
        Ok(inner) => inner,
        Err(e) => {
            return Err(e);
        },
    };
    let ghost iv = slot_map_view(&inner);
    let ghost g = (f - 1) as nat;
    proof {
        use_type_invariant(&inner);
        lemma_slot_map_view(&inner);
    }
    let mut slots: Assoc<SlotName, SlotKind> = Assoc::new();
    assert(slot_map_view(&slots) =~= Seq::<(Seq<char>, Seq<char>)>::empty());
    let n = inner.len();
    let mut i: usize = 0;
    while i < n
        invariant
            n == inner.entries().len(),
            iv == slot_map_view(&inner),
            iv.len() == n,
            forall|j: int| 0 <= j < n ==> #[trigger] iv[j] == (inner.entries()[j].0, inner.entries()[j].1@),
            i <= n,
            mm == m.artifacts(),
            sv == structure@,
            keys_unique(structure.c.entries()),
            g + 1 == f,
            fold_slots(mm, sv, iv, n as nat, g) is Some,
            structure_slots_fuel(mm, sv, f) == fold_slots(mm, sv, iv, n as nat, g),
            fold_slots(mm, sv, iv, i as nat, g) == Some(
                Ok::<Seq<(Seq<char>, Seq<char>)>, Seq<char>>(slot_map_view(&slots)),
            ),
        decreases n - i,
    {
        proof {
            lemma_fold_slots_prefix(mm, sv, iv, (i + 1) as nat, n as nat, g);
            use_type_invariant(&slots);
        }
        let slot_name = inner.key_at(i);
        let slot_kind = inner.value_at(i);
        proof {
            lemma_structure_lookup(structure, slot_name@);
        }
        match structure.c.get(slot_name) {
            Some(Connection::Slot(outer_slot_name)) => {
                proof {
                    lemma_slot_view_insert(&slots, outer_slot_name@, *slot_kind);
                }
                slots.insert(outer_slot_name.key_clone(), slot_kind.key_clone());
            },
            Some(Connection::Structure(child_structure)) => {
                proof {
                    assert(decreases_to!(structure => child_structure)) by {
                        let k = key_index(structure.c.entries(), slot_name@);
                        lemma_lookup_at(structure.c.entries(), k);
                        assert(structure.c.entries()[k].1 == structure.c.entries@[k].1);
                        assert(decreases_to!(structure.c.entries => structure.c.entries@));
                    }
                }
                match structure_slots_rec(m, child_structure, Ghost(g)) {
                    Err(e) => {
                        assert(fold_slots(mm, sv, iv, (i + 1) as nat, g) == Some(
                            Err::<Seq<(Seq<char>, Seq<char>)>, Seq<char>>(e.0@),
                        ));
                        assert(fold_slots(mm, sv, iv, n as nat, g) == Some(
                            Err::<Seq<(Seq<char>, Seq<char>)>, Seq<char>>(e.0@),
                        ));
                        return Err(e);
                    },
                    Ok(child_slots) => {
                        let ghost cv = slot_map_view(&child_slots);
                        let cn = child_slots.len();
                        let mut j: usize = 0;
                        let ghost acc0 = slot_map_view(&slots);
                        proof {
                            lemma_slot_map_view(&child_slots);
                        }
                        while j < cn
                            invariant
                                cn == child_slots.entries().len(),
                                cv == slot_map_view(&child_slots),
                                cv.len() == cn,
                                forall|x: int|
                                    0 <= x < cn ==> #[trigger] cv[x] == (
                                        child_slots.entries()[x].0,
                                        child_slots.entries()[x].1@,
                                    ),
                                j <= cn,
                                slot_map_view(&slots) == insert_all(acc0, cv, j as nat),
                            decreases cn - j,
                        {
                            proof {
                                use_type_invariant(&slots);
                                lemma_slot_view_insert(&slots, cv[j as int].0, child_slots.entries()[j as int].1);
                            }
                            slots.insert(child_slots.key_at(j).key_clone(), child_slots.value_at(j).key_clone());
                            j = j + 1;
                        }
                    },
                }
            },
            None => {},
        }
        i = i + 1;
    }
    Ok(slots)
}


// ---------------------------------------------------------------------------
// Validation
// ---------------------------------------------------------------------------

#[derive(Debug)]
pub enum ArtifactValidationError {
    GettingKindOf(GettingKindOfError),
    GettingSlotOf(GettingSlotOfError),
}

#[derive(Debug)]
pub enum ModelValidationError {
    Artifact(ArtifactReference, ArtifactValidationError),
}

pub enum ValidationErrorV {
    GettingKindOf(KindErrorV),
    GettingSlotOf(Seq<char>),
}

pub open spec fn validation_error_view(e: ArtifactValidationError) -> ValidationErrorV {
    match e {
        ArtifactValidationError::GettingKindOf(k) => ValidationErrorV::GettingKindOf(kind_error_view(k)),
        ArtifactValidationError::GettingSlotOf(s) => ValidationErrorV::GettingSlotOf(s.0@),
    }
}

/// Whether checking artifact `a` ends: its slots are only searched when it
/// has a main slot kind.
pub open spec fn validate_ends(m: Map<Seq<char>, ArtifactV>, a: Seq<char>) -> bool {
    kind_of(m, a, Seq::empty()) is Ok ==> slots_end(m, a)
}

/// Whether checking every artifact of the model ends.
pub open spec fn model_ends(m: Map<Seq<char>, ArtifactV>) -> bool {
    forall|a: Seq<char>| m.contains_key(a) ==> #[trigger] validate_ends(m, a)
}

/// An artifact is valid when it has a main slot kind and its slots can be found.
pub open spec fn validate_spec(m: Map<Seq<char>, ArtifactV>, a: Seq<char>) -> Result<(), ValidationErrorV> {
    match kind_of(m, a, Seq::empty()) {
        Err(e) => Err(ValidationErrorV::GettingKindOf(e)),
        Ok(_) => match slots_spec(m, a) {
            Err(e) => Err(ValidationErrorV::GettingSlotOf(e)),
            Ok(_) => Ok(()),
        },
    }
}

/// A model is valid when all its artifacts are.
pub open spec fn all_valid(m: Map<Seq<char>, ArtifactV>) -> bool {
    forall|a: Seq<char>| m.contains_key(a) ==> #[trigger] validate_spec(m, a) is Ok
}

/// The slots of an artifact, in any model.
pub fn slots_of_artifact<M: Model>(m: &M, aref: &ArtifactReference) -> (r: Result<
    Assoc<SlotName, SlotKind>,
    GettingSlotOfError,
>)
    requires
        slots_end(m.artifacts(), aref@),
    ensures
        slots_result_view(r) == slots_spec(m.artifacts(), aref@),
{
    let ghost f = choose|f: nat| #[trigger] slots_fuel(m.artifacts(), aref@, f) is Some;
    slots_rec(m, aref, Ghost(f))
}

/// Checks that an artifact of any model has a main slot kind and that its
/// slots can be found.
pub fn validate_artifact<M: Model>(m: &M, aref: &ArtifactReference) -> (r: Result<(), ArtifactValidationError>)
    requires
        validate_ends(m.artifacts(), aref@),
    ensures
        match r {
            Ok(()) => validate_spec(m.artifacts(), aref@) is Ok,
            Err(e) => validate_spec(m.artifacts(), aref@) == Err::<(), ValidationErrorV>(
                validation_error_view(e),
            ),
        },
{
    match kind_of_artifact(m, aref) {
        Err(e) => {
            return Err(ArtifactValidationError::GettingKindOf(e));
        },
        Ok(_) => {},
    }
    match slots_of_artifact(m, aref) {
        Err(e) => Err(ArtifactValidationError::GettingSlotOf(e)),
        Ok(_) => Ok(()),
    }
}

/// Checks every artifact of any model; reports the first invalid one in the
/// order of `list_artifacts`.
pub fn validate_all<M: Model>(m: &M) -> (r: Result<(), ModelValidationError>)
    requires
        model_ends(m.artifacts()),
    ensures
        r is Ok == all_valid(m.artifacts()),
        r matches Err(ModelValidationError::Artifact(a, e)) ==> m.artifacts().contains_key(a@)
            && validate_spec(m.artifacts(), a@) == Err::<(), ValidationErrorV>(validation_error_view(e)),
{
    let arefs = m.list_artifacts();
    let n = arefs.len();
    let mut i: usize = 0;
    while i < n
        invariant
            n == arefs@.len(),
            i <= n,
            model_ends(m.artifacts()),
            names(arefs@).to_set() == m.artifacts().dom(),
            forall|j: int| 0 <= j < i ==> validate_spec(m.artifacts(), #[trigger] arefs@[j]@) is Ok,
        decreases n - i,
    {
        assert(names(arefs@)[i as int] == arefs@[i as int]@);
        assert(m.artifacts().contains_key(arefs@[i as int]@));
        match validate_artifact(m, &arefs[i]) {
            Err(e) => {
                return Err(ModelValidationError::Artifact(arefs[i].key_clone(), e));
            },
            Ok(()) => {},
        }
        i = i + 1;
    }
    assert forall|a: Seq<char>| m.artifacts().contains_key(a) implies #[trigger] validate_spec(
        m.artifacts(),
        a,
    ) is Ok by {
        assert(names(arefs@).to_set().contains(a));
        let j = choose|j: int| 0 <= j < names(arefs@).len() && names(arefs@)[j] == a;
        assert(arefs@[j]@ == a);
    }
    Ok(())
}

/// Whether every artifact of any model is valid.
pub fn model_is_valid<M: Model>(m: &M) -> (r: bool)
    requires
        model_ends(m.artifacts()),
    ensures
        r == all_valid(m.artifacts()),
{
    validate_all(m).is_ok()
}


// ---------------------------------------------------------------------------
// Dependencies
// ---------------------------------------------------------------------------

/// The artifacts that a structure is built on, depth first: its own
/// `a_ref`, then those of its sub-structures, the last connection first.
pub open spec fn structure_deps(s: StructureV) -> Seq<Seq<char>>
    decreases s,
{
    seq![s.a_ref] + children_deps(s, s.c.len() as int)
}

pub open spec fn children_deps(s: StructureV, n: int) -> Seq<Seq<char>>
    decreases s, n,
{
    if n <= 0 || n > s.c.len() {
        Seq::empty()
    } else {
        let here = match s.c[n - 1].1 {
            ConnectionV::Structure(ch) => structure_deps(ch),
            ConnectionV::Slot(_) => Seq::empty(),
        };
        here + children_deps(s, n - 1)
    }
}

/// The artifacts that artifact `a` is built on directly (none for a block).
pub open spec fn direct_deps(m: Map<Seq<char>, ArtifactV>, a: Seq<char>) -> Seq<Seq<char>> {
    match m[a] {
        ArtifactV::Structure(s) => structure_deps(s),
        ArtifactV::Block(_) => Seq::empty(),
    }
}

/// Whether artifact `o` of the model is built directly on `a`.
pub open spec fn depends_on(m: Map<Seq<char>, ArtifactV>, o: Seq<char>, a: Seq<char>) -> bool {
    m.contains_key(o) && direct_deps(m, o).contains(a)
}

/// Whether an artifact of the model is built directly on `a`.
pub open spec fn builds_on(m: Map<Seq<char>, ArtifactV>, a: Seq<char>) -> spec_fn(Seq<char>) -> bool {
    |o: Seq<char>| direct_deps(m, o).contains(a)
}

/// The artifacts built directly on `a`.
pub open spec fn dependents_set(m: Map<Seq<char>, ArtifactV>, a: Seq<char>) -> Set<Seq<char>> {
    Set::new(|o: Seq<char>| depends_on(m, o, a))
}

fn structure_deps_rec(s: &Structure, out: &mut Vec<ArtifactReference>)
    ensures
        names(final(out)@) == names(old(out)@) + structure_deps(s@),
    decreases s,
{
    let ghost start = names(out@);
    proof {
        lemma_structure_view(s);
    }
    out.push(s.a_ref.key_clone());
    let n = s.c.len();
    let mut k: usize = n;
    let ghost sv = s@;
    let ghost x: Seq<Seq<char>> = Seq::empty();
    assert(names(out@) =~= start + seq![sv.a_ref] + x);
    while k > 0
        invariant
            n == s.c.entries().len(),
            k <= n,
            sv == s@,
            sv.c.len() == n,
            forall|i: int|
                0 <= i < n ==> #[trigger] sv.c[i] == (s.c.entries()[i].0, connection_view(
                    &s.c.entries()[i].1,
                )),
            names(out@) == start + seq![sv.a_ref] + x,
            x + children_deps(sv, k as int) == children_deps(sv, n as int),
        decreases k,
    {
        let ghost before = x;
        let ghost here = match sv.c[k - 1].1 {
            ConnectionV::Structure(ch) => structure_deps(ch),
            ConnectionV::Slot(_) => Seq::empty(),
        };
        match s.c.value_at(k - 1) {
            Connection::Structure(child) => {
                proof {
                    assert(decreases_to!(s => child)) by {
                        assert(s.c.entries()[k - 1].1 == s.c.entries@[k - 1].1);
                        assert(decreases_to!(s.c.entries => s.c.entries@));
                    }
                }
                let ghost o = names(out@);
                structure_deps_rec(child, out);
                proof {
                    x = before + here;
                }
            },
            Connection::Slot(_) => {
                proof {
                    x = before + here;
                }
                assert(names(out@) =~= start + seq![sv.a_ref] + x);
            },
        }
        assert(x + children_deps(sv, k - 1) =~= before + (here + children_deps(sv, k - 1)));
        k = k - 1;
    }
    assert(x =~= children_deps(sv, n as int));
    assert(names(out@) =~= start + structure_deps(sv));
}

/// The artifacts that an artifact of any model is built on directly.
pub fn direct_dependencies_of<M: Model>(m: &M, aref: &ArtifactReference) -> (r: Vec<ArtifactReference>)
    requires
        m.artifacts().contains_key(aref@),
    ensures
        names(r@) == direct_deps(m.artifacts(), aref@),
{
    let mut out: Vec<ArtifactReference> = Vec::new();
    match m.get_artifact(aref) {
        Some(Artifact::Structure(s)) => {
            structure_deps_rec(s, &mut out);
            assert(names(out@) =~= structure_deps(s@));
        },
        _ => {
            assert(names(out@) =~= Seq::<Seq<char>>::empty());
        },
    }
    out
}

/// The artifacts of `list` that are built directly on `aref`, in the order of `list`.
fn dependents_among<M: Model>(m: &M, list: &Vec<ArtifactReference>, aref: &ArtifactReference) -> (r: Vec<
    ArtifactReference,
>)
    requires
        forall|i: int| 0 <= i < list@.len() ==> m.artifacts().contains_key(#[trigger] list@[i]@),
    ensures
        names(r@) == names(list@).filter(builds_on(m.artifacts(), aref@)),
{
    let ghost pred = builds_on(m.artifacts(), aref@);
    let mut r: Vec<ArtifactReference> = Vec::new();
    let mut i: usize = 0;
    assert(names(list@).take(0) =~= Seq::<Seq<char>>::empty());
    proof {
        reveal(Seq::filter);
    }
    while i < list.len()
        invariant
            i <= list@.len(),
            forall|j: int| 0 <= j < list@.len() ==> m.artifacts().contains_key(#[trigger] list@[j]@),
            pred == builds_on(m.artifacts(), aref@),
            names(r@) == names(list@).take(i as int).filter(pred),
        decreases list@.len() - i,
    {
        let ds = direct_dependencies_of(m, &list[i]);
        let found = refs_contain(&ds, aref);
        assert(names(list@)[i as int] == list@[i as int]@);
        assert(pred(list@[i as int]@) == found);
        let ghost prev = r@;
        if found {
            r.push(list[i].key_clone());
            assert(names(r@) =~= names(prev).push(list@[i as int]@));
        }
        proof {
            assert(names(list@).take(i + 1) =~= names(list@).take(i as int).push(names(list@)[i as int]));
            names(list@).take(i as int).lemma_filter_push(names(list@)[i as int], pred);
        }
        i = i + 1;
    }
    assert(names(list@).take(list@.len() as int) =~= names(list@));
    r
}

proof fn lemma_filter_no_dups<A>(s: Seq<A>, p: spec_fn(A) -> bool)
    requires
        s.no_duplicates(),
    ensures
        s.filter(p).no_duplicates(),
    decreases s.len(),
{
    reveal(Seq::filter);
    if s.len() > 0 {
        let rest = s.drop_last();
        assert(rest.no_duplicates());
        lemma_filter_no_dups(rest, p);
        if p(s.last()) {
            if rest.filter(p).contains(s.last()) {
                rest.lemma_filter_contains_rev(p, s.last());
                let j = choose|j: int| 0 <= j < rest.len() && rest[j] == s.last();
                assert(s[j] == s[s.len() - 1]);
            }
        }
    }
}

/// The artifacts of any model built directly on an artifact.
pub fn direct_dependents_of<M: Model>(m: &M, aref: &ArtifactReference) -> (r: Vec<ArtifactReference>)
    ensures
        names(r@).no_duplicates(),
        names(r@).to_set() == dependents_set(m.artifacts(), aref@),
        exists|l: Seq<ArtifactReference>|
            names(l).to_set() == m.artifacts().dom() && names(r@) == names(l).filter(builds_on(m.artifacts(), aref@)),
{
    let list = m.list_artifacts();
    assert forall|i: int| 0 <= i < list@.len() implies m.artifacts().contains_key(#[trigger] list@[i]@) by {
        assert(names(list@)[i] == list@[i]@);
        assert(names(list@).to_set().contains(list@[i]@));
    }
    let r = dependents_among(m, &list, aref);
    let ghost pred = builds_on(m.artifacts(), aref@);
    proof {
        broadcast use vstd::seq_lib::group_filter_ensures;

        lemma_filter_no_dups(names(list@), pred);
        assert forall|o: Seq<char>| names(r@).to_set().contains(o) == dependents_set(m.artifacts(), aref@).contains(o) by {
            if names(r@).contains(o) {
                names(list@).lemma_filter_contains_rev(pred, o);
                let j = choose|j: int| 0 <= j < names(r@).len() && names(r@)[j] == o;
                names(list@).lemma_filter_pred(pred, j);
                assert(pred(o));
                assert(names(list@).contains(o));
                assert(names(list@).to_set().contains(o));
            }
            if depends_on(m.artifacts(), o, aref@) {
                assert(names(list@).to_set().contains(o));
                let j = choose|j: int| 0 <= j < names(list@).len() && names(list@)[j] == o;
                names(list@).lemma_filter_contains(pred, j);
            }
        }
        assert(names(r@).to_set() =~= dependents_set(m.artifacts(), aref@));
    }
    r
}


// ---------------------------------------------------------------------------
// Ordering and listing names
// ---------------------------------------------------------------------------

/// Lexicographic order of texts, character by character.
pub open spec fn lex_lt(a: Seq<char>, b: Seq<char>) -> bool
    decreases a.len(),
{
    if a.len() == 0 {
        b.len() > 0
    } else if b.len() == 0 {
        false
    } else if a[0] != b[0] {
        a[0] < b[0]
    } else {
        lex_lt(a.drop_first(), b.drop_first())
    }
}

pub proof fn lemma_lex_irreflexive(a: Seq<char>)
    ensures
        !lex_lt(a, a),
    decreases a.len(),
{
    if a.len() > 0 {
        lemma_lex_irreflexive(a.drop_first());
    }
}

pub proof fn lemma_lex_total(a: Seq<char>, b: Seq<char>)
    requires
        a != b,
    ensures
        lex_lt(a, b) || lex_lt(b, a),
    decreases a.len(),
{
    if a.len() > 0 && b.len() > 0 && a[0] == b[0] {
        if a.drop_first() == b.drop_first() {
            assert(a =~= seq![a[0]] + a.drop_first());
            assert(b =~= seq![b[0]] + b.drop_first());
        }
        lemma_lex_total(a.drop_first(), b.drop_first());
    } else if a.len() == 0 && b.len() == 0 {
        assert(a =~= b);
    }
}

pub proof fn lemma_lex_transitive(a: Seq<char>, b: Seq<char>, c: Seq<char>)
    requires
        lex_lt(a, b),
        lex_lt(b, c),
    ensures
        lex_lt(a, c),
    decreases a.len(),
{
    if a.len() > 0 && b.len() > 0 && c.len() > 0 && a[0] == b[0] && b[0] == c[0] {
        lemma_lex_transitive(a.drop_first(), b.drop_first(), c.drop_first());
    }
}

proof fn lemma_lex_skip(a: Seq<char>, b: Seq<char>, i: int)
    requires
        0 <= i <= a.len(),
        i <= b.len(),
        forall|j: int| 0 <= j < i ==> a[j] == b[j],
    ensures
        lex_lt(a, b) == lex_lt(a.skip(i), b.skip(i)),
    decreases i,
{
    if i > 0 {
        lemma_lex_skip(a.drop_first(), b.drop_first(), i - 1);
        assert(a.drop_first().skip(i - 1) =~= a.skip(i));
        assert(b.drop_first().skip(i - 1) =~= b.skip(i));
    } else {
        assert(a.skip(0) =~= a);
        assert(b.skip(0) =~= b);
    }
}

fn text_lt(a: &str, b: &str) -> (r: bool)
    ensures
        r == lex_lt(a@, b@),
{
    let la = a.unicode_len();
    let lb = b.unicode_len();
    let mut i: usize = 0;
    while i < la && i < lb
        invariant
            la == a@.len(),
            lb == b@.len(),
            i <= la,
            i <= lb,
            forall|j: int| 0 <= j < i ==> a@[j] == b@[j],
        decreases la - i,
    {
        let ca = a.get_char(i);
        let cb = b.get_char(i);
        if ca != cb {
            proof {
                lemma_lex_skip(a@, b@, i as int);
                assert(a@.skip(i as int)[0] == ca);
                assert(b@.skip(i as int)[0] == cb);
            }
            return ca < cb;
        }
        i = i + 1;
    }
    proof {
        lemma_lex_skip(a@, b@, i as int);
    }
    i < lb
}

/// Whether a list of texts is in strictly increasing order.
pub open spec fn sorted_names(s: Seq<Seq<char>>) -> bool {
    forall|i: int, j: int| 0 <= i < j < s.len() ==> lex_lt(#[trigger] s[i], #[trigger] s[j])
}

fn sort_refs(v: Vec<ArtifactReference>) -> (r: Vec<ArtifactReference>)
    requires
        names(v@).no_duplicates(),
    ensures
        names(r@).no_duplicates(),
        names(r@).to_set() == names(v@).to_set(),
        sorted_names(names(r@)),
{
    broadcast use vstd::seq_lib::group_to_multiset_ensures;

    let ghost orig = names(v@);
    let mut rem = v;
    let mut res: Vec<ArtifactReference> = Vec::new();
    assert(names(res@) =~= Seq::<Seq<char>>::empty());
    assert(names(rem@) =~= orig);
    while rem.len() > 0
        invariant
            orig.no_duplicates(),
            names(res@).to_multiset().add(names(rem@).to_multiset()) == orig.to_multiset(),
            names(rem@).no_duplicates(),
            sorted_names(names(res@)),
            forall|i: int, j: int|
                0 <= i < res@.len() && 0 <= j < rem@.len() ==> lex_lt(
                    #[trigger] res@[i]@,
                    #[trigger] rem@[j]@,
                ),
        decreases rem@.len(),
    {
        let mut best: usize = 0;
        let mut k: usize = 1;
        while k < rem.len()
            invariant
                1 <= k <= rem@.len(),
                best < k,
                names(rem@).no_duplicates(),
                forall|j: int| 0 <= j < k && j != best ==> lex_lt(rem@[best as int]@, #[trigger] rem@[j]@),
            decreases rem@.len() - k,
        {
            assert(names(rem@)[k as int] == rem@[k as int]@ && names(rem@)[best as int] == rem@[best as int]@);
            if text_lt(rem[k].as_str(), rem[best].as_str()) {
                proof {
                    assert forall|j: int| 0 <= j < k + 1 && j != k implies lex_lt(
                        rem@[k as int]@,
                        #[trigger] rem@[j]@,
                    ) by {
                        if j != best {
                            lemma_lex_transitive(rem@[k as int]@, rem@[best as int]@, rem@[j]@);
                        }
                    }
                }
                best = k;
            } else {
                proof {
                    lemma_lex_total(rem@[k as int]@, rem@[best as int]@);
                }
            }
            k = k + 1;
        }
        let ghost before_rem = rem@;
        let ghost before_res = res@;
        let x = rem.remove(best);
        res.push(x);
        proof {
            assert(names(rem@) =~= names(before_rem).remove(best as int));
            assert(names(res@) =~= names(before_res).push(x@));
            assert(names(before_rem)[best as int] == x@);
            let mr = names(before_rem).to_multiset();
            names(before_rem).to_multiset_ensures();
            names(before_res).to_multiset_ensures();
            assert(names(before_rem).remove(best as int).to_multiset() =~= mr.remove(x@));
            assert(names(before_res).push(x@).to_multiset() =~= names(before_res).to_multiset().insert(x@));
            assert(mr.count(x@) > 0) by {
                assert(names(before_rem).contains(x@));
            }
            assert(mr.remove(x@).insert(x@) =~= mr);
            assert(names(res@).to_multiset().add(names(rem@).to_multiset()) =~= orig.to_multiset());
            assert forall|a: int, b: int| 0 <= a < names(rem@).len() && 0 <= b < names(rem@).len() && a != b implies names(rem@)[a] != names(rem@)[b] by {
                let sa = if a < best { a } else { a + 1 };
                let sb = if b < best { b } else { b + 1 };
                assert(names(rem@)[a] == names(before_rem)[sa]);
                assert(names(rem@)[b] == names(before_rem)[sb]);
            }
            assert forall|i: int, j: int| 0 <= i < j < names(res@).len() implies lex_lt(
                #[trigger] names(res@)[i],
                #[trigger] names(res@)[j],
            ) by {
                if j == names(res@).len() - 1 {
                    assert(res@[i] == before_res[i]);
                    assert(lex_lt(before_res[i]@, before_rem[best as int]@));
                } else {
                    assert(names(res@)[i] == names(before_res)[i]);
                    assert(names(res@)[j] == names(before_res)[j]);
                }
            }
            assert forall|i: int, j: int| 0 <= i < res@.len() && 0 <= j < rem@.len() implies lex_lt(
                #[trigger] res@[i]@,
                #[trigger] rem@[j]@,
            ) by {
                let sj = if j < best { j } else { j + 1 };
                assert(rem@[j] == before_rem[sj]);
                if i == res@.len() - 1 {
                    assert(res@[i] == x);
                } else {
                    assert(res@[i] == before_res[i]);
                }
            }
        }
    }
    proof {
        assert(names(rem@) =~= Seq::<Seq<char>>::empty());
        assert(names(res@).to_multiset() =~= orig.to_multiset());
        orig.lemma_multiset_has_no_duplicates();
        names(res@).lemma_multiset_has_no_duplicates_conv();
        assert forall|n: Seq<char>| names(res@).to_set().contains(n) == orig.to_set().contains(n) by {
            assert(names(res@).contains(n) == (names(res@).to_multiset().count(n) > 0));
            assert(orig.contains(n) == (orig.to_multiset().count(n) > 0));
        }
        assert(names(res@).to_set() =~= orig.to_set());
    }
    res
}

/// Texts joined by commas.
pub open spec fn comma_join(ds: Seq<Seq<char>>) -> Seq<char>
    decreases ds.len(),
{
    if ds.len() == 0 {
        Seq::empty()
    } else if ds.len() == 1 {
        ds[0]
    } else {
        comma_join(ds.drop_last()) + ", "@ + ds.last()
    }
}

/// Texts listed as in "a, b and c".
pub open spec fn and_join(ds: Seq<Seq<char>>) -> Seq<char> {
    if ds.len() <= 1 {
        comma_join(ds)
    } else {
        comma_join(ds.drop_last()) + " and "@ + ds.last()
    }
}

pub(crate) fn comma_join_refs(ds: &Vec<ArtifactReference>, n: usize) -> (r: String)
    requires
        n <= ds@.len(),
    ensures
        r@ == comma_join(names(ds@).take(n as int)),
{
    let mut r = String::new();
    let mut i: usize = 0;
    assert(names(ds@).take(0) =~= Seq::<Seq<char>>::empty());
    while i < n
        invariant
            n <= ds@.len(),
            i <= n,
            r@ == comma_join(names(ds@).take(i as int)),
        decreases n - i,
    {
        assert(names(ds@).take(i + 1).drop_last() =~= names(ds@).take(i as int));
        assert(names(ds@).take(i + 1).last() == ds@[i as int]@);
        if i == 0 {
            r.append(ds[i].as_str());
            assert(r@ =~= comma_join(names(ds@).take(i + 1)));
        } else {
            r.append(", ");
            r.append(ds[i].as_str());
        }
        i = i + 1;
    }
    r
}

fn and_join_refs(ds: &Vec<ArtifactReference>) -> (r: String)
    ensures
        r@ == and_join(names(ds@)),
{
    let n = ds.len();
    if n <= 1 {
        let r = comma_join_refs(ds, n);
        assert(names(ds@).take(n as int) =~= names(ds@));
        r
    } else {
        let mut r = comma_join_refs(ds, n - 1);
        r.append(" and ");
        r.append(ds[n - 1].as_str());
        assert(names(ds@).take(n - 1) =~= names(ds@).drop_last());
        r
    }
}


// ---------------------------------------------------------------------------
// Safe edits
// ---------------------------------------------------------------------------

/// Whether a structure (or one of its sub-structures) built on `a` connects
/// slot `slot` of `a`.
pub open spec fn refs_slot(s: StructureV, a: Seq<char>, slot: Seq<char>) -> bool
    decreases s,
{
    (s.a_ref == a && has_key(s.c, slot)) || children_ref_slot(s, s.c.len() as int, a, slot)
}

pub open spec fn children_ref_slot(s: StructureV, n: int, a: Seq<char>, slot: Seq<char>) -> bool
    decreases s, n,
{
    if n <= 0 || n > s.c.len() {
        false
    } else {
        (match s.c[n - 1].1 {
            ConnectionV::Structure(ch) => refs_slot(ch, a, slot),
            ConnectionV::Slot(_) => false,
        }) || children_ref_slot(s, n - 1, a, slot)
    }
}

/// Whether artifact `o` of the model is a structure that uses slot `slot` of `a`.
pub open spec fn uses_slot(m: Map<Seq<char>, ArtifactV>, o: Seq<char>, a: Seq<char>, slot: Seq<char>) -> bool {
    depends_on(m, o, a) && match m[o] {
        ArtifactV::Structure(s) => refs_slot(s, a, slot),
        ArtifactV::Block(_) => false,
    }
}

/// The structures built directly on `a` that use its slot `slot`.
pub open spec fn slot_users(m: Map<Seq<char>, ArtifactV>, a: Seq<char>, slot: Seq<char>) -> Set<Seq<char>> {
    Set::new(|o: Seq<char>| uses_slot(m, o, a, slot))
}

/// `ds` lists the texts of `set`, each once, in increasing order.
pub open spec fn lists_in_order(ds: Seq<Seq<char>>, set: Set<Seq<char>>) -> bool {
    sorted_names(ds) && ds.no_duplicates() && ds.to_set() == set
}

pub open spec fn msg_remove_invalid() -> Seq<char> {
    "Cannot safely remove an artifact from an invalid model"@
}

pub open spec fn msg_referenced(a: Seq<char>, ds: Seq<Seq<char>>) -> Seq<char> {
    "Cannot safely remove "@ + a + " because is referenced by "@ + and_join(ds)
}

pub open spec fn msg_slot_invalid() -> Seq<char> {
    "Cannot safely remove slot in an invalid model"@
}

pub open spec fn msg_no_artifact(a: Seq<char>) -> Seq<char> {
    "Artifact "@ + a + " does not exist"@
}

pub open spec fn msg_structure_slot() -> Seq<char> {
    "Cannot remove slot of a structure"@
}

pub open spec fn msg_no_slot(a: Seq<char>, slot: Seq<char>) -> Seq<char> {
    "Block "@ + a + " does not have a "@ + seq!['\''] + slot + " slot"@
}

pub open spec fn msg_slot_used(a: Seq<char>, slot: Seq<char>, ds: Seq<Seq<char>>) -> Seq<char> {
    "Cannot remove slot "@ + seq!['\''] + slot + " from "@ + a + " because is used by "@ + and_join(ds)
}

/// A block without one of its slots.
pub open spec fn without_slot(b: BlockV, slot: Seq<char>) -> BlockV {
    BlockV { main_slot_kind: b.main_slot_kind, slots: remove_entry(b.slots, slot) }
}

proof fn lemma_dependent_is_structure(m: Map<Seq<char>, ArtifactV>, o: Seq<char>, a: Seq<char>)
    requires
        depends_on(m, o, a),
    ensures
        m[o] is Structure,
{
}

proof fn lemma_children_ref_slot_mono(s: StructureV, i: int, n: int, a: Seq<char>, slot: Seq<char>)
    requires
        0 <= i <= n <= s.c.len(),
        children_ref_slot(s, i, a, slot),
    ensures
        children_ref_slot(s, n, a, slot),
    decreases n - i,
{
    if i < n {
        lemma_children_ref_slot_mono(s, i, n - 1, a, slot);
    }
}

fn structure_references_slot(
    structure: &Structure,
    referenced_slot_aref: &ArtifactReference,
    referenced_slot_name: &SlotName,
) -> (r: bool)
    ensures
        r == refs_slot(structure@, referenced_slot_aref@, referenced_slot_name@),
    decreases structure,
{
    proof {
        use_type_invariant(&structure.c);
        lemma_structure_view(structure);
        lemma_structure_lookup(structure, referenced_slot_name@);
    }
    if structure.a_ref.key_eq(referenced_slot_aref) && structure.c.contains_key(referenced_slot_name) {
        return true;
    }
    let ghost sv = structure@;
    let n = structure.c.len();
    let mut i: usize = 0;
    while i < n
        invariant
            n == structure.c.entries().len(),
            i <= n,
            sv == structure@,
            sv.c.len() == n,
            forall|j: int|
                0 <= j < n ==> #[trigger] sv.c[j] == (structure.c.entries()[j].0, connection_view(
                    &structure.c.entries()[j].1,
                )),
            !children_ref_slot(sv, i as int, referenced_slot_aref@, referenced_slot_name@),
        decreases n - i,
    {
        match structure.c.value_at(i) {
            Connection::Structure(sub) => {
                proof {
                    assert(decreases_to!(structure => sub)) by {
                        assert(structure.c.entries()[i as int].1 == structure.c.entries@[i as int].1);
                        assert(decreases_to!(structure.c.entries => structure.c.entries@));
                    }
                }
                if structure_references_slot(sub, referenced_slot_aref, referenced_slot_name) {
                    proof {
                        assert(sv.c[i as int].1 == ConnectionV::Structure(sub@));
                        assert(children_ref_slot(sv, i + 1, referenced_slot_aref@, referenced_slot_name@));
                        lemma_children_ref_slot_mono(sv, i + 1, n as int, referenced_slot_aref@, referenced_slot_name@);
                    }
                    return true;
                }
            },
            Connection::Slot(_) => {},
        }
        i = i + 1;
    }
    false
}

fn users_among<M: Model>(m: &M, deps: &Vec<ArtifactReference>, aref: &ArtifactReference, slot: &SlotName) -> (r: Vec<
    ArtifactReference,
>)
    requires
        names(deps@).no_duplicates(),
        names(deps@).to_set() == dependents_set(m.artifacts(), aref@),
    ensures
        names(r@).no_duplicates(),
        names(r@).to_set() == slot_users(m.artifacts(), aref@, slot@),
{
    let mut r: Vec<ArtifactReference> = Vec::new();
    let mut i: usize = 0;
    assert(names(r@) =~= Seq::<Seq<char>>::empty());
    while i < deps.len()
        invariant
            i <= deps@.len(),
            names(deps@).no_duplicates(),
            names(deps@).to_set() == dependents_set(m.artifacts(), aref@),
            names(r@).no_duplicates(),
            forall|o: Seq<char>|
                names(r@).contains(o) <==> (exists|j: int| 0 <= j < i && names(deps@)[j] == o && uses_slot(
                    m.artifacts(),
                    o,
                    aref@,
                    slot@,
                )),
        decreases deps@.len() - i,
    {
        assert(names(deps@)[i as int] == deps@[i as int]@);
        assert(names(deps@).to_set().contains(deps@[i as int]@));
        let ghost o = deps@[i as int]@;
        proof {
            lemma_dependent_is_structure(m.artifacts(), o, aref@);
        }
        let ghost prev = r@;
        match m.get_artifact(&deps[i]) {
            Some(Artifact::Structure(structure)) => {
                if structure_references_slot(structure, aref, slot) {
                    r.push(deps[i].key_clone());
                    proof {
                        assert(names(r@) =~= names(prev).push(o));
                        assert forall|a: int, b: int| 0 <= a < names(r@).len() && 0 <= b < names(r@).len() && a != b implies names(r@)[a] != names(r@)[b] by {
                            if a == names(prev).len() as int || b == names(prev).len() as int {
                                let other = if a == names(prev).len() as int { b } else { a };
                                assert(names(prev).contains(names(r@)[other]));
                                let j = choose|j: int| 0 <= j < i && names(deps@)[j] == names(r@)[other] && uses_slot(m.artifacts(), names(r@)[other], aref@, slot@);
                            }
                        }
                    }
                }
            },
            _ => {},
        }
        proof {
            assert forall|x: Seq<char>| names(r@).contains(x) <==> (exists|j: int| 0 <= j < i + 1 && names(deps@)[j] == x && uses_slot(m.artifacts(), x, aref@, slot@)) by {
                if names(r@).contains(x) && !names(prev).contains(x) {
                    assert(x == o);
                }
                if names(prev).contains(x) {
                    assert(names(r@).contains(x)) by {
                        let k = choose|k: int| 0 <= k < names(prev).len() && names(prev)[k] == x;
                        assert(names(r@)[k] == x);
                    }
                }
                if x == o && uses_slot(m.artifacts(), x, aref@, slot@) {
                    assert(names(r@)[names(r@).len() - 1] == x);
                }
            }
        }
        i = i + 1;
    }
    assert(names(r@).to_set() =~= slot_users(m.artifacts(), aref@, slot@)) by {
        assert forall|x: Seq<char>| names(r@).to_set().contains(x) == slot_users(m.artifacts(), aref@, slot@).contains(x) by {
            if uses_slot(m.artifacts(), x, aref@, slot@) {
                assert(dependents_set(m.artifacts(), aref@).contains(x));
                assert(names(deps@).to_set().contains(x));
                let j = choose|j: int| 0 <= j < names(deps@).len() && names(deps@)[j] == x;
            }
        }
    }
    r
}

/// Removes an artifact from any model, provided that the model is valid and
/// that no artifact is built directly on it.
pub fn remove_artifact_safely<M: Model>(m: &mut M, aref: &ArtifactReference) -> (r: Result<(), String>)
    requires
        model_ends(old(m).artifacts()),
    ensures
        !all_valid(old(m).artifacts()) ==> final(m).artifacts() == old(m).artifacts()
            && r == Err::<(), String>(r->Err_0) && r->Err_0@ == msg_remove_invalid(),
        all_valid(old(m).artifacts()) && dependents_set(old(m).artifacts(), aref@).is_empty()
            ==> r is Ok && final(m).artifacts() == old(m).artifacts().remove(aref@),
        all_valid(old(m).artifacts()) && !dependents_set(old(m).artifacts(), aref@).is_empty()
            ==> final(m).artifacts() == old(m).artifacts() && r is Err && exists|ds: Seq<Seq<char>>|
            lists_in_order(ds, dependents_set(old(m).artifacts(), aref@)) && r->Err_0@
                == msg_referenced(aref@, ds),
{
    if !model_is_valid(m) {
        return Err(String::from_str("Cannot safely remove an artifact from an invalid model"));
    }
    let deps = direct_dependents_of(m, aref);
    if deps.len() == 0 {
        proof {
            assert(names(deps@) =~= Seq::<Seq<char>>::empty());
            assert(dependents_set(m.artifacts(), aref@) =~= Set::<Seq<char>>::empty());
        }
        m.remove_artifact(aref);
        Ok(())
    } else {
        proof {
            assert(names(deps@).to_set().contains(deps@[0]@)) by {
                assert(names(deps@)[0] == deps@[0]@);
            }
        }
        let sorted = sort_refs(deps);
        let mut e = String::from_str("Cannot safely remove ");
        e.append(aref.as_str());
        e.append(" because is referenced by ");
        let joined = and_join_refs(&sorted);
        e.append(joined.as_str());
        assert(lists_in_order(names(sorted@), dependents_set(m.artifacts(), aref@)));
        assert(e@ == msg_referenced(aref@, names(sorted@)));
        Err(e)
    }
}


proof fn lemma_slot_view_remove(m: &Assoc<SlotName, SlotKind>, k: Seq<char>)
    requires
        keys_unique(m.entries()),
    ensures
        remove_entry(m.entries(), k).map_values(|p: (Seq<char>, SlotKind)| (p.0, p.1@))
            == remove_entry(slot_map_view(m), k),
        has_key(m.entries(), k) == has_key(slot_map_view(m), k),
{
    let s = m.entries();
    let t = slot_map_view(m);
    assert(keys_unique(t)) by {
        assert forall|i: int, j: int| 0 <= i < t.len() && 0 <= j < t.len() && t[i].0 == t[j].0 implies i
            == j by {
            assert(t[i].0 == s[i].0);
            assert(t[j].0 == s[j].0);
        }
    }
    assert(has_key(s, k) == has_key(t, k)) by {
        if has_key(s, k) {
            let i = key_index(s, k);
            assert(t[i].0 == k);
        }
        if has_key(t, k) {
            let i = key_index(t, k);
            assert(s[i].0 == k);
        }
    }
    if has_key(s, k) {
        let i = key_index(s, k);
        lemma_lookup_at(s, i);
        assert(t[i].0 == k);
        lemma_lookup_at(t, i);
    }
    assert(remove_entry(s, k).map_values(|p: (Seq<char>, SlotKind)| (p.0, p.1@)) =~= remove_entry(t, k));
}

/// Removes a slot of a block of any model, provided that the model is valid
/// and that no structure connects it.
pub fn remove_block_slot_safely<M: Model>(m: &mut M, aref: &ArtifactReference, slot_name: &SlotName) -> (r: Result<
    (),
    String,
>)
    requires
        model_ends(old(m).artifacts()),
    ensures
        ({
            let am = old(m).artifacts();
            let a = aref@;
            let sl = slot_name@;
            &&& !all_valid(am) ==> final(m).artifacts() == am && r is Err && r->Err_0@ == msg_slot_invalid()
            &&& all_valid(am) && !am.contains_key(a) ==> final(m).artifacts() == am && r is Err
                && r->Err_0@ == msg_no_artifact(a)
            &&& all_valid(am) && am.contains_key(a) && am[a] is Structure ==> final(m).artifacts() == am
                && r is Err && r->Err_0@ == msg_structure_slot()
            &&& all_valid(am) && am.contains_key(a) && am[a] is Block && !slot_users(am, a, sl).is_empty()
                ==> final(m).artifacts() == am && r is Err && exists|ds: Seq<Seq<char>>|
                lists_in_order(ds, slot_users(am, a, sl)) && r->Err_0@ == msg_slot_used(a, sl, ds)
            &&& all_valid(am) && am.contains_key(a) && am[a] is Block && slot_users(am, a, sl).is_empty()
                && has_key(am[a]->Block_0.slots, sl) ==> r is Ok && final(m).artifacts() == am.insert(
                a,
                ArtifactV::Block(without_slot(am[a]->Block_0, sl)),
            )
            &&& all_valid(am) && am.contains_key(a) && am[a] is Block && slot_users(am, a, sl).is_empty()
                && !has_key(am[a]->Block_0.slots, sl) ==> final(m).artifacts() == am && r is Err
                && r->Err_0@ == msg_no_slot(a, sl)
        }),
{
    if !model_is_valid(m) {
        return Err(String::from_str("Cannot safely remove slot in an invalid model"));
    }
    let block = match m.get_artifact(aref) {
        None => {
            let mut e = String::from_str("Artifact ");
            e.append(aref.as_str());
            e.append(" does not exist");
            return Err(e);
        },
        Some(Artifact::Structure(_)) => {
            return Err(String::from_str("Cannot remove slot of a structure"));
        },
        Some(Artifact::Block(block)) => copy_block(block),
    };
    let deps = direct_dependents_of(m, aref);
    let users = users_among(m, &deps, aref, slot_name);
    if users.len() == 0 {
        proof {
            assert(names(users@) =~= Seq::<Seq<char>>::empty());
            assert(slot_users(m.artifacts(), aref@, slot_name@) =~= Set::<Seq<char>>::empty());
        }
        let mut block = block;
        proof {
            use_type_invariant(&block.slots);
            lemma_slot_view_remove(&block.slots, slot_name@);
        }
        match block.slots.remove(slot_name) {
            Some(_slot_kind) => {
                let ghost nb = block@;
                assert(nb == without_slot(old(m).artifacts()[aref@]->Block_0, slot_name@));
                m.set_artifact(aref.key_clone(), Artifact::Block(block));
                Ok(())
            },
            None => {
                let mut e = String::from_str("Block ");
                e.append(aref.as_str());
                e.append(" does not have a ");
                let d = slot_name.display();
                e.append(d.as_str());
                e.append(" slot");
                Err(e)
            },
        }
    } else {
        proof {
            assert(names(users@).to_set().contains(users@[0]@)) by {
                assert(names(users@)[0] == users@[0]@);
            }
        }
        let sorted = sort_refs(users);
        let mut e = String::from_str("Cannot remove slot ");
        let d = slot_name.display();
        e.append(d.as_str());
        e.append(" from ");
        e.append(aref.as_str());
        e.append(" because is used by ");
        let joined = and_join_refs(&sorted);
        e.append(joined.as_str());
        assert(lists_in_order(names(sorted@), slot_users(m.artifacts(), aref@, slot_name@)));
        assert(e@ =~= msg_slot_used(aref@, slot_name@, names(sorted@)));
        Err(e)
    }
}


// ---------------------------------------------------------------------------
// Renaming slots
// ---------------------------------------------------------------------------

/// A path to a sub-structure; the empty path is the structure itself.
pub struct Location(pub Vec<SlotName>);

proof fn lemma_map_entries_insert<V, W>(s: Seq<(Seq<char>, V)>, f: spec_fn(V) -> W, k: Seq<char>, v: V)
    requires
        keys_unique(s),
    ensures
        insert_entry(s, k, v).map_values(|p: (Seq<char>, V)| (p.0, f(p.1))) == insert_entry(
            s.map_values(|p: (Seq<char>, V)| (p.0, f(p.1))),
            k,
            f(v),
        ),
        keys_unique(s.map_values(|p: (Seq<char>, V)| (p.0, f(p.1)))),
{
    let t = s.map_values(|p: (Seq<char>, V)| (p.0, f(p.1)));
    assert(keys_unique(t)) by {
        assert forall|i: int, j: int| 0 <= i < t.len() && 0 <= j < t.len() && t[i].0 == t[j].0 implies i
            == j by {
            assert(t[i].0 == s[i].0);
            assert(t[j].0 == s[j].0);
        }
    }
    assert(has_key(s, k) == has_key(t, k)) by {
        if has_key(s, k) {
            let i = key_index(s, k);
            assert(t[i].0 == k);
        }
        if has_key(t, k) {
            let i = key_index(t, k);
            assert(s[i].0 == k);
        }
    }
    if has_key(s, k) {
        let i = key_index(s, k);
        lemma_lookup_at(s, i);
        assert(t[i].0 == k);
        lemma_lookup_at(t, i);
    }
    assert(insert_entry(s, k, v).map_values(|p: (Seq<char>, V)| (p.0, f(p.1))) =~= insert_entry(t, k, f(v)));
}

proof fn lemma_map_entries_remove<V, W>(s: Seq<(Seq<char>, V)>, f: spec_fn(V) -> W, k: Seq<char>)
    requires
        keys_unique(s),
    ensures
        remove_entry(s, k).map_values(|p: (Seq<char>, V)| (p.0, f(p.1))) == remove_entry(
            s.map_values(|p: (Seq<char>, V)| (p.0, f(p.1))),
            k,
        ),
        has_key(s, k) == has_key(s.map_values(|p: (Seq<char>, V)| (p.0, f(p.1))), k),
        has_key(s, k) ==> lookup(s.map_values(|p: (Seq<char>, V)| (p.0, f(p.1))), k) == Some(
            f(lookup(s, k)->0),
        ),
{
    let t = s.map_values(|p: (Seq<char>, V)| (p.0, f(p.1)));
    assert(keys_unique(t)) by {
        assert forall|i: int, j: int| 0 <= i < t.len() && 0 <= j < t.len() && t[i].0 == t[j].0 implies i
            == j by {
            assert(t[i].0 == s[i].0);
            assert(t[j].0 == s[j].0);
        }
    }
    assert(has_key(s, k) == has_key(t, k)) by {
        if has_key(s, k) {
            let i = key_index(s, k);
            assert(t[i].0 == k);
        }
        if has_key(t, k) {
            let i = key_index(t, k);
            assert(s[i].0 == k);
        }
    }
    if has_key(s, k) {
        let i = key_index(s, k);
        lemma_lookup_at(s, i);
        assert(t[i].0 == k);
        lemma_lookup_at(t, i);
    }
    assert(remove_entry(s, k).map_values(|p: (Seq<char>, V)| (p.0, f(p.1))) =~= remove_entry(t, k));
}

/// The view of a structure's connections, entry by entry.
proof fn lemma_structure_view_entries(s: &Structure)
    ensures
        structure_view(s).c == s.c.entries().map_values(
            |p: (Seq<char>, Connection)| (p.0, connection_view(&p.1)),
        ),
{
    lemma_structure_view(s);
    assert(structure_view(s).c =~= s.c.entries().map_values(
        |p: (Seq<char>, Connection)| (p.0, connection_view(&p.1)),
    ));
}

/// Whether renaming slot `old` of `a` can reach every part of `s`: each
/// sub-structure built on `a` connects `old`.
pub open spec fn rename_ok(s: StructureV, a: Seq<char>, old: Seq<char>) -> bool
    decreases s,
{
    (s.a_ref == a ==> has_key(s.c, old)) && children_rename_ok(s, s.c.len() as int, a, old)
}

pub open spec fn children_rename_ok(s: StructureV, n: int, a: Seq<char>, old: Seq<char>) -> bool
    decreases s, n,
{
    if n <= 0 || n > s.c.len() {
        true
    } else {
        (match s.c[n - 1].1 {
            ConnectionV::Structure(ch) => rename_ok(ch, a, old),
            ConnectionV::Slot(_) => true,
        }) && children_rename_ok(s, n - 1, a, old)
    }
}

/// A structure after renaming slot `old` of `a` to `new` wherever it is
/// connected: in every part built on `a`, the connection of `old` moves to `new`.
pub open spec fn rename_in(s: StructureV, a: Seq<char>, old: Seq<char>, new: Seq<char>) -> StructureV
    decreases s,
{
    let c2 = rename_children(s, s.c.len() as int, a, old, new);
    StructureV {
        a_ref: s.a_ref,
        c: if s.a_ref == a {
            insert_entry(remove_entry(c2, old), new, lookup(c2, old)->0)
        } else {
            c2
        },
    }
}

pub open spec fn rename_children(s: StructureV, n: int, a: Seq<char>, old: Seq<char>, new: Seq<char>) -> Seq<
    (Seq<char>, ConnectionV),
>
    decreases s, n,
{
    if n <= 0 || n > s.c.len() {
        Seq::empty()
    } else {
        let here = match s.c[n - 1].1 {
            ConnectionV::Structure(ch) => ConnectionV::Structure(rename_in(ch, a, old, new)),
            ConnectionV::Slot(x) => ConnectionV::Slot(x),
        };
        rename_children(s, n - 1, a, old, new).push((s.c[n - 1].0, here))
    }
}

pub proof fn lemma_rename_children(s: StructureV, n: int, a: Seq<char>, old: Seq<char>, new: Seq<char>)
    requires
        0 <= n <= s.c.len(),
    ensures
        rename_children(s, n, a, old, new).len() == n,
        forall|i: int|
            0 <= i < n ==> #[trigger] rename_children(s, n, a, old, new)[i] == (s.c[i].0, match s.c[i].1 {
                ConnectionV::Structure(ch) => ConnectionV::Structure(rename_in(ch, a, old, new)),
                ConnectionV::Slot(x) => ConnectionV::Slot(x),
            }),
    decreases n,
{
    if n > 0 {
        lemma_rename_children(s, n - 1, a, old, new);
    }
}

pub proof fn lemma_children_rename_ok(s: StructureV, n: int, i: int, a: Seq<char>, old: Seq<char>)
    requires
        0 <= i < n <= s.c.len(),
        children_rename_ok(s, n, a, old),
    ensures
        match s.c[i].1 {
            ConnectionV::Structure(ch) => rename_ok(ch, a, old),
            ConnectionV::Slot(_) => true,
        },
    decreases n,
{
    if i < n - 1 {
        lemma_children_rename_ok(s, n - 1, i, a, old);
    }
}

pub open spec fn conn_view_fn() -> spec_fn(Connection) -> ConnectionV {
    |c: Connection| connection_view(&c)
}

pub open spec fn conn_entries_view(s: Seq<(Seq<char>, Connection)>) -> Seq<(Seq<char>, ConnectionV)> {
    s.map_values(|p: (Seq<char>, Connection)| (p.0, conn_view_fn()(p.1)))
}

impl Structure {
    /// Takes out the connection of a slot.
    fn disconnect(&mut self, _target: Location, slot_name: &SlotName) -> (r: Connection)
        requires
            has_key(old(self).c.entries(), slot_name@),
        ensures
            final(self).a_ref == old(self).a_ref,
            final(self).c.entries() == remove_entry(old(self).c.entries(), slot_name@),
            r == lookup(old(self).c.entries(), slot_name@)->0,
    {
        self.c.remove(slot_name).unwrap()
    }

    /// Connects a slot (replacing what it was connected to).
    fn connect(&mut self, _target: Location, slot_name: &SlotName, connection: Connection)
        ensures
            final(self).a_ref == old(self).a_ref,
            final(self).c.entries() == insert_entry(old(self).c.entries(), slot_name@, connection),
    {
        self.c.insert(slot_name.key_clone(), connection);
    }
}

fn rename_structure(
    structure: Structure,
    aref: &ArtifactReference,
    old_slot_name: &SlotName,
    new_slot_name: &SlotName,
    Ghost(measure): Ghost<StructureV>,
) -> (r: Structure)
    requires
        rename_ok(structure@, aref@, old_slot_name@),
        measure == structure@,
    ensures
        r@ == rename_in(structure@, aref@, old_slot_name@, new_slot_name@),
    decreases measure,
{
    let ghost st = structure;
    let ghost sv = structure@;
    let ghost cv = structure.c.entries@;
    proof {
        lemma_structure_view(&structure);
        use_type_invariant(&structure.c);
        lemma_rename_children(sv, sv.c.len() as int, aref@, old_slot_name@, new_slot_name@);
    }
    let Structure { a_ref, c } = structure;
    let mut rest = c.into_entries();
    let n = rest.len();
    let ghost rc = rename_children(sv, n as int, aref@, old_slot_name@, new_slot_name@);
    let mut back: Vec<(SlotName, Connection)> = Vec::new();
    while rest.len() > 0
        invariant
            rest@.len() + back@.len() == n,
            n == cv.len(),
            forall|j: int| 0 <= j < rest@.len() ==> #[trigger] rest@[j] == cv[j],
            forall|j: int| 0 <= j < back@.len() ==> #[trigger] back@[j] == cv[n - 1 - j],
        decreases rest@.len(),
    {
        let e = rest.pop().unwrap();
        back.push(e);
    }
    let mut v: Vec<(SlotName, Connection)> = Vec::new();
    let mut i: usize = 0;
    while back.len() > 0
        invariant
            back@.len() + i == n,
            n == cv.len(),
            n == sv.c.len(),
            cv == st.c.entries@,
            sv == st@,
            forall|j: int| 0 <= j < back@.len() ==> #[trigger] back@[j] == cv[n - 1 - j],
            v@.len() == i,
            forall|j: int|
                0 <= j < i ==> #[trigger] v@[j].0@ == rc[j].0 && connection_view(&v@[j].1) == rc[j].1,
            forall|j: int| 0 <= j < n ==> #[trigger] sv.c[j] == (cv[j].0@, connection_view(&cv[j].1)),
            rc.len() == n,
            forall|j: int|
                0 <= j < n ==> #[trigger] rc[j] == (sv.c[j].0, match sv.c[j].1 {
                    ConnectionV::Structure(ch) => ConnectionV::Structure(
                        rename_in(ch, aref@, old_slot_name@, new_slot_name@),
                    ),
                    ConnectionV::Slot(x) => ConnectionV::Slot(x),
                }),
            children_rename_ok(sv, n as int, aref@, old_slot_name@),
            measure == sv,
        decreases back@.len(),
    {
        let (k, conn) = back.pop().unwrap();
        assert((k, conn) == cv[i as int]);
        proof {
            lemma_children_rename_ok(sv, n as int, i as int, aref@, old_slot_name@);
        }
        let conn2 = match conn {
            Connection::Structure(sub) => {
                proof {
                    assert(sv.c[i as int].1 == ConnectionV::Structure(sub@));
                    assert(decreases_to!(sv => sub@));
                }
                Connection::Structure(rename_structure(sub, aref, old_slot_name, new_slot_name, Ghost(sub@)))
            },
            Connection::Slot(x) => Connection::Slot(x),
        };
        v.push((k, conn2));
        i = i + 1;
    }
    let ghost ve = v@.map_values(|p: (SlotName, Connection)| (p.0@, p.1));
    assert(conn_entries_view(ve) =~= rc);
    assert(keys_unique(ve)) by {
        assert forall|x: int, y: int| 0 <= x < ve.len() && 0 <= y < ve.len() && ve[x].0 == ve[y].0 implies x
            == y by {
            assert(ve[x].0 == cv[x].0@);
            assert(ve[y].0 == cv[y].0@);
            assert(st.c.entries()[x].0 == cv[x].0@);
            assert(st.c.entries()[y].0 == cv[y].0@);
        }
    }
    let c2 = Assoc::from_entries(v);
    let mut out = Structure { a_ref, c: c2 };
    proof {
        lemma_structure_view_entries(&out);
        assert(structure_view(&out).c =~= conn_entries_view(out.c.entries()));
    }
    if out.a_ref.key_eq(aref) {
        let ghost e0 = out.c.entries();
        proof {
            lemma_map_entries_remove(e0, conn_view_fn(), old_slot_name@);
            assert(has_key(sv.c, old_slot_name@));
            let ki = key_index(sv.c, old_slot_name@);
            assert(rc[ki].0 == old_slot_name@);
            assert(conn_entries_view(e0)[ki].0 == e0[ki].0);
        }
        proof {
            lemma_lookup_at(e0, key_index(e0, old_slot_name@));
        }
        let moved = out.disconnect(Location(Vec::new()), old_slot_name);
        let ghost e1 = out.c.entries();
        proof {
            lemma_remove_entry(e0, old_slot_name@);
            lemma_map_entries_insert(e1, conn_view_fn(), new_slot_name@, moved);
        }
        out.connect(Location(Vec::new()), new_slot_name, moved);
        proof {
            lemma_structure_view_entries(&out);
            assert(structure_view(&out).c =~= conn_entries_view(out.c.entries()));
        }
    }
    out
}


/// A block whose slot `old` is renamed `new`.
pub open spec fn renamed_block(b: BlockV, old: Seq<char>, new: Seq<char>) -> BlockV {
    BlockV {
        main_slot_kind: b.main_slot_kind,
        slots: insert_entry(remove_entry(b.slots, old), new, lookup(b.slots, old)->0),
    }
}

/// The model with every structure built directly on `a` renamed.
pub open spec fn rename_dependents(m: Map<Seq<char>, ArtifactV>, a: Seq<char>, old: Seq<char>, new: Seq<char>) -> Map<
    Seq<char>,
    ArtifactV,
> {
    Map::new(
        |o: Seq<char>| m.contains_key(o),
        |o: Seq<char>|
            if depends_on(m, o, a) {
                ArtifactV::Structure(rename_in(m[o]->Structure_0, a, old, new))
            } else {
                m[o]
            },
    )
}

/// The model after renaming slot `old` of block `a` to `new`, in the block
/// and in every structure built directly on it.
pub open spec fn rename_model(m: Map<Seq<char>, ArtifactV>, a: Seq<char>, old: Seq<char>, new: Seq<char>) -> Map<
    Seq<char>,
    ArtifactV,
> {
    rename_dependents(m.insert(a, ArtifactV::Block(renamed_block(m[a]->Block_0, old, new))), a, old, new)
}

/// What renaming needs: `a`, where present, is a block, and where the rename
/// goes ahead every structure built directly on `a` connects `old` wherever it uses `a`.
pub open spec fn rename_allowed(m: Map<Seq<char>, ArtifactV>, a: Seq<char>, old: Seq<char>, new: Seq<char>) -> bool {
    m.contains_key(a) ==> {
        &&& m[a] is Block
        &&& (has_key(m[a]->Block_0.slots, old) && !has_key(m[a]->Block_0.slots, new)) ==> forall|o: Seq<char>|
            #[trigger] depends_on(m, o, a) ==> rename_ok(m[o]->Structure_0, a, old)
    }
}

pub open spec fn msg_rename_no_artifact(a: Seq<char>) -> Seq<char> {
    "Artifact "@ + a + " does not exists "@
}

pub open spec fn msg_rename_taken(a: Seq<char>, new: Seq<char>) -> Seq<char> {
    "Artifact "@ + a + " already has a slot named "@ + seq!['\''] + new
}

pub open spec fn msg_rename_no_slot(a: Seq<char>, old: Seq<char>) -> Seq<char> {
    "Slot "@ + seq!['\''] + old + " does not exists in "@ + a
}

/// Renames a slot of a block of any model, with the connections of that slot
/// in the structures built on the block.
pub fn rename_slot_in_model<M: Model>(
    m: &mut M,
    aref: &ArtifactReference,
    old_slot_name: &SlotName,
    new_slot_name: SlotName,
) -> (r: Result<(), String>)
    requires
        rename_allowed(old(m).artifacts(), aref@, old_slot_name@, new_slot_name@),
    ensures
        ({
            let am = old(m).artifacts();
            let a = aref@;
            let o = old_slot_name@;
            let n = new_slot_name@;
            &&& !am.contains_key(a) ==> final(m).artifacts() == am && r is Err && r->Err_0@
                == msg_rename_no_artifact(a)
            &&& am.contains_key(a) && !has_key(am[a]->Block_0.slots, o) ==> final(m).artifacts() == am
                && r is Err && r->Err_0@ == msg_rename_no_slot(a, o)
            &&& am.contains_key(a) && has_key(am[a]->Block_0.slots, o) && has_key(am[a]->Block_0.slots, n)
                ==> final(m).artifacts() == am && r is Err && r->Err_0@ == msg_rename_taken(a, n)
            &&& am.contains_key(a) && has_key(am[a]->Block_0.slots, o) && !has_key(am[a]->Block_0.slots, n)
                ==> r is Ok && final(m).artifacts() == rename_model(am, a, o, n)
        }),
{
    let ghost am = m.artifacts();
    let mut block = match m.get_artifact(aref) {
        None => {
            let mut e = String::from_str("Artifact ");
            e.append(aref.as_str());
            e.append(" does not exists ");
            return Err(e);
        },
        Some(Artifact::Block(block)) => copy_block(block),
        Some(Artifact::Structure(_)) => {
            assert(false);
            return Ok(());
        },
    };
    proof {
        use_type_invariant(&block.slots);
        lemma_slot_view_remove(&block.slots, old_slot_name@);
    }
    assert(am[aref@]->Block_0.slots == slot_map_view(&block.slots));
    let slot_kind = match block.slots.get(old_slot_name) {
        Some(k) => k.key_clone(),
        None => {
            let mut e = String::from_str("Slot ");
            let d = old_slot_name.display();
            e.append(d.as_str());
            e.append(" does not exists in ");
            e.append(aref.as_str());
            assert(e@ =~= msg_rename_no_slot(aref@, old_slot_name@));
            return Err(e);
        },
    };
    proof {
        lemma_slot_view_insert(&block.slots, new_slot_name@, slot_kind);
        lemma_slot_view_remove(&block.slots, new_slot_name@);
    }
    if block.slots.contains_key(&new_slot_name) {
        let mut e = String::from_str("Artifact ");
        e.append(aref.as_str());
        e.append(" already has a slot named ");
        let d = new_slot_name.display();
        e.append(d.as_str());
        assert(e@ =~= msg_rename_taken(aref@, new_slot_name@));
        return Err(e);
    }
    let ghost b0 = block@;
    proof {
        let i = key_index(block.slots.entries(), old_slot_name@);
        lemma_lookup_at(block.slots.entries(), i);
        assert(slot_map_view(&block.slots)[i] == (old_slot_name@, slot_kind@));
        lemma_lookup_at(slot_map_view(&block.slots), i);
    }
    block.slots.remove(old_slot_name);
    proof {
        use_type_invariant(&block.slots);
        lemma_slot_view_insert(&block.slots, new_slot_name@, slot_kind);
    }
    block.slots.insert(new_slot_name.key_clone(), slot_kind);
    assert(block@ == renamed_block(b0, old_slot_name@, new_slot_name@));
    let ghost b1 = block@;
    let ghost pre_set = m.artifacts();
    assert(pre_set == am);
    m.set_artifact(aref.key_clone(), Artifact::Block(block));
    let ghost m1 = m.artifacts();
    assert(m1 == am.insert(aref@, ArtifactV::Block(b1)));
    proof {
        assert forall|o: Seq<char>| depends_on(m1, o, aref@) == depends_on(am, o, aref@) by {
            if o == aref@ {
                assert(direct_deps(m1, o) =~= Seq::<Seq<char>>::empty());
                assert(direct_deps(am, o) =~= Seq::<Seq<char>>::empty());
            }
        }
    }
    let deps = direct_dependents_of(m, aref);
    let mut i: usize = 0;
    while i < deps.len()
        invariant
            i <= deps@.len(),
            names(deps@).no_duplicates(),
            names(deps@).to_set() == dependents_set(m1, aref@),
            forall|o: Seq<char>| depends_on(m1, o, aref@) == depends_on(am, o, aref@),
            rename_allowed(am, aref@, old_slot_name@, new_slot_name@),
            am.contains_key(aref@),
            has_key(am[aref@]->Block_0.slots, old_slot_name@),
            !has_key(am[aref@]->Block_0.slots, new_slot_name@),
            m.artifacts().dom() == m1.dom(),
            m1 == am.insert(aref@, ArtifactV::Block(b1)),
            forall|o: Seq<char>|
                #[trigger] m.artifacts().contains_key(o) ==> m.artifacts()[o] == if names(deps@).take(
                    i as int,
                ).contains(o) {
                    ArtifactV::Structure(rename_in(m1[o]->Structure_0, aref@, old_slot_name@, new_slot_name@))
                } else {
                    m1[o]
                },
        decreases deps@.len() - i,
    {
        let ghost d = deps@[i as int]@;
        proof {
            assert(names(deps@)[i as int] == d);
            assert(names(deps@).to_set().contains(d));
            assert(depends_on(m1, d, aref@));
            lemma_dependent_is_structure(m1, d, aref@);
            assert(depends_on(am, d, aref@));
            assert(d != aref@);
            assert(m1[d] == am[d]);
            assert(!names(deps@).take(i as int).contains(d)) by {
                if names(deps@).take(i as int).contains(d) {
                    let j = choose|j: int| 0 <= j < i && names(deps@).take(i as int)[j] == d;
                    assert(names(deps@)[j] == d);
                }
            }
        }
        let structure = match m.get_artifact(&deps[i]) {
            Some(Artifact::Structure(s)) => copy_structure(s),
            _ => {
                assert(false);
                return Ok(());
            },
        };
        let renamed = rename_structure(
            structure,
            aref,
            old_slot_name,
            &new_slot_name,
            Ghost(m1[d]->Structure_0),
        );
        let ghost before = m.artifacts();
        m.set_artifact(deps[i].key_clone(), Artifact::Structure(renamed));
        proof {
            assert(names(deps@).take(i + 1) =~= names(deps@).take(i as int).push(d));
            assert forall|o: Seq<char>| #[trigger] m.artifacts().contains_key(o) implies m.artifacts()[o]
                == if names(deps@).take(i + 1).contains(o) {
                ArtifactV::Structure(rename_in(m1[o]->Structure_0, aref@, old_slot_name@, new_slot_name@))
            } else {
                m1[o]
            } by {
                if o != d {
                    assert(names(deps@).take(i + 1).contains(o) == names(deps@).take(i as int).contains(o));
                } else {
                    assert(names(deps@).take(i + 1)[i as int] == d);
                }
            }
            assert(m.artifacts().dom() =~= m1.dom());
        }
        i = i + 1;
    }
    proof {
        assert(names(deps@).take(deps@.len() as int) =~= names(deps@));
        assert forall|o: Seq<char>| #[trigger] names(deps@).contains(o) == depends_on(m1, o, aref@) by {
            assert(names(deps@).to_set().contains(o) == dependents_set(m1, aref@).contains(o));
        }
        assert(m.artifacts() =~= rename_model(am, aref@, old_slot_name@, new_slot_name@));
    }
    Ok(())
}


// ---------------------------------------------------------------------------
// Transitive dependencies and dependents
// ---------------------------------------------------------------------------

/// A list without adjacent repetitions: of each run of equal texts, the first stays.
pub open spec fn dedup(s: Seq<Seq<char>>) -> Seq<Seq<char>>
    decreases s.len(),
{
    if s.len() <= 1 {
        s
    } else {
        let d = dedup(s.drop_last());
        if s.last() == s[s.len() - 2] {
            d
        } else {
            d.push(s.last())
        }
    }
}

pub proof fn lemma_dedup_to_set(s: Seq<Seq<char>>)
    ensures
        dedup(s).to_set() == s.to_set(),
    decreases s.len(),
{
    if s.len() > 1 {
        let p = s.drop_last();
        lemma_dedup_to_set(p);
        let d = dedup(p);
        assert(forall|x: Seq<char>| d.contains(x) == p.contains(x)) by {
            assert forall|x: Seq<char>| d.contains(x) == p.contains(x) by {
                assert(d.to_set().contains(x) == p.to_set().contains(x));
            }
        }
        assert forall|x: Seq<char>| s.contains(x) == (p.contains(x) || x == s.last()) by {
            if s.contains(x) {
                let j = choose|j: int| 0 <= j < s.len() && s[j] == x;
                if j < s.len() - 1 {
                    assert(p[j] == x);
                }
            }
            if p.contains(x) {
                let j = choose|j: int| 0 <= j < p.len() && p[j] == x;
                assert(s[j] == x);
            }
            if x == s.last() {
                assert(s[s.len() - 1] == x);
            }
        }
        if s.last() == s[s.len() - 2] {
            assert(dedup(s) == d);
            assert(p[s.len() - 2] == s.last());
            assert(p.contains(s.last()));
        } else {
            assert(dedup(s) == d.push(s.last()));
            assert forall|x: Seq<char>| d.push(s.last()).contains(x) == (d.contains(x) || x == s.last()) by {
                if d.push(s.last()).contains(x) {
                    let j = choose|j: int| 0 <= j < d.len() + 1 && d.push(s.last())[j] == x;
                    if j < d.len() {
                        assert(d[j] == x);
                    }
                }
                if d.contains(x) {
                    let j = choose|j: int| 0 <= j < d.len() && d[j] == x;
                    assert(d.push(s.last())[j] == x);
                }
                if x == s.last() {
                    assert(d.push(s.last())[d.len() as int] == x);
                }
            }
        }
        assert(dedup(s).to_set() =~= s.to_set());
    }
}

/// All artifacts that `a` is built on, directly or not, when `f` nested steps
/// suffice (`None` otherwise, or when some artifact on the way is missing).
pub open spec fn deps_fuel(m: Map<Seq<char>, ArtifactV>, a: Seq<char>, f: nat) -> Option<Seq<Seq<char>>>
    decreases f, 0nat,
{
    if f == 0 || !m.contains_key(a) {
        None
    } else {
        let ds = direct_deps(m, a);
        match deps_concat(m, ds, ds.len(), (f - 1) as nat) {
            Some(t) => Some(dedup(ds + t)),
            None => None,
        }
    }
}

/// The dependencies of the first `n` artifacts of `ds`, one after the other.
pub open spec fn deps_concat(m: Map<Seq<char>, ArtifactV>, ds: Seq<Seq<char>>, n: nat, f: nat) -> Option<
    Seq<Seq<char>>,
>
    decreases f, n,
{
    if n == 0 || n > ds.len() {
        Some(Seq::empty())
    } else {
        match deps_concat(m, ds, (n - 1) as nat, f) {
            Some(x) => match deps_fuel(m, ds[n - 1], f) {
                Some(y) => Some(x + y),
                None => None,
            },
            None => None,
        }
    }
}

proof fn lemma_deps_concat_prefix(m: Map<Seq<char>, ArtifactV>, ds: Seq<Seq<char>>, i: nat, n: nat, f: nat)
    requires
        i <= n <= ds.len(),
        deps_concat(m, ds, n, f) is Some,
    ensures
        deps_concat(m, ds, i, f) is Some,
        i < n ==> deps_fuel(m, ds[i as int], f) is Some,
    decreases n - i,
{
    if i < n {
        lemma_deps_concat_prefix(m, ds, i + 1, n, f);
    }
}

pub open spec fn deps_end(m: Map<Seq<char>, ArtifactV>, a: Seq<char>) -> bool {
    exists|f: nat| #[trigger] deps_fuel(m, a, f) is Some
}

pub open spec fn deps_spec(m: Map<Seq<char>, ArtifactV>, a: Seq<char>) -> Seq<Seq<char>> {
    deps_fuel(m, a, choose|f: nat| #[trigger] deps_fuel(m, a, f) is Some)->0
}

fn dedup_refs(v: Vec<ArtifactReference>) -> (r: Vec<ArtifactReference>)
    ensures
        names(r@) == dedup(names(v@)),
{
    let mut r: Vec<ArtifactReference> = Vec::new();
    let mut i: usize = 0;
    assert(names(v@).take(0) =~= Seq::<Seq<char>>::empty());
    while i < v.len()
        invariant
            i <= v@.len(),
            names(r@) == dedup(names(v@).take(i as int)),
        decreases v@.len() - i,
    {
        let ghost t = names(v@).take(i + 1);
        assert(t.drop_last() =~= names(v@).take(i as int));
        assert(t.last() == v@[i as int]@);
        if i > 0 {
            assert(t[t.len() - 2] == v@[i - 1]@);
        }
        if i == 0 || !v[i].key_eq(&v[i - 1]) {
            let ghost prev = r@;
            r.push(v[i].key_clone());
            assert(names(r@) =~= names(prev).push(v@[i as int]@));
        }
        i = i + 1;
    }
    assert(names(v@).take(v@.len() as int) =~= names(v@));
    r
}

fn append_refs(v: &mut Vec<ArtifactReference>, w: Vec<ArtifactReference>)
    ensures
        names(final(v)@) == names(old(v)@) + names(w@),
{
    let mut w = w;
    let ghost start = names(v@);
    let ghost wn = names(w@);
    v.append(&mut w);
    assert(names(v@) =~= start + wn);
}

fn deps_rec<M: Model>(m: &M, aref: &ArtifactReference, Ghost(f): Ghost<nat>) -> (r: Vec<ArtifactReference>)
    requires
        deps_fuel(m.artifacts(), aref@, f) is Some,
    ensures
        names(r@) == deps_fuel(m.artifacts(), aref@, f)->0,
    decreases f, 0nat,
{
    let mut ds = direct_dependencies_of(m, aref);
    let ghost dsv = names(ds@);
    let ghost g = (f - 1) as nat;
    let mut tds: Vec<ArtifactReference> = Vec::new();
    let mut i: usize = 0;
    assert(names(tds@) =~= Seq::<Seq<char>>::empty());
    while i < ds.len()
        invariant
            i <= ds@.len(),
            dsv == names(ds@),
            g + 1 == f,
            deps_concat(m.artifacts(), dsv, dsv.len(), g) is Some,
            deps_concat(m.artifacts(), dsv, i as nat, g) == Some(names(tds@)),
        decreases ds@.len() - i,
    {
        proof {
            lemma_deps_concat_prefix(m.artifacts(), dsv, i as nat, dsv.len(), g);
            assert(dsv[i as int] == ds@[i as int]@);
        }
        let sub = deps_rec(m, &ds[i], Ghost(g));
        append_refs(&mut tds, sub);
        i = i + 1;
    }
    append_refs(&mut ds, tds);
    dedup_refs(ds)
}

/// All artifacts built on `a`, directly or not, when `f` nested steps suffice.
pub open spec fn dependents_fuel(m: Map<Seq<char>, ArtifactV>, a: Seq<char>, f: nat) -> Option<Set<Seq<char>>>
    decreases f,
{
    if f == 0 {
        None
    } else if forall|d: Seq<char>| #[trigger] dependents_set(m, a).contains(d) ==> dependents_fuel(m, d, (f - 1) as nat) is Some {
        Some(
            dependents_set(m, a).union(
                Set::new(
                    |x: Seq<char>|
                        exists|d: Seq<char>|
                            #[trigger] dependents_set(m, a).contains(d) && dependents_fuel(m, d, (f - 1) as nat)->0.contains(x),
                ),
            ),
        )
    } else {
        None
    }
}

pub open spec fn dependents_end(m: Map<Seq<char>, ArtifactV>, a: Seq<char>) -> bool {
    exists|f: nat| #[trigger] dependents_fuel(m, a, f) is Some
}

pub open spec fn dependents_spec(m: Map<Seq<char>, ArtifactV>, a: Seq<char>) -> Set<Seq<char>> {
    dependents_fuel(m, a, choose|f: nat| #[trigger] dependents_fuel(m, a, f) is Some)->0
}

fn dependents_rec<M: Model>(m: &M, aref: &ArtifactReference, Ghost(f): Ghost<nat>) -> (r: Vec<ArtifactReference>)
    requires
        dependents_fuel(m.artifacts(), aref@, f) is Some,
    ensures
        names(r@).to_set() == dependents_fuel(m.artifacts(), aref@, f)->0,
    decreases f,
{
    let mut ds = direct_dependents_of(m, aref);
    let ghost ds0 = ds@;
    let ghost g = (f - 1) as nat;
    let ghost dset = dependents_set(m.artifacts(), aref@);
    let mut tds: Vec<ArtifactReference> = Vec::new();
    let mut i: usize = 0;
    while i < ds.len()
        invariant
            i <= ds@.len(),
            g + 1 == f,
            names(ds@).to_set() == dset,
            dset == dependents_set(m.artifacts(), aref@),
            forall|d: Seq<char>| #[trigger] dset.contains(d) ==> dependents_fuel(m.artifacts(), d, g) is Some,
            forall|x: Seq<char>|
                names(tds@).contains(x) <==> exists|j: int|
                    0 <= j < i && #[trigger] dependents_fuel(m.artifacts(), ds@[j]@, g)->0.contains(x),
            ds@ == ds0,
        decreases ds@.len() - i,
    {
        proof {
            assert(names(ds@)[i as int] == ds@[i as int]@);
            assert(names(ds@).to_set().contains(ds@[i as int]@));
        }
        let sub = dependents_rec(m, &ds[i], Ghost(g));
        let ghost before = names(tds@);
        let ghost subn = names(sub@);
        append_refs(&mut tds, sub);
        proof {
            assert(dependents_fuel(m.artifacts(), ds@[i as int]@, g)->0 == subn.to_set());
            assert forall|x: Seq<char>| names(tds@).contains(x) <==> exists|j: int|
                0 <= j < i + 1 && #[trigger] dependents_fuel(m.artifacts(), ds@[j]@, g)->0.contains(x) by {
                assert(names(tds@) == before + subn);
                if names(tds@).contains(x) {
                    let k = choose|k: int| 0 <= k < names(tds@).len() && names(tds@)[k] == x;
                    if k < before.len() {
                        assert(before[k] == x);
                        assert(before.contains(x));
                        let j = choose|j: int| 0 <= j < i && #[trigger] dependents_fuel(m.artifacts(), ds@[j]@, g)->0.contains(x);
                        assert(0 <= j < i + 1);
                    } else {
                        assert(subn[k - before.len()] == x);
                        assert(subn.contains(x));
                        assert(dependents_fuel(m.artifacts(), ds@[i as int]@, g)->0.contains(x));
                    }
                }
                if exists|j: int| 0 <= j < i + 1 && #[trigger] dependents_fuel(m.artifacts(), ds@[j]@, g)->0.contains(x) {
                    let j = choose|j: int| 0 <= j < i + 1 && #[trigger] dependents_fuel(m.artifacts(), ds@[j]@, g)->0.contains(x);
                    if j < i {
                        assert(before.contains(x));
                        let k = choose|k: int| 0 <= k < before.len() && before[k] == x;
                        assert(names(tds@)[k] == x);
                    } else {
                        assert(subn.to_set().contains(x));
                        let k = choose|k: int| 0 <= k < subn.len() && subn[k] == x;
                        assert(names(tds@)[before.len() + k] == x);
                    }
                }
            }
        }
        i = i + 1;
    }
    let ghost dsn = names(ds@);
    let ghost tn = names(tds@);
    append_refs(&mut ds, tds);
    let r = dedup_refs(ds);
    proof {
        lemma_dedup_to_set(names(ds@));
        assert forall|x: Seq<char>| names(r@).to_set().contains(x) == dependents_fuel(m.artifacts(), aref@, f)->0.contains(x) by {
            assert(names(ds@) == dsn + tn);
            if dsn.contains(x) {
                let k = choose|k: int| 0 <= k < dsn.len() && dsn[k] == x;
                assert(names(ds@)[k] == x);
            }
            if tn.contains(x) {
                let k = choose|k: int| 0 <= k < tn.len() && tn[k] == x;
                assert(names(ds@)[dsn.len() + k] == x);
            }
            if names(ds@).contains(x) {
                let k = choose|k: int| 0 <= k < names(ds@).len() && names(ds@)[k] == x;
                if k < dsn.len() {
                    assert(dsn[k] == x);
                } else {
                    assert(tn[k - dsn.len()] == x);
                }
            }
            if exists|d: Seq<char>| #[trigger] dset.contains(d) && dependents_fuel(m.artifacts(), d, g)->0.contains(x) {
                let d = choose|d: Seq<char>| #[trigger] dset.contains(d) && dependents_fuel(m.artifacts(), d, g)->0.contains(x);
                assert(dsn.to_set().contains(d));
                let j = choose|j: int| 0 <= j < dsn.len() && dsn[j] == d;
                assert(ds0[j]@ == d);
            }
            if tn.contains(x) {
                let j = choose|j: int| 0 <= j < ds0.len() && #[trigger] dependents_fuel(m.artifacts(), ds0[j]@, g)->0.contains(x);
                assert(dsn[j] == ds0[j]@);
                assert(dsn.to_set().contains(ds0[j]@));
            }
        }
        assert(names(r@).to_set() =~= dependents_fuel(m.artifacts(), aref@, f)->0);
    }
    r
}

/// The slots of an artifact by name, with their kinds.
pub type SlotMap = Assoc<SlotName, SlotKind>;

/// The slots exposed by a structure, in any model.
pub fn structure_slots_of<M: Model>(m: &M, structure: &Structure) -> (r: Result<SlotMap, GettingSlotOfError>)
    requires
        structure_slots_end(m.artifacts(), structure@),
    ensures
        slots_result_view(r) == structure_slots_spec(m.artifacts(), structure@),
{
    let ghost f = choose|f: nat| #[trigger] structure_slots_fuel(m.artifacts(), structure@, f) is Some;
    structure_slots_rec(m, structure, Ghost(f))
}

/// The artifacts that an artifact is built on, directly or not, in any model.
pub fn dependencies_of<M: Model>(m: &M, aref: &ArtifactReference) -> (r: Vec<ArtifactReference>)
    requires
        deps_end(m.artifacts(), aref@),
    ensures
        names(r@) == deps_spec(m.artifacts(), aref@),
{
    let ghost f = choose|f: nat| #[trigger] deps_fuel(m.artifacts(), aref@, f) is Some;
    deps_rec(m, aref, Ghost(f))
}

/// The artifacts built on an artifact, directly or not, in any model.
pub fn dependents_of<M: Model>(m: &M, aref: &ArtifactReference) -> (r: Vec<ArtifactReference>)
    requires
        dependents_end(m.artifacts(), aref@),
    ensures
        names(r@).to_set() == dependents_spec(m.artifacts(), aref@),
{
    let ghost f = choose|f: nat| #[trigger] dependents_fuel(m.artifacts(), aref@, f) is Some;
    dependents_rec(m, aref, Ghost(f))
}

/// A model held in memory.
#[derive(Debug)]
pub struct InMemoryModel(Assoc<ArtifactReference, Artifact>);

impl InMemoryModel {
    /// The artifacts in the order in which they were first stored.
    pub closed spec fn order(&self) -> Seq<Seq<char>> {
        keys_of(self.0.entries())
    }

    pub fn new() -> (r: Self)
        ensures
            r.artifacts() == Map::<Seq<char>, ArtifactV>::empty(),
            r.order() == Seq::<Seq<char>>::empty(),
    {
        let r = InMemoryModel(Assoc::new());
        assert(r.artifacts() =~= Map::<Seq<char>, ArtifactV>::empty());
        assert(r.order() =~= Seq::<Seq<char>>::empty());
        r
    }
}

impl Default for InMemoryModel {
    fn default() -> (r: Self)
        ensures
            r.artifacts() == Map::<Seq<char>, ArtifactV>::empty(),
    {
        InMemoryModel::new()
    }
}

proof fn lemma_map_of_dom<V>(s: Seq<(Seq<char>, V)>)
    ensures
        map_of(s).dom() == keys_of(s).to_set(),
        map_of(s).dom().finite(),
{
    broadcast use vstd::seq_lib::seq_to_set_is_finite;

    assert forall|k: Seq<char>| map_of(s).dom().contains(k) == keys_of(s).to_set().contains(k) by {
        if has_key(s, k) {
            let i = key_index(s, k);
            assert(keys_of(s)[i] == k);
        }
        if keys_of(s).contains(k) {
            let i = choose|i: int| 0 <= i < keys_of(s).len() && keys_of(s)[i] == k;
            assert(s[i].0 == k);
        }
    }
    assert(map_of(s).dom() =~= keys_of(s).to_set());
}

/// The main slot kind of an artifact, in any model.
pub fn kind_of_artifact<M: Model>(m: &M, aref: &ArtifactReference) -> (r: Result<SlotKind, GettingKindOfError>)
    ensures
        kind_result_view(r) == kind_of(m.artifacts(), aref@, Seq::empty()),
{
    let r = kind_with_breadcrumb(m, aref, Vec::new());
    assert(names(Seq::<ArtifactReference>::empty()) =~= Seq::<Seq<char>>::empty());
    r
}

impl Model for InMemoryModel {
    closed spec fn artifacts(&self) -> Map<Seq<char>, ArtifactV> {
        map_of(self.0.entries()).map_values(|a: Artifact| a@)
    }

    proof fn lemma_finite(&self) {
        lemma_map_of_dom(self.0.entries());
        assert(self.artifacts().dom() =~= map_of(self.0.entries()).dom());
    }

    fn set_artifact(&mut self, aref: ArtifactReference, artifact: Artifact) {
        proof {
            use_type_invariant(&self.0);
            lemma_insert_entry(self.0.entries(), aref@, artifact);
        }
        let ghost a = aref@;
        let ghost v = artifact@;
        self.0.insert(aref, artifact);
        assert(self.artifacts() =~= old(self).artifacts().insert(a, v));
    }

    fn remove_artifact(&mut self, aref: &ArtifactReference) {
        proof {
            use_type_invariant(&self.0);
            lemma_remove_entry(self.0.entries(), aref@);
        }
        self.0.remove(aref);
        assert(self.artifacts() =~= old(self).artifacts().remove(aref@));
    }

    fn get_artifact(&self, aref: &ArtifactReference) -> (r: Option<&Artifact>) {
        self.0.get(aref)
    }

    fn list_artifacts(&self) -> (r: Vec<ArtifactReference>)
        ensures
            names(r@) == self.order(),
    {
        proof {
            use_type_invariant(&self.0);
            lemma_map_of_dom(self.0.entries());
        }
        let mut v: Vec<ArtifactReference> = Vec::new();
        let mut i: usize = 0;
        let n = self.0.len();
        while i < n
            invariant
                n == self.0.entries().len(),
                i <= n,
                names(v@) =~= keys_of(self.0.entries()).take(i as int),
            decreases n - i,
        {
            let ghost prev = v@;
            let k = self.0.key_at(i).key_clone();
            v.push(k);
            assert(names(v@) =~= names(prev).push(k@));
            assert(keys_of(self.0.entries()).take(i + 1) =~= keys_of(self.0.entries()).take(
                i as int,
            ).push(keys_of(self.0.entries())[i as int]));
            i = i + 1;
        }
        let ghost ks = keys_of(self.0.entries());
        assert(names(v@) =~= ks);
        assert(ks.no_duplicates()) by {
            assert forall|a: int, b: int| 0 <= a < ks.len() && 0 <= b < ks.len() && a != b implies ks[a]
                != ks[b] by {
                assert(ks[a] == self.0.entries()[a].0);
                assert(ks[b] == self.0.entries()[b].0);
            }
        }
        assert(self.artifacts().dom() =~= map_of(self.0.entries()).dom());
        v
    }
}

impl InMemoryModel {
    /// The main slot kind of an artifact: that of the block that it is built on.
    pub fn main_slot_kind_of(&self, aref: &ArtifactReference) -> (r: Result<SlotKind, GettingKindOfError>)
        ensures
            kind_result_view(r) == kind_of(self.artifacts(), aref@, Seq::empty()),
    {
        kind_of_artifact(self, aref)
    }

    pub fn main_slot_kind_of_with_breadcrumb(
        &self,
        aref: &ArtifactReference,
        breadcrumb: Vec<ArtifactReference>,
    ) -> (r: Result<SlotKind, GettingKindOfError>)
        ensures
            kind_result_view(r) == kind_of(self.artifacts(), aref@, names(breadcrumb@)),
    {
        kind_with_breadcrumb(self, aref, breadcrumb)
    }

    /// The slots exposed by an artifact, by name, with their kinds.
    pub fn slots_of(&self, aref: &ArtifactReference) -> (r: Result<SlotMap, GettingSlotOfError>)
        requires
            slots_end(self.artifacts(), aref@),
        ensures
            slots_result_view(r) == slots_spec(self.artifacts(), aref@),
    {
        slots_of_artifact(self, aref)
    }

    /// The slots exposed by a structure.
    pub fn slots_of_structure(&self, structure: &Structure) -> (r: Result<SlotMap, GettingSlotOfError>)
        requires
            structure_slots_end(self.artifacts(), structure@),
        ensures
            slots_result_view(r) == structure_slots_spec(self.artifacts(), structure@),
    {
        structure_slots_of(self, structure)
    }

    /// Checks that an artifact has a main slot kind and that its slots can be found.
    pub fn validate(&self, aref: &ArtifactReference) -> (r: Result<(), ArtifactValidationError>)
        requires
            validate_ends(self.artifacts(), aref@),
        ensures
            match r {
                Ok(()) => validate_spec(self.artifacts(), aref@) is Ok,
                Err(e) => validate_spec(self.artifacts(), aref@) == Err::<(), ValidationErrorV>(
                    validation_error_view(e),
                ),
            },
    {
        validate_artifact(self, aref)
    }

    /// Checks every artifact; reports the first invalid one in the order of
    /// `list_artifacts`.
    pub fn validate_model(&self) -> (r: Result<(), ModelValidationError>)
        requires
            model_ends(self.artifacts()),
        ensures
            r is Ok == all_valid(self.artifacts()),
            r matches Err(ModelValidationError::Artifact(a, e)) ==> self.artifacts().contains_key(a@)
                && validate_spec(self.artifacts(), a@) == Err::<(), ValidationErrorV>(
                validation_error_view(e),
            ),
    {
        validate_all(self)
    }

    pub fn is_all_valid(&self) -> (r: bool)
        requires
            model_ends(self.artifacts()),
        ensures
            r == all_valid(self.artifacts()),
    {
        model_is_valid(self)
    }

    /// The artifacts that an artifact is built on directly, depth first.
    pub fn direct_dependencies(&self, aref: &ArtifactReference) -> (r: Vec<ArtifactReference>)
        requires
            self.artifacts().contains_key(aref@),
        ensures
            names(r@) == direct_deps(self.artifacts(), aref@),
    {
        direct_dependencies_of(self, aref)
    }

    /// The artifacts that an artifact is built on, directly or not.
    pub fn dependencies(&self, aref: &ArtifactReference) -> (r: Vec<ArtifactReference>)
        requires
            deps_end(self.artifacts(), aref@),
        ensures
            names(r@) == deps_spec(self.artifacts(), aref@),
    {
        dependencies_of(self, aref)
    }

    /// The artifacts built directly on an artifact, in the order of the model.
    pub fn direct_dependents(&self, aref: &ArtifactReference) -> (r: Vec<ArtifactReference>)
        ensures
            names(r@) == self.order().filter(builds_on(self.artifacts(), aref@)),
            names(r@).no_duplicates(),
            names(r@).to_set() == dependents_set(self.artifacts(), aref@),
    {
        let list = self.list_artifacts();
        assert forall|i: int| 0 <= i < list@.len() implies self.artifacts().contains_key(#[trigger] list@[i]@) by {
            assert(names(list@)[i] == list@[i]@);
            assert(names(list@).to_set().contains(list@[i]@));
        }
        let r = dependents_among(self, &list, aref);
        let r2 = direct_dependents_of(self, aref);
        proof {
            lemma_filter_no_dups(names(list@), builds_on(self.artifacts(), aref@));
            assert forall|o: Seq<char>| names(r@).to_set().contains(o) == dependents_set(self.artifacts(), aref@).contains(o) by {
                assert(names(r2@).to_set().contains(o) == dependents_set(self.artifacts(), aref@).contains(o));
                let l = choose|l: Seq<ArtifactReference>|
                    names(l).to_set() == self.artifacts().dom() && names(r2@) == names(l).filter(builds_on(self.artifacts(), aref@));
                if names(r@).contains(o) {
                    names(list@).lemma_filter_contains_rev(builds_on(self.artifacts(), aref@), o);
                    let j = choose|j: int| 0 <= j < names(r@).len() && names(r@)[j] == o;
                    names(list@).lemma_filter_pred(builds_on(self.artifacts(), aref@), j);
                    assert(names(list@).to_set().contains(o));
                }
                if dependents_set(self.artifacts(), aref@).contains(o) {
                    assert(names(list@).to_set().contains(o));
                    let j = choose|j: int| 0 <= j < names(list@).len() && names(list@)[j] == o;
                    names(list@).lemma_filter_contains(builds_on(self.artifacts(), aref@), j);
                }
            }
            assert(names(r@).to_set() =~= dependents_set(self.artifacts(), aref@));
        }
        r
    }

    /// The artifacts built on an artifact, directly or not.
    pub fn dependents(&self, aref: &ArtifactReference) -> (r: Vec<ArtifactReference>)
        requires
            dependents_end(self.artifacts(), aref@),
        ensures
            names(r@).to_set() == dependents_spec(self.artifacts(), aref@),
    {
        dependents_of(self, aref)
    }

    /// Whether a structure connects slot `referenced_slot_name` of
    /// `referenced_slot_aref` somewhere in it.
    pub fn structure_references_artifact_slot(
        &self,
        structure: &Structure,
        referenced_slot_aref: &ArtifactReference,
        referenced_slot_name: &SlotName,
    ) -> (r: bool)
        ensures
            r == refs_slot(structure@, referenced_slot_aref@, referenced_slot_name@),
    {
        structure_references_slot(structure, referenced_slot_aref, referenced_slot_name)
    }

    /// Removes an artifact, provided that the model is valid and that no
    /// artifact is built directly on it.
    pub fn safely_remove_artifact(&mut self, aref: &ArtifactReference) -> (r: Result<(), String>)
        requires
            model_ends(old(self).artifacts()),
        ensures
            !all_valid(old(self).artifacts()) ==> final(self).artifacts() == old(self).artifacts()
                && r is Err && r->Err_0@ == msg_remove_invalid(),
            all_valid(old(self).artifacts()) && dependents_set(old(self).artifacts(), aref@).is_empty()
                ==> r is Ok && final(self).artifacts() == old(self).artifacts().remove(aref@),
            all_valid(old(self).artifacts()) && !dependents_set(old(self).artifacts(), aref@).is_empty()
                ==> final(self).artifacts() == old(self).artifacts() && r is Err && exists|ds: Seq<Seq<char>>|
                lists_in_order(ds, dependents_set(old(self).artifacts(), aref@)) && r->Err_0@
                    == msg_referenced(aref@, ds),
    {
        remove_artifact_safely(self, aref)
    }

    /// Removes a slot of a block, provided that the model is valid and that
    /// no structure built on the block uses the slot.
    pub fn safely_remove_block_slot(&mut self, aref: &ArtifactReference, slot_name: &SlotName) -> (r: Result<
        (),
        String,
    >)
        requires
            model_ends(old(self).artifacts()),
        ensures
            ({
                let am = old(self).artifacts();
                let a = aref@;
                let sl = slot_name@;
                &&& !all_valid(am) ==> final(self).artifacts() == am && r is Err && r->Err_0@ == msg_slot_invalid()
                &&& all_valid(am) && !am.contains_key(a) ==> final(self).artifacts() == am && r is Err
                    && r->Err_0@ == msg_no_artifact(a)
                &&& all_valid(am) && am.contains_key(a) && am[a] is Structure ==> final(self).artifacts() == am
                    && r is Err && r->Err_0@ == msg_structure_slot()
                &&& all_valid(am) && am.contains_key(a) && am[a] is Block && !slot_users(am, a, sl).is_empty()
                    ==> final(self).artifacts() == am && r is Err && exists|ds: Seq<Seq<char>>|
                    lists_in_order(ds, slot_users(am, a, sl)) && r->Err_0@ == msg_slot_used(a, sl, ds)
                &&& all_valid(am) && am.contains_key(a) && am[a] is Block && slot_users(am, a, sl).is_empty()
                    && has_key(am[a]->Block_0.slots, sl) ==> r is Ok && final(self).artifacts() == am.insert(
                    a,
                    ArtifactV::Block(without_slot(am[a]->Block_0, sl)),
                )
                &&& all_valid(am) && am.contains_key(a) && am[a] is Block && slot_users(am, a, sl).is_empty()
                    && !has_key(am[a]->Block_0.slots, sl) ==> final(self).artifacts() == am && r is Err
                    && r->Err_0@ == msg_no_slot(a, sl)
            }),
    {
        remove_block_slot_safely(self, aref, slot_name)
    }

    /// Renames a slot of a block, and the connections of that slot in the
    /// structures built directly on the block.
    pub fn rename_slot(
        &mut self,
        aref: &ArtifactReference,
        old_slot_name: &SlotName,
        new_slot_name: SlotName,
    ) -> (r: Result<(), String>)
        requires
            rename_allowed(old(self).artifacts(), aref@, old_slot_name@, new_slot_name@),
        ensures
            ({
                let am = old(self).artifacts();
                let a = aref@;
                let o = old_slot_name@;
                let n = new_slot_name@;
                &&& !am.contains_key(a) ==> final(self).artifacts() == am && r is Err && r->Err_0@
                    == msg_rename_no_artifact(a)
                &&& am.contains_key(a) && !has_key(am[a]->Block_0.slots, o) ==> final(self).artifacts() == am
                    && r is Err && r->Err_0@ == msg_rename_no_slot(a, o)
                &&& am.contains_key(a) && has_key(am[a]->Block_0.slots, o) && has_key(am[a]->Block_0.slots, n)
                    ==> final(self).artifacts() == am && r is Err && r->Err_0@ == msg_rename_taken(a, n)
                &&& am.contains_key(a) && has_key(am[a]->Block_0.slots, o) && !has_key(am[a]->Block_0.slots, n)
                    ==> r is Ok && final(self).artifacts() == rename_model(am, a, o, n)
            }),
    {
        rename_slot_in_model(self, aref, old_slot_name, new_slot_name)
    }

    /// Renames slot `old_slot_name` of `aref` in every part of a structure built on `aref`.
    pub fn rename_slot_in_structure(
        &mut self,
        structure: &mut Structure,
        aref: &ArtifactReference,
        old_slot_name: &SlotName,
        new_slot_name: SlotName,
    )
        requires
            rename_ok(old(structure)@, aref@, old_slot_name@),
        ensures
            final(structure)@ == rename_in(old(structure)@, aref@, old_slot_name@, new_slot_name@),
            final(self).artifacts() == old(self).artifacts(),
    {
        let mut taken = Structure { a_ref: ar(""), c: Assoc::new() };
        std::mem::swap(&mut taken, structure);
        let renamed = rename_structure(taken, aref, old_slot_name, &new_slot_name, Ghost(taken@));
        *structure = renamed;
    }
}

} // verus!
