use vstd::prelude::*;
use crate::model::{
    ar, sk, sn, lemma_connection_view, lemma_slot_map_view, lemma_structure_view, Artifact,
    ArtifactReference, ArtifactV, Assoc, Block, BlockV, Connection, ConnectionV, InMemoryModel, Key,
    Model, SlotName, Structure, StructureV,
};

verus! {

/// A block of main kind `Natural` with the given slots.
pub open spec fn natural(slots: Seq<(Seq<char>, Seq<char>)>) -> ArtifactV {
    ArtifactV::Block(BlockV { main_slot_kind: "Natural"@, slots })
}

/// The artifacts of `peano_model`.
pub open spec fn peano_artifacts() -> Map<Seq<char>, ArtifactV> {
    Map::empty().insert("successor"@, natural(seq![("x"@, "Natural"@)])).insert(
        "zero"@,
        natural(Seq::empty()),
    )
}

/// `plus_2`: the successor of the successor of its slot `x`.
pub open spec fn plus_2_view() -> ArtifactV {
    ArtifactV::Structure(
        StructureV {
            a_ref: "successor"@,
            c: seq![
                ("x"@, ConnectionV::Structure(
                    StructureV { a_ref: "successor"@, c: seq![("x"@, ConnectionV::Slot("x"@))] },
                )),
            ],
        },
    )
}

/// `number_4`: `plus_2` applied to `plus_2` applied to `zero`.
pub open spec fn number_4_view() -> ArtifactV {
    ArtifactV::Structure(
        StructureV {
            a_ref: "plus_2"@,
            c: seq![
                ("x"@, ConnectionV::Structure(
                    StructureV {
                        a_ref: "plus_2"@,
                        c: seq![
                            ("x"@, ConnectionV::Structure(
                                StructureV { a_ref: "zero"@, c: Seq::empty() },
                            )),
                        ],
                    },
                )),
            ],
        },
    )
}

/// `number_5`: the successor of `number_4`.
pub open spec fn number_5_view() -> ArtifactV {
    ArtifactV::Structure(
        StructureV {
            a_ref: "successor"@,
            c: seq![
                ("x"@, ConnectionV::Structure(StructureV { a_ref: "number_4"@, c: Seq::empty() })),
            ],
        },
    )
}

/// The artifacts of `two_and_two_is_four_model`.
pub open spec fn two_and_two_artifacts() -> Map<Seq<char>, ArtifactV> {
    peano_artifacts().insert("plus_2"@, plus_2_view()).insert("number_4"@, number_4_view())
}

/// The artifacts of `and_one_more_is_five_model`.
pub open spec fn five_artifacts() -> Map<Seq<char>, ArtifactV> {
    two_and_two_artifacts().insert("number_5"@, number_5_view())
}

/// A structure on `a_ref` with no connection.
fn bare(a_ref: &str) -> (r: Structure)
    ensures
        r@ == (StructureV { a_ref: a_ref@, c: Seq::empty() }),
{
    let r = Structure { a_ref: ar(a_ref), c: Assoc::new() };
    proof {
        lemma_structure_view(&r);
    }
    assert(r@.c =~= Seq::<(Seq<char>, ConnectionV)>::empty());
    r
}

/// A structure on `a_ref` whose slot `x` is connected to `conn`.
fn on_x(a_ref: &str, conn: Connection) -> (r: Structure)
    ensures
        r@ == (StructureV { a_ref: a_ref@, c: seq![("x"@, conn@)] }),
{
    let mut c: Assoc<SlotName, Connection> = Assoc::new();
    let ghost cv = conn@;
    c.insert(sn("x"), conn);
    let r = Structure { a_ref: ar(a_ref), c };
    proof {
        lemma_structure_view(&r);
        assert(r.c.entries().len() == 1);
        assert(r@.c =~= seq![("x"@, cv)]);
    }
    r
}

/// A block of main kind `Natural` with at most one slot `x` of kind `Natural`.
fn natural_block(with_x: bool) -> (r: Artifact)
    ensures
        r@ == natural(if with_x { seq![("x"@, "Natural"@)] } else { Seq::empty() }),
{
    let mut slots: Assoc<SlotName, crate::model::SlotKind> = Assoc::new();
    if with_x {
        slots.insert(sn("x"), sk("Natural"));
    }
    let b = Block { main_slot_kind: sk("Natural"), slots };
    proof {
        lemma_slot_map_view(&b.slots);
        if with_x {
            assert(b@.slots =~= seq![("x"@, "Natural"@)]);
        } else {
            assert(b@.slots =~= Seq::<(Seq<char>, Seq<char>)>::empty());
        }
    }
    Artifact::Block(b)
}

/// A model with no artifact.
pub fn empty_test_model() -> (r: InMemoryModel)
    ensures
        r.artifacts() == Map::<Seq<char>, ArtifactV>::empty(),
{
    InMemoryModel::new()
}

/// The blocks `successor` (one slot `x`) and `zero` (no slot), both of kind `Natural`.
pub fn peano_model() -> (r: InMemoryModel)
    ensures
        r.artifacts() == peano_artifacts(),
{
    let mut model = empty_test_model();
    model.set_artifact(ar("successor"), natural_block(true));
    model.set_artifact(ar("zero"), natural_block(false));
    model
}

/// `peano_model` with `plus_2` and `number_4` added.
pub fn two_and_two_is_four_model() -> (r: InMemoryModel)
    ensures
        r.artifacts() == two_and_two_artifacts(),
{
    let mut model = peano_model();
    let slot_x = Connection::Slot(sn("x"));
    proof {
        lemma_connection_view(&slot_x);
    }
    let inner = Connection::Structure(on_x("successor", slot_x));
    proof {
        lemma_connection_view(&inner);
    }
    let plus_2 = on_x("successor", inner);
    assert(Artifact::Structure(plus_2)@ == plus_2_view());
    model.set_artifact(ar("plus_2"), Artifact::Structure(plus_2));
    let zero = Connection::Structure(bare("zero"));
    proof {
        lemma_connection_view(&zero);
    }
    let twice = Connection::Structure(on_x("plus_2", zero));
    proof {
        lemma_connection_view(&twice);
    }
    let number_4 = on_x("plus_2", twice);
    assert(Artifact::Structure(number_4)@ == number_4_view());
    model.set_artifact(ar("number_4"), Artifact::Structure(number_4));
    model
}

/// `two_and_two_is_four_model` with `number_5` added.
pub fn and_one_more_is_five_model() -> (r: InMemoryModel)
    ensures
        r.artifacts() == five_artifacts(),
{
    let mut model = two_and_two_is_four_model();
    let four = Connection::Structure(bare("number_4"));
    proof {
        lemma_connection_view(&four);
    }
    let number_5 = on_x("successor", four);
    assert(Artifact::Structure(number_5)@ == number_5_view());
    model.set_artifact(ar("number_5"), Artifact::Structure(number_5));
    model
}

/// The number that a Peano structure stands for; only `number_2` and
/// `number_4` are known.
pub fn peano_eval<M: Model>(aref: &ArtifactReference, model: &M) -> (r: usize)
    requires
        aref@ == "number_2"@ || aref@ == "number_4"@,
    ensures
        aref@ == "number_2"@ ==> r == 2,
        aref@ == "number_4"@ ==> r == 4,
{
    proof {
        reveal_strlit("number_2");
        reveal_strlit("number_4");
        assert("number_2"@[7] != "number_4"@[7]);
    }
    if aref.key_eq(&ar("number_2")) {
        2
    } else {
        4
    }
}

} // verus!
