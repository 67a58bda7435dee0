use vstd::prelude::*;
use crate::arena::Id;

verus! {

/// The mathematical model of a parsed value.
///
/// Children of objects and lists are handle indices into the arena that
/// the parse filled; text and numeric lexemes are byte sequences.
#[verifier::ext_equal]
pub enum ValueModel {
    Str(Seq<u8>),
    Num(Seq<u8>),
    Bool(bool),
    Object(Seq<(Seq<u8>, int)>),
    List(Seq<int>),
    Null,
}

/// A parsed value.
///
/// A value owns no memory for its children: an object or list holds only
/// handles, resolvable against the one allocator that the parse filled.
/// String payloads and object keys are UTF-8 bytes with escape sequences
/// already decoded; a number is kept as its validated lexeme, to be
/// converted to a machine float by the embedding application if needed.
/// Object entries keep insertion order, keys are unique, and a duplicate
/// key in the source overwrites the earlier entry's value (last write
/// wins).
#[derive(Debug, Default)]
pub enum JsonValue {
    String(Vec<u8>),
    Number(Vec<u8>),
    Bool(bool),
    Object(Vec<(Vec<u8>, Id<JsonValue>)>),
    List(Vec<Id<JsonValue>>),
    #[default]
    Null,
}

/// The indices a sequence of handles names.
pub open spec fn ids_of(hs: Seq<Id<JsonValue>>) -> Seq<int> {
    hs.map_values(|h: Id<JsonValue>| h@)
}

/// The model of a sequence of object entries.
pub open spec fn pairs_of(ps: Seq<(Vec<u8>, Id<JsonValue>)>) -> Seq<(Seq<u8>, int)> {
    ps.map_values(|p: (Vec<u8>, Id<JsonValue>)| (p.0@, p.1@))
}

/// The models of the values an arena holds.
pub open spec fn models(vs: Seq<JsonValue>) -> Seq<ValueModel> {
    vs.map_values(|v: JsonValue| v@)
}

/// Every handle held by `v` names an arena slot below `bound`.
pub open spec fn val_wf(v: ValueModel, bound: int) -> bool {
    match v {
        ValueModel::Object(ps) => forall|q: int| 0 <= q < ps.len() ==> 0 <= #[trigger] ps[q].1
            < bound,
        ValueModel::List(hs) => forall|q: int| 0 <= q < hs.len() ==> 0 <= #[trigger] hs[q]
            < bound,
        _ => true,
    }
}

/// Every value the arena holds refers only to slots allocated before it:
/// handles never point forward, so every child is resolvable and the
/// reference structure is acyclic.
pub open spec fn arena_wf(ar: Seq<ValueModel>) -> bool {
    forall|j: int| 0 <= j < ar.len() ==> val_wf(#[trigger] ar[j], j)
}

/// No two entries carry the same key.
pub open spec fn keys_unique(ps: Seq<(Seq<u8>, int)>) -> bool {
    forall|q1: int, q2: int| 0 <= q1 < q2 < ps.len()
        ==> (#[trigger] ps[q1]).0 != (#[trigger] ps[q2]).0
}

/// An object value maps each key to one handle.
pub open spec fn val_keys_unique(v: ValueModel) -> bool {
    v is Object ==> keys_unique(v->Object_0)
}

/// Every object the arena holds maps each key to one handle.
pub open spec fn arena_keys_unique(ar: Seq<ValueModel>) -> bool {
    forall|j: int| 0 <= j < ar.len() ==> val_keys_unique(#[trigger] ar[j])
}

impl View for JsonValue {
    type V = ValueModel;

    open spec fn view(&self) -> ValueModel {
        match self {
            JsonValue::String(t) => ValueModel::Str(t@),
            JsonValue::Number(t) => ValueModel::Num(t@),
            JsonValue::Bool(x) => ValueModel::Bool(*x),
            JsonValue::Object(ps) => ValueModel::Object(pairs_of(ps@)),
            JsonValue::List(hs) => ValueModel::List(ids_of(hs@)),
            JsonValue::Null => ValueModel::Null,
        }
    }
}

} // verus!
