//! The value model: a small heterogeneous tagged value, the record that wraps
//! one value under a named field, and the mathematical model of both.
use vstd::prelude::*;

verus! {

/// A heterogeneous value with five kinds of payload.  `Mapping` and `List`
/// nest to arbitrary depth.  A `Float` payload is carried as its decimal
/// literal (the text that stands for it in the serialized form), since the
/// codec reads and writes exactly that text.
#[derive(Debug, PartialEq)]
pub enum ValueTypes {
    Integer(i32),
    Float(String),
    Text(String),
    Mapping(Vec<(String, ValueTypes)>),
    List(Vec<ValueTypes>),
}

/// The record: one value under a named field.
#[derive(Debug, PartialEq)]
pub struct JsonStruct {
    pub field: String,
    pub value: ValueTypes,
}

/// The mathematical model of a `ValueTypes` tree.
pub enum SpecValue {
    Integer(int),
    Float(Seq<char>),
    Text(Seq<char>),
    Mapping(Seq<(Seq<char>, SpecValue)>),
    List(Seq<SpecValue>),
}

/// The mathematical model of a `JsonStruct`.
pub struct SpecRecord {
    pub field: Seq<char>,
    pub value: SpecValue,
}

pub open spec fn view_pairs(ps: Seq<(String, ValueTypes)>) -> Seq<(Seq<char>, SpecValue)>
    decreases ps,
{
    if ps.len() == 0 {
        Seq::empty()
    } else {
        seq![(ps[0].0@, view_value(ps[0].1))] + view_pairs(ps.drop_first())
    }
}

pub open spec fn view_list(vs: Seq<ValueTypes>) -> Seq<SpecValue>
    decreases vs,
{
    if vs.len() == 0 {
        Seq::empty()
    } else {
        seq![view_value(vs[0])] + view_list(vs.drop_first())
    }
}

pub open spec fn view_value(v: ValueTypes) -> SpecValue
    decreases v,
{
    match v {
        ValueTypes::Integer(i) => SpecValue::Integer(i as int),
        ValueTypes::Float(t) => SpecValue::Float(t@),
        ValueTypes::Text(t) => SpecValue::Text(t@),
        ValueTypes::Mapping(ps) => SpecValue::Mapping(view_pairs(ps@)),
        ValueTypes::List(vs) => SpecValue::List(view_list(vs@)),
    }
}

impl View for ValueTypes {
    type V = SpecValue;

    open spec fn view(&self) -> SpecValue {
        view_value(*self)
    }
}

impl View for JsonStruct {
    type V = SpecRecord;

    open spec fn view(&self) -> SpecRecord {
        SpecRecord { field: self.field@, value: self.value@ }
    }
}

pub proof fn lemma_view_pairs_index(ps: Seq<(String, ValueTypes)>)
    ensures
        view_pairs(ps).len() == ps.len(),
        forall|k: int|
            0 <= k < ps.len() ==> #[trigger] view_pairs(ps)[k] == (ps[k].0@, view_value(ps[k].1)),
    decreases ps,
{
    if ps.len() > 0 {
        lemma_view_pairs_index(ps.drop_first());
    }
}

pub proof fn lemma_view_list_index(vs: Seq<ValueTypes>)
    ensures
        view_list(vs).len() == vs.len(),
        forall|k: int| 0 <= k < vs.len() ==> #[trigger] view_list(vs)[k] == view_value(vs[k]),
    decreases vs,
{
    if vs.len() > 0 {
        lemma_view_list_index(vs.drop_first());
    }
}

pub proof fn lemma_view_pairs_push(ps: Seq<(String, ValueTypes)>, p: (String, ValueTypes))
    ensures
        view_pairs(ps.push(p)) == view_pairs(ps) + seq![(p.0@, view_value(p.1))],
    decreases ps,
{
    reveal_with_fuel(view_pairs, 3);
    if ps.len() == 0 {
        assert(ps.push(p).drop_first() =~= Seq::<(String, ValueTypes)>::empty());
        assert(view_pairs(ps.push(p)) =~= view_pairs(ps) + seq![(p.0@, view_value(p.1))]);
    } else {
        let h = (ps[0].0@, view_value(ps[0].1));
        let pn = (p.0@, view_value(p.1));
        assert(ps.push(p).drop_first() =~= ps.drop_first().push(p));
        lemma_view_pairs_push(ps.drop_first(), p);
        assert(ps.push(p)[0] == ps[0]);
        assert(view_pairs(ps.push(p)) == seq![h] + view_pairs(ps.drop_first().push(p)));
        assert(view_pairs(ps.push(p)) == seq![h] + (view_pairs(ps.drop_first()) + seq![pn]));
        assert(seq![h] + (view_pairs(ps.drop_first()) + seq![pn]) =~= (seq![h] + view_pairs(
            ps.drop_first(),
        )) + seq![pn]);
        assert(view_pairs(ps.push(p)) =~= view_pairs(ps) + seq![pn]);
    }
}

pub proof fn lemma_view_list_push(vs: Seq<ValueTypes>, v: ValueTypes)
    ensures
        view_list(vs.push(v)) == view_list(vs) + seq![view_value(v)],
    decreases vs,
{
    reveal_with_fuel(view_list, 3);
    if vs.len() == 0 {
        assert(vs.push(v).drop_first() =~= Seq::<ValueTypes>::empty());
        assert(view_list(vs.push(v)) =~= view_list(vs) + seq![view_value(v)]);
    } else {
        let h = view_value(vs[0]);
        let vn = view_value(v);
        assert(vs.push(v).drop_first() =~= vs.drop_first().push(v));
        lemma_view_list_push(vs.drop_first(), v);
        assert(vs.push(v)[0] == vs[0]);
        assert(view_list(vs.push(v)) == seq![h] + view_list(vs.drop_first().push(v)));
        assert(view_list(vs.push(v)) == seq![h] + (view_list(vs.drop_first()) + seq![vn]));
        assert(seq![h] + (view_list(vs.drop_first()) + seq![vn]) =~= (seq![h] + view_list(
            vs.drop_first(),
        )) + seq![vn]);
        assert(view_list(vs.push(v)) =~= view_list(vs) + seq![vn]);
    }
}

/// The payload of a value cannot be rendered in the serialized form.
#[derive(Clone, Copy, Debug, PartialEq, Eq)]
pub struct EncodeError;

/// The text is not a well-formed serialized record: malformed syntax, a shape
/// other than the two expected fields, an unrecognized variant tag, or a
/// literal that does not convert to the variant's payload type.
#[derive(Clone, Copy, Debug, PartialEq, Eq)]
pub struct DecodeError;

} // verus!
