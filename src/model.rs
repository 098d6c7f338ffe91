use vstd::prelude::*;

verus! {

/// The value of an environment variable: plain text, or an ordered list of
/// elements (a search path, for instance).
#[derive(Debug, Clone, PartialEq, Eq)]
pub enum Value {
    Scalar(String),
    List(Vec<String>),
}

/// The mathematical counterpart of `Value`.
pub enum ValueModel {
    Scalar(Seq<char>),
    List(Seq<Seq<char>>),
}

pub open spec fn texts(v: Seq<String>) -> Seq<Seq<char>> {
    v.map_values(|s: String| s@)
}

impl View for Value {
    type V = ValueModel;

    open spec fn view(&self) -> ValueModel {
        match self {
            Value::Scalar(t) => ValueModel::Scalar(t@),
            Value::List(l) => ValueModel::List(texts(l@)),
        }
    }
}

pub open spec fn opt_value(v: Option<Value>) -> Option<ValueModel> {
    match v {
        Some(x) => Some(x@),
        None => None,
    }
}

/// One change to a single variable.
#[derive(Debug, Clone, PartialEq, Eq)]
pub enum Op {
    Assign(Value),
    Unset,
    PrependToList(String),
    AppendToList(String),
    RemoveFromList(String),
}

pub enum OpModel {
    Assign(ValueModel),
    Unset,
    PrependToList(Seq<char>),
    AppendToList(Seq<char>),
    RemoveFromList(Seq<char>),
}

impl View for Op {
    type V = OpModel;

    open spec fn view(&self) -> OpModel {
        match self {
            Op::Assign(v) => OpModel::Assign(v@),
            Op::Unset => OpModel::Unset,
            Op::PrependToList(x) => OpModel::PrependToList(x@),
            Op::AppendToList(x) => OpModel::AppendToList(x@),
            Op::RemoveFromList(x) => OpModel::RemoveFromList(x@),
        }
    }
}

pub open spec fn ops_view(v: Seq<Op>) -> Seq<OpModel> {
    v.map_values(|o: Op| o@)
}

/// A declared change: the variable it targets and what it does to it.
#[derive(Debug, Clone, PartialEq, Eq)]
pub struct Mutation {
    pub name: String,
    pub op: Op,
}

pub struct MutationModel {
    pub name: Seq<char>,
    pub op: OpModel,
}

impl View for Mutation {
    type V = MutationModel;

    open spec fn view(&self) -> MutationModel {
        MutationModel { name: self.name@, op: self.op@ }
    }
}

pub open spec fn mutations_view(v: Seq<Mutation>) -> Seq<MutationModel> {
    v.map_values(|m: Mutation| m@)
}

/// The elements that a list operation sees in a value: a list is itself, a
/// non-empty scalar is a list of one element, an absent or empty one has none.
pub open spec fn as_list(v: Option<ValueModel>) -> Seq<Seq<char>> {
    match v {
        Some(ValueModel::List(l)) => l,
        Some(ValueModel::Scalar(t)) => if t.len() == 0 {
            seq![]
        } else {
            seq![t]
        },
        None => seq![],
    }
}

/// `l` with every element equal to `x` left out, the others in order.
pub open spec fn without(l: Seq<Seq<char>>, x: Seq<char>) -> Seq<Seq<char>>
    decreases l.len(),
{
    if l.len() == 0 {
        l
    } else if l.last() == x {
        without(l.drop_last(), x)
    } else {
        without(l.drop_last(), x).push(l.last())
    }
}

/// The value of a variable after one operation. Removing from something that
/// is not a list, or removing an element that is not there, changes nothing.
pub open spec fn apply_op(cur: Option<ValueModel>, op: OpModel) -> Option<ValueModel> {
    match op {
        OpModel::Assign(v) => Some(v),
        OpModel::Unset => None,
        OpModel::PrependToList(x) => Some(ValueModel::List(seq![x] + as_list(cur))),
        OpModel::AppendToList(x) => Some(ValueModel::List(as_list(cur).push(x))),
        OpModel::RemoveFromList(x) => match cur {
            Some(ValueModel::List(l)) => Some(ValueModel::List(without(l, x))),
            _ => cur,
        },
    }
}

/// The value after a run of operations, applied first to last.
pub open spec fn apply_ops(cur: Option<ValueModel>, ops: Seq<OpModel>) -> Option<ValueModel>
    decreases ops.len(),
{
    if ops.len() == 0 {
        cur
    } else {
        apply_op(apply_ops(cur, ops.drop_last()), ops.last())
    }
}

pub fn copy_text(s: &String) -> (r: String)
    ensures
        r@ == s@,
{
    s.clone()
}

pub fn copy_texts(l: &Vec<String>) -> (r: Vec<String>)
    ensures
        texts(r@) == texts(l@),
{
    let mut r: Vec<String> = Vec::new();
    let mut i: usize = 0;
    while i < l.len()
        invariant
            i <= l@.len(),
            texts(r@) == texts(l@.take(i as int)),
        decreases l@.len() - i,
    {
        let ghost before = r@;
        r.push(copy_text(&l[i]));
        assert(texts(r@) =~= texts(before).push(l@[i as int]@));
        assert(texts(l@.take(i + 1)) =~= texts(l@.take(i as int)).push(l@[i as int]@));
        i += 1;
    }
    assert(l@.take(l@.len() as int) == l@);
    r
}

pub fn copy_value(v: &Value) -> (r: Value)
    ensures
        r@ == v@,
{
    match v {
        Value::Scalar(t) => Value::Scalar(copy_text(t)),
        Value::List(l) => Value::List(copy_texts(l)),
    }
}

pub fn copy_opt_value(v: &Option<Value>) -> (r: Option<Value>)
    ensures
        opt_value(r) == opt_value(*v),
{
    match v {
        Some(x) => Some(copy_value(x)),
        None => None,
    }
}

pub fn copy_op(o: &Op) -> (r: Op)
    ensures
        r@ == o@,
{
    match o {
        Op::Assign(v) => Op::Assign(copy_value(v)),
        Op::Unset => Op::Unset,
        Op::PrependToList(x) => Op::PrependToList(copy_text(x)),
        Op::AppendToList(x) => Op::AppendToList(copy_text(x)),
        Op::RemoveFromList(x) => Op::RemoveFromList(copy_text(x)),
    }
}

/// The elements that a list operation sees in `v`.
pub fn list_of(v: &Option<Value>) -> (r: Vec<String>)
    ensures
        texts(r@) == as_list(opt_value(*v)),
{
    match v {
        Some(Value::List(l)) => copy_texts(l),
        Some(Value::Scalar(t)) => {
            if t.as_str().is_empty() {
                Vec::new()
            } else {
                let mut r: Vec<String> = Vec::new();
                r.push(copy_text(t));
                assert(texts(r@) =~= seq![t@]);
                r
            }
        },
        None => {
            let r: Vec<String> = Vec::new();
            assert(texts(r@) =~= seq![]);
            r
        },
    }
}

/// `l` without the elements equal to `x`.
pub fn remove_all(l: &Vec<String>, x: &String) -> (r: Vec<String>)
    ensures
        texts(r@) == without(texts(l@), x@),
{
    let mut r: Vec<String> = Vec::new();
    let mut i: usize = 0;
    while i < l.len()
        invariant
            i <= l@.len(),
            texts(r@) == without(texts(l@.take(i as int)), x@),
        decreases l@.len() - i,
    {
        let ghost before = r@;
        let ghost t = texts(l@.take(i + 1));
        assert(t.drop_last() =~= texts(l@.take(i as int)));
        assert(t.last() == l@[i as int]@);
        if !l[i].eq(x) {
            r.push(copy_text(&l[i]));
            assert(texts(r@) =~= texts(before).push(l@[i as int]@));
        }
        i += 1;
    }
    assert(l@.take(l@.len() as int) == l@);
    r
}

/// The value of a variable after one operation.
pub fn apply(cur: &Option<Value>, op: &Op) -> (r: Option<Value>)
    ensures
        opt_value(r) == apply_op(opt_value(*cur), op@),
{
    match op {
        Op::Assign(v) => Some(copy_value(v)),
        Op::Unset => None,
        Op::PrependToList(x) => {
            let old_elems = list_of(cur);
            let mut l: Vec<String> = Vec::new();
            l.push(copy_text(x));
            let mut i: usize = 0;
            while i < old_elems.len()
                invariant
                    i <= old_elems@.len(),
                    texts(l@) == seq![x@] + texts(old_elems@.take(i as int)),
                decreases old_elems@.len() - i,
            {
                let ghost before = l@;
                l.push(copy_text(&old_elems[i]));
                assert(texts(l@) =~= texts(before).push(old_elems@[i as int]@));
                assert(texts(old_elems@.take(i + 1)) =~= texts(old_elems@.take(i as int)).push(
                    old_elems@[i as int]@,
                ));
                i += 1;
            }
            assert(old_elems@.take(old_elems@.len() as int) == old_elems@);
            Some(Value::List(l))
        },
        Op::AppendToList(x) => {
            let mut l = list_of(cur);
            let ghost before = l@;
            l.push(copy_text(x));
            assert(texts(l@) =~= texts(before).push(x@));
            Some(Value::List(l))
        },
        Op::RemoveFromList(x) => match cur {
            Some(Value::List(l)) => Some(Value::List(remove_all(l, x))),
            _ => copy_opt_value(cur),
        },
    }
}

} // verus!
