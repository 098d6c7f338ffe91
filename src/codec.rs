use vstd::prelude::*;

use crate::escape::{join, join_tokens, lemma_split_join, split, split_tokens, tokens_view};
use crate::model::{opt_value, ops_view, texts, Op, OpModel, Value, ValueModel};
use crate::shadow::{
    entries_view, features_view, layers_view, ActiveFeature, EntryModel, Layer, LayerModel,
    ShadowEntry, ShadowState, StateModel,
};
use crate::text::{chars_of, string_of};

verus! {

// A state is written as a sequence of tokens: tags of one character that say
// what follows, and texts. Lists end with the tag `/`.
pub open spec fn tag(c: char) -> Seq<char> {
    seq![c]
}

pub open spec fn version_tag() -> Seq<char> {
    seq!['s', 'h', 'a', 'd', 'o', 'w', '1']
}

/// The tokens of each item, one item after the other.
pub open spec fn flat_map<A>(l: Seq<A>, f: spec_fn(A) -> Seq<Seq<char>>) -> Seq<Seq<char>>
    decreases l.len(),
{
    if l.len() == 0 {
        seq![]
    } else {
        f(l[0]) + flat_map(l.drop_first(), f)
    }
}

pub open spec fn elems_toks(l: Seq<Seq<char>>) -> Seq<Seq<char>> {
    flat_map(l, |x: Seq<char>| seq![tag('e'), x])
}

pub open spec fn value_toks(v: ValueModel) -> Seq<Seq<char>> {
    match v {
        ValueModel::Scalar(t) => seq![tag('s'), t],
        ValueModel::List(l) => seq![tag('l')] + elems_toks(l) + seq![tag('/')],
    }
}

pub open spec fn opt_toks(o: Option<ValueModel>) -> Seq<Seq<char>> {
    match o {
        None => seq![tag('-')],
        Some(v) => value_toks(v),
    }
}

pub open spec fn op_toks(o: OpModel) -> Seq<Seq<char>> {
    match o {
        OpModel::Assign(v) => seq![tag('=')] + value_toks(v),
        OpModel::Unset => seq![tag('u')],
        OpModel::PrependToList(x) => seq![tag('p'), x],
        OpModel::AppendToList(x) => seq![tag('a'), x],
        OpModel::RemoveFromList(x) => seq![tag('r'), x],
    }
}

pub open spec fn ops_toks(os: Seq<OpModel>) -> Seq<Seq<char>> {
    flat_map(os, |o: OpModel| op_toks(o))
}

pub open spec fn layer_toks(l: LayerModel) -> Seq<Seq<char>> {
    seq![tag('L'), l.feature] + ops_toks(l.ops) + seq![tag('/')]
}

pub open spec fn layers_toks(ls: Seq<LayerModel>) -> Seq<Seq<char>> {
    flat_map(ls, |l: LayerModel| layer_toks(l))
}

pub open spec fn entry_toks(e: EntryModel) -> Seq<Seq<char>> {
    seq![tag('E'), e.name] + opt_toks(e.original) + opt_toks(e.current) + layers_toks(e.layers)
        + seq![tag('/')]
}

pub open spec fn entries_toks(es: Seq<EntryModel>) -> Seq<Seq<char>> {
    flat_map(es, |e: EntryModel| entry_toks(e))
}

pub open spec fn feature_toks(f: (Seq<char>, Seq<char>)) -> Seq<Seq<char>> {
    seq![tag('F'), f.0, f.1]
}

pub open spec fn features_toks(fs: Seq<(Seq<char>, Seq<char>)>) -> Seq<Seq<char>> {
    flat_map(fs, |f: (Seq<char>, Seq<char>)| feature_toks(f))
}

/// The tokens of a state: the version tag, the active features, the entries.
pub open spec fn state_toks(s: StateModel) -> Seq<Seq<char>> {
    seq![version_tag()] + features_toks(s.features) + seq![tag('/')] + entries_toks(s.entries)
        + seq![tag('/')]
}

pub open spec fn in_range(t: Seq<Seq<char>>, p: int) -> bool {
    0 <= p < t.len()
}

pub open spec fn parse_elems(t: Seq<Seq<char>>, p: int) -> Option<(Seq<Seq<char>>, int)>
    decreases t.len() - p,
{
    if !in_range(t, p) {
        None
    } else if t[p] == tag('/') {
        Some((seq![], p + 1))
    } else if t[p] == tag('e') && p + 1 < t.len() {
        match parse_elems(t, p + 2) {
            Some((r, q)) => Some((seq![t[p + 1]] + r, q)),
            None => None,
        }
    } else {
        None
    }
}

pub open spec fn parse_value(t: Seq<Seq<char>>, p: int) -> Option<(ValueModel, int)> {
    if !in_range(t, p) {
        None
    } else if t[p] == tag('s') && p + 1 < t.len() {
        Some((ValueModel::Scalar(t[p + 1]), p + 2))
    } else if t[p] == tag('l') {
        match parse_elems(t, p + 1) {
            Some((l, q)) => Some((ValueModel::List(l), q)),
            None => None,
        }
    } else {
        None
    }
}

pub open spec fn parse_opt(t: Seq<Seq<char>>, p: int) -> Option<(Option<ValueModel>, int)> {
    if in_range(t, p) && t[p] == tag('-') {
        Some((None, p + 1))
    } else {
        match parse_value(t, p) {
            Some((v, q)) => Some((Some(v), q)),
            None => None,
        }
    }
}

pub open spec fn parse_op(t: Seq<Seq<char>>, p: int) -> Option<(OpModel, int)> {
    if !in_range(t, p) {
        None
    } else if t[p] == tag('=') {
        match parse_value(t, p + 1) {
            Some((v, q)) => Some((OpModel::Assign(v), q)),
            None => None,
        }
    } else if t[p] == tag('u') {
        Some((OpModel::Unset, p + 1))
    } else if p + 1 < t.len() && t[p] == tag('p') {
        Some((OpModel::PrependToList(t[p + 1]), p + 2))
    } else if p + 1 < t.len() && t[p] == tag('a') {
        Some((OpModel::AppendToList(t[p + 1]), p + 2))
    } else if p + 1 < t.len() && t[p] == tag('r') {
        Some((OpModel::RemoveFromList(t[p + 1]), p + 2))
    } else {
        None
    }
}

pub open spec fn parse_ops(t: Seq<Seq<char>>, p: int) -> Option<(Seq<OpModel>, int)>
    decreases t.len() - p,
{
    if !in_range(t, p) {
        None
    } else if t[p] == tag('/') {
        Some((seq![], p + 1))
    } else {
        match parse_op(t, p) {
            Some((o, q)) => if p < q <= t.len() {
                match parse_ops(t, q) {
                    Some((r, q2)) => Some((seq![o] + r, q2)),
                    None => None,
                }
            } else {
                None
            },
            None => None,
        }
    }
}

pub open spec fn parse_layer(t: Seq<Seq<char>>, p: int) -> Option<(LayerModel, int)> {
    if in_range(t, p) && t[p] == tag('L') && p + 1 < t.len() {
        match parse_ops(t, p + 2) {
            Some((os, q)) => Some((LayerModel { feature: t[p + 1], ops: os }, q)),
            None => None,
        }
    } else {
        None
    }
}

pub open spec fn parse_layers(t: Seq<Seq<char>>, p: int) -> Option<(Seq<LayerModel>, int)>
    decreases t.len() - p,
{
    if !in_range(t, p) {
        None
    } else if t[p] == tag('/') {
        Some((seq![], p + 1))
    } else {
        match parse_layer(t, p) {
            Some((l, q)) => if p < q <= t.len() {
                match parse_layers(t, q) {
                    Some((r, q2)) => Some((seq![l] + r, q2)),
                    None => None,
                }
            } else {
                None
            },
            None => None,
        }
    }
}

pub open spec fn parse_entry(t: Seq<Seq<char>>, p: int) -> Option<(EntryModel, int)> {
    if in_range(t, p) && t[p] == tag('E') && p + 1 < t.len() {
        match parse_opt(t, p + 2) {
            Some((o, q1)) => match parse_opt(t, q1) {
                Some((c, q2)) => match parse_layers(t, q2) {
                    Some((ls, q3)) => Some(
                        (EntryModel { name: t[p + 1], original: o, current: c, layers: ls }, q3),
                    ),
                    None => None,
                },
                None => None,
            },
            None => None,
        }
    } else {
        None
    }
}

pub open spec fn parse_entries(t: Seq<Seq<char>>, p: int) -> Option<(Seq<EntryModel>, int)>
    decreases t.len() - p,
{
    if !in_range(t, p) {
        None
    } else if t[p] == tag('/') {
        Some((seq![], p + 1))
    } else {
        match parse_entry(t, p) {
            Some((e, q)) => if p < q <= t.len() {
                match parse_entries(t, q) {
                    Some((r, q2)) => Some((seq![e] + r, q2)),
                    None => None,
                }
            } else {
                None
            },
            None => None,
        }
    }
}

pub open spec fn parse_features(t: Seq<Seq<char>>, p: int) -> Option<
    (Seq<(Seq<char>, Seq<char>)>, int),
>
    decreases t.len() - p,
{
    if !in_range(t, p) {
        None
    } else if t[p] == tag('/') {
        Some((seq![], p + 1))
    } else if t[p] == tag('F') && p + 2 < t.len() {
        match parse_features(t, p + 3) {
            Some((r, q)) => Some((seq![(t[p + 1], t[p + 2])] + r, q)),
            None => None,
        }
    } else {
        None
    }
}

/// The state that a sequence of tokens describes, if it describes one.
pub open spec fn parse_state(t: Seq<Seq<char>>) -> Option<StateModel> {
    if t.len() > 0 && t[0] == version_tag() {
        match parse_features(t, 1) {
            Some((fs, q)) => match parse_entries(t, q) {
                Some((es, r)) => if r == t.len() {
                    Some(StateModel { features: fs, entries: es })
                } else {
                    None
                },
                None => None,
            },
            None => None,
        }
    } else {
        None
    }
}

pub proof fn lemma_flat_map_push<A>(l: Seq<A>, x: A, f: spec_fn(A) -> Seq<Seq<char>>)
    ensures
        flat_map(l.push(x), f) == flat_map(l, f) + f(x),
    decreases l.len(),
{
    if l.len() == 0 {
        assert(l.push(x).drop_first() =~= l);
        assert(flat_map(l.push(x), f) =~= flat_map(l, f) + f(x));
    } else {
        assert(l.push(x).drop_first() =~= l.drop_first().push(x));
        lemma_flat_map_push(l.drop_first(), x, f);
        assert(flat_map(l.push(x), f) =~= flat_map(l, f) + f(x));
    }
}

/// `x` stands in `t` from position `p` on.
pub open spec fn at(t: Seq<Seq<char>>, p: int, x: Seq<Seq<char>>) -> bool {
    0 <= p && p + x.len() <= t.len() && t.subrange(p, p + x.len()) == x
}

proof fn lemma_at_split(t: Seq<Seq<char>>, p: int, a: Seq<Seq<char>>, b: Seq<Seq<char>>)
    requires
        at(t, p, a + b),
    ensures
        at(t, p, a),
        at(t, p + a.len(), b),
        forall|i: int| 0 <= i < a.len() ==> t[p + i] == a[i],
{
    assert(t.subrange(p, p + a.len()) =~= a) by {
        assert forall|i: int| 0 <= i < a.len() implies t.subrange(p, p + a.len())[i] == a[i] by {
            assert(t.subrange(p, p + (a + b).len())[i] == (a + b)[i]);
        }
    }
    assert(t.subrange(p + a.len(), p + a.len() + b.len()) =~= b) by {
        assert forall|i: int| 0 <= i < b.len() implies t.subrange(
            p + a.len(),
            p + a.len() + b.len(),
        )[i] == b[i] by {
            assert(t.subrange(p, p + (a + b).len())[a.len() + i] == (a + b)[a.len() + i]);
        }
    }
    assert forall|i: int| 0 <= i < a.len() implies t[p + i] == a[i] by {
        assert(t.subrange(p, p + a.len())[i] == a[i]);
    }
}

proof fn lemma_tag_ne(c1: char, c2: char)
    requires
        c1 != c2,
    ensures
        tag(c1) != tag(c2),
{
    assert(tag(c1)[0] != tag(c2)[0]);
}

proof fn lemma_rt_elems(t: Seq<Seq<char>>, p: int, l: Seq<Seq<char>>)
    requires
        at(t, p, elems_toks(l) + seq![tag('/')]),
    ensures
        parse_elems(t, p) == Some((l, p + elems_toks(l).len() + 1)),
    decreases l.len(),
{
    lemma_at_split(t, p, elems_toks(l), seq![tag('/')]);
    if l.len() == 0 {
        assert(elems_toks(l) + seq![tag('/')] =~= seq![tag('/')]);
        lemma_at_split(t, p, seq![tag('/')], seq![]);
        assert(t[p] == seq![tag('/')][0]);
    } else {
        let rest = elems_toks(l.drop_first());
        assert(elems_toks(l) == seq![tag('e'), l[0]] + rest);
        assert(elems_toks(l) + seq![tag('/')] =~= seq![tag('e'), l[0]] + (rest + seq![tag('/')]));
        lemma_at_split(t, p, seq![tag('e'), l[0]], rest + seq![tag('/')]);
        assert(t[p] == seq![tag('e'), l[0]][0]);
        assert(t[p + 1] == seq![tag('e'), l[0]][1]);
        lemma_tag_ne('e', '/');
        lemma_rt_elems(t, p + 2, l.drop_first());
        assert(seq![l[0]] + l.drop_first() =~= l);
    }
}

proof fn lemma_rt_value(t: Seq<Seq<char>>, p: int, v: ValueModel)
    requires
        at(t, p, value_toks(v)),
    ensures
        parse_value(t, p) == Some((v, p + value_toks(v).len())),
{
    match v {
        ValueModel::Scalar(x) => {
            lemma_at_split(t, p, value_toks(v), seq![]);
            assert(t[p] == value_toks(v)[0]);
            assert(t[p + 1] == value_toks(v)[1]);
        },
        ValueModel::List(l) => {
            assert(value_toks(v) =~= seq![tag('l')] + (elems_toks(l) + seq![tag('/')]));
            lemma_at_split(t, p, seq![tag('l')], elems_toks(l) + seq![tag('/')]);
            assert(t[p] == seq![tag('l')][0]);
            lemma_tag_ne('l', 's');
            lemma_rt_elems(t, p + 1, l);
        },
    }
}

proof fn lemma_rt_opt(t: Seq<Seq<char>>, p: int, o: Option<ValueModel>)
    requires
        at(t, p, opt_toks(o)),
    ensures
        parse_opt(t, p) == Some((o, p + opt_toks(o).len())),
{
    lemma_at_split(t, p, opt_toks(o), seq![]);
    assert(t[p] == opt_toks(o)[0]);
    match o {
        None => {},
        Some(v) => {
            assert(value_toks(v)[0] == tag('s') || value_toks(v)[0] == tag('l'));
            lemma_tag_ne('s', '-');
            lemma_tag_ne('l', '-');
            lemma_rt_value(t, p, v);
        },
    }
}

proof fn lemma_rt_op(t: Seq<Seq<char>>, p: int, o: OpModel)
    requires
        at(t, p, op_toks(o)),
    ensures
        parse_op(t, p) == Some((o, p + op_toks(o).len())),
        op_toks(o).len() > 0,
        op_toks(o)[0] != tag('/'),
{
    lemma_at_split(t, p, op_toks(o), seq![]);
    assert(t[p] == op_toks(o)[0]);
    lemma_tag_ne('=', '/');
    lemma_tag_ne('u', '/');
    lemma_tag_ne('p', '/');
    lemma_tag_ne('a', '/');
    lemma_tag_ne('r', '/');
    lemma_tag_ne('u', '=');
    lemma_tag_ne('p', '=');
    lemma_tag_ne('a', '=');
    lemma_tag_ne('r', '=');
    lemma_tag_ne('p', 'u');
    lemma_tag_ne('a', 'u');
    lemma_tag_ne('r', 'u');
    lemma_tag_ne('a', 'p');
    lemma_tag_ne('r', 'p');
    lemma_tag_ne('r', 'a');
    match o {
        OpModel::Assign(v) => {
            lemma_at_split(t, p, seq![tag('=')], value_toks(v));
            lemma_rt_value(t, p + 1, v);
        },
        OpModel::Unset => {},
        _ => {
            assert(t[p + 1] == op_toks(o)[1]);
        },
    }
}

proof fn lemma_rt_ops(t: Seq<Seq<char>>, p: int, os: Seq<OpModel>)
    requires
        at(t, p, ops_toks(os) + seq![tag('/')]),
    ensures
        parse_ops(t, p) == Some((os, p + ops_toks(os).len() + 1)),
    decreases os.len(),
{
    lemma_at_split(t, p, ops_toks(os), seq![tag('/')]);
    if os.len() == 0 {
        assert(ops_toks(os) + seq![tag('/')] =~= seq![tag('/')]);
        lemma_at_split(t, p, seq![tag('/')], seq![]);
        assert(t[p] == seq![tag('/')][0]);
    } else {
        let first = op_toks(os[0]);
        let rest = ops_toks(os.drop_first());
        assert(ops_toks(os) == first + rest);
        assert(ops_toks(os) + seq![tag('/')] =~= first + (rest + seq![tag('/')]));
        lemma_at_split(t, p, first, rest + seq![tag('/')]);
        assert(t[p] == first[0]);
        lemma_rt_op(t, p, os[0]);
        lemma_rt_ops(t, p + first.len(), os.drop_first());
        assert(seq![os[0]] + os.drop_first() =~= os);
    }
}

proof fn lemma_rt_layer(t: Seq<Seq<char>>, p: int, l: LayerModel)
    requires
        at(t, p, layer_toks(l)),
    ensures
        parse_layer(t, p) == Some((l, p + layer_toks(l).len())),
{
    assert(layer_toks(l) =~= seq![tag('L'), l.feature] + (ops_toks(l.ops) + seq![tag('/')]));
    lemma_at_split(t, p, seq![tag('L'), l.feature], ops_toks(l.ops) + seq![tag('/')]);
    assert(t[p] == seq![tag('L'), l.feature][0]);
    assert(t[p + 1] == seq![tag('L'), l.feature][1]);
    lemma_rt_ops(t, p + 2, l.ops);
}

proof fn lemma_rt_layers(t: Seq<Seq<char>>, p: int, ls: Seq<LayerModel>)
    requires
        at(t, p, layers_toks(ls) + seq![tag('/')]),
    ensures
        parse_layers(t, p) == Some((ls, p + layers_toks(ls).len() + 1)),
    decreases ls.len(),
{
    lemma_at_split(t, p, layers_toks(ls), seq![tag('/')]);
    if ls.len() == 0 {
        assert(layers_toks(ls) + seq![tag('/')] =~= seq![tag('/')]);
        lemma_at_split(t, p, seq![tag('/')], seq![]);
        assert(t[p] == seq![tag('/')][0]);
    } else {
        let first = layer_toks(ls[0]);
        let rest = layers_toks(ls.drop_first());
        assert(layers_toks(ls) == first + rest);
        assert(layers_toks(ls) + seq![tag('/')] =~= first + (rest + seq![tag('/')]));
        lemma_at_split(t, p, first, rest + seq![tag('/')]);
        assert(t[p] == first[0]);
        assert(first[0] == tag('L'));
        lemma_tag_ne('L', '/');
        lemma_rt_layer(t, p, ls[0]);
        lemma_rt_layers(t, p + first.len(), ls.drop_first());
        assert(seq![ls[0]] + ls.drop_first() =~= ls);
    }
}

proof fn lemma_rt_entry(t: Seq<Seq<char>>, p: int, e: EntryModel)
    requires
        at(t, p, entry_toks(e)),
    ensures
        parse_entry(t, p) == Some((e, p + entry_toks(e).len())),
{
    let a = seq![tag('E'), e.name];
    let o = opt_toks(e.original);
    let c = opt_toks(e.current);
    let l = layers_toks(e.layers) + seq![tag('/')];
    assert(entry_toks(e) =~= a + (o + (c + l)));
    lemma_at_split(t, p, a, o + (c + l));
    assert(t[p] == a[0]);
    assert(t[p + 1] == a[1]);
    lemma_at_split(t, p + 2, o, c + l);
    lemma_at_split(t, p + 2 + o.len(), c, l);
    lemma_rt_opt(t, p + 2, e.original);
    lemma_rt_opt(t, p + 2 + o.len(), e.current);
    lemma_rt_layers(t, p + 2 + o.len() + c.len(), e.layers);
}

proof fn lemma_rt_entries(t: Seq<Seq<char>>, p: int, es: Seq<EntryModel>)
    requires
        at(t, p, entries_toks(es) + seq![tag('/')]),
    ensures
        parse_entries(t, p) == Some((es, p + entries_toks(es).len() + 1)),
    decreases es.len(),
{
    lemma_at_split(t, p, entries_toks(es), seq![tag('/')]);
    if es.len() == 0 {
        assert(entries_toks(es) + seq![tag('/')] =~= seq![tag('/')]);
        lemma_at_split(t, p, seq![tag('/')], seq![]);
        assert(t[p] == seq![tag('/')][0]);
    } else {
        let first = entry_toks(es[0]);
        let rest = entries_toks(es.drop_first());
        assert(entries_toks(es) == first + rest);
        assert(entries_toks(es) + seq![tag('/')] =~= first + (rest + seq![tag('/')]));
        lemma_at_split(t, p, first, rest + seq![tag('/')]);
        assert(first[0] == tag('E'));
        assert(t[p] == first[0]);
        lemma_tag_ne('E', '/');
        lemma_rt_entry(t, p, es[0]);
        lemma_rt_entries(t, p + first.len(), es.drop_first());
        assert(seq![es[0]] + es.drop_first() =~= es);
    }
}

proof fn lemma_rt_features(t: Seq<Seq<char>>, p: int, fs: Seq<(Seq<char>, Seq<char>)>)
    requires
        at(t, p, features_toks(fs) + seq![tag('/')]),
    ensures
        parse_features(t, p) == Some((fs, p + features_toks(fs).len() + 1)),
    decreases fs.len(),
{
    lemma_at_split(t, p, features_toks(fs), seq![tag('/')]);
    if fs.len() == 0 {
        assert(features_toks(fs) + seq![tag('/')] =~= seq![tag('/')]);
        lemma_at_split(t, p, seq![tag('/')], seq![]);
        assert(t[p] == seq![tag('/')][0]);
    } else {
        let first = feature_toks(fs[0]);
        let rest = features_toks(fs.drop_first());
        assert(features_toks(fs) == first + rest);
        assert(features_toks(fs) + seq![tag('/')] =~= first + (rest + seq![tag('/')]));
        lemma_at_split(t, p, first, rest + seq![tag('/')]);
        lemma_tag_ne('F', '/');
        assert(t[p] == first[0]);
        assert(t[p + 1] == first[1]);
        assert(t[p + 2] == first[2]);
        lemma_rt_features(t, p + 3, fs.drop_first());
        assert(seq![(t[p + 1], t[p + 2])] + fs.drop_first() =~= fs);
    }
}

/// The tokens of a state describe that state and no other.
pub proof fn lemma_tokens_round_trip(s: StateModel)
    ensures
        parse_state(state_toks(s)) == Some(s),
{
    let t = state_toks(s);
    let f = features_toks(s.features) + seq![tag('/')];
    let e = entries_toks(s.entries) + seq![tag('/')];
    assert(t =~= seq![version_tag()] + (f + e));
    assert(t.subrange(0, t.len() as int) =~= t);
    lemma_at_split(t, 0, seq![version_tag()], f + e);
    assert(t[0] == seq![version_tag()][0]);
    lemma_at_split(t, 1, f, e);
    lemma_rt_features(t, 1, s.features);
    lemma_rt_entries(t, 1 + f.len() as int, s.entries);
}

fn put_tag(out: &mut Vec<Vec<char>>, c: char)
    ensures
        tokens_view(final(out)@) == tokens_view(old(out)@) + seq![tag(c)],
{
    let mut v: Vec<char> = Vec::new();
    v.push(c);
    assert(v@ =~= tag(c));
    out.push(v);
    assert(tokens_view(out@) =~= tokens_view(old(out)@) + seq![tag(c)]);
}

fn put_text(out: &mut Vec<Vec<char>>, x: &String)
    ensures
        tokens_view(final(out)@) == tokens_view(old(out)@) + seq![x@],
{
    out.push(chars_of(x.as_str()));
    assert(tokens_view(out@) =~= tokens_view(old(out)@) + seq![x@]);
}

fn put_value(out: &mut Vec<Vec<char>>, v: &Value)
    ensures
        tokens_view(final(out)@) == tokens_view(old(out)@) + value_toks(v@),
{
    let ghost start = tokens_view(out@);
    match v {
        Value::Scalar(x) => {
            put_tag(out, 's');
            put_text(out, x);
            assert(tokens_view(out@) =~= start + value_toks(v@));
        },
        Value::List(l) => {
            put_tag(out, 'l');
            let ghost lv = texts(l@);
            let mut i: usize = 0;
            while i < l.len()
                invariant
                    i <= l@.len(),
                    lv == texts(l@),
                    tokens_view(out@) == start + seq![tag('l')] + elems_toks(lv.take(i as int)),
                decreases l@.len() - i,
            {
                put_tag(out, 'e');
                put_text(out, &l[i]);
                proof {
                    assert(lv.take(i + 1) =~= lv.take(i as int).push(lv[i as int]));
                    lemma_flat_map_push(
                        lv.take(i as int),
                        lv[i as int],
                        |x: Seq<char>| seq![tag('e'), x],
                    );
                    assert(tokens_view(out@) =~= start + seq![tag('l')] + elems_toks(
                        lv.take(i + 1),
                    ));
                }
                i += 1;
            }
            put_tag(out, '/');
            assert(lv.take(lv.len() as int) =~= lv);
            assert(tokens_view(out@) =~= start + value_toks(v@));
        },
    }
}

fn put_opt(out: &mut Vec<Vec<char>>, o: &Option<Value>)
    ensures
        tokens_view(final(out)@) == tokens_view(old(out)@) + opt_toks(opt_value(*o)),
{
    match o {
        None => put_tag(out, '-'),
        Some(v) => put_value(out, v),
    }
}

fn put_op(out: &mut Vec<Vec<char>>, o: &Op)
    ensures
        tokens_view(final(out)@) == tokens_view(old(out)@) + op_toks(o@),
{
    let ghost start = tokens_view(out@);
    match o {
        Op::Assign(v) => {
            put_tag(out, '=');
            put_value(out, v);
        },
        Op::Unset => put_tag(out, 'u'),
        Op::PrependToList(x) => {
            put_tag(out, 'p');
            put_text(out, x);
        },
        Op::AppendToList(x) => {
            put_tag(out, 'a');
            put_text(out, x);
        },
        Op::RemoveFromList(x) => {
            put_tag(out, 'r');
            put_text(out, x);
        },
    }
    assert(tokens_view(out@) =~= start + op_toks(o@));
}

fn put_layer(out: &mut Vec<Vec<char>>, l: &Layer)
    ensures
        tokens_view(final(out)@) == tokens_view(old(out)@) + layer_toks(l@),
{
    let ghost start = tokens_view(out@);
    put_tag(out, 'L');
    put_text(out, &l.feature);
    let ghost ov = ops_view(l.ops@);
    let mut i: usize = 0;
    while i < l.ops.len()
        invariant
            i <= l.ops@.len(),
            ov == ops_view(l.ops@),
            tokens_view(out@) == start + seq![tag('L'), l.feature@] + ops_toks(ov.take(i as int)),
        decreases l.ops@.len() - i,
    {
        put_op(out, &l.ops[i]);
        proof {
            assert(ov.take(i + 1) =~= ov.take(i as int).push(ov[i as int]));
            lemma_flat_map_push(ov.take(i as int), ov[i as int], |o: OpModel| op_toks(o));
            assert(tokens_view(out@) =~= start + seq![tag('L'), l.feature@] + ops_toks(
                ov.take(i + 1),
            ));
        }
        i += 1;
    }
    put_tag(out, '/');
    assert(ov.take(ov.len() as int) =~= ov);
    assert(tokens_view(out@) =~= start + layer_toks(l@));
}

fn put_entry(out: &mut Vec<Vec<char>>, e: &ShadowEntry)
    ensures
        tokens_view(final(out)@) == tokens_view(old(out)@) + entry_toks(e@),
{
    let ghost start = tokens_view(out@);
    put_tag(out, 'E');
    put_text(out, &e.name);
    put_opt(out, &e.original);
    put_opt(out, &e.current);
    let ghost head = tokens_view(out@);
    let ghost lv = layers_view(e.layers@);
    let mut i: usize = 0;
    while i < e.layers.len()
        invariant
            i <= e.layers@.len(),
            lv == layers_view(e.layers@),
            tokens_view(out@) == head + layers_toks(lv.take(i as int)),
        decreases e.layers@.len() - i,
    {
        put_layer(out, &e.layers[i]);
        proof {
            assert(lv.take(i + 1) =~= lv.take(i as int).push(lv[i as int]));
            lemma_flat_map_push(lv.take(i as int), lv[i as int], |l: LayerModel| layer_toks(l));
            assert(tokens_view(out@) =~= head + layers_toks(lv.take(i + 1)));
        }
        i += 1;
    }
    put_tag(out, '/');
    assert(lv.take(lv.len() as int) =~= lv);
    assert(tokens_view(out@) =~= start + entry_toks(e@));
}

/// The tokens of a state.
pub fn state_tokens(st: &ShadowState) -> (r: Vec<Vec<char>>)
    ensures
        tokens_view(r@) == state_toks(st@),
{
    let mut out: Vec<Vec<char>> = Vec::new();
    assert(tokens_view(out@) =~= Seq::<Seq<char>>::empty());
    let mut v: Vec<char> = Vec::new();
    v.push('s');
    v.push('h');
    v.push('a');
    v.push('d');
    v.push('o');
    v.push('w');
    v.push('1');
    assert(v@ =~= version_tag());
    out.push(v);
    assert(tokens_view(out@) =~= seq![version_tag()]);
    let ghost fv = features_view(st.features@);
    let mut i: usize = 0;
    while i < st.features.len()
        invariant
            i <= st.features@.len(),
            fv == features_view(st.features@),
            tokens_view(out@) == seq![version_tag()] + features_toks(fv.take(i as int)),
        decreases st.features@.len() - i,
    {
        put_tag(&mut out, 'F');
        put_text(&mut out, &st.features[i].path);
        put_text(&mut out, &st.features[i].hash);
        proof {
            assert(fv.take(i + 1) =~= fv.take(i as int).push(fv[i as int]));
            lemma_flat_map_push(
                fv.take(i as int),
                fv[i as int],
                |f: (Seq<char>, Seq<char>)| feature_toks(f),
            );
            assert(tokens_view(out@) =~= seq![version_tag()] + features_toks(fv.take(i + 1)));
        }
        i += 1;
    }
    put_tag(&mut out, '/');
    assert(fv.take(fv.len() as int) =~= fv);
    let ghost head = tokens_view(out@);
    let ghost ev = entries_view(st.entries@);
    let mut j: usize = 0;
    while j < st.entries.len()
        invariant
            j <= st.entries@.len(),
            ev == entries_view(st.entries@),
            tokens_view(out@) == head + entries_toks(ev.take(j as int)),
        decreases st.entries@.len() - j,
    {
        put_entry(&mut out, &st.entries[j]);
        proof {
            assert(ev.take(j + 1) =~= ev.take(j as int).push(ev[j as int]));
            lemma_flat_map_push(ev.take(j as int), ev[j as int], |e: EntryModel| entry_toks(e));
            assert(tokens_view(out@) =~= head + entries_toks(ev.take(j + 1)));
        }
        j += 1;
    }
    put_tag(&mut out, '/');
    assert(ev.take(ev.len() as int) =~= ev);
    assert(tokens_view(out@) =~= state_toks(st@));
    out
}

fn is_tag(tok: &Vec<char>, c: char) -> (r: bool)
    ensures
        r == (tok@ == tag(c)),
{
    if tok.len() == 1 && tok[0] == c {
        assert(tok@ =~= tag(c));
        true
    } else {
        assert(tok@.len() != 1 || tok@[0] != tag(c)[0]);
        false
    }
}

fn parse_elems_x(t: &Vec<Vec<char>>, p0: usize) -> (r: Option<(Vec<String>, usize)>)
    ensures
        match r {
            Some((l, q)) => parse_elems(tokens_view(t@), p0 as int) == Some((texts(l@), q as int)),
            None => (parse_elems(tokens_view(t@), p0 as int) is None),
        },
{
    let ghost tv = tokens_view(t@);
    let mut acc: Vec<String> = Vec::new();
    let mut p = p0;
    assert(texts(acc@) + Seq::<Seq<char>>::empty() =~= Seq::<Seq<char>>::empty());
    loop
        invariant
            tv == tokens_view(t@),
            p0 <= p,
            parse_elems(tv, p0 as int) == (match parse_elems(tv, p as int) {
                Some((r, q)) => Some((texts(acc@) + r, q)),
                None => None,
            }),
        decreases t@.len() - p,
    {
        if p >= t.len() {
            return None;
        }
        if is_tag(&t[p], '/') {
            assert(texts(acc@) + Seq::<Seq<char>>::empty() =~= texts(acc@));
            return Some((acc, p + 1));
        }
        if is_tag(&t[p], 'e') && p + 1 < t.len() {
            let ghost before = acc@;
            acc.push(string_of(&t[p + 1]));
            proof {
                assert(texts(acc@) =~= texts(before).push(tv[p + 1]));
                match parse_elems(tv, p + 2) {
                    Some((r, q)) => {
                        assert(texts(before) + (seq![tv[p + 1]] + r) =~= texts(acc@) + r);
                    },
                    None => {},
                }
            }
            p = p + 2;
        } else {
            return None;
        }
    }
}

fn parse_value_x(t: &Vec<Vec<char>>, p: usize) -> (r: Option<(Value, usize)>)
    ensures
        match r {
            Some((v, q)) => parse_value(tokens_view(t@), p as int) == Some((v@, q as int)),
            None => (parse_value(tokens_view(t@), p as int) is None),
        },
{
    if p >= t.len() {
        return None;
    }
    if is_tag(&t[p], 's') && p + 1 < t.len() {
        return Some((Value::Scalar(string_of(&t[p + 1])), p + 2));
    }
    if is_tag(&t[p], 'l') {
        match parse_elems_x(t, p + 1) {
            Some((l, q)) => Some((Value::List(l), q)),
            None => None,
        }
    } else {
        None
    }
}

fn parse_opt_x(t: &Vec<Vec<char>>, p: usize) -> (r: Option<(Option<Value>, usize)>)
    ensures
        match r {
            Some((v, q)) => parse_opt(tokens_view(t@), p as int) == Some((opt_value(v), q as int)),
            None => (parse_opt(tokens_view(t@), p as int) is None),
        },
{
    if p < t.len() && is_tag(&t[p], '-') {
        return Some((None, p + 1));
    }
    match parse_value_x(t, p) {
        Some((v, q)) => Some((Some(v), q)),
        None => None,
    }
}

fn parse_op_x(t: &Vec<Vec<char>>, p: usize) -> (r: Option<(Op, usize)>)
    ensures
        match r {
            Some((o, q)) => parse_op(tokens_view(t@), p as int) == Some((o@, q as int)),
            None => (parse_op(tokens_view(t@), p as int) is None),
        },
{
    if p >= t.len() {
        return None;
    }
    if is_tag(&t[p], '=') {
        return match parse_value_x(t, p + 1) {
            Some((v, q)) => Some((Op::Assign(v), q)),
            None => None,
        };
    }
    if is_tag(&t[p], 'u') {
        return Some((Op::Unset, p + 1));
    }
    if p + 1 < t.len() && is_tag(&t[p], 'p') {
        return Some((Op::PrependToList(string_of(&t[p + 1])), p + 2));
    }
    if p + 1 < t.len() && is_tag(&t[p], 'a') {
        return Some((Op::AppendToList(string_of(&t[p + 1])), p + 2));
    }
    if p + 1 < t.len() && is_tag(&t[p], 'r') {
        return Some((Op::RemoveFromList(string_of(&t[p + 1])), p + 2));
    }
    None
}

fn parse_ops_x(t: &Vec<Vec<char>>, p0: usize) -> (r: Option<(Vec<Op>, usize)>)
    ensures
        match r {
            Some((l, q)) => parse_ops(tokens_view(t@), p0 as int) == Some((ops_view(l@), q as int)),
            None => (parse_ops(tokens_view(t@), p0 as int) is None),
        },
{
    let ghost tv = tokens_view(t@);
    let mut acc: Vec<Op> = Vec::new();
    let mut p = p0;
    assert(ops_view(acc@) + Seq::<OpModel>::empty() =~= Seq::<OpModel>::empty());
    loop
        invariant
            tv == tokens_view(t@),
            p0 <= p,
            parse_ops(tv, p0 as int) == (match parse_ops(tv, p as int) {
                Some((r, q)) => Some((ops_view(acc@) + r, q)),
                None => None,
            }),
        decreases t@.len() - p,
    {
        if p >= t.len() {
            return None;
        }
        if is_tag(&t[p], '/') {
            assert(ops_view(acc@) + Seq::<OpModel>::empty() =~= ops_view(acc@));
            return Some((acc, p + 1));
        }
        match parse_op_x(t, p) {
            Some((o, q)) => {
                if q <= p || q > t.len() {
                    return None;
                }
                let ghost before = acc@;
                let ghost ov = o@;
                acc.push(o);
                proof {
                    assert(ops_view(acc@) =~= ops_view(before).push(ov));
                    match parse_ops(tv, q as int) {
                        Some((r, q2)) => {
                            assert(ops_view(before) + (seq![ov] + r) =~= ops_view(acc@) + r);
                        },
                        None => {},
                    }
                }
                p = q;
            },
            None => {
                return None;
            },
        }
    }
}

fn parse_layer_x(t: &Vec<Vec<char>>, p: usize) -> (r: Option<(Layer, usize)>)
    ensures
        match r {
            Some((l, q)) => parse_layer(tokens_view(t@), p as int) == Some((l@, q as int)),
            None => (parse_layer(tokens_view(t@), p as int) is None),
        },
{
    if p < t.len() && is_tag(&t[p], 'L') && p + 1 < t.len() {
        match parse_ops_x(t, p + 2) {
            Some((ops, q)) => Some((Layer { feature: string_of(&t[p + 1]), ops }, q)),
            None => None,
        }
    } else {
        None
    }
}

fn parse_layers_x(t: &Vec<Vec<char>>, p0: usize) -> (r: Option<(Vec<Layer>, usize)>)
    ensures
        match r {
            Some((l, q)) => parse_layers(tokens_view(t@), p0 as int) == Some(
                (layers_view(l@), q as int),
            ),
            None => (parse_layers(tokens_view(t@), p0 as int) is None),
        },
{
    let ghost tv = tokens_view(t@);
    let mut acc: Vec<Layer> = Vec::new();
    let mut p = p0;
    assert(layers_view(acc@) + Seq::<LayerModel>::empty() =~= Seq::<LayerModel>::empty());
    loop
        invariant
            tv == tokens_view(t@),
            p0 <= p,
            parse_layers(tv, p0 as int) == (match parse_layers(tv, p as int) {
                Some((r, q)) => Some((layers_view(acc@) + r, q)),
                None => None,
            }),
        decreases t@.len() - p,
    {
        if p >= t.len() {
            return None;
        }
        if is_tag(&t[p], '/') {
            assert(layers_view(acc@) + Seq::<LayerModel>::empty() =~= layers_view(acc@));
            return Some((acc, p + 1));
        }
        match parse_layer_x(t, p) {
            Some((l, q)) => {
                if q <= p || q > t.len() {
                    return None;
                }
                let ghost before = acc@;
                let ghost lv = l@;
                acc.push(l);
                proof {
                    assert(layers_view(acc@) =~= layers_view(before).push(lv));
                    match parse_layers(tv, q as int) {
                        Some((r, q2)) => {
                            assert(layers_view(before) + (seq![lv] + r) =~= layers_view(acc@) + r);
                        },
                        None => {},
                    }
                }
                p = q;
            },
            None => {
                return None;
            },
        }
    }
}

fn parse_entry_x(t: &Vec<Vec<char>>, p: usize) -> (r: Option<(ShadowEntry, usize)>)
    ensures
        match r {
            Some((e, q)) => parse_entry(tokens_view(t@), p as int) == Some((e@, q as int)),
            None => (parse_entry(tokens_view(t@), p as int) is None),
        },
{
    if !(p < t.len() && is_tag(&t[p], 'E') && p + 1 < t.len()) {
        return None;
    }
    let (original, q1) = match parse_opt_x(t, p + 2) {
        Some(x) => x,
        None => {
            return None;
        },
    };
    let (current, q2) = match parse_opt_x(t, q1) {
        Some(x) => x,
        None => {
            return None;
        },
    };
    let (layers, q3) = match parse_layers_x(t, q2) {
        Some(x) => x,
        None => {
            return None;
        },
    };
    Some((ShadowEntry { name: string_of(&t[p + 1]), original, current, layers }, q3))
}

fn parse_entries_x(t: &Vec<Vec<char>>, p0: usize) -> (r: Option<(Vec<ShadowEntry>, usize)>)
    ensures
        match r {
            Some((l, q)) => parse_entries(tokens_view(t@), p0 as int) == Some(
                (entries_view(l@), q as int),
            ),
            None => (parse_entries(tokens_view(t@), p0 as int) is None),
        },
{
    let ghost tv = tokens_view(t@);
    let mut acc: Vec<ShadowEntry> = Vec::new();
    let mut p = p0;
    assert(entries_view(acc@) + Seq::<EntryModel>::empty() =~= Seq::<EntryModel>::empty());
    loop
        invariant
            tv == tokens_view(t@),
            p0 <= p,
            parse_entries(tv, p0 as int) == (match parse_entries(tv, p as int) {
                Some((r, q)) => Some((entries_view(acc@) + r, q)),
                None => None,
            }),
        decreases t@.len() - p,
    {
        if p >= t.len() {
            return None;
        }
        if is_tag(&t[p], '/') {
            assert(entries_view(acc@) + Seq::<EntryModel>::empty() =~= entries_view(acc@));
            return Some((acc, p + 1));
        }
        match parse_entry_x(t, p) {
            Some((e, q)) => {
                if q <= p || q > t.len() {
                    return None;
                }
                let ghost before = acc@;
                let ghost ev = e@;
                acc.push(e);
                proof {
                    assert(entries_view(acc@) =~= entries_view(before).push(ev));
                    match parse_entries(tv, q as int) {
                        Some((r, q2)) => {
                            assert(entries_view(before) + (seq![ev] + r) =~= entries_view(acc@)
                                + r);
                        },
                        None => {},
                    }
                }
                p = q;
            },
            None => {
                return None;
            },
        }
    }
}

fn parse_features_x(t: &Vec<Vec<char>>, p0: usize) -> (r: Option<(Vec<ActiveFeature>, usize)>)
    ensures
        match r {
            Some((l, q)) => parse_features(tokens_view(t@), p0 as int) == Some(
                (features_view(l@), q as int),
            ),
            None => (parse_features(tokens_view(t@), p0 as int) is None),
        },
{
    let ghost tv = tokens_view(t@);
    let mut acc: Vec<ActiveFeature> = Vec::new();
    let mut p = p0;
    assert(features_view(acc@) + Seq::<(Seq<char>, Seq<char>)>::empty() =~= Seq::<
        (Seq<char>, Seq<char>),
    >::empty());
    loop
        invariant
            tv == tokens_view(t@),
            p0 <= p,
            parse_features(tv, p0 as int) == (match parse_features(tv, p as int) {
                Some((r, q)) => Some((features_view(acc@) + r, q)),
                None => None,
            }),
        decreases t@.len() - p,
    {
        if p >= t.len() {
            return None;
        }
        if is_tag(&t[p], '/') {
            assert(features_view(acc@) + Seq::<(Seq<char>, Seq<char>)>::empty()
                =~= features_view(acc@));
            return Some((acc, p + 1));
        }
        if is_tag(&t[p], 'F') && p + 1 < t.len() && p + 2 < t.len() {
            let ghost before = acc@;
            acc.push(ActiveFeature { path: string_of(&t[p + 1]), hash: string_of(&t[p + 2]) });
            proof {
                let x = (tv[p + 1], tv[p + 2]);
                assert(features_view(acc@) =~= features_view(before).push(x));
                match parse_features(tv, p + 3) {
                    Some((r, q)) => {
                        assert(features_view(before) + (seq![x] + r) =~= features_view(acc@) + r);
                    },
                    None => {},
                }
            }
            p = p + 3;
        } else {
            return None;
        }
    }
}

fn is_version(tok: &Vec<char>) -> (r: bool)
    ensures
        r == (tok@ == version_tag()),
{
    if tok.len() == 7 && tok[0] == 's' && tok[1] == 'h' && tok[2] == 'a' && tok[3] == 'd' && tok[4]
        == 'o' && tok[5] == 'w' && tok[6] == '1' {
        assert(tok@ =~= version_tag());
        true
    } else {
        assert(tok@ != version_tag() || tok@.len() == 7);
        false
    }
}

/// The state that a sequence of tokens describes, if it describes one.
pub fn parse_state_tokens(t: &Vec<Vec<char>>) -> (r: Option<ShadowState>)
    ensures
        match r {
            Some(st) => parse_state(tokens_view(t@)) == Some(st@),
            None => (parse_state(tokens_view(t@)) is None),
        },
{
    if !(t.len() > 0 && is_version(&t[0])) {
        return None;
    }
    let (features, q) = match parse_features_x(t, 1) {
        Some(x) => x,
        None => {
            return None;
        },
    };
    let (entries, r) = match parse_entries_x(t, q) {
        Some(x) => x,
        None => {
            return None;
        },
    };
    if r == t.len() {
        Some(ShadowState { features, entries })
    } else {
        None
    }
}

/// The blob of a state: its tokens written as one line of text.
pub open spec fn encode_spec(s: StateModel) -> Seq<char> {
    join(state_toks(s))
}

/// The state that a blob holds, if it is a well-formed blob of this version.
pub open spec fn decode_spec(text: Seq<char>) -> Option<StateModel> {
    match split(text) {
        Some(t) => parse_state(t),
        None => None,
    }
}

#[derive(Debug, Clone, PartialEq, Eq)]
pub enum CorruptStateError {
    Malformed,
}

/// Writes a state as a blob.
pub fn encode(st: &ShadowState) -> (r: String)
    ensures
        r@ == encode_spec(st@),
{
    let toks = state_tokens(st);
    let cs = join_tokens(&toks);
    string_of(&cs)
}

/// Reads a state back from a blob; fails on text that is not a blob of this
/// version.
pub fn decode(text: &str) -> (r: Result<ShadowState, CorruptStateError>)
    ensures
        match r {
            Ok(st) => decode_spec(text@) == Some(st@),
            Err(_) => (decode_spec(text@) is None),
        },
{
    let cs = chars_of(text);
    match split_tokens(&cs) {
        Some(toks) => match parse_state_tokens(&toks) {
            Some(st) => Ok(st),
            None => Err(CorruptStateError::Malformed),
        },
        None => Err(CorruptStateError::Malformed),
    }
}

/// Round trip: decoding the blob of a state gives back that state, whatever
/// its texts hold (separators, escapes, line breaks, nothing at all).
pub proof fn lemma_round_trip(s: StateModel)
    ensures
        decode_spec(encode_spec(s)) == Some(s),
{
    lemma_split_join(state_toks(s));
    lemma_tokens_round_trip(s);
}

} // verus!
