use vstd::prelude::*;

use crate::model::{
    apply, apply_op, apply_ops, copy_op, copy_opt_value, copy_text, copy_value, mutations_view,
    opt_value, ops_view, Mutation, MutationModel, Op, OpModel, Value, ValueModel,
};

verus! {

/// The operations that one feature applied to one variable, in order.
#[derive(Debug, Clone, PartialEq, Eq)]
pub struct Layer {
    pub feature: String,
    pub ops: Vec<Op>,
}

pub struct LayerModel {
    pub feature: Seq<char>,
    pub ops: Seq<OpModel>,
}

impl View for Layer {
    type V = LayerModel;

    open spec fn view(&self) -> LayerModel {
        LayerModel { feature: self.feature@, ops: ops_view(self.ops@) }
    }
}

pub open spec fn layers_view(v: Seq<Layer>) -> Seq<LayerModel> {
    v.map_values(|l: Layer| l@)
}

/// What is remembered of one variable that active features have touched: its
/// value before any of them, its value now, and the layers of the features
/// that touched it, oldest first.
#[derive(Debug, Clone, PartialEq, Eq)]
pub struct ShadowEntry {
    pub name: String,
    pub original: Option<Value>,
    pub current: Option<Value>,
    pub layers: Vec<Layer>,
}

pub struct EntryModel {
    pub name: Seq<char>,
    pub original: Option<ValueModel>,
    pub current: Option<ValueModel>,
    pub layers: Seq<LayerModel>,
}

impl View for ShadowEntry {
    type V = EntryModel;

    open spec fn view(&self) -> EntryModel {
        EntryModel {
            name: self.name@,
            original: opt_value(self.original),
            current: opt_value(self.current),
            layers: layers_view(self.layers@),
        }
    }
}

pub open spec fn entries_view(v: Seq<ShadowEntry>) -> Seq<EntryModel> {
    v.map_values(|e: ShadowEntry| e@)
}

/// An activated configuration directory, as remembered between invocations.
#[derive(Debug, Clone, PartialEq, Eq)]
pub struct ActiveFeature {
    pub path: String,
    pub hash: String,
}

impl View for ActiveFeature {
    type V = (Seq<char>, Seq<char>);

    open spec fn view(&self) -> (Seq<char>, Seq<char>) {
        (self.path@, self.hash@)
    }
}

pub open spec fn features_view(v: Seq<ActiveFeature>) -> Seq<(Seq<char>, Seq<char>)> {
    v.map_values(|f: ActiveFeature| f@)
}

/// The layered state: the active features in order of activation, and one
/// entry for each variable that they touched.
#[derive(Debug, Clone, PartialEq, Eq)]
pub struct ShadowState {
    pub features: Vec<ActiveFeature>,
    pub entries: Vec<ShadowEntry>,
}

pub struct StateModel {
    pub features: Seq<(Seq<char>, Seq<char>)>,
    pub entries: Seq<EntryModel>,
}

impl View for ShadowState {
    type V = StateModel;

    open spec fn view(&self) -> StateModel {
        StateModel { features: features_view(self.features@), entries: entries_view(self.entries@) }
    }
}

impl ShadowState {
    /// The state with no active feature and no entry.
    pub fn new() -> (r: ShadowState)
        ensures
            r@.features.len() == 0,
            r@.entries.len() == 0,
            wf(r@),
    {
        ShadowState { features: Vec::new(), entries: Vec::new() }
    }
}

/// A configuration directory to activate: its path, the hash of its scripts,
/// and the mutations that evaluating them produced.
#[derive(Debug, Clone, PartialEq, Eq)]
pub struct Feature {
    pub path: String,
    pub hash: String,
    pub mutations: Vec<Mutation>,
}

pub struct FeatureModel {
    pub path: Seq<char>,
    pub hash: Seq<char>,
    pub mutations: Seq<MutationModel>,
}

impl View for Feature {
    type V = FeatureModel;

    open spec fn view(&self) -> FeatureModel {
        FeatureModel {
            path: self.path@,
            hash: self.hash@,
            mutations: mutations_view(self.mutations@),
        }
    }
}

/// A variable of the inherited environment.
#[derive(Debug, Clone, PartialEq, Eq)]
pub struct EnvVar {
    pub name: String,
    pub value: Value,
}

impl View for EnvVar {
    type V = (Seq<char>, ValueModel);

    open spec fn view(&self) -> (Seq<char>, ValueModel) {
        (self.name@, self.value@)
    }
}

pub open spec fn env_view(v: Seq<EnvVar>) -> Seq<(Seq<char>, ValueModel)> {
    v.map_values(|e: EnvVar| e@)
}

#[derive(Debug, Clone, PartialEq, Eq)]
pub enum ShadowError {
    AlreadyActive,
    NotActive,
}

/// The value of `name` in an environment: that of its first occurrence.
pub open spec fn env_lookup(env: Seq<(Seq<char>, ValueModel)>, name: Seq<char>) -> Option<
    ValueModel,
> {
    if exists|i: int| 0 <= i < env.len() && env[i].0 == name {
        let i = choose|i: int|
            0 <= i < env.len() && env[i].0 == name && forall|j: int|
                0 <= j < i ==> env[j].0 != name;
        Some(env[i].1)
    } else {
        None
    }
}

pub open spec fn is_first_entry(es: Seq<EntryModel>, name: Seq<char>, i: int) -> bool {
    &&& 0 <= i < es.len()
    &&& es[i].name == name
    &&& forall|j: int| 0 <= j < i ==> es[j].name != name
}

/// The index of the entry of `name`, or -1 where there is none.
pub open spec fn entry_index(es: Seq<EntryModel>, name: Seq<char>) -> int {
    if exists|i: int| is_first_entry(es, name, i) {
        choose|i: int| is_first_entry(es, name, i)
    } else {
        -1
    }
}

pub open spec fn is_active(features: Seq<(Seq<char>, Seq<char>)>, path: Seq<char>) -> bool {
    exists|j: int| 0 <= j < features.len() && features[j].0 == path
}

/// All operations of the layers, oldest layer first.
pub open spec fn all_ops(ls: Seq<LayerModel>) -> Seq<OpModel>
    decreases ls.len(),
{
    if ls.len() == 0 {
        seq![]
    } else {
        all_ops(ls.drop_last()) + ls.last().ops
    }
}

/// The value that the layers give when replayed over the original one.
pub open spec fn replay(original: Option<ValueModel>, ls: Seq<LayerModel>) -> Option<ValueModel> {
    apply_ops(original, all_ops(ls))
}

/// Records `op` in the layer of feature `f`, which is the newest layer when
/// `f` has already touched the variable in this activation.
pub open spec fn add_op(ls: Seq<LayerModel>, f: Seq<char>, op: OpModel) -> Seq<LayerModel> {
    if ls.len() > 0 && ls.last().feature == f {
        ls.update(ls.len() - 1, LayerModel { feature: f, ops: ls.last().ops.push(op) })
    } else {
        ls.push(LayerModel { feature: f, ops: seq![op] })
    }
}

/// One mutation of feature `f` applied to the entries: the entry of the
/// variable is updated, or created with the value it had until now.
pub open spec fn step(
    es: Seq<EntryModel>,
    env: Seq<(Seq<char>, ValueModel)>,
    f: Seq<char>,
    m: MutationModel,
) -> Seq<EntryModel> {
    let i = entry_index(es, m.name);
    if i >= 0 {
        let e = es[i];
        es.update(
            i,
            EntryModel {
                name: e.name,
                original: e.original,
                current: apply_op(e.current, m.op),
                layers: add_op(e.layers, f, m.op),
            },
        )
    } else {
        let orig = env_lookup(env, m.name);
        es.push(
            EntryModel {
                name: m.name,
                original: orig,
                current: apply_op(orig, m.op),
                layers: seq![LayerModel { feature: f, ops: seq![m.op] }],
            },
        )
    }
}

/// The mutations applied in order.
pub open spec fn steps(
    es: Seq<EntryModel>,
    env: Seq<(Seq<char>, ValueModel)>,
    f: Seq<char>,
    ms: Seq<MutationModel>,
) -> Seq<EntryModel>
    decreases ms.len(),
{
    if ms.len() == 0 {
        es
    } else {
        step(steps(es, env, f, ms.drop_last()), env, f, ms.last())
    }
}

/// The state after activating `f` over the inherited environment `env`.
pub open spec fn activated(
    s: StateModel,
    env: Seq<(Seq<char>, ValueModel)>,
    f: FeatureModel,
) -> StateModel {
    StateModel {
        features: s.features.push((f.path, f.hash)),
        entries: steps(s.entries, env, f.path, f.mutations),
    }
}

pub open spec fn has_layer(ls: Seq<LayerModel>, f: Seq<char>) -> bool {
    exists|k: int| 0 <= k < ls.len() && ls[k].feature == f
}

/// The layers without those of feature `f`.
pub open spec fn drop_layers(ls: Seq<LayerModel>, f: Seq<char>) -> Seq<LayerModel>
    decreases ls.len(),
{
    if ls.len() == 0 {
        ls
    } else if ls.last().feature == f {
        drop_layers(ls.drop_last(), f)
    } else {
        drop_layers(ls.drop_last(), f).push(ls.last())
    }
}

/// The entries once feature `f` is gone: an entry that it touched keeps the
/// other layers and takes the value that they give over the original; an entry
/// left with no layer is removed, which restores the original value.
pub open spec fn strip(es: Seq<EntryModel>, f: Seq<char>) -> Seq<EntryModel>
    decreases es.len(),
{
    if es.len() == 0 {
        es
    } else {
        let rest = strip(es.drop_last(), f);
        let e = es.last();
        if !has_layer(e.layers, f) {
            rest.push(e)
        } else {
            let ls = drop_layers(e.layers, f);
            if ls.len() == 0 {
                rest
            } else {
                rest.push(
                    EntryModel {
                        name: e.name,
                        original: e.original,
                        current: replay(e.original, ls),
                        layers: ls,
                    },
                )
            }
        }
    }
}

/// The active features without the one at `path`.
pub open spec fn drop_feature(fs: Seq<(Seq<char>, Seq<char>)>, path: Seq<char>) -> Seq<
    (Seq<char>, Seq<char>),
>
    decreases fs.len(),
{
    if fs.len() == 0 {
        fs
    } else if fs.last().0 == path {
        drop_feature(fs.drop_last(), path)
    } else {
        drop_feature(fs.drop_last(), path).push(fs.last())
    }
}

/// The state after deactivating the feature at `path`.
pub open spec fn deactivated(s: StateModel, path: Seq<char>) -> StateModel {
    StateModel { features: drop_feature(s.features, path), entries: strip(s.entries, path) }
}

/// Well-formedness: each entry has a layer, each layer belongs to an active
/// feature, each entry's value is what its layers give over its original
/// value, and no variable has two entries.
pub open spec fn wf(s: StateModel) -> bool {
    &&& forall|i: int| 0 <= i < s.entries.len() ==> s.entries[i].layers.len() > 0
    &&& forall|i: int|
        0 <= i < s.entries.len() ==> s.entries[i].current == replay(
            s.entries[i].original,
            s.entries[i].layers,
        )
    &&& forall|i: int, k: int|
        0 <= i < s.entries.len() && 0 <= k < s.entries[i].layers.len() ==> is_active(
            s.features,
            #[trigger] s.entries[i].layers[k].feature,
        )
    &&& forall|i: int, j: int|
        0 <= i < s.entries.len() && 0 <= j < s.entries.len() && i != j ==> s.entries[i].name
            != s.entries[j].name
}

/// The value of `name` in the environment that the state gives over `env`.
pub open spec fn resolve(s: StateModel, env: Seq<(Seq<char>, ValueModel)>, name: Seq<char>) -> Option<
    ValueModel,
> {
    let i = entry_index(s.entries, name);
    if i >= 0 {
        s.entries[i].current
    } else {
        env_lookup(env, name)
    }
}

proof fn lemma_first_entry_unique(es: Seq<EntryModel>, name: Seq<char>, i: int, j: int)
    requires
        is_first_entry(es, name, i),
        is_first_entry(es, name, j),
    ensures
        i == j,
{
    if i < j {
        assert(es[i].name != name);
    } else if j < i {
        assert(es[j].name != name);
    }
}

/// The index of the entry of `name`, if there is one.
pub fn find_entry(es: &Vec<ShadowEntry>, name: &String) -> (r: Option<usize>)
    ensures
        match r {
            Some(i) => i < es@.len() && entry_index(entries_view(es@), name@) == i as int,
            None => entry_index(entries_view(es@), name@) == -1 && forall|j: int|
                0 <= j < es@.len() ==> es@[j].name@ != name@,
        },
{
    let ghost v = entries_view(es@);
    let mut i: usize = 0;
    while i < es.len()
        invariant
            i <= es@.len(),
            v == entries_view(es@),
            forall|j: int| 0 <= j < i ==> es@[j].name@ != name@,
        decreases es@.len() - i,
    {
        if es[i].name.eq(name) {
            proof {
                assert(is_first_entry(v, name@, i as int));
                let k = choose|k: int| is_first_entry(v, name@, k);
                lemma_first_entry_unique(v, name@, i as int, k);
            }
            return Some(i);
        }
        i += 1;
    }
    proof {
        if exists|k: int| is_first_entry(v, name@, k) {
            let k = choose|k: int| is_first_entry(v, name@, k);
            assert(es@[k].name@ == name@);
        }
    }
    None
}

/// The value of `name` in the inherited environment.
pub fn lookup_env(env: &Vec<EnvVar>, name: &String) -> (r: Option<Value>)
    ensures
        opt_value(r) == env_lookup(env_view(env@), name@),
{
    let ghost v = env_view(env@);
    let mut i: usize = 0;
    while i < env.len()
        invariant
            i <= env@.len(),
            v == env_view(env@),
            forall|j: int| 0 <= j < i ==> env@[j].name@ != name@,
        decreases env@.len() - i,
    {
        if env[i].name.eq(name) {
            proof {
                assert(v[i as int].0 == name@);
                let k = choose|k: int|
                    0 <= k < v.len() && v[k].0 == name@ && forall|j: int|
                        0 <= j < k ==> v[j].0 != name@;
                if k < i {
                    assert(env@[k].name@ != name@);
                } else if i < k {
                    assert(v[i as int].0 != name@);
                }
            }
            return Some(copy_value(&env[i].value));
        }
        i += 1;
    }
    proof {
        if exists|k: int| 0 <= k < v.len() && v[k].0 == name@ {
            let k = choose|k: int| 0 <= k < v.len() && v[k].0 == name@;
            assert(env@[k].name@ == name@);
        }
    }
    None
}

/// Whether a feature with this path is active.
pub fn find_feature(features: &Vec<ActiveFeature>, path: &String) -> (r: bool)
    ensures
        r == is_active(features_view(features@), path@),
{
    let mut i: usize = 0;
    while i < features.len()
        invariant
            i <= features@.len(),
            forall|j: int| 0 <= j < i ==> features@[j].path@ != path@,
        decreases features@.len() - i,
    {
        if features[i].path.eq(path) {
            assert(features_view(features@)[i as int].0 == path@);
            return true;
        }
        i += 1;
    }
    proof {
        if is_active(features_view(features@), path@) {
            let j = choose|j: int|
                0 <= j < features_view(features@).len() && features_view(features@)[j].0
                    == path@;
            assert(features@[j].path@ == path@);
        }
    }
    false
}

fn add_op_exec(ls: &mut Vec<Layer>, f: &String, op: &Op)
    ensures
        layers_view(final(ls)@) == add_op(layers_view(old(ls)@), f@, op@),
{
    let n = ls.len();
    if n > 0 && ls[n - 1].feature.eq(f) {
        let mut last = ls.pop().unwrap();
        let ghost before = last.ops@;
        last.ops.push(copy_op(op));
        assert(ops_view(last.ops@) =~= ops_view(before).push(op@));
        ls.push(last);
        assert(layers_view(ls@) =~= add_op(layers_view(old(ls)@), f@, op@));
    } else {
        let mut ops: Vec<Op> = Vec::new();
        ops.push(copy_op(op));
        assert(ops_view(ops@) =~= seq![op@]);
        ls.push(Layer { feature: copy_text(f), ops });
        assert(layers_view(ls@) =~= add_op(layers_view(old(ls)@), f@, op@));
    }
}

/// Activates `feature` over the inherited environment `env`: each mutation,
/// in order, updates the entry of its variable, creating it with the value
/// that the variable has at that point. Fails, changing nothing, when a
/// feature with the same path is already active.
pub fn activate(state: &mut ShadowState, env: &Vec<EnvVar>, feature: &Feature) -> (r: Result<
    (),
    ShadowError,
>)
    ensures
        is_active(old(state)@.features, feature@.path) ==> r == Err::<(), ShadowError>(
            ShadowError::AlreadyActive,
        ) && final(state)@ == old(state)@,
        !is_active(old(state)@.features, feature@.path) ==> r is Ok && final(state)@ == activated(
            old(state)@,
            env_view(env@),
            feature@,
        ),
        wf(old(state)@) ==> wf(final(state)@),
{
    if find_feature(&state.features, &feature.path) {
        return Err(ShadowError::AlreadyActive);
    }
    let ghost s0 = state@;
    let ghost ev = env_view(env@);
    let ghost ms = mutations_view(feature.mutations@);
    let mut i: usize = 0;
    while i < feature.mutations.len()
        invariant
            i <= feature.mutations@.len(),
            ms == mutations_view(feature.mutations@),
            ev == env_view(env@),
            state.features@ == old(state).features@,
            entries_view(state.entries@) == steps(s0.entries, ev, feature.path@, ms.take(i as int)),
        decreases feature.mutations@.len() - i,
    {
        let m = &feature.mutations[i];
        let ghost es = entries_view(state.entries@);
        assert(ms.take(i + 1).drop_last() =~= ms.take(i as int));
        assert(ms.take(i + 1).last() == m@);
        match find_entry(&state.entries, &m.name) {
            Some(j) => {
                let mut e = state.entries.remove(j);
                let cur = apply(&e.current, &m.op);
                e.current = cur;
                add_op_exec(&mut e.layers, &feature.path, &m.op);
                state.entries.insert(j, e);
                assert(entries_view(state.entries@) =~= step(es, ev, feature.path@, m@));
            },
            None => {
                let orig = lookup_env(env, &m.name);
                let cur = apply(&orig, &m.op);
                let mut ops: Vec<Op> = Vec::new();
                ops.push(copy_op(&m.op));
                let mut layers: Vec<Layer> = Vec::new();
                layers.push(Layer { feature: copy_text(&feature.path), ops });
                assert(ops_view(layers@[0].ops@) =~= seq![m@.op]);
                assert(layers_view(layers@) =~= seq![
                    LayerModel { feature: feature.path@, ops: seq![m@.op] },
                ]);
                state.entries.push(
                    ShadowEntry { name: copy_text(&m.name), original: orig, current: cur, layers },
                );
                assert(entries_view(state.entries@) =~= step(es, ev, feature.path@, m@));
            },
        }
        i += 1;
    }
    assert(ms.take(ms.len() as int) =~= ms);
    let ghost fs = state.features@;
    state.features.push(
        ActiveFeature { path: copy_text(&feature.path), hash: copy_text(&feature.hash) },
    );
    assert(features_view(state.features@) =~= features_view(fs).push(
        (feature.path@, feature.hash@),
    ));
    proof {
        if wf(s0) {
            crate::layering::lemma_activated_wf(s0, ev, feature@);
        }
    }
    Ok(())
}

fn copy_ops(v: &Vec<Op>) -> (r: Vec<Op>)
    ensures
        ops_view(r@) == ops_view(v@),
{
    let mut r: Vec<Op> = Vec::new();
    let mut i: usize = 0;
    while i < v.len()
        invariant
            i <= v@.len(),
            ops_view(r@) == ops_view(v@.take(i as int)),
        decreases v@.len() - i,
    {
        let ghost before = r@;
        r.push(copy_op(&v[i]));
        assert(ops_view(r@) =~= ops_view(before).push(v@[i as int]@));
        assert(ops_view(v@.take(i + 1)) =~= ops_view(v@.take(i as int)).push(v@[i as int]@));
        i += 1;
    }
    assert(v@.take(v@.len() as int) == v@);
    r
}

fn copy_layer(l: &Layer) -> (r: Layer)
    ensures
        r@ == l@,
{
    Layer { feature: copy_text(&l.feature), ops: copy_ops(&l.ops) }
}

pub fn copy_entry(e: &ShadowEntry) -> (r: ShadowEntry)
    ensures
        r@ == e@,
{
    let mut layers: Vec<Layer> = Vec::new();
    let mut i: usize = 0;
    while i < e.layers.len()
        invariant
            i <= e.layers@.len(),
            layers_view(layers@) == layers_view(e.layers@.take(i as int)),
        decreases e.layers@.len() - i,
    {
        let ghost before = layers@;
        layers.push(copy_layer(&e.layers[i]));
        assert(layers_view(layers@) =~= layers_view(before).push(e.layers@[i as int]@));
        assert(layers_view(e.layers@.take(i + 1)) =~= layers_view(e.layers@.take(i as int)).push(
            e.layers@[i as int]@,
        ));
        i += 1;
    }
    assert(e.layers@.take(e.layers@.len() as int) == e.layers@);
    ShadowEntry {
        name: copy_text(&e.name),
        original: copy_opt_value(&e.original),
        current: copy_opt_value(&e.current),
        layers,
    }
}

/// The layers without those of feature `f`, and whether there was one.
fn drop_layers_exec(ls: &Vec<Layer>, f: &String) -> (r: (Vec<Layer>, bool))
    ensures
        layers_view(r.0@) == drop_layers(layers_view(ls@), f@),
        r.1 == has_layer(layers_view(ls@), f@),
{
    let ghost lv = layers_view(ls@);
    let mut out: Vec<Layer> = Vec::new();
    let mut found = false;
    let mut i: usize = 0;
    while i < ls.len()
        invariant
            i <= ls@.len(),
            lv == layers_view(ls@),
            layers_view(out@) == drop_layers(lv.take(i as int), f@),
            found == exists|k: int| 0 <= k < i && lv[k].feature == f@,
        decreases ls@.len() - i,
    {
        let ghost before = out@;
        assert(lv.take(i + 1).drop_last() =~= lv.take(i as int));
        assert(lv.take(i + 1).last() == lv[i as int]);
        if ls[i].feature.eq(f) {
            found = true;
        } else {
            out.push(copy_layer(&ls[i]));
            assert(layers_view(out@) =~= layers_view(before).push(lv[i as int]));
        }
        i += 1;
    }
    assert(lv.take(lv.len() as int) =~= lv);
    (out, found)
}

proof fn lemma_apply_ops_push(v: Option<ValueModel>, a: Seq<OpModel>, x: OpModel)
    ensures
        apply_ops(v, a.push(x)) == apply_op(apply_ops(v, a), x),
{
    assert(a.push(x).drop_last() =~= a);
}

/// The value that the layers give when replayed over `original`.
pub fn replay_exec(original: &Option<Value>, ls: &Vec<Layer>) -> (r: Option<Value>)
    ensures
        opt_value(r) == replay(opt_value(*original), layers_view(ls@)),
{
    let ghost lv = layers_view(ls@);
    let ghost o = opt_value(*original);
    let mut cur = copy_opt_value(original);
    let mut k: usize = 0;
    while k < ls.len()
        invariant
            k <= ls@.len(),
            lv == layers_view(ls@),
            o == opt_value(*original),
            opt_value(cur) == apply_ops(o, all_ops(lv.take(k as int))),
        decreases ls@.len() - k,
    {
        let ops = &ls[k].ops;
        let ghost done = all_ops(lv.take(k as int));
        let ghost ov = ops_view(ops@);
        let mut j: usize = 0;
        while j < ops.len()
            invariant
                j <= ops@.len(),
                ov == ops_view(ops@),
                opt_value(cur) == apply_ops(o, done + ov.take(j as int)),
            decreases ops@.len() - j,
        {
            let next = apply(&cur, &ops[j]);
            proof {
                lemma_apply_ops_push(o, done + ov.take(j as int), ov[j as int]);
                assert((done + ov.take(j as int)).push(ov[j as int]) =~= done + ov.take(j + 1));
            }
            cur = next;
            j += 1;
        }
        proof {
            assert(lv.take(k + 1).drop_last() =~= lv.take(k as int));
            assert(lv.take(k + 1).last() == lv[k as int]);
            assert(ov.take(ov.len() as int) =~= ov);
        }
        k += 1;
    }
    assert(lv.take(lv.len() as int) =~= lv);
    cur
}

fn drop_feature_exec(fs: &Vec<ActiveFeature>, path: &String) -> (r: Vec<ActiveFeature>)
    ensures
        features_view(r@) == drop_feature(features_view(fs@), path@),
{
    let ghost fv = features_view(fs@);
    let mut out: Vec<ActiveFeature> = Vec::new();
    let mut i: usize = 0;
    while i < fs.len()
        invariant
            i <= fs@.len(),
            fv == features_view(fs@),
            features_view(out@) == drop_feature(fv.take(i as int), path@),
        decreases fs@.len() - i,
    {
        let ghost before = out@;
        assert(fv.take(i + 1).drop_last() =~= fv.take(i as int));
        assert(fv.take(i + 1).last() == fv[i as int]);
        if !fs[i].path.eq(path) {
            out.push(ActiveFeature { path: copy_text(&fs[i].path), hash: copy_text(&fs[i].hash) });
            assert(features_view(out@) =~= features_view(before).push(fv[i as int]));
        }
        i += 1;
    }
    assert(fv.take(fv.len() as int) =~= fv);
    out
}

/// Deactivates the feature at `path`: its layers leave every entry, each
/// entry it touched takes the value that the remaining layers give over the
/// original value, and an entry left without layers is removed. Fails,
/// changing nothing, when no feature with that path is active.
pub fn deactivate(state: &mut ShadowState, path: &String) -> (r: Result<(), ShadowError>)
    ensures
        !is_active(old(state)@.features, path@) ==> r == Err::<(), ShadowError>(
            ShadowError::NotActive,
        ) && final(state)@ == old(state)@,
        is_active(old(state)@.features, path@) ==> r is Ok && final(state)@ == deactivated(
            old(state)@,
            path@,
        ),
        wf(old(state)@) ==> wf(final(state)@),
{
    if !find_feature(&state.features, path) {
        return Err(ShadowError::NotActive);
    }
    let ghost ev = entries_view(state.entries@);
    let mut out: Vec<ShadowEntry> = Vec::new();
    let mut i: usize = 0;
    while i < state.entries.len()
        invariant
            i <= state.entries@.len(),
            ev == entries_view(state.entries@),
            entries_view(out@) == strip(ev.take(i as int), path@),
        decreases state.entries@.len() - i,
    {
        let e = &state.entries[i];
        let ghost before = out@;
        assert(ev.take(i + 1).drop_last() =~= ev.take(i as int));
        assert(ev.take(i + 1).last() == ev[i as int]);
        let (ls, touched) = drop_layers_exec(&e.layers, path);
        if !touched {
            out.push(copy_entry(e));
            assert(entries_view(out@) =~= entries_view(before).push(ev[i as int]));
        } else if ls.len() > 0 {
            let cur = replay_exec(&e.original, &ls);
            out.push(
                ShadowEntry {
                    name: copy_text(&e.name),
                    original: copy_opt_value(&e.original),
                    current: cur,
                    layers: ls,
                },
            );
            assert(entries_view(out@) =~= strip(ev.take(i + 1), path@));
        }
        i += 1;
    }
    assert(ev.take(ev.len() as int) =~= ev);
    let ghost s0 = state@;
    let features = drop_feature_exec(&state.features, path);
    state.features = features;
    state.entries = out;
    proof {
        if wf(s0) {
            crate::layering::lemma_deactivated_wf(s0, path@);
        }
    }
    Ok(())
}

fn texts_eq(a: &Vec<String>, b: &Vec<String>) -> (r: bool)
    ensures
        r == (crate::model::texts(a@) == crate::model::texts(b@)),
{
    if a.len() != b.len() {
        assert(crate::model::texts(a@).len() != crate::model::texts(b@).len());
        return false;
    }
    let mut i: usize = 0;
    while i < a.len()
        invariant
            i <= a@.len(),
            a@.len() == b@.len(),
            forall|j: int| 0 <= j < i ==> a@[j]@ == b@[j]@,
        decreases a@.len() - i,
    {
        if !a[i].eq(&b[i]) {
            assert(crate::model::texts(a@)[i as int] != crate::model::texts(b@)[i as int]);
            return false;
        }
        i += 1;
    }
    assert(crate::model::texts(a@) =~= crate::model::texts(b@));
    true
}

fn value_eq(a: &Option<Value>, b: &Option<Value>) -> (r: bool)
    ensures
        r == (opt_value(*a) == opt_value(*b)),
{
    match (a, b) {
        (None, None) => true,
        (Some(Value::Scalar(x)), Some(Value::Scalar(y))) => x.eq(y),
        (Some(Value::List(x)), Some(Value::List(y))) => texts_eq(x, y),
        _ => false,
    }
}

/// The value of `name` in the environment that a state gives over `env`.
pub fn resolve_exec(st: &ShadowState, env: &Vec<EnvVar>, name: &String) -> (r: Option<Value>)
    ensures
        opt_value(r) == resolve(st@, env_view(env@), name@),
{
    match find_entry(&st.entries, name) {
        Some(i) => copy_opt_value(&st.entries[i].current),
        None => lookup_env(env, name),
    }
}

/// A variable whose value changed, and its new value (`None`: unset).
#[derive(Debug, Clone, PartialEq, Eq)]
pub struct Change {
    pub name: String,
    pub value: Option<Value>,
}

pub open spec fn names_in(out: Seq<Change>, name: Seq<char>) -> bool {
    exists|k: int| 0 <= k < out.len() && out[k].name@ == name
}

proof fn lemma_names_in_push(out: Seq<Change>, c: Change)
    ensures
        forall|name: Seq<char>| names_in(out, name) ==> names_in(out.push(c), name),
        names_in(out.push(c), c.name@),
{
    assert forall|name: Seq<char>| names_in(out, name) implies names_in(out.push(c), name) by {
        let k = choose|k: int| 0 <= k < out.len() && out[k].name@ == name;
        assert(out.push(c)[k] == out[k]);
    }
    assert(out.push(c)[out.len() as int] == c);
}

pub open spec fn touched(s: StateModel, name: Seq<char>) -> bool {
    exists|i: int| 0 <= i < s.entries.len() && s.entries[i].name == name
}

/// The variables that some entry of either state names and whose value
/// differs between the two states, each once, with its value in `after`.
pub fn changes(before: &ShadowState, after: &ShadowState, env: &Vec<EnvVar>) -> (r: Vec<Change>)
    ensures
        forall|i: int|
            0 <= i < r@.len() ==> {
                &&& opt_value(r@[i].value) == resolve(after@, env_view(env@), r@[i].name@)
                &&& resolve(before@, env_view(env@), r@[i].name@) != resolve(
                    after@,
                    env_view(env@),
                    r@[i].name@,
                )
                &&& (touched(before@, r@[i].name@) || touched(after@, r@[i].name@))
            },
        forall|name: Seq<char>|
            (touched(before@, name) || touched(after@, name)) && resolve(
                before@,
                env_view(env@),
                name,
            ) != resolve(after@, env_view(env@), name) ==> exists|i: int|
                0 <= i < r@.len() && r@[i].name@ == name,
{
    let ghost ev = env_view(env@);
    let mut out: Vec<Change> = Vec::new();
    let mut i: usize = 0;
    while i < before.entries.len()
        invariant
            i <= before.entries@.len(),
            ev == env_view(env@),
            forall|k: int|
                0 <= k < out@.len() ==> {
                    &&& opt_value(out@[k].value) == resolve(after@, ev, out@[k].name@)
                    &&& resolve(before@, ev, out@[k].name@) != resolve(after@, ev, out@[k].name@)
                    &&& (touched(before@, out@[k].name@) || touched(after@, out@[k].name@))
                },
            forall|j: int|
                0 <= j < i && resolve(before@, ev, before@.entries[j].name) != resolve(
                    after@,
                    ev,
                    before@.entries[j].name,
                ) ==> names_in(out@, before@.entries[j].name),
        decreases before.entries@.len() - i,
    {
        let name = &before.entries[i].name;
        assert(before@.entries[i as int].name == name@);
        assert(touched(before@, name@));
        let old_v = resolve_exec(before, env, name);
        let new_v = resolve_exec(after, env, name);
        if !value_eq(&old_v, &new_v) {
            let ghost before_out = out@;
            let c = Change { name: copy_text(name), value: new_v };
            proof {
                lemma_names_in_push(before_out, c);
            }
            out.push(c);
        }
        i += 1;
    }
    let mut j: usize = 0;
    while j < after.entries.len()
        invariant
            j <= after.entries@.len(),
            ev == env_view(env@),
            forall|k: int|
                0 <= k < out@.len() ==> {
                    &&& opt_value(out@[k].value) == resolve(after@, ev, out@[k].name@)
                    &&& resolve(before@, ev, out@[k].name@) != resolve(after@, ev, out@[k].name@)
                    &&& (touched(before@, out@[k].name@) || touched(after@, out@[k].name@))
                },
            forall|x: int|
                0 <= x < before@.entries.len() && resolve(before@, ev, before@.entries[x].name)
                    != resolve(after@, ev, before@.entries[x].name) ==> names_in(
                    out@,
                    before@.entries[x].name,
                ),
            forall|x: int|
                0 <= x < j && resolve(before@, ev, after@.entries[x].name) != resolve(
                    after@,
                    ev,
                    after@.entries[x].name,
                ) ==> names_in(out@, after@.entries[x].name),
        decreases after.entries@.len() - j,
    {
        let name = &after.entries[j].name;
        assert(after@.entries[j as int].name == name@);
        assert(touched(after@, name@));
        let old_v = resolve_exec(before, env, name);
        let new_v = resolve_exec(after, env, name);
        if !value_eq(&old_v, &new_v) {
            match find_entry(&before.entries, name) {
                Some(x) => {
                    assert(before@.entries[x as int].name == name@) by {
                        assert(is_first_entry(before@.entries, name@, x as int));
                    }
                },
                None => {
                    let ghost before_out = out@;
                    let c = Change { name: copy_text(name), value: new_v };
                    proof {
                        lemma_names_in_push(before_out, c);
                    }
                    out.push(c);
                },
            }
        }
        j += 1;
    }
    proof {
        assert forall|name: Seq<char>|
            (touched(before@, name) || touched(after@, name)) && resolve(before@, ev, name)
                != resolve(after@, ev, name) implies exists|i: int|
            0 <= i < out@.len() && out@[i].name@ == name by {
            if touched(before@, name) {
                let x = choose|x: int|
                    0 <= x < before@.entries.len() && before@.entries[x].name == name;
                assert(names_in(out@, before@.entries[x].name));
            } else {
                let x = choose|x: int|
                    0 <= x < after@.entries.len() && after@.entries[x].name == name;
                assert(names_in(out@, after@.entries[x].name));
            }
        }
    }
    out
}

/// Whether a state is well formed; a state read back from a blob that another
/// version wrote, or that was tampered with, may not be.
pub fn check_wf(st: &ShadowState) -> (r: bool)
    ensures
        r == wf(st@),
{
    let ghost s = st@;
    let n = st.entries.len();
    let mut i: usize = 0;
    while i < n
        invariant
            n == st.entries@.len(),
            s == st@,
            i <= n,
            forall|a: int| 0 <= a < i ==> s.entries[a].layers.len() > 0,
            forall|a: int|
                0 <= a < i ==> s.entries[a].current == replay(
                    s.entries[a].original,
                    s.entries[a].layers,
                ),
            forall|a: int, k: int|
                0 <= a < i && 0 <= k < s.entries[a].layers.len() ==> is_active(
                    s.features,
                    #[trigger] s.entries[a].layers[k].feature,
                ),
            forall|a: int, b: int| 0 <= a < i && 0 <= b < n && a != b ==> s.entries[a].name != s.entries[b].name,
        decreases n - i,
    {
        let e = &st.entries[i];
        assert(s.entries[i as int] == e@);
        if e.layers.len() == 0 {
            return false;
        }
        let cur = replay_exec(&e.original, &e.layers);
        if !value_eq(&cur, &e.current) {
            return false;
        }
        let mut k: usize = 0;
        while k < e.layers.len()
            invariant
                k <= e.layers@.len(),
                s == st@,
                i < n,
                n == st.entries@.len(),
                s.entries[i as int] == e@,
                forall|x: int| 0 <= x < k ==> is_active(s.features, #[trigger] s.entries[i as int].layers[x].feature),
            decreases e.layers@.len() - k,
        {
            if !find_feature(&st.features, &e.layers[k].feature) {
                assert(s.entries[i as int].layers[k as int].feature == e.layers@[k as int].feature@);
                return false;
            }
            assert(s.entries[i as int].layers[k as int].feature == e.layers@[k as int].feature@);
            k += 1;
        }
        let mut j: usize = 0;
        while j < n
            invariant
                j <= n,
                s == st@,
                i < n,
                n == st.entries@.len(),
                s.entries[i as int] == e@,
                forall|b: int| 0 <= b < j && b != i ==> s.entries[i as int].name != s.entries[b].name,
            decreases n - j,
        {
            if j != i && st.entries[j].name.eq(&e.name) {
                assert(s.entries[j as int].name == s.entries[i as int].name);
                return false;
            }
            j += 1;
        }
        i += 1;
    }
    true
}

} // verus!
