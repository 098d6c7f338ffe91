use vstd::prelude::*;

use crate::model::{apply_op, apply_ops, MutationModel, OpModel, ValueModel};
use crate::shadow::{
    activated, add_op, all_ops, deactivated, drop_feature, drop_layers, entry_index, has_layer,
    is_active, is_first_entry, replay, step, steps, strip, wf, EntryModel, FeatureModel,
    LayerModel, StateModel,
};

verus! {

/// Every entry has a layer and holds the value its layers give.
pub open spec fn settled(es: Seq<EntryModel>) -> bool {
    forall|j: int|
        0 <= j < es.len() ==> (#[trigger] es[j]).layers.len() > 0 && es[j].current == replay(
            es[j].original,
            es[j].layers,
        )
}

/// No layer of these entries belongs to feature `g`.
pub open spec fn free_of(es: Seq<EntryModel>, g: Seq<char>) -> bool {
    forall|j: int, k: int|
        0 <= j < es.len() && 0 <= k < es[j].layers.len() ==> (#[trigger] es[j].layers[k]).feature
            != g
}

/// Every layer belongs to one of the features `fs`.
pub open spec fn layers_in(ls: Seq<LayerModel>, fs: Set<Seq<char>>) -> bool {
    forall|k: int| 0 <= k < ls.len() ==> fs.contains((#[trigger] ls[k]).feature)
}

/// `t` is `s` with layers of the features `fs` added on top: each entry of
/// `s` keeps its place, its name, its original value and its own layers, and
/// any entry after those of `s` holds only layers of `fs`.
pub open spec fn over(s: Seq<EntryModel>, t: Seq<EntryModel>, fs: Set<Seq<char>>) -> bool {
    &&& s.len() <= t.len()
    &&& settled(t)
    &&& forall|j: int|
        0 <= j < s.len() ==> {
            &&& (#[trigger] t[j]).name == s[j].name
            &&& t[j].original == s[j].original
            &&& t[j].layers.len() >= s[j].layers.len()
            &&& t[j].layers.subrange(0, s[j].layers.len() as int) == s[j].layers
            &&& layers_in(t[j].layers.subrange(s[j].layers.len() as int, t[j].layers.len() as int), fs)
        }
    &&& forall|j: int| s.len() <= j < t.len() ==> layers_in((#[trigger] t[j]).layers, fs)
}

proof fn lemma_apply_ops_push(v: Option<ValueModel>, a: Seq<OpModel>, x: OpModel)
    ensures
        apply_ops(v, a.push(x)) == apply_op(apply_ops(v, a), x),
{
    assert(a.push(x).drop_last() =~= a);
}

proof fn lemma_replay_add_op(o: Option<ValueModel>, ls: Seq<LayerModel>, f: Seq<char>, op: OpModel)
    ensures
        replay(o, add_op(ls, f, op)) == apply_op(replay(o, ls), op),
{
    let ls2 = add_op(ls, f, op);
    if ls.len() > 0 && ls.last().feature == f {
        assert(ls2.drop_last() =~= ls.drop_last());
        assert(all_ops(ls2) =~= all_ops(ls).push(op));
    } else {
        assert(ls2.drop_last() =~= ls);
        assert(all_ops(ls2) =~= all_ops(ls).push(op));
    }
    lemma_apply_ops_push(o, all_ops(ls), op);
}

proof fn lemma_add_op_concat(a: Seq<LayerModel>, b: Seq<LayerModel>, f: Seq<char>, op: OpModel)
    requires
        b.len() > 0 || a.len() == 0 || a.last().feature != f,
    ensures
        add_op(a + b, f, op) == a + add_op(b, f, op),
{
    if b.len() > 0 {
        assert((a + b).last() == b.last());
        assert(add_op(a + b, f, op) =~= a + add_op(b, f, op));
    } else {
        assert(a + b =~= a);
        assert(add_op(a + b, f, op) =~= a + add_op(b, f, op));
    }
}

proof fn lemma_drop_layers_concat(a: Seq<LayerModel>, b: Seq<LayerModel>, g: Seq<char>)
    ensures
        drop_layers(a + b, g) == drop_layers(a, g) + drop_layers(b, g),
    decreases b.len(),
{
    if b.len() == 0 {
        assert(a + b =~= a);
        assert(drop_layers(a, g) + drop_layers(b, g) =~= drop_layers(a, g));
    } else {
        assert((a + b).drop_last() =~= a + b.drop_last());
        assert((a + b).last() == b.last());
        lemma_drop_layers_concat(a, b.drop_last(), g);
        if b.last().feature != g {
            assert(drop_layers(a, g) + drop_layers(b.drop_last(), g).push(b.last()) =~= (
            drop_layers(a, g) + drop_layers(b.drop_last(), g)).push(b.last()));
        }
    }
}

proof fn lemma_drop_layers_absent(a: Seq<LayerModel>, g: Seq<char>)
    requires
        !has_layer(a, g),
    ensures
        drop_layers(a, g) == a,
    decreases a.len(),
{
    if a.len() > 0 {
        assert(a.last() == a[a.len() - 1]);
        assert(!has_layer(a.drop_last(), g)) by {
            if has_layer(a.drop_last(), g) {
                let k = choose|k: int|
                    0 <= k < a.drop_last().len() && a.drop_last()[k].feature == g;
                assert(a[k].feature == g);
            }
        }
        lemma_drop_layers_absent(a.drop_last(), g);
        assert(a.drop_last().push(a.last()) =~= a);
    }
}

proof fn lemma_drop_layers_in(b: Seq<LayerModel>, g: Seq<char>, fs: Set<Seq<char>>)
    requires
        layers_in(b, fs),
    ensures
        layers_in(drop_layers(b, g), fs.remove(g)),
        drop_layers(b, g).len() <= b.len(),
    decreases b.len(),
{
    if b.len() > 0 {
        lemma_drop_layers_in(b.drop_last(), g, fs);
        assert(fs.contains(b[b.len() - 1].feature));
    }
}

proof fn lemma_layers_in_mono(ls: Seq<LayerModel>, fs: Set<Seq<char>>, f: Seq<char>)
    requires
        layers_in(ls, fs),
    ensures
        layers_in(ls, fs.insert(f)),
{
    assert forall|k: int| 0 <= k < ls.len() implies fs.insert(f).contains(ls[k].feature) by {
        assert(fs.contains(ls[k].feature));
    }
}

proof fn lemma_over_mono(s: Seq<EntryModel>, t: Seq<EntryModel>, fs: Set<Seq<char>>, f: Seq<char>)
    requires
        over(s, t, fs),
    ensures
        over(s, t, fs.insert(f)),
{
    assert forall|j: int| 0 <= j < s.len() implies layers_in(
        (#[trigger] t[j]).layers.subrange(s[j].layers.len() as int, t[j].layers.len() as int),
        fs.insert(f),
    ) by {
        lemma_layers_in_mono(
            t[j].layers.subrange(s[j].layers.len() as int, t[j].layers.len() as int),
            fs,
            f,
        );
    }
    assert forall|j: int| s.len() <= j < t.len() implies layers_in(
        (#[trigger] t[j]).layers,
        fs.insert(f),
    ) by {
        lemma_layers_in_mono(t[j].layers, fs, f);
    }
}

proof fn lemma_over_step(
    s: Seq<EntryModel>,
    t: Seq<EntryModel>,
    fs: Set<Seq<char>>,
    env: Seq<(Seq<char>, ValueModel)>,
    f: Seq<char>,
    m: MutationModel,
)
    requires
        over(s, t, fs),
        settled(s),
        free_of(s, f),
    ensures
        over(s, step(t, env, f, m), fs.insert(f)),
{
    lemma_over_mono(s, t, fs, f);
    let fs2 = fs.insert(f);
    let t2 = step(t, env, f, m);
    let i = crate::shadow::entry_index(t, m.name);
    if i >= 0 {
        let e = t[i];
        let e2 = t2[i];
        lemma_replay_add_op(e.original, e.layers, f, m.op);
        if i < s.len() {
            let a = s[i].layers;
            let b = e.layers.subrange(a.len() as int, e.layers.len() as int);
            assert(e.layers =~= a + b);
            assert(a.len() > 0);
            assert(a[a.len() - 1].feature != f);
            lemma_add_op_concat(a, b, f, m.op);
            let b2 = add_op(b, f, m.op);
            assert(e2.layers == a + b2);
            assert(e2.layers.subrange(0, a.len() as int) =~= a);
            assert(e2.layers.subrange(a.len() as int, e2.layers.len() as int) =~= b2);
            assert(layers_in(b2, fs2)) by {
                assert forall|k: int| 0 <= k < b2.len() implies fs2.contains(
                    (#[trigger] b2[k]).feature,
                ) by {
                    if k < b.len() && !(b.len() > 0 && b.last().feature == f && k == b.len() - 1) {
                        assert(b2[k] == b[k]);
                    }
                }
            }
        } else {
            let b2 = e2.layers;
            assert(layers_in(b2, fs2)) by {
                assert forall|k: int| 0 <= k < b2.len() implies fs2.contains(
                    (#[trigger] b2[k]).feature,
                ) by {
                    if k < e.layers.len() && !(e.layers.len() > 0 && e.layers.last().feature == f
                        && k == e.layers.len() - 1) {
                        assert(b2[k] == e.layers[k]);
                    }
                }
            }
        }
        assert(over(s, t2, fs2));
    } else {
        let e2 = t2[t.len() as int];
        let ls = seq![LayerModel { feature: f, ops: seq![m.op] }];
        assert(e2.layers == ls);
        assert(ls.drop_last() =~= Seq::<LayerModel>::empty());
        assert(all_ops(ls.drop_last()) == Seq::<OpModel>::empty());
        assert(all_ops(ls) =~= seq![m.op]);
        assert(seq![m.op].drop_last() =~= Seq::<OpModel>::empty());
        lemma_apply_ops_push(e2.original, Seq::<OpModel>::empty(), m.op);
        assert(Seq::<OpModel>::empty().push(m.op) =~= seq![m.op]);
        assert(apply_ops(e2.original, Seq::<OpModel>::empty()) == e2.original);
        assert(layers_in(ls, fs2));
        assert(over(s, t2, fs2));
    }
}

proof fn lemma_over_steps(
    s: Seq<EntryModel>,
    t: Seq<EntryModel>,
    fs: Set<Seq<char>>,
    env: Seq<(Seq<char>, ValueModel)>,
    f: Seq<char>,
    ms: Seq<MutationModel>,
)
    requires
        over(s, t, fs),
        settled(s),
        free_of(s, f),
    ensures
        over(s, steps(t, env, f, ms), fs.insert(f)),
    decreases ms.len(),
{
    if ms.len() == 0 {
        lemma_over_mono(s, t, fs, f);
    } else {
        lemma_over_steps(s, t, fs, env, f, ms.drop_last());
        lemma_over_step(s, steps(t, env, f, ms.drop_last()), fs.insert(f), env, f, ms.last());
        assert(fs.insert(f).insert(f) =~= fs.insert(f));
    }
}

proof fn lemma_strip_len(t: Seq<EntryModel>, g: Seq<char>)
    ensures
        strip(t, g).len() <= t.len(),
    decreases t.len(),
{
    if t.len() > 0 {
        lemma_strip_len(t.drop_last(), g);
    }
}

proof fn lemma_over_drop_last(s: Seq<EntryModel>, t: Seq<EntryModel>, fs: Set<Seq<char>>)
    requires
        over(s, t, fs),
        t.len() > s.len(),
    ensures
        over(s, t.drop_last(), fs),
{
    let t2 = t.drop_last();
    assert forall|j: int| 0 <= j < t2.len() implies #[trigger] t2[j] == t[j] by {}
}

proof fn lemma_over_strip(s: Seq<EntryModel>, t: Seq<EntryModel>, fs: Set<Seq<char>>, g: Seq<char>)
    requires
        over(s, t, fs),
        settled(s),
        free_of(s, g),
    ensures
        over(s, strip(t, g), fs.remove(g)),
    decreases t.len(),
{
    let fs2 = fs.remove(g);
    if t.len() == 0 {
        return;
    }
    let e = t.last();
    let r = strip(t.drop_last(), g);
    assert(e == t[t.len() - 1]);
    if t.len() > s.len() {
        lemma_over_drop_last(s, t, fs);
        lemma_over_strip(s, t.drop_last(), fs, g);
        if !has_layer(e.layers, g) {
            assert(layers_in(e.layers, fs2)) by {
                assert forall|k: int| 0 <= k < e.layers.len() implies fs2.contains(
                    (#[trigger] e.layers[k]).feature,
                ) by {
                    assert(fs.contains(e.layers[k].feature));
                }
            }
            assert(over(s, r.push(e), fs2));
        } else {
            let ls = drop_layers(e.layers, g);
            lemma_drop_layers_in(e.layers, g, fs);
            if ls.len() > 0 {
                let e2 = EntryModel {
                    name: e.name,
                    original: e.original,
                    current: replay(e.original, ls),
                    layers: ls,
                };
                assert(over(s, r.push(e2), fs2));
            }
        }
    } else {
        let s1 = s.drop_last();
        let t1 = t.drop_last();
        assert(over(s1, t1, fs)) by {
            assert forall|j: int| 0 <= j < t1.len() implies #[trigger] t1[j] == t[j] by {}
            assert forall|j: int| 0 <= j < s1.len() implies #[trigger] s1[j] == s[j] by {}
        }
        assert(settled(s1)) by {
            assert forall|j: int| 0 <= j < s1.len() implies #[trigger] s1[j] == s[j] by {}
        }
        assert(free_of(s1, g)) by {
            assert forall|j: int| 0 <= j < s1.len() implies #[trigger] s1[j] == s[j] by {}
        }
        lemma_over_strip(s1, t1, fs, g);
        lemma_strip_len(t1, g);
        let j = s.len() - 1;
        let a = s[j].layers;
        let b = e.layers.subrange(a.len() as int, e.layers.len() as int);
        assert(e.layers =~= a + b);
        assert(!has_layer(a, g)) by {
            if has_layer(a, g) {
                let k = choose|k: int| 0 <= k < a.len() && a[k].feature == g;
                assert(s[j].layers[k].feature != g);
            }
        }
        let e2 = if !has_layer(e.layers, g) {
            e
        } else {
            EntryModel {
                name: e.name,
                original: e.original,
                current: replay(e.original, drop_layers(e.layers, g)),
                layers: drop_layers(e.layers, g),
            }
        };
        if !has_layer(e.layers, g) {
            assert(layers_in(b, fs2)) by {
                assert forall|k: int| 0 <= k < b.len() implies fs2.contains(
                    (#[trigger] b[k]).feature,
                ) by {
                    assert(b[k] == e.layers[a.len() + k]);
                }
            }
        } else {
            lemma_drop_layers_concat(a, b, g);
            lemma_drop_layers_absent(a, g);
            lemma_drop_layers_in(b, g, fs);
            let ls = drop_layers(e.layers, g);
            assert(ls.subrange(0, a.len() as int) =~= a);
            assert(ls.subrange(a.len() as int, ls.len() as int) =~= drop_layers(b, g));
        }
        assert(strip(t, g) == r.push(e2));
        assert forall|i: int| 0 <= i < s.len() implies {
            &&& (#[trigger] r.push(e2)[i]).name == s[i].name
            &&& r.push(e2)[i].original == s[i].original
            &&& r.push(e2)[i].layers.len() >= s[i].layers.len()
            &&& r.push(e2)[i].layers.subrange(0, s[i].layers.len() as int) == s[i].layers
            &&& layers_in(
                r.push(e2)[i].layers.subrange(
                    s[i].layers.len() as int,
                    r.push(e2)[i].layers.len() as int,
                ),
                fs2,
            )
        } by {
            if i < j {
                assert(s1[i] == s[i]);
                assert(r.push(e2)[i] == r[i]);
            }
        }
        assert(over(s, r.push(e2), fs2));
    }
}

proof fn lemma_over_refl(s: Seq<EntryModel>, fs: Set<Seq<char>>)
    requires
        settled(s),
    ensures
        over(s, s, fs),
{
    assert forall|j: int| 0 <= j < s.len() implies layers_in(
        (#[trigger] s[j]).layers.subrange(s[j].layers.len() as int, s[j].layers.len() as int),
        fs,
    ) by {
        assert(s[j].layers.subrange(0, s[j].layers.len() as int) =~= s[j].layers);
    }
    assert forall|j: int| 0 <= j < s.len() implies (#[trigger] s[j]).layers.subrange(
        0,
        s[j].layers.len() as int,
    ) == s[j].layers by {
        assert(s[j].layers.subrange(0, s[j].layers.len() as int) =~= s[j].layers);
    }
}

proof fn lemma_over_empty(s: Seq<EntryModel>, t: Seq<EntryModel>)
    requires
        over(s, t, Set::empty()),
        settled(s),
    ensures
        t == s,
{
    if t.len() > s.len() {
        assert(t[s.len() as int].layers.len() > 0);
        assert(!Set::<Seq<char>>::empty().contains(t[s.len() as int].layers[0].feature));
    }
    assert forall|j: int| 0 <= j < s.len() implies #[trigger] t[j] == s[j] by {
        let a = s[j].layers;
        let b = t[j].layers.subrange(a.len() as int, t[j].layers.len() as int);
        if b.len() > 0 {
            assert(!Set::<Seq<char>>::empty().contains(b[0].feature));
        }
        assert(t[j].layers =~= a);
    }
    assert(t =~= s);
}

proof fn lemma_drop_feature_absent(fs: Seq<(Seq<char>, Seq<char>)>, p: Seq<char>)
    requires
        !is_active(fs, p),
    ensures
        drop_feature(fs, p) == fs,
    decreases fs.len(),
{
    if fs.len() > 0 {
        assert(fs.last() == fs[fs.len() - 1]);
        assert(!is_active(fs.drop_last(), p)) by {
            if is_active(fs.drop_last(), p) {
                let k = choose|k: int| 0 <= k < fs.drop_last().len() && fs.drop_last()[k].0 == p;
                assert(fs[k].0 == p);
            }
        }
        lemma_drop_feature_absent(fs.drop_last(), p);
        assert(fs.drop_last().push(fs.last()) =~= fs);
    }
}

proof fn lemma_drop_feature_push(
    fs: Seq<(Seq<char>, Seq<char>)>,
    x: (Seq<char>, Seq<char>),
    p: Seq<char>,
)
    ensures
        drop_feature(fs.push(x), p) == if x.0 == p {
            drop_feature(fs, p)
        } else {
            drop_feature(fs, p).push(x)
        },
{
    assert(fs.push(x).drop_last() =~= fs);
}

proof fn lemma_wf_parts(s: StateModel, p: Seq<char>)
    requires
        wf(s),
        !is_active(s.features, p),
    ensures
        settled(s.entries),
        free_of(s.entries, p),
{
    assert forall|j: int, k: int|
        0 <= j < s.entries.len() && 0 <= k < s.entries[j].layers.len() implies (
        #[trigger] s.entries[j].layers[k]).feature != p by {
        assert(is_active(s.features, s.entries[j].layers[k].feature));
    }
}

/// Exact undo: activating a feature that is not active and then
/// deactivating it gives back the state as it was, so every variable that the
/// feature touched has its value from before again, absent ones absent.
pub proof fn lemma_exact_undo(s: StateModel, env: Seq<(Seq<char>, ValueModel)>, f: FeatureModel)
    requires
        wf(s),
        !is_active(s.features, f.path),
    ensures
        is_active(activated(s, env, f).features, f.path),
        deactivated(activated(s, env, f), f.path) == s,
{
    let t = activated(s, env, f);
    assert(t.features[s.features.len() as int].0 == f.path);
    lemma_wf_parts(s, f.path);
    lemma_over_refl(s.entries, Set::empty());
    lemma_over_steps(s.entries, s.entries, Set::empty(), env, f.path, f.mutations);
    lemma_over_strip(s.entries, t.entries, Set::empty().insert(f.path), f.path);
    assert(Set::<Seq<char>>::empty().insert(f.path).remove(f.path) =~= Set::empty());
    lemma_over_empty(s.entries, strip(t.entries, f.path));
    lemma_drop_feature_push(s.features, (f.path, f.hash), f.path);
    lemma_drop_feature_absent(s.features, f.path);
}

/// Layered features undo in either order: after activating `a` and then `b`,
/// deactivating `b` then `a`, or `a` then `b`, gives back the state from
/// before `a`, each deactivation removing that feature's own layers.
pub proof fn lemma_layered_undo(
    s: StateModel,
    env: Seq<(Seq<char>, ValueModel)>,
    a: FeatureModel,
    b: FeatureModel,
)
    requires
        wf(s),
        !is_active(s.features, a.path),
        !is_active(s.features, b.path),
        a.path != b.path,
    ensures
        !is_active(activated(s, env, a).features, b.path),
        is_active(activated(activated(s, env, a), env, b).features, a.path),
        is_active(activated(activated(s, env, a), env, b).features, b.path),
        is_active(deactivated(activated(activated(s, env, a), env, b), b.path).features, a.path),
        is_active(deactivated(activated(activated(s, env, a), env, b), a.path).features, b.path),
        deactivated(deactivated(activated(activated(s, env, a), env, b), b.path), a.path) == s,
        deactivated(deactivated(activated(activated(s, env, a), env, b), a.path), b.path) == s,
{
    let t1 = activated(s, env, a);
    let t2 = activated(t1, env, b);
    let fa = (a.path, a.hash);
    let fb = (b.path, b.hash);
    assert(!is_active(t1.features, b.path)) by {
        if is_active(t1.features, b.path) {
            let k = choose|k: int| 0 <= k < t1.features.len() && t1.features[k].0 == b.path;
            if k < s.features.len() {
                assert(s.features[k].0 == b.path);
            }
        }
    }
    assert(t2.features[s.features.len() as int].0 == a.path);
    assert(t2.features[s.features.len() as int + 1].0 == b.path);
    lemma_wf_parts(s, a.path);
    lemma_wf_parts(s, b.path);
    let e0 = Set::<Seq<char>>::empty();
    lemma_over_refl(s.entries, e0);
    lemma_over_steps(s.entries, s.entries, e0, env, a.path, a.mutations);
    lemma_over_steps(s.entries, t1.entries, e0.insert(a.path), env, b.path, b.mutations);
    let both = e0.insert(a.path).insert(b.path);
    // b first, then a
    lemma_over_strip(s.entries, t2.entries, both, b.path);
    lemma_over_strip(s.entries, strip(t2.entries, b.path), both.remove(b.path), a.path);
    assert(both.remove(b.path).remove(a.path) =~= e0);
    lemma_over_empty(s.entries, strip(strip(t2.entries, b.path), a.path));
    // a first, then b
    lemma_over_strip(s.entries, t2.entries, both, a.path);
    lemma_over_strip(s.entries, strip(t2.entries, a.path), both.remove(a.path), b.path);
    assert(both.remove(a.path).remove(b.path) =~= e0);
    lemma_over_empty(s.entries, strip(strip(t2.entries, a.path), b.path));
    // the list of active features
    lemma_drop_feature_absent(s.features, a.path);
    lemma_drop_feature_absent(s.features, b.path);
    lemma_drop_feature_push(s.features.push(fa), fb, b.path);
    lemma_drop_feature_push(s.features, fa, b.path);
    lemma_drop_feature_push(s.features, fa, a.path);
    lemma_drop_feature_push(s.features.push(fa), fb, a.path);
    lemma_drop_feature_push(s.features, fb, b.path);
    let d1 = drop_feature(t2.features, b.path);
    assert(d1 == s.features.push(fa));
    assert(d1[s.features.len() as int].0 == a.path);
    let d2 = drop_feature(t2.features, a.path);
    assert(d2 == s.features.push(fb));
    assert(d2[s.features.len() as int].0 == b.path);
}

pub open spec fn unique_names(es: Seq<EntryModel>) -> bool {
    forall|i: int, j: int|
        0 <= i < es.len() && 0 <= j < es.len() && i != j ==> es[i].name != es[j].name
}

proof fn lemma_first_exists(es: Seq<EntryModel>, name: Seq<char>, j: int)
    requires
        0 <= j < es.len(),
        es[j].name == name,
    ensures
        exists|i: int| is_first_entry(es, name, i),
    decreases j,
{
    if exists|k: int| 0 <= k < j && es[k].name == name {
        let k = choose|k: int| 0 <= k < j && es[k].name == name;
        lemma_first_exists(es, name, k);
    } else {
        assert(is_first_entry(es, name, j));
    }
}

proof fn lemma_steps_unique(
    es: Seq<EntryModel>,
    env: Seq<(Seq<char>, ValueModel)>,
    f: Seq<char>,
    ms: Seq<MutationModel>,
)
    requires
        unique_names(es),
    ensures
        unique_names(steps(es, env, f, ms)),
    decreases ms.len(),
{
    if ms.len() > 0 {
        lemma_steps_unique(es, env, f, ms.drop_last());
        let t = steps(es, env, f, ms.drop_last());
        let m = ms.last();
        if entry_index(t, m.name) < 0 {
            assert forall|j: int| 0 <= j < t.len() implies t[j].name != m.name by {
                if t[j].name == m.name {
                    lemma_first_exists(t, m.name, j);
                }
            }
        }
    }
}

/// Activating a feature that is not active keeps the state well formed.
pub proof fn lemma_activated_wf(s: StateModel, env: Seq<(Seq<char>, ValueModel)>, f: FeatureModel)
    requires
        wf(s),
        !is_active(s.features, f.path),
    ensures
        wf(activated(s, env, f)),
{
    let t = activated(s, env, f);
    let n = s.features.len();
    lemma_wf_parts(s, f.path);
    lemma_over_refl(s.entries, Set::empty());
    lemma_over_steps(s.entries, s.entries, Set::empty(), env, f.path, f.mutations);
    let fs = Set::<Seq<char>>::empty().insert(f.path);
    assert(t.features[n as int].0 == f.path);
    assert forall|i: int, k: int|
        0 <= i < t.entries.len() && 0 <= k < t.entries[i].layers.len() implies is_active(
        t.features,
        #[trigger] t.entries[i].layers[k].feature,
    ) by {
        let l = t.entries[i].layers[k];
        if i < s.entries.len() && k < s.entries[i].layers.len() {
            assert(t.entries[i].layers.subrange(0, s.entries[i].layers.len() as int)[k] == l);
            assert(s.entries[i].layers[k] == l);
            assert(is_active(s.features, l.feature));
            let j = choose|j: int| 0 <= j < s.features.len() && s.features[j].0 == l.feature;
            assert(t.features[j] == s.features[j]);
        } else if i < s.entries.len() {
            let b = t.entries[i].layers.subrange(
                s.entries[i].layers.len() as int,
                t.entries[i].layers.len() as int,
            );
            assert(b[k - s.entries[i].layers.len()] == l);
            assert(fs.contains(l.feature));
        } else {
            assert(fs.contains(l.feature));
        }
    }
    lemma_steps_unique(s.entries, env, f.path, f.mutations);
}

proof fn lemma_drop_feature_keeps(fs: Seq<(Seq<char>, Seq<char>)>, p: Seq<char>, x: Seq<char>)
    requires
        is_active(fs, x),
        x != p,
    ensures
        is_active(drop_feature(fs, p), x),
    decreases fs.len(),
{
    let j = choose|j: int| 0 <= j < fs.len() && fs[j].0 == x;
    if j == fs.len() - 1 {
        assert(drop_feature(fs, p) == drop_feature(fs.drop_last(), p).push(fs.last()));
        assert(drop_feature(fs, p)[drop_feature(fs.drop_last(), p).len() as int].0 == x);
    } else {
        assert(fs.drop_last()[j].0 == x);
        lemma_drop_feature_keeps(fs.drop_last(), p, x);
        let d = drop_feature(fs.drop_last(), p);
        let k = choose|k: int| 0 <= k < d.len() && d[k].0 == x;
        if fs.last().0 != p {
            assert(drop_feature(fs, p)[k] == d[k]);
        }
    }
}

proof fn lemma_drop_layers_from(ls: Seq<LayerModel>, g: Seq<char>)
    ensures
        forall|k: int|
            0 <= k < drop_layers(ls, g).len() ==> (#[trigger] drop_layers(ls, g)[k]).feature != g
                && exists|k2: int| 0 <= k2 < ls.len() && ls[k2] == drop_layers(ls, g)[k],
    decreases ls.len(),
{
    if ls.len() > 0 {
        lemma_drop_layers_from(ls.drop_last(), g);
        let d = drop_layers(ls.drop_last(), g);
        assert forall|k: int| 0 <= k < drop_layers(ls, g).len() implies (#[trigger] drop_layers(
            ls,
            g,
        )[k]).feature != g && exists|k2: int|
            0 <= k2 < ls.len() && ls[k2] == drop_layers(ls, g)[k] by {
            if k < d.len() {
                assert(drop_layers(ls, g)[k] == d[k]);
                let k2 = choose|k2: int| 0 <= k2 < ls.drop_last().len() && ls.drop_last()[k2] == d[k];
                assert(ls[k2] == d[k]);
            } else {
                assert(drop_layers(ls, g)[k] == ls[ls.len() - 1]);
            }
        }
    }
}

pub open spec fn layers_from(ls: Seq<LayerModel>, src: Seq<LayerModel>, g: Seq<char>) -> bool {
    forall|k: int|
        0 <= k < ls.len() ==> (#[trigger] ls[k]).feature != g && has_layer(src, ls[k].feature)
}

/// An entry that `strip` left: it comes from an entry of `es` with its name,
/// and keeps only layers of that entry other than those of `g`.
pub open spec fn kept_from(es: Seq<EntryModel>, e: EntryModel, g: Seq<char>) -> bool {
    exists|j: int| 0 <= j < es.len() && e.name == es[j].name && layers_from(e.layers, es[j].layers, g)
}

proof fn lemma_strip_parts(es: Seq<EntryModel>, g: Seq<char>)
    requires
        settled(es),
        unique_names(es),
    ensures
        settled(strip(es, g)),
        unique_names(strip(es, g)),
        forall|i: int| 0 <= i < strip(es, g).len() ==> kept_from(es, #[trigger] strip(es, g)[i], g),
    decreases es.len(),
{
    if es.len() > 0 {
        let pre = es.drop_last();
        let e = es.last();
        let r = strip(pre, g);
        assert forall|j: int| 0 <= j < pre.len() implies #[trigger] pre[j] == es[j] by {}
        lemma_strip_parts(pre, g);
        assert(e == es[es.len() - 1]);
        let out = strip(es, g);
        let e2 = if !has_layer(e.layers, g) {
            e
        } else {
            EntryModel {
                name: e.name,
                original: e.original,
                current: replay(e.original, drop_layers(e.layers, g)),
                layers: drop_layers(e.layers, g),
            }
        };
        if !has_layer(e.layers, g) {
            assert(layers_from(e.layers, e.layers, g)) by {
                assert forall|k: int| 0 <= k < e.layers.len() implies (#[trigger] e.layers[k]).feature
                    != g && has_layer(e.layers, e.layers[k].feature) by {}
            }
        } else {
            lemma_drop_layers_from(e.layers, g);
            let d = drop_layers(e.layers, g);
            assert(layers_from(d, e.layers, g)) by {
                assert forall|k: int| 0 <= k < d.len() implies (#[trigger] d[k]).feature != g
                    && has_layer(e.layers, d[k].feature) by {
                    let k2 = choose|k2: int| 0 <= k2 < e.layers.len() && e.layers[k2] == d[k];
                }
            }
        }
        assert(kept_from(es, e2, g)) by {
            assert(e2.name == es[es.len() - 1].name);
        }
        assert forall|i: int| 0 <= i < r.len() implies kept_from(es, #[trigger] r[i], g) by {
            assert(kept_from(pre, r[i], g));
            let j = choose|j: int|
                0 <= j < pre.len() && r[i].name == pre[j].name && layers_from(
                    r[i].layers,
                    pre[j].layers,
                    g,
                );
            assert(pre[j] == es[j]);
        }
        assert forall|i: int| 0 <= i < r.len() implies (#[trigger] r[i]).name != e.name by {
            assert(kept_from(pre, r[i], g));
            let j = choose|j: int|
                0 <= j < pre.len() && r[i].name == pre[j].name && layers_from(
                    r[i].layers,
                    pre[j].layers,
                    g,
                );
            assert(es[j].name != es[es.len() - 1].name);
        }
        if out.len() > r.len() {
            assert(out == r.push(e2));
            assert forall|i: int| 0 <= i < out.len() implies kept_from(es, #[trigger] out[i], g) by {
                if i < r.len() {
                    assert(out[i] == r[i]);
                }
            }
            assert(settled(out)) by {
                assert forall|i: int| 0 <= i < out.len() implies (#[trigger] out[i]).layers.len() > 0
                    && out[i].current == replay(out[i].original, out[i].layers) by {
                    if i < r.len() {
                        assert(out[i] == r[i]);
                    }
                }
            }
        } else {
            assert(out == r);
        }
    }
}

/// Deactivating a feature keeps the state well formed.
pub proof fn lemma_deactivated_wf(s: StateModel, p: Seq<char>)
    requires
        wf(s),
    ensures
        wf(deactivated(s, p)),
{
    let t = deactivated(s, p);
    assert(settled(s.entries));
    lemma_strip_parts(s.entries, p);
    assert forall|i: int, k: int|
        0 <= i < t.entries.len() && 0 <= k < t.entries[i].layers.len() implies is_active(
        t.features,
        #[trigger] t.entries[i].layers[k].feature,
    ) by {
        let x = t.entries[i].layers[k].feature;
        assert(kept_from(s.entries, t.entries[i], p));
        let j = choose|j: int|
            0 <= j < s.entries.len() && t.entries[i].name == s.entries[j].name && layers_from(
                t.entries[i].layers,
                s.entries[j].layers,
                p,
            );
        assert(has_layer(s.entries[j].layers, x));
        let k2 = choose|k2: int| 0 <= k2 < s.entries[j].layers.len() && s.entries[j].layers[k2].feature == x;
        assert(is_active(s.features, s.entries[j].layers[k2].feature));
        lemma_drop_feature_keeps(s.features, p, x);
    }
}

} // verus!
