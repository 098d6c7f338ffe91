use vstd::prelude::*;

use crate::model::copy_text;
use crate::shadow::{
    activate, activated, deactivate, deactivated, env_view, features_view, is_active, wf,
    ActiveFeature, EnvVar, Feature, FeatureModel, ShadowState, StateModel,
};
use crate::codec::{decode, decode_spec, encode, encode_spec};
use crate::hash::{files_view, fnv_from, hash_text, hashed_text, hex_of, FNV_OFFSET};
use crate::lang::{evaluate, evaluate_spec, ScriptError};
use crate::model::{mutations_view, Mutation, MutationModel};
use crate::shadow::{changes, check_wf, drop_feature, resolve, touched, Change};
use crate::trust::{trusted, TrustStore};

verus! {

/// The feature `f` (path and hash) is among `ds`.
pub open spec fn listed(ds: Seq<(Seq<char>, Seq<char>)>, f: (Seq<char>, Seq<char>)) -> bool {
    exists|j: int| 0 <= j < ds.len() && ds[j] == f
}

/// The paths of the active features that are no longer current, the most
/// recently activated first. A feature whose scripts changed counts as gone.
pub open spec fn gone(fs: Seq<(Seq<char>, Seq<char>)>, ds: Seq<(Seq<char>, Seq<char>)>) -> Seq<
    Seq<char>,
>
    decreases fs.len(),
{
    if fs.len() == 0 {
        seq![]
    } else if listed(ds, fs[0]) {
        gone(fs.drop_first(), ds)
    } else {
        gone(fs.drop_first(), ds).push(fs[0].0)
    }
}

/// The current directory at index `j` is not active yet and not trusted.
pub open spec fn blocked_at(
    fs: Seq<(Seq<char>, Seq<char>)>,
    ds: Seq<(Seq<char>, Seq<char>)>,
    rs: Seq<(Seq<char>, Seq<char>)>,
    j: int,
) -> bool {
    !listed(fs, ds[j]) && !trusted(rs, ds[j].0, ds[j].1)
}

/// The indices below `k` of current directories that are not active yet.
pub open spec fn fresh_upto(
    fs: Seq<(Seq<char>, Seq<char>)>,
    ds: Seq<(Seq<char>, Seq<char>)>,
    k: int,
) -> Seq<int>
    decreases k,
{
    if k <= 0 {
        seq![]
    } else if !listed(fs, ds[k - 1]) {
        fresh_upto(fs, ds, k - 1).push(k - 1)
    } else {
        fresh_upto(fs, ds, k - 1)
    }
}

/// What one invocation is to do: the features to deactivate, in this order;
/// the current directories to evaluate and activate, in this order; and the
/// first directory that the trust gate stopped, if any.
#[derive(Debug, Clone, PartialEq, Eq)]
pub struct HookPlan {
    pub deactivate: Vec<String>,
    pub activate: Vec<usize>,
    pub blocked: Option<usize>,
}

pub open spec fn indices(v: Seq<usize>) -> Seq<int> {
    v.map_values(|i: usize| i as int)
}

/// Decides, from the active features of the previous state, the current
/// configuration directories (outermost first, with the hashes of their
/// scripts) and the trust store, which features go and which directories are
/// evaluated. Directories are taken in order and the first one that is new
/// and untrusted stops the pass: no directory from it on is evaluated.
pub fn plan(prev: &ShadowState, dirs: &Vec<ActiveFeature>, store: &TrustStore) -> (r: HookPlan)
    ensures
        ({
            let fs = features_view(prev.features@);
            let ds = features_view(dirs@);
            &&& r.deactivate@.map_values(|p: String| p@) == gone(fs, ds)
            &&& match r.blocked {
                Some(b) => {
                    &&& b < ds.len()
                    &&& blocked_at(fs, ds, store@, b as int)
                    &&& forall|j: int| 0 <= j < b ==> !blocked_at(fs, ds, store@, j)
                    &&& indices(r.activate@) == fresh_upto(fs, ds, b as int)
                },
                None => {
                    &&& forall|j: int| 0 <= j < ds.len() ==> !blocked_at(fs, ds, store@, j)
                    &&& indices(r.activate@) == fresh_upto(fs, ds, ds.len() as int)
                },
            }
            &&& forall|i: int|
                0 <= i < r.activate@.len() ==> r.activate@[i] < ds.len() && trusted(
                    store@,
                    ds[r.activate@[i] as int].0,
                    ds[r.activate@[i] as int].1,
                )
        }),
{
    let ghost fs = features_view(prev.features@);
    let ghost ds = features_view(dirs@);
    // features that go, the most recent first
    let mut out: Vec<String> = Vec::new();
    let n = prev.features.len();
    let mut i: usize = n;
    assert(fs.subrange(n as int, n as int) =~= Seq::<(Seq<char>, Seq<char>)>::empty());
    assert(out@.map_values(|p: String| p@) =~= Seq::<Seq<char>>::empty());
    while i > 0
        invariant
            i <= n,
            n == prev.features@.len(),
            fs == features_view(prev.features@),
            ds == features_view(dirs@),
            out@.map_values(|p: String| p@) == gone(fs.subrange(i as int, n as int), ds),
        decreases i,
    {
        let f = &prev.features[i - 1];
        let ghost sub = fs.subrange(i - 1, n as int);
        assert(sub.drop_first() =~= fs.subrange(i as int, n as int));
        assert(sub[0] == fs[i - 1]);
        let mut found = false;
        let mut j: usize = 0;
        while j < dirs.len()
            invariant
                j <= dirs@.len(),
                ds == features_view(dirs@),
                1 <= i <= n,
                n == fs.len(),
                found == exists|k: int| 0 <= k < j && ds[k] == fs[i - 1],
                fs[i - 1] == (f.path@, f.hash@),
            decreases dirs@.len() - j,
        {
            if dirs[j].path.eq(&f.path) && dirs[j].hash.eq(&f.hash) {
                assert(ds[j as int] == fs[i - 1]);
                found = true;
            }
            j += 1;
        }
        if !found {
            let ghost before = out@;
            out.push(copy_text(&f.path));
            assert(out@.map_values(|p: String| p@) =~= before.map_values(|p: String| p@).push(
                f.path@,
            ));
        }
        i -= 1;
    }
    assert(fs.subrange(0, n as int) =~= fs);
    // directories to evaluate, up to the first that is blocked
    let mut act: Vec<usize> = Vec::new();
    let mut k: usize = 0;
    assert(indices(act@) =~= Seq::<int>::empty());
    while k < dirs.len()
        invariant
            k <= dirs@.len(),
            fs == features_view(prev.features@),
            ds == features_view(dirs@),
            forall|j: int| 0 <= j < k ==> !blocked_at(fs, ds, store@, j),
            out@.map_values(|p: String| p@) == gone(fs, ds),
            indices(act@) == fresh_upto(fs, ds, k as int),
            forall|x: int|
                0 <= x < act@.len() ==> act@[x] < k && trusted(
                    store@,
                    ds[act@[x] as int].0,
                    ds[act@[x] as int].1,
                ),
        decreases dirs@.len() - k,
    {
        let d = &dirs[k];
        let mut active = false;
        let mut j: usize = 0;
        while j < prev.features.len()
            invariant
                j <= prev.features@.len(),
                fs == features_view(prev.features@),
                k < ds.len(),
                active == exists|x: int| 0 <= x < j && fs[x] == ds[k as int],
                ds[k as int] == (d.path@, d.hash@),
            decreases prev.features@.len() - j,
        {
            if prev.features[j].path.eq(&d.path) && prev.features[j].hash.eq(&d.hash) {
                assert(fs[j as int] == ds[k as int]);
                active = true;
            }
            j += 1;
        }
        if !active {
            if !store.is_trusted(&d.path, &d.hash) {
                assert(blocked_at(fs, ds, store@, k as int));
                return HookPlan { deactivate: out, activate: act, blocked: Some(k) };
            }
            let ghost before = act@;
            act.push(k);
            assert(indices(act@) =~= indices(before).push(k as int));
        }
        k += 1;
    }
    HookPlan { deactivate: out, activate: act, blocked: None }
}

/// Deactivation of each path in turn; one that is not active is passed over.
pub open spec fn after_deactivations(s: StateModel, ps: Seq<Seq<char>>) -> StateModel
    decreases ps.len(),
{
    if ps.len() == 0 {
        s
    } else {
        let t = after_deactivations(s, ps.drop_last());
        if is_active(t.features, ps.last()) {
            deactivated(t, ps.last())
        } else {
            t
        }
    }
}

/// Activation of each feature in turn; one already active is passed over.
pub open spec fn after_activations(
    s: StateModel,
    env: Seq<(Seq<char>, crate::model::ValueModel)>,
    fs: Seq<FeatureModel>,
) -> StateModel
    decreases fs.len(),
{
    if fs.len() == 0 {
        s
    } else {
        let t = after_activations(s, env, fs.drop_last());
        if is_active(t.features, fs.last().path) {
            t
        } else {
            activated(t, env, fs.last())
        }
    }
}

pub open spec fn feature_models(v: Seq<Feature>) -> Seq<FeatureModel> {
    v.map_values(|f: Feature| f@)
}

/// Deactivates the features at `paths`, in order.
pub fn deactivate_all(state: &mut ShadowState, paths: &Vec<String>)
    ensures
        final(state)@ == after_deactivations(old(state)@, paths@.map_values(|p: String| p@)),
        wf(old(state)@) ==> wf(final(state)@),
{
    let ghost s0 = state@;
    let ghost pv = paths@.map_values(|p: String| p@);
    let mut i: usize = 0;
    while i < paths.len()
        invariant
            i <= paths@.len(),
            pv == paths@.map_values(|p: String| p@),
            state@ == after_deactivations(s0, pv.take(i as int)),
            wf(s0) ==> wf(state@),
        decreases paths@.len() - i,
    {
        assert(pv.take(i + 1).drop_last() =~= pv.take(i as int));
        assert(pv.take(i + 1).last() == paths@[i as int]@);
        let _ = deactivate(state, &paths[i]);
        i += 1;
    }
    assert(pv.take(pv.len() as int) =~= pv);
}

/// Activates the features, in order, over the inherited environment `env`.
pub fn activate_all(state: &mut ShadowState, env: &Vec<EnvVar>, features: &Vec<Feature>)
    ensures
        final(state)@ == after_activations(old(state)@, env_view(env@), feature_models(features@)),
        wf(old(state)@) ==> wf(final(state)@),
{
    let ghost s0 = state@;
    let ghost fv = feature_models(features@);
    let mut i: usize = 0;
    while i < features.len()
        invariant
            i <= features@.len(),
            fv == feature_models(features@),
            state@ == after_activations(s0, env_view(env@), fv.take(i as int)),
            wf(s0) ==> wf(state@),
        decreases features@.len() - i,
    {
        assert(fv.take(i + 1).drop_last() =~= fv.take(i as int));
        assert(fv.take(i + 1).last() == features@[i as int]@);
        let _ = activate(state, env, &features[i]);
        i += 1;
    }
    assert(fv.take(fv.len() as int) =~= fv);
}

/// Nothing to do twice: when every active feature is among the current
/// directories (same path and hash) and every current directory is active, no
/// feature goes, no directory is evaluated and none is blocked.
pub proof fn lemma_plan_stable(
    fs: Seq<(Seq<char>, Seq<char>)>,
    ds: Seq<(Seq<char>, Seq<char>)>,
    rs: Seq<(Seq<char>, Seq<char>)>,
    k: int,
)
    requires
        0 <= k <= ds.len(),
        forall|i: int| 0 <= i < fs.len() ==> listed(ds, #[trigger] fs[i]),
        forall|j: int| 0 <= j < ds.len() ==> listed(fs, #[trigger] ds[j]),
    ensures
        gone(fs, ds) == Seq::<Seq<char>>::empty(),
        fresh_upto(fs, ds, k) == Seq::<int>::empty(),
        forall|j: int| 0 <= j < ds.len() ==> !blocked_at(fs, ds, rs, j),
    decreases k,
{
    lemma_gone_listed(fs, ds);
    if k > 0 {
        lemma_plan_stable(fs, ds, rs, k - 1);
        assert(listed(fs, ds[k - 1]));
    }
    assert forall|j: int| 0 <= j < ds.len() implies !blocked_at(fs, ds, rs, j) by {
        assert(listed(fs, ds[j]));
    }
}

pub open spec fn same_features(fs: Seq<(Seq<char>, Seq<char>)>, ds: Seq<(Seq<char>, Seq<char>)>) -> bool {
    &&& forall|i: int| 0 <= i < fs.len() ==> listed(ds, #[trigger] fs[i])
    &&& forall|j: int| 0 <= j < ds.len() ==> listed(fs, #[trigger] ds[j])
}

proof fn lemma_gone_listed(fs: Seq<(Seq<char>, Seq<char>)>, ds: Seq<(Seq<char>, Seq<char>)>)
    requires
        forall|i: int| 0 <= i < fs.len() ==> listed(ds, #[trigger] fs[i]),
    ensures
        gone(fs, ds) == Seq::<Seq<char>>::empty(),
    decreases fs.len(),
{
    if fs.len() > 0 {
        assert(listed(ds, fs[0]));
        assert forall|i: int| 0 <= i < fs.drop_first().len() implies listed(
            ds,
            #[trigger] fs.drop_first()[i],
        ) by {
            assert(fs.drop_first()[i] == fs[i + 1]);
        }
        lemma_gone_listed(fs.drop_first(), ds);
    }
}

/// A configuration directory found on disk: its path and its scripts, as
/// (file name, contents) in evaluation order.
#[derive(Debug, Clone, PartialEq, Eq)]
pub struct ConfigDir {
    pub path: String,
    pub files: Vec<(String, String)>,
}

/// Why an invocation stopped short; each names a directory by its index.
#[derive(Debug, Clone, PartialEq, Eq)]
pub enum HookError {
    Untrusted(usize),
    Script(usize, ScriptError),
}

/// What one invocation computed: the new state, the variables that changed,
/// the blob to carry to the next invocation, and the first failure, if any.
pub struct HookOutcome {
    pub state: ShadowState,
    pub changes: Vec<Change>,
    pub blob: String,
    pub error: Option<HookError>,
}

pub open spec fn empty_state() -> StateModel {
    StateModel { features: seq![], entries: seq![] }
}

/// The state carried over from the previous invocation: the blob's state
/// when it decodes to a well-formed one, else the empty state.
pub open spec fn previous(blob: Seq<char>) -> StateModel {
    match decode_spec(blob) {
        Some(s) => if wf(s) {
            s
        } else {
            empty_state()
        },
        None => empty_state(),
    }
}

pub open spec fn dir_hash(d: ConfigDir) -> Seq<char> {
    hex_of(fnv_from(FNV_OFFSET, hashed_text(files_view(d.files@))) as nat, 16)
}

/// The current directories as (path, hash).
pub open spec fn current(dirs: Seq<ConfigDir>) -> Seq<(Seq<char>, Seq<char>)> {
    dirs.map_values(|d: ConfigDir| (d.path@, dir_hash(d)))
}

/// The previous state, decoded from a blob; a blob that does not decode, or
/// decodes to a state that is not well formed, counts as the empty state.
pub fn previous_state(blob: &str) -> (r: ShadowState)
    ensures
        r@ == previous(blob@),
        wf(r@),
{
    match decode(blob) {
        Ok(st) => if check_wf(&st) {
            st
        } else {
            let e = ShadowState::new();
            assert(e@.features =~= empty_state().features);
            assert(e@.entries =~= empty_state().entries);
            e
        },
        Err(_) => {
            let e = ShadowState::new();
            assert(e@.features =~= empty_state().features);
            assert(e@.entries =~= empty_state().entries);
            e
        },
    }
}

/// The mutations of a directory's scripts, one script after the other.
pub open spec fn eval_files(files: Seq<(Seq<char>, Seq<char>)>) -> Result<Seq<MutationModel>, ScriptError>
    decreases files.len(),
{
    if files.len() == 0 {
        Ok(seq![])
    } else {
        match eval_files(files.drop_last()) {
            Ok(ms) => match evaluate_spec(files.last().1) {
                Ok(more) => Ok(ms + more),
                Err(e) => Err(e),
            },
            Err(e) => Err(e),
        }
    }
}

/// Evaluates a directory's scripts in order; the first error stops it.
pub fn evaluate_files(files: &Vec<(String, String)>) -> (r: Result<Vec<Mutation>, ScriptError>)
    ensures
        match r {
            Ok(ms) => eval_files(files_view(files@)) == Ok::<Seq<MutationModel>, ScriptError>(
                mutations_view(ms@),
            ),
            Err(e) => eval_files(files_view(files@)) == Err::<Seq<MutationModel>, ScriptError>(e),
        },
{
    let ghost fv = files_view(files@);
    let mut acc: Vec<Mutation> = Vec::new();
    let mut i: usize = 0;
    assert(mutations_view(acc@) =~= Seq::<MutationModel>::empty());
    while i < files.len()
        invariant
            i <= files@.len(),
            fv == files_view(files@),
            eval_files(fv.take(i as int)) == Ok::<Seq<MutationModel>, ScriptError>(
                mutations_view(acc@),
            ),
        decreases files@.len() - i,
    {
        assert(fv.take(i + 1).drop_last() =~= fv.take(i as int));
        assert(fv.take(i + 1).last() == (files@[i as int].0@, files@[i as int].1@));
        match evaluate(files[i].1.as_str()) {
            Ok(mut more) => {
                let ghost a = mutations_view(acc@);
                let ghost b = mutations_view(more@);
                acc.append(&mut more);
                assert(mutations_view(acc@) =~= a + b);
            },
            Err(e) => {
                proof {
                    lemma_eval_files_err(fv, i + 1, e);
                }
                return Err(e);
            },
        }
        i += 1;
    }
    assert(fv.take(fv.len() as int) =~= fv);
    Ok(acc)
}

proof fn lemma_eval_files_err(fv: Seq<(Seq<char>, Seq<char>)>, k: int, e: ScriptError)
    requires
        0 <= k <= fv.len(),
        eval_files(fv.take(k)) == Err::<Seq<MutationModel>, ScriptError>(e),
    ensures
        eval_files(fv) == Err::<Seq<MutationModel>, ScriptError>(e),
    decreases fv.len() - k,
{
    if k < fv.len() {
        assert(fv.take(k + 1).drop_last() =~= fv.take(k));
        lemma_eval_files_err(fv, k + 1, e);
    } else {
        assert(fv.take(k) =~= fv);
    }
}

proof fn lemma_drop_feature_sub(fs: Seq<(Seq<char>, Seq<char>)>, p: Seq<char>)
    ensures
        forall|j: int|
            0 <= j < drop_feature(fs, p).len() ==> fs.contains(#[trigger] drop_feature(fs, p)[j]),
    decreases fs.len(),
{
    if fs.len() > 0 {
        lemma_drop_feature_sub(fs.drop_last(), p);
        let d = drop_feature(fs.drop_last(), p);
        assert forall|j: int| 0 <= j < drop_feature(fs, p).len() implies fs.contains(
            #[trigger] drop_feature(fs, p)[j],
        ) by {
            if j < d.len() {
                assert(drop_feature(fs, p)[j] == d[j]);
                assert(fs.drop_last().contains(d[j]));
                let k = choose|k: int| 0 <= k < fs.drop_last().len() && fs.drop_last()[k] == d[j];
                assert(fs[k] == d[j]);
            } else {
                assert(drop_feature(fs, p)[j] == fs[fs.len() - 1]);
            }
        }
    }
}

proof fn lemma_deactivations_sub(s: StateModel, ps: Seq<Seq<char>>)
    ensures
        forall|j: int|
            0 <= j < after_deactivations(s, ps).features.len() ==> s.features.contains(
                #[trigger] after_deactivations(s, ps).features[j],
            ),
    decreases ps.len(),
{
    if ps.len() > 0 {
        lemma_deactivations_sub(s, ps.drop_last());
        let t = after_deactivations(s, ps.drop_last());
        if is_active(t.features, ps.last()) {
            lemma_drop_feature_sub(t.features, ps.last());
            assert forall|j: int|
                0 <= j < after_deactivations(s, ps).features.len() implies s.features.contains(
                #[trigger] after_deactivations(s, ps).features[j],
            ) by {
                let x = after_deactivations(s, ps).features[j];
                assert(t.features.contains(x));
                let k = choose|k: int| 0 <= k < t.features.len() && t.features[k] == x;
                assert(s.features.contains(t.features[k]));
            }
        }
    }
}

pub open spec fn from_features(x: (Seq<char>, Seq<char>), fs: Seq<FeatureModel>) -> bool {
    exists|i: int| 0 <= i < fs.len() && (fs[i].path, fs[i].hash) == x
}

proof fn lemma_activations_sub(
    s: StateModel,
    env: Seq<(Seq<char>, crate::model::ValueModel)>,
    fs: Seq<FeatureModel>,
)
    ensures
        forall|j: int|
            0 <= j < after_activations(s, env, fs).features.len() ==> s.features.contains(
                #[trigger] after_activations(s, env, fs).features[j],
            ) || from_features(after_activations(s, env, fs).features[j], fs),
    decreases fs.len(),
{
    if fs.len() > 0 {
        let pre = fs.drop_last();
        lemma_activations_sub(s, env, pre);
        let t = after_activations(s, env, pre);
        let u = after_activations(s, env, fs);
        assert forall|j: int| 0 <= j < u.features.len() implies s.features.contains(
            #[trigger] u.features[j],
        ) || from_features(u.features[j], fs) by {
            if j < t.features.len() {
                assert(u.features[j] == t.features[j]);
                if from_features(t.features[j], pre) {
                    let i = choose|i: int|
                        0 <= i < pre.len() && (pre[i].path, pre[i].hash) == t.features[j];
                    assert(fs[i] == pre[i]);
                }
            } else {
                assert(u.features[j] == (fs[fs.len() - 1].path, fs[fs.len() - 1].hash));
            }
        }
    }
}

/// Where the pass stops: the first current directory that is blocked, or
/// the number of directories when none is.
pub open spec fn stop_at(
    fs: Seq<(Seq<char>, Seq<char>)>,
    ds: Seq<(Seq<char>, Seq<char>)>,
    rs: Seq<(Seq<char>, Seq<char>)>,
) -> int {
    if exists|b: int| first_blocked(fs, ds, rs, b) {
        choose|b: int| first_blocked(fs, ds, rs, b)
    } else {
        ds.len() as int
    }
}

pub open spec fn first_blocked(
    fs: Seq<(Seq<char>, Seq<char>)>,
    ds: Seq<(Seq<char>, Seq<char>)>,
    rs: Seq<(Seq<char>, Seq<char>)>,
    b: int,
) -> bool {
    &&& 0 <= b < ds.len()
    &&& blocked_at(fs, ds, rs, b)
    &&& forall|j: int| 0 <= j < b ==> !blocked_at(fs, ds, rs, j)
}

/// The features that evaluating the chosen directories gives, in order, up
/// to the first whose scripts fail; and whether one failed.
pub open spec fn planned(dirs: Seq<ConfigDir>, act: Seq<int>) -> (Seq<FeatureModel>, bool)
    decreases act.len(),
{
    if act.len() == 0 {
        (seq![], false)
    } else {
        let (fm, failed) = planned(dirs, act.drop_last());
        let j = act.last();
        if failed || !(0 <= j < dirs.len()) {
            (fm, true)
        } else {
            match eval_files(files_view(dirs[j].files@)) {
                Ok(ms) => (
                    fm.push(FeatureModel { path: dirs[j].path@, hash: dir_hash(dirs[j]), mutations: ms }),
                    false,
                ),
                Err(_) => (fm, true),
            }
        }
    }
}

/// The state that one invocation leaves.
pub open spec fn hook_state(
    blob: Seq<char>,
    dirs: Seq<ConfigDir>,
    rs: Seq<(Seq<char>, Seq<char>)>,
    env: Seq<(Seq<char>, crate::model::ValueModel)>,
) -> StateModel {
    let prev = previous(blob);
    let ds = current(dirs);
    let fs = prev.features;
    after_activations(
        after_deactivations(prev, gone(fs, ds)),
        env,
        planned(dirs, fresh_upto(fs, ds, stop_at(fs, ds, rs))).0,
    )
}

proof fn lemma_stop_at(
    fs: Seq<(Seq<char>, Seq<char>)>,
    ds: Seq<(Seq<char>, Seq<char>)>,
    rs: Seq<(Seq<char>, Seq<char>)>,
    b: int,
)
    requires
        first_blocked(fs, ds, rs, b),
    ensures
        stop_at(fs, ds, rs) == b,
{
    let c = choose|c: int| first_blocked(fs, ds, rs, c);
    if c < b {
        assert(!blocked_at(fs, ds, rs, c));
    } else if b < c {
        assert(!blocked_at(fs, ds, rs, b));
    }
}

proof fn lemma_gate(
    before: StateModel,
    ps: Seq<Seq<char>>,
    env: Seq<(Seq<char>, crate::model::ValueModel)>,
    fm: Seq<FeatureModel>,
    rs: Seq<(Seq<char>, Seq<char>)>,
)
    requires
        forall|i: int| 0 <= i < fm.len() ==> trusted(rs, (#[trigger] fm[i]).path, fm[i].hash),
    ensures
        ({
            let st = after_activations(after_deactivations(before, ps), env, fm);
            forall|j: int|
                0 <= j < st.features.len() ==> before.features.contains(#[trigger] st.features[j])
                    || trusted(rs, st.features[j].0, st.features[j].1)
        }),
{
    let mid = after_deactivations(before, ps);
    let st = after_activations(mid, env, fm);
    lemma_deactivations_sub(before, ps);
    lemma_activations_sub(mid, env, fm);
    assert forall|j: int| 0 <= j < st.features.len() implies before.features.contains(
        #[trigger] st.features[j],
    ) || trusted(rs, st.features[j].0, st.features[j].1) by {
        let x = st.features[j];
        if mid.features.contains(x) {
            let m = choose|m: int| 0 <= m < mid.features.len() && mid.features[m] == x;
            assert(before.features.contains(mid.features[m]));
        } else {
            assert(from_features(x, fm));
            let i = choose|i: int| 0 <= i < fm.len() && (fm[i].path, fm[i].hash) == x;
            assert(trusted(rs, fm[i].path, fm[i].hash));
        }
    }
}

/// One invocation of the hook. The previous state comes from `blob`; the
/// directories that are no longer current are deactivated, most recent
/// first; the new ones are evaluated and activated in order, up to the first
/// that is untrusted or whose scripts fail, which is reported. Only trusted
/// directories' scripts are evaluated.
pub fn run(blob: &str, dirs: &Vec<ConfigDir>, store: &TrustStore, env: &Vec<EnvVar>) -> (r: HookOutcome)
    ensures
        r.state@ == hook_state(blob@, dirs@, store@, env_view(env@)),
        wf(r.state@),
        r.blob@ == encode_spec(r.state@),
        forall|j: int|
            0 <= j < r.state@.features.len() ==> previous(blob@).features.contains(
                #[trigger] r.state@.features[j],
            ) || trusted(store@, r.state@.features[j].0, r.state@.features[j].1),
        forall|i: int|
            0 <= i < r.changes@.len() ==> {
                &&& crate::model::opt_value(r.changes@[i].value) == resolve(
                    r.state@,
                    env_view(env@),
                    r.changes@[i].name@,
                )
                &&& resolve(previous(blob@), env_view(env@), r.changes@[i].name@) != resolve(
                    r.state@,
                    env_view(env@),
                    r.changes@[i].name@,
                )
            },
        forall|name: Seq<char>|
            (touched(previous(blob@), name) || touched(r.state@, name)) && resolve(
                previous(blob@),
                env_view(env@),
                name,
            ) != resolve(r.state@, env_view(env@), name) ==> exists|i: int|
                0 <= i < r.changes@.len() && r.changes@[i].name@ == name,
        same_features(previous(blob@).features, current(dirs@)) ==> r.state@ == previous(blob@)
            && r.changes@.len() == 0 && r.error == None::<HookError>,
{
    let before = previous_state(blob);
    let mut cur: Vec<ActiveFeature> = Vec::new();
    let mut i: usize = 0;
    while i < dirs.len()
        invariant
            i <= dirs@.len(),
            features_view(cur@) == current(dirs@).take(i as int),
        decreases dirs@.len() - i,
    {
        let ghost c0 = cur@;
        cur.push(ActiveFeature { path: copy_text(&dirs[i].path), hash: hash_text(&dirs[i].files) });
        assert(features_view(cur@) =~= features_view(c0).push(current(dirs@)[i as int]));
        assert(current(dirs@).take(i + 1) =~= current(dirs@).take(i as int).push(
            current(dirs@)[i as int],
        ));
        i += 1;
    }
    assert(current(dirs@).take(dirs@.len() as int) =~= current(dirs@));
    let p = plan(&before, &cur, store);
    let mut state = before_copy(&before);
    deactivate_all(&mut state, &p.deactivate);
    let ghost mid = state@;
    let mut features: Vec<Feature> = Vec::new();
    let mut error: Option<HookError> = None;
    let mut k: usize = 0;
    let ghost cv = features_view(cur@);
    assert(feature_models(features@) =~= Seq::<FeatureModel>::empty());
    while k < p.activate.len()
        invariant
            k <= p.activate@.len(),
            cv == features_view(cur@),
            cur@.len() == dirs@.len(),
            forall|x: int|
                0 <= x < p.activate@.len() ==> p.activate@[x] < cv.len() && trusted(
                    store@,
                    cv[p.activate@[x] as int].0,
                    cv[p.activate@[x] as int].1,
                ),
            forall|x: int|
                0 <= x < features@.len() ==> trusted(
                    store@,
                    (#[trigger] feature_models(features@)[x]).path,
                    feature_models(features@)[x].hash,
                ),
            features@.len() <= k,
            error.is_some() ==> p.activate@.len() > 0,
            (feature_models(features@), error.is_some()) == planned(dirs@, indices(p.activate@).take(k as int)),
            cv == current(dirs@),
        decreases p.activate@.len() - k,
    {
        let d = p.activate[k];
        let ghost act = indices(p.activate@);
        assert(act.take(k + 1).drop_last() =~= act.take(k as int));
        assert(act.take(k + 1).last() == d as int);
        if error.is_some() {
            k += 1;
            continue;
        }
        match evaluate_files(&dirs[d].files) {
            Ok(mutations) => {
                let ghost f0 = features@;
                let f = Feature {
                    path: copy_text(&cur[d].path),
                    hash: copy_text(&cur[d].hash),
                    mutations,
                };
                assert((f@.path, f@.hash) == cv[d as int]);
                features.push(f);
                assert(feature_models(features@) =~= feature_models(f0).push(f@));
                k += 1;
            },
            Err(e) => {
                error = Some(HookError::Script(d, e));
                k += 1;
            },
        }
    }
    proof {
        assert forall|i: int| 0 <= i < feature_models(features@).len() implies trusted(
            store@,
            feature_models(features@)[i].path,
            feature_models(features@)[i].hash,
        ) by {}
    }
    activate_all(&mut state, env, &features);
    if error.is_none() {
        match p.blocked {
            Some(b) => {
                error = Some(HookError::Untrusted(b));
            },
            None => {},
        }
    }
    proof {
        assert(indices(p.activate@).take(p.activate@.len() as int) =~= indices(p.activate@));
        match p.blocked {
            Some(b) => lemma_stop_at(before@.features, cv, store@, b as int),
            None => {
                if exists|b: int| first_blocked(before@.features, cv, store@, b) {
                    let b = choose|b: int| first_blocked(before@.features, cv, store@, b);
                    assert(!blocked_at(before@.features, cv, store@, b));
                }
            },
        }
        lemma_gate(before@, p.deactivate@.map_values(|x: String| x@), env_view(env@), feature_models(features@), store@);
        if same_features(before@.features, cv) {
            lemma_plan_stable(before@.features, cv, store@, cv.len() as int);
            assert(p.deactivate@.map_values(|x: String| x@) =~= Seq::<Seq<char>>::empty());
            assert(indices(p.activate@).len() == 0);
            assert(feature_models(features@) =~= Seq::<FeatureModel>::empty());
            assert(after_deactivations(before@, Seq::<Seq<char>>::empty()) == before@);
            assert(after_activations(before@, env_view(env@), Seq::<FeatureModel>::empty()) == before@);
            if p.blocked.is_some() {
                let b = p.blocked.unwrap();
                assert(!blocked_at(before@.features, cv, store@, b as int));
            }
        }
    }
    let ch = changes(&before, &state, env);
    proof {
        if before@ == state@ && ch@.len() > 0 {
            assert(resolve(before@, env_view(env@), ch@[0].name@) != resolve(
                state@,
                env_view(env@),
                ch@[0].name@,
            ));
        }
    }
    let b = encode(&state);
    HookOutcome { state, changes: ch, blob: b, error }
}

fn before_copy(st: &ShadowState) -> (r: ShadowState)
    ensures
        r@ == st@,
{
    let mut features: Vec<ActiveFeature> = Vec::new();
    let mut i: usize = 0;
    while i < st.features.len()
        invariant
            i <= st.features@.len(),
            features_view(features@) == features_view(st.features@).take(i as int),
        decreases st.features@.len() - i,
    {
        let ghost f0 = features@;
        features.push(
            ActiveFeature { path: copy_text(&st.features[i].path), hash: copy_text(&st.features[i].hash) },
        );
        assert(features_view(features@) =~= features_view(f0).push(st.features@[i as int]@));
        assert(features_view(st.features@).take(i + 1) =~= features_view(st.features@).take(
            i as int,
        ).push(st.features@[i as int]@));
        i += 1;
    }
    assert(features_view(st.features@).take(st.features@.len() as int) =~= features_view(
        st.features@,
    ));
    let mut entries: Vec<crate::shadow::ShadowEntry> = Vec::new();
    let mut j: usize = 0;
    while j < st.entries.len()
        invariant
            j <= st.entries@.len(),
            crate::shadow::entries_view(entries@) == crate::shadow::entries_view(st.entries@).take(
                j as int,
            ),
        decreases st.entries@.len() - j,
    {
        let ghost e0 = entries@;
        entries.push(crate::shadow::copy_entry(&st.entries[j]));
        assert(crate::shadow::entries_view(entries@) =~= crate::shadow::entries_view(e0).push(
            st.entries@[j as int]@,
        ));
        assert(crate::shadow::entries_view(st.entries@).take(j + 1) =~= crate::shadow::entries_view(
            st.entries@,
        ).take(j as int).push(st.entries@[j as int]@));
        j += 1;
    }
    assert(crate::shadow::entries_view(st.entries@).take(st.entries@.len() as int)
        =~= crate::shadow::entries_view(st.entries@));
    ShadowState { features, entries }
}

} // verus!
