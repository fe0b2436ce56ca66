//! The merge engine: given a request, a catalog snapshot and a layer
//! snapshot, assign the caller to at most one variant per layer and merge
//! the variants' parameters per service, highest priority first.
//!
//! Everything a request observes is a pure function of the request and
//! the snapshots: the fold below defines it, and the engine is proved to
//! compute exactly that fold. A hash-key value may be a string or an
//! exact-integer number, which hashes as its decimal rendering; a layer
//! that cannot contribute — hash key missing or of another shape,
//! uncovered bucket, dangling variant id, foreign service, failed or
//! erroneous rule, non-object parameters — is skipped and the evaluation
//! continues; a request never fails as a whole.

use vstd::prelude::*;
use crate::json::{JsonValue, JsonSpec, json_view, entries_view, obj_get, obj_get_value,
    merge_entries};
use crate::rule::{FieldType, Node, ft_view, spec_eval_node};
use crate::layer::{Layer, ranges_wf, vid_at, spec_salt, same_layer, same_layers};
use crate::hash::{bucket_of, hash_to_bucket};
use crate::catalog::{ExperimentCatalog, spec_variant};
use crate::manager::{LayerManager, manager_wf, listed_layer, spec_service_layers};
use crate::strings::{str_eq, dec_of_i64, i64_to_dec};

verus! {

/// A request: the target services, the evaluation context, and an
/// optional explicit list of layer ids that overrides the index lookup.
pub struct ExperimentRequest {
    pub services: Vec<String>,
    pub context: Vec<(String, JsonValue)>,
    pub layers: Vec<String>,
}

/// What one service receives: the merged parameter object, the variant
/// ids that contributed, and the layers they came from.
pub struct ServiceResult {
    pub parameters: Vec<(String, JsonValue)>,
    pub vids: Vec<i64>,
    pub matched_layers: Vec<String>,
}

/// The response: one result per requested service, in request order.
pub struct ExperimentResponse {
    pub results: Vec<(String, ServiceResult)>,
}

/// The views of a list of strings.
pub open spec fn strs_view(v: Seq<String>) -> Seq<Seq<char>> {
    Seq::new(v.len(), |i: int| v[i]@)
}

/// The string a context value feeds to the hash, when it has one: a JSON
/// string is taken as it is; a JSON number with an exact 64-bit integer
/// value is rendered in canonical decimal form. Any other value — or a
/// number with no exact integer value, for which this engine defines no
/// canonical finite decimal rendering — yields nothing and the layer is
/// skipped.
pub open spec fn hash_key_of(v: Option<JsonSpec>) -> Option<Seq<char>> {
    match v {
        Some(JsonSpec::Str(s)) => Some(s),
        Some(JsonSpec::Num { int_val, bits }) => match int_val {
            Some(n) => Some(dec_of_i64(n)),
            None => None,
        },
        _ => None,
    }
}

/// What one layer contributes to one service, if anything: the variant
/// id the caller's bucket selects, together with the variant's parameter
/// entries. `None` means the layer is skipped: it is disabled, the
/// context holds no string or exact-integer value under the layer's hash
/// key, the bucket falls in a hole, the variant id is not in the catalog,
/// the variant serves another service, its rule does not evaluate to
/// true, or its parameters are not an object.
pub open spec fn layer_outcome(
    l: Layer,
    svc: Seq<char>,
    ctx: Seq<(Seq<char>, JsonSpec)>,
    ftv: Seq<(Seq<char>, FieldType)>,
    cat: ExperimentCatalog,
) -> Option<(i64, Seq<(Seq<char>, JsonSpec)>)> {
    if !l.enabled {
        None
    } else {
        match hash_key_of(obj_get(ctx, l.hash_key@)) {
            Some(key) => {
                let bucket = bucket_of(key, spec_salt(l));
                match vid_at(l.ranges@, bucket) {
                    None => None,
                    Some(vid) => match spec_variant(cat, vid) {
                        None => None,
                        Some(t) => if t.1.service@ != svc {
                            None
                        } else {
                            let rule_passed = match t.1.rule {
                                Some(rule) => spec_eval_node(rule, ctx, ftv) == Some(true),
                                None => true,
                            };
                            if !rule_passed {
                                None
                            } else {
                                match json_view(t.2.params) {
                                    JsonSpec::Obj(pe) => Some((vid, pe)),
                                    _ => None,
                                }
                            }
                        },
                    },
                }
            },
            _ => None,
        }
    }
}

/// One step of the merge fold: apply a layer's contribution, if any, to
/// the accumulated parameters, variant ids and matched layers.
pub open spec fn merge_step(
    acc: (Seq<(Seq<char>, JsonSpec)>, Seq<i64>, Seq<Seq<char>>),
    l: Layer,
    svc: Seq<char>,
    ctx: Seq<(Seq<char>, JsonSpec)>,
    ftv: Seq<(Seq<char>, FieldType)>,
    cat: ExperimentCatalog,
) -> (Seq<(Seq<char>, JsonSpec)>, Seq<i64>, Seq<Seq<char>>) {
    match layer_outcome(l, svc, ctx, ftv, cat) {
        Some(c) => (merge_entries(acc.0, c.1), acc.1.push(c.0), acc.2.push(l.layer_id@)),
        None => acc,
    }
}

/// The merge fold over a candidate layer list, from position `i` on.
pub open spec fn merge_run(
    acc: (Seq<(Seq<char>, JsonSpec)>, Seq<i64>, Seq<Seq<char>>),
    cands: Seq<Layer>,
    i: int,
    svc: Seq<char>,
    ctx: Seq<(Seq<char>, JsonSpec)>,
    ftv: Seq<(Seq<char>, FieldType)>,
    cat: ExperimentCatalog,
) -> (Seq<(Seq<char>, JsonSpec)>, Seq<i64>, Seq<Seq<char>>)
    decreases cands.len() - i,
{
    if i < 0 || i >= cands.len() {
        acc
    } else {
        merge_run(merge_step(acc, cands[i], svc, ctx, ftv, cat), cands, i + 1, svc, ctx, ftv, cat)
    }
}

/// The whole result for one service: the fold started from nothing.
pub open spec fn spec_service_result(
    cands: Seq<Layer>,
    svc: Seq<char>,
    ctx: Seq<(Seq<char>, JsonSpec)>,
    ftv: Seq<(Seq<char>, FieldType)>,
    cat: ExperimentCatalog,
) -> (Seq<(Seq<char>, JsonSpec)>, Seq<i64>, Seq<Seq<char>>) {
    merge_run((Seq::empty(), Seq::empty(), Seq::empty()), cands, 0, svc, ctx, ftv, cat)
}

/// Service isolation: every variant id the fold collects names a variant
/// whose experiment serves exactly the requested service. Variants of
/// other services never reach a service's result.
pub proof fn lemma_merge_run_service_isolation(
    acc: (Seq<(Seq<char>, JsonSpec)>, Seq<i64>, Seq<Seq<char>>),
    cands: Seq<Layer>,
    i: int,
    svc: Seq<char>,
    ctx: Seq<(Seq<char>, JsonSpec)>,
    ftv: Seq<(Seq<char>, FieldType)>,
    cat: ExperimentCatalog,
)
    requires
        forall|k: int|
            0 <= k < acc.1.len() ==> (spec_variant(cat, #[trigger] acc.1[k]) matches Some(t)
                && t.1.service@ == svc),
    ensures
        forall|k: int|
            0 <= k < merge_run(acc, cands, i, svc, ctx, ftv, cat).1.len() ==> (spec_variant(
                cat,
                #[trigger] merge_run(acc, cands, i, svc, ctx, ftv, cat).1[k],
            ) matches Some(t) && t.1.service@ == svc),
    decreases cands.len() - i,
{
    if 0 <= i < cands.len() {
        let acc2 = merge_step(acc, cands[i], svc, ctx, ftv, cat);
        assert forall|k: int| 0 <= k < acc2.1.len() implies (spec_variant(
            cat,
            #[trigger] acc2.1[k],
        ) matches Some(t) && t.1.service@ == svc) by {
            if k < acc.1.len() {
                assert(acc2.1[k] == acc.1[k]);
            }
        }
        lemma_merge_run_service_isolation(acc2, cands, i + 1, svc, ctx, ftv, cat);
    }
}

/// Evaluate one service against a fixed candidate list. The result is
/// exactly the fold [`spec_service_result`] of the candidates, the
/// context and the snapshots, and every collected variant id belongs to
/// an experiment serving this very service.
#[verifier::loop_isolation(false)]
#[verifier::rlimit(100)]
pub fn merge_layers_for_service(
    service: &str,
    candidates: &Vec<Layer>,
    context: &Vec<(String, JsonValue)>,
    catalog: &ExperimentCatalog,
    field_types: &Vec<(String, FieldType)>,
) -> (r: ServiceResult)
    requires
        forall|i: int| 0 <= i < candidates@.len() ==> ranges_wf((#[trigger] candidates@[i]).ranges@),
    ensures
        ({
            let f = spec_service_result(
                candidates@,
                service@,
                entries_view(context@),
                ft_view(field_types@),
                *catalog,
            );
            &&& entries_view(r.parameters@) == f.0
            &&& r.vids@ == f.1
            &&& strs_view(r.matched_layers@) == f.2
        }),
        forall|k: int|
            0 <= k < r.vids@.len() ==> (spec_variant(*catalog, #[trigger] r.vids@[k]) matches Some(
                t,
            ) && t.1.service@ == service@),
{
    let ghost svc = service@;
    let ghost ctxv = entries_view(context@);
    let ghost ftv = ft_view(field_types@);
    let ghost cat = *catalog;
    let ghost acc0 = (
        Seq::<(Seq<char>, JsonSpec)>::empty(),
        Seq::<i64>::empty(),
        Seq::<Seq<char>>::empty(),
    );
    let mut parameters: Vec<(String, JsonValue)> = Vec::new();
    let mut vids: Vec<i64> = Vec::new();
    let mut matched: Vec<String> = Vec::new();
    proof {
        assert(entries_view(parameters@) =~= acc0.0);
        assert(strs_view(matched@) =~= acc0.2);
    }
    let mut i: usize = 0;
    while i < candidates.len()
        invariant
            i <= candidates@.len(),
            merge_run(acc0, candidates@, 0, svc, ctxv, ftv, cat) == merge_run(
                (entries_view(parameters@), vids@, strs_view(matched@)),
                candidates@,
                i as int,
                svc,
                ctxv,
                ftv,
                cat,
            ),
        decreases candidates@.len() - i,
    {
        let ghost cur = (entries_view(parameters@), vids@, strs_view(matched@));
        let layer = &candidates[i];
        let ghost outcome = layer_outcome(*layer, svc, ctxv, ftv, cat);
        let mut contributed = false;
        if layer.enabled {
            let keyopt: Option<String> = match obj_get_value(context, layer.hash_key.as_str()) {
                Some(JsonValue::Str(key)) => Some(key.clone()),
                Some(JsonValue::Num { int_val: Some(n), bits: _ }) => Some(i64_to_dec(*n)),
                _ => None,
            };
            proof {
                if keyopt is Some {
                    assert(hash_key_of(obj_get(ctxv, layer.hash_key@)) == Some(
                        keyopt.unwrap()@,
                    ));
                } else {
                    assert(hash_key_of(obj_get(ctxv, layer.hash_key@)) is None);
                }
            }
            match keyopt {
                Some(key) => {
                    let salt = layer.get_salt();
                    let bucket = hash_to_bucket(key.as_str(), salt.as_str());
                    match layer.get_vid(bucket) {
                        Some(vid) => {
                            match catalog.get_variant(vid) {
                                Some(t) => {
                                    if str_eq(t.1.as_str(), service) {
                                        let rule_passed = match t.2 {
                                            Some(rule) => match rule.evaluate(
                                                context,
                                                field_types,
                                            ) {
                                                Ok(b) => b,
                                                Err(_) => false,
                                            },
                                            None => true,
                                        };
                                        if rule_passed {
                                            let is_obj = match t.3 {
                                                JsonValue::Obj(_) => true,
                                                _ => false,
                                            };
                                            if is_obj {
                                                let merged = crate::json::merge_params_prioritized(
                                                    &mut parameters,
                                                    t.3,
                                                );
                                                proof {
                                                    assert(merged is Ok);
                                                }
                                                vids.push(vid);
                                                matched.push(layer.layer_id.clone());
                                                contributed = true;
                                                proof {
                                                    assert(outcome == Some(
                                                        (
                                                            vid,
                                                            json_view(
                                                                spec_variant(
                                                                    cat,
                                                                    vid,
                                                                ).unwrap().2.params,
                                                            )->Obj_0,
                                                        ),
                                                    ));
                                                    assert(entries_view(parameters@)
                                                        == merge_entries(
                                                        cur.0,
                                                        outcome.unwrap().1,
                                                    ));
                                                    assert(strs_view(matched@) =~= cur.2.push(
                                                        layer.layer_id@,
                                                    ));
                                                }
                                            }
                                        }
                                    }
                                },
                                None => {},
                            }
                        },
                        None => {},
                    }
                },
                None => {},
            }
        }
        proof {
            if !contributed {
                assert(outcome is None);
                assert((entries_view(parameters@), vids@, strs_view(matched@)) == cur);
            }
            assert(merge_step(cur, candidates@[i as int], svc, ctxv, ftv, cat) == (
                entries_view(parameters@),
                vids@,
                strs_view(matched@),
            ));
        }
        i = i + 1;
    }
    proof {
        lemma_merge_run_service_isolation(acc0, candidates@, 0, svc, ctxv, ftv, cat);
    }
    ServiceResult { parameters, vids, matched_layers: matched }
}

/// The fold reads a layer only through its fields, so two pointwise
/// field-equal candidate lists fold identically.
pub proof fn lemma_merge_run_same_layers(
    acc: (Seq<(Seq<char>, JsonSpec)>, Seq<i64>, Seq<Seq<char>>),
    a: Seq<Layer>,
    b: Seq<Layer>,
    i: int,
    svc: Seq<char>,
    ctx: Seq<(Seq<char>, JsonSpec)>,
    ftv: Seq<(Seq<char>, FieldType)>,
    cat: ExperimentCatalog,
)
    requires
        same_layers(a, b),
    ensures
        merge_run(acc, a, i, svc, ctx, ftv, cat) == merge_run(acc, b, i, svc, ctx, ftv, cat),
    decreases a.len() - i,
{
    if 0 <= i < a.len() {
        assert(same_layer(a[i], b[i]));
        assert(layer_outcome(a[i], svc, ctx, ftv, cat) == layer_outcome(b[i], svc, ctx, ftv, cat))
            by {
            assert(spec_salt(a[i]) == spec_salt(b[i]));
            assert(a[i].ranges@ == b[i].ranges@);
            assert(a[i].hash_key@ == b[i].hash_key@);
        }
        assert(merge_step(acc, a[i], svc, ctx, ftv, cat) == merge_step(acc, b[i], svc, ctx, ftv, cat));
        lemma_merge_run_same_layers(
            merge_step(acc, a[i], svc, ctx, ftv, cat),
            a,
            b,
            i + 1,
            svc,
            ctx,
            ftv,
            cat,
        );
    }
}

/// The candidate list an explicit layer-id request resolves to: each id
/// looked up in order, unknown ids dropped.
pub open spec fn spec_explicit_candidates(m: LayerManager, ids: Seq<String>) -> Seq<Layer>
    decreases ids.len(),
{
    if ids.len() == 0 {
        Seq::empty()
    } else {
        let pre = spec_explicit_candidates(m, ids.drop_last());
        match listed_layer(m, ids.last()@) {
            Some(l) => pre.push(l),
            None => pre,
        }
    }
}

/// The candidate layers of one service under a request: the explicit
/// layer list when one is given, else the service's index entry.
pub open spec fn spec_candidates_for(
    req: ExperimentRequest,
    m: LayerManager,
    svc: Seq<char>,
) -> Seq<Layer> {
    if req.layers@.len() == 0 {
        spec_service_layers(m, svc)
    } else {
        spec_explicit_candidates(m, req.layers@)
    }
}

/// The distinct services of a request: the first occurrence of each, in
/// request order.
pub open spec fn dedup_services(ss: Seq<String>) -> Seq<Seq<char>>
    decreases ss.len(),
{
    if ss.len() == 0 {
        Seq::empty()
    } else {
        let pre = dedup_services(ss.drop_last());
        if pre.contains(ss.last()@) {
            pre
        } else {
            pre.push(ss.last()@)
        }
    }
}

/// What the batch promises of its response: one result per distinct
/// requested service, keyed in order of first occurrence, and each
/// service's parameters, variant ids and matched layers equal to the
/// merge fold of that service's candidates under the snapshots. This
/// pins the whole response as a function of the request, the layer
/// manager, the catalog and the field types.
pub open spec fn batch_post(
    r: ExperimentResponse,
    req: ExperimentRequest,
    m: LayerManager,
    cat: ExperimentCatalog,
    ftv: Seq<(Seq<char>, FieldType)>,
) -> bool {
    &&& Seq::new(r.results@.len(), |i: int| r.results@[i].0@) == dedup_services(req.services@)
    &&& forall|i: int|
        #![trigger r.results@[i]]
        0 <= i < r.results@.len() ==> {
            let f = spec_service_result(
                spec_candidates_for(req, m, r.results@[i].0@),
                r.results@[i].0@,
                entries_view(req.context@),
                ftv,
                cat,
            );
            &&& entries_view(r.results@[i].1.parameters@) == f.0
            &&& r.results@[i].1.vids@ == f.1
            &&& strs_view(r.results@[i].1.matched_layers@) == f.2
        }
}

/// Determinism of the batch: any two responses that [`batch_post`]
/// admits for the same request and the same snapshots agree entrywise —
/// the same services in the same order, and for each service the same
/// parameters, variant ids and matched layers. Since the batch ensures
/// `batch_post` of its result, two calls on equal inputs return equal
/// responses.
pub proof fn lemma_batch_deterministic(
    r1: ExperimentResponse,
    r2: ExperimentResponse,
    req: ExperimentRequest,
    m: LayerManager,
    cat: ExperimentCatalog,
    ftv: Seq<(Seq<char>, FieldType)>,
)
    requires
        batch_post(r1, req, m, cat, ftv),
        batch_post(r2, req, m, cat, ftv),
    ensures
        r1.results@.len() == r2.results@.len(),
        forall|i: int|
            0 <= i < r1.results@.len() ==> {
                &&& (#[trigger] r1.results@[i]).0@ == r2.results@[i].0@
                &&& entries_view(r1.results@[i].1.parameters@) == entries_view(
                    r2.results@[i].1.parameters@,
                )
                &&& r1.results@[i].1.vids@ == r2.results@[i].1.vids@
                &&& strs_view(r1.results@[i].1.matched_layers@) == strs_view(
                    r2.results@[i].1.matched_layers@,
                )
            },
{
    let keys1 = Seq::new(r1.results@.len(), |i: int| r1.results@[i].0@);
    let keys2 = Seq::new(r2.results@.len(), |i: int| r2.results@[i].0@);
    assert(keys1 == keys2);
    assert(keys1.len() == keys2.len());
    assert forall|i: int| 0 <= i < r1.results@.len() implies {
        &&& (#[trigger] r1.results@[i]).0@ == r2.results@[i].0@
        &&& entries_view(r1.results@[i].1.parameters@) == entries_view(
            r2.results@[i].1.parameters@,
        )
        &&& r1.results@[i].1.vids@ == r2.results@[i].1.vids@
        &&& strs_view(r1.results@[i].1.matched_layers@) == strs_view(
            r2.results@[i].1.matched_layers@,
        )
    } by {
        assert(keys1[i] == keys2[i]);
        assert(r1.results@[i].0@ == r2.results@[i].0@);
    }
}

/// Evaluate a whole request: one result per distinct requested service,
/// in order of first occurrence. Per service, the candidates are the
/// explicit layer list when one is given (unknown ids dropped) or the
/// service's index entry, and the result is the merge fold of those
/// candidates; every variant id in a service's result belongs to an
/// experiment serving that service.
#[verifier::loop_isolation(false)]
#[verifier::rlimit(100)]
pub fn merge_layers_batch(
    request: &ExperimentRequest,
    layer_manager: &LayerManager,
    catalog: &ExperimentCatalog,
    field_types: &Vec<(String, FieldType)>,
) -> (r: ExperimentResponse)
    requires
        manager_wf(*layer_manager),
    ensures
        batch_post(r, *request, *layer_manager, *catalog, ft_view(field_types@)),
        forall|i: int, k: int|
            #![trigger r.results@[i].1.vids@[k]]
            0 <= i < r.results@.len() && 0 <= k < r.results@[i].1.vids@.len() ==> (spec_variant(
                *catalog,
                r.results@[i].1.vids@[k],
            ) matches Some(t) && t.1.service@ == r.results@[i].0@),
{
    let ghost ctxv = entries_view(request.context@);
    let ghost ftv = ft_view(field_types@);
    let mut results: Vec<(String, ServiceResult)> = Vec::new();
    proof {
        assert(request.services@.take(0) =~= Seq::<String>::empty());
        assert(Seq::new(results@.len(), |i: int| results@[i].0@) =~= dedup_services(
            request.services@.take(0),
        ));
    }
    let mut s: usize = 0;
    while s < request.services.len()
        invariant
            s <= request.services@.len(),
            manager_wf(*layer_manager),
            Seq::new(results@.len(), |i: int| results@[i].0@) == dedup_services(
                request.services@.take(s as int),
            ),
            forall|i: int|
                #![trigger results@[i]]
                0 <= i < results@.len() ==> {
                    let f = spec_service_result(
                        spec_candidates_for(*request, *layer_manager, results@[i].0@),
                        results@[i].0@,
                        ctxv,
                        ftv,
                        *catalog,
                    );
                    &&& entries_view(results@[i].1.parameters@) == f.0
                    &&& results@[i].1.vids@ == f.1
                    &&& strs_view(results@[i].1.matched_layers@) == f.2
                },
            forall|i: int, k: int|
                #![trigger results@[i].1.vids@[k]]
                0 <= i < results@.len() && 0 <= k < results@[i].1.vids@.len() ==> (spec_variant(
                    *catalog,
                    results@[i].1.vids@[k],
                ) matches Some(t) && t.1.service@ == results@[i].0@),
        decreases request.services@.len() - s,
    {
        let service = &request.services[s];
        let ghost keys0 = Seq::new(results@.len(), |i: int| results@[i].0@);
        let mut dup = false;
        let mut d: usize = 0;
        while d < results.len()
            invariant
                d <= results@.len(),
                dup == exists|x: int| 0 <= x < d && (#[trigger] results@[x]).0@ == service@,
            decreases results@.len() - d,
        {
            if str_eq(results[d].0.as_str(), service.as_str()) {
                dup = true;
                proof {
                    assert(results@[d as int].0@ == service@);
                }
            }
            d = d + 1;
        }
        proof {
            assert(request.services@.take(s + 1).drop_last() =~= request.services@.take(s as int));
            assert(request.services@.take(s + 1).last() == request.services@[s as int]);
        }
        if !dup {
            proof {
                if dedup_services(request.services@.take(s as int)).contains(service@) {
                    let x = choose|x: int|
                        0 <= x < keys0.len() && #[trigger] keys0[x] == service@;
                    assert(results@[x].0@ == service@);
                    assert(false);
                }
            }
            let mut candidates: Vec<Layer> = Vec::new();
            if request.layers.len() == 0 {
                candidates = layer_manager.get_layers_for_service(service.as_str());
            } else {
                proof {
                    assert(request.layers@.take(0) =~= Seq::<String>::empty());
                    assert(same_layers(
                        candidates@,
                        spec_explicit_candidates(*layer_manager, request.layers@.take(0)),
                    ));
                }
                let mut a: usize = 0;
                while a < request.layers.len()
                    invariant
                        a <= request.layers@.len(),
                        manager_wf(*layer_manager),
                        same_layers(
                            candidates@,
                            spec_explicit_candidates(
                                *layer_manager,
                                request.layers@.take(a as int),
                            ),
                        ),
                        forall|x: int|
                            0 <= x < candidates@.len() ==> ranges_wf(
                                (#[trigger] candidates@[x]).ranges@,
                            ),
                    decreases request.layers@.len() - a,
                {
                    let ghost cb = candidates@;
                    let ghost eb = spec_explicit_candidates(
                        *layer_manager,
                        request.layers@.take(a as int),
                    );
                    proof {
                        assert(request.layers@.take(a + 1).drop_last() =~= request.layers@.take(
                            a as int,
                        ));
                        assert(request.layers@.take(a + 1).last() == request.layers@[a as int]);
                    }
                    match layer_manager.get_layer(request.layers[a].as_str()) {
                        Some(l) => {
                            proof {
                                crate::assoc::lemma_key_index_of(
                                    crate::assoc::kview(layer_manager.layers@),
                                    request.layers@[a as int]@,
                                );
                            }
                            candidates.push(l);
                            proof {
                                let listed = listed_layer(
                                    *layer_manager,
                                    request.layers@[a as int]@,
                                ).unwrap();
                                let enext = spec_explicit_candidates(
                                    *layer_manager,
                                    request.layers@.take(a + 1),
                                );
                                assert(enext == eb.push(listed));
                                assert(same_layers(candidates@, enext)) by {
                                    assert forall|x: int|
                                        0 <= x < candidates@.len() implies same_layer(
                                        candidates@[x],
                                        enext[x],
                                    ) by {
                                        if x < cb.len() {
                                            assert(candidates@[x] == cb[x]);
                                            assert(enext[x] == eb[x]);
                                        } else {
                                            assert(candidates@[x] == l);
                                            assert(enext[x] == listed);
                                        }
                                    }
                                }
                            }
                        },
                        None => {
                            proof {
                                assert(listed_layer(
                                    *layer_manager,
                                    request.layers@[a as int]@,
                                ) is None);
                                assert(same_layers(
                                    candidates@,
                                    spec_explicit_candidates(
                                        *layer_manager,
                                        request.layers@.take(a + 1),
                                    ),
                                ));
                            }
                        },
                    }
                    a = a + 1;
                }
                proof {
                    assert(request.layers@.take(request.layers@.len() as int)
                        =~= request.layers@);
                }
            }
            proof {
                assert(same_layers(
                    candidates@,
                    spec_candidates_for(*request, *layer_manager, service@),
                ));
            }
            let sr = merge_layers_for_service(
                service.as_str(),
                &candidates,
                &request.context,
                catalog,
                field_types,
            );
            proof {
                lemma_merge_run_same_layers(
                    (
                        Seq::<(Seq<char>, JsonSpec)>::empty(),
                        Seq::<i64>::empty(),
                        Seq::<Seq<char>>::empty(),
                    ),
                    candidates@,
                    spec_candidates_for(*request, *layer_manager, service@),
                    0,
                    service@,
                    ctxv,
                    ftv,
                    *catalog,
                );
            }
            let ghost rb = results@;
            results.push((service.clone(), sr));
            proof {
                assert(forall|i: int| 0 <= i < rb.len() ==> #[trigger] results@[i] == rb[i]);
                assert(results@[rb.len() as int].0@ == service@);
                assert(Seq::new(results@.len(), |i: int| results@[i].0@) =~= keys0.push(
                    service@,
                ));
                assert(dedup_services(request.services@.take(s + 1)) == keys0.push(service@));
            }
        } else {
            proof {
                assert(dedup_services(request.services@.take(s as int)).contains(service@)) by {
                    let x = choose|x: int|
                        0 <= x < results@.len() && (#[trigger] results@[x]).0@ == service@;
                    assert(keys0[x] == service@);
                }
                assert(dedup_services(request.services@.take(s + 1)) == dedup_services(
                    request.services@.take(s as int),
                ));
            }
        }
        s = s + 1;
    }
    proof {
        assert(request.services@.take(request.services@.len() as int) =~= request.services@);
    }
    ExperimentResponse { results }
}

} // verus!
