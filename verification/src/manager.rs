//! The layer manager: the current layer set, the service-to-layers
//! inverted index derived from the catalog, and the per-layer rollback
//! history. All three are plain values here; the surrounding process
//! publishes a manager snapshot atomically and requests read it immutably.

use vstd::prelude::*;
use crate::error::ExperimentError;
use crate::layer::{Layer, ranges_wf, range_ok, same_layer, same_layers};
use crate::catalog::spec_variant;
use crate::strings::{chars_lt, str_eq, str_lt, lemma_chars_lt_total, lemma_chars_lt_trans};
use crate::assoc::{key_index_of, has_key, key_get, kview, key_find, lemma_key_index_of,
    lemma_key_index_of_is, lemma_key_push, lemma_key_update};
use crate::catalog::ExperimentCatalog;

verus! {

/// The order of the inverted index lists: higher priority first, ties by
/// ascending layer id.
pub open spec fn idx_before(a: (Seq<char>, int), b: (Seq<char>, int)) -> bool {
    a.1 > b.1 || (a.1 == b.1 && chars_lt(a.0, b.0))
}

/// The manager's state.
pub struct LayerManager {
    pub layers: Vec<(String, Layer)>,
    pub service_index: Vec<(String, Vec<String>)>,
    pub history: Vec<(String, Vec<Layer>)>,
}

/// The layer stored under `id`, if any.
pub open spec fn listed_layer(m: LayerManager, id: Seq<char>) -> Option<Layer> {
    key_get(kview(m.layers@), id)
}

/// The layer-table part of the invariant: unique keys, each equal to its
/// layer's own id, and well-formed ranges throughout.
pub open spec fn layers_wf(ls: Seq<(String, Layer)>) -> bool {
    &&& forall|i: int, j: int|
        0 <= i < j < ls.len() ==> (#[trigger] ls[i]).0@ != (#[trigger] ls[j]).0@
    &&& forall|i: int| 0 <= i < ls.len() ==> (#[trigger] ls[i]).0@ == ls[i].1.layer_id@
    &&& forall|i: int| 0 <= i < ls.len() ==> ranges_wf((#[trigger] ls[i]).1.ranges@)
}

/// The index part of the invariant, relative to a layer table: every
/// listed id resolves to a stored, enabled layer, and every list is
/// strictly ordered by descending priority, ties by ascending id.
#[verifier::opaque]
pub open spec fn index_wf(idx: Seq<(String, Vec<String>)>, ls: Seq<(String, Layer)>) -> bool {
    &&& forall|s: int, a: int|
        #![trigger idx[s].1@[a]]
        0 <= s < idx.len() && 0 <= a < idx[s].1@.len() ==> has_key(kview(ls), idx[s].1@[a]@)
            && key_get(kview(ls), idx[s].1@[a]@).unwrap().enabled
    &&& forall|s: int, a: int, b: int|
        #![trigger idx[s].1@[a], idx[s].1@[b]]
        0 <= s < idx.len() && 0 <= a < b < idx[s].1@.len() ==> idx_before(
            (idx[s].1@[a]@, key_get(kview(ls), idx[s].1@[a]@).unwrap().priority as int),
            (idx[s].1@[b]@, key_get(kview(ls), idx[s].1@[b]@).unwrap().priority as int),
        )
}

/// The history part of the invariant: every recorded version is keyed by
/// its own id and carries well-formed ranges, so a rollback can always
/// reinstate it.
pub open spec fn history_wf(h: Seq<(String, Vec<Layer>)>) -> bool {
    forall|s: int, a: int|
        #![trigger h[s].1@[a]]
        0 <= s < h.len() && 0 <= a < h[s].1@.len() ==> h[s].1@[a].layer_id@ == h[s].0@ && ranges_wf(
            h[s].1@[a].ranges@,
        )
}

/// The manager's whole invariant.
pub open spec fn manager_wf(m: LayerManager) -> bool {
    &&& layers_wf(m.layers@)
    &&& index_wf(m.service_index@, m.layers@)
    &&& history_wf(m.history@)
}

/// Whether one of the listed ids views as `id`.
pub open spec fn id_in(ids: Seq<String>, id: Seq<char>) -> bool {
    exists|a: int| 0 <= a < ids.len() && (#[trigger] ids[a])@ == id
}

/// Whether a layer can affect a service through the catalog: some range
/// variant id resolves to a variant of an experiment of that service.
pub open spec fn layer_serves(l: Layer, cat: crate::catalog::ExperimentCatalog, svc: Seq<char>) -> bool {
    exists|k: int|
        0 <= k < l.ranges@.len() && (spec_variant(cat, (#[trigger] l.ranges@[k]).vid) matches Some(
            t,
        ) && t.1.service@ == svc)
}

/// The index holds exactly the right layers for a layer table and a
/// catalog: its service keys are unique; every listed layer serves the
/// service it is listed under; and every stored, enabled layer that
/// serves a service through a resolvable range is listed under that
/// service.
#[verifier::opaque]
pub open spec fn index_exact(
    idx: Seq<(String, Vec<String>)>,
    ls: Seq<(String, Layer)>,
    cat: crate::catalog::ExperimentCatalog,
) -> bool {
    &&& forall|s1: int, s2: int|
        0 <= s1 < s2 < idx.len() ==> (#[trigger] idx[s1]).0@ != (#[trigger] idx[s2]).0@
    &&& forall|s: int, a: int|
        #![trigger idx[s].1@[a]]
        0 <= s < idx.len() && 0 <= a < idx[s].1@.len() ==> (key_get(kview(ls), idx[s].1@[a]@)
            matches Some(l) && layer_serves(l, cat, idx[s].0@))
    &&& forall|i: int, k: int|
        #![trigger ls[i].1.ranges@[k]]
        0 <= i < ls.len() && ls[i].1.enabled && 0 <= k < ls[i].1.ranges@.len() && spec_variant(
            cat,
            ls[i].1.ranges@[k].vid,
        ) is Some ==> (key_get(
            kview(idx),
            spec_variant(cat, ls[i].1.ranges@[k].vid).unwrap().1.service@,
        ) matches Some(ids) && id_in(ids@, ls[i].0@))
}

/// The layers a service's index entry materializes to: each listed id
/// resolved through the layer table in order, missing or disabled ids
/// dropped.
pub open spec fn materialized_layers(m: LayerManager, ids: Seq<String>) -> Seq<Layer>
    decreases ids.len(),
{
    if ids.len() == 0 {
        Seq::empty()
    } else {
        let pre = materialized_layers(m, ids.drop_last());
        match listed_layer(m, ids.last()@) {
            Some(l) => if l.enabled {
                pre.push(l)
            } else {
                pre
            },
            None => pre,
        }
    }
}

/// The candidate layers for one service: the service's index entry
/// materialized, or nothing when the service is not in the index.
pub open spec fn spec_service_layers(m: LayerManager, svc: Seq<char>) -> Seq<Layer> {
    match key_get(kview(m.service_index@), svc) {
        Some(ids) => materialized_layers(m, ids@),
        None => Seq::empty(),
    }
}

/// Insert a layer id into one service list, keeping the list ordered by
/// descending priority with ties by ascending id.
#[verifier::loop_isolation(false)]
#[verifier::rlimit(50)]
fn insert_id_sorted(list: &mut Vec<String>, id: &String, pri: i32, ls: &Vec<(String, Layer)>)
    requires
        has_key(kview(ls@), id@),
        key_get(kview(ls@), id@).unwrap().enabled,
        key_get(kview(ls@), id@).unwrap().priority == pri,
        forall|a: int|
            #![trigger old(list)@[a]]
            0 <= a < old(list)@.len() ==> has_key(kview(ls@), old(list)@[a]@) && key_get(
                kview(ls@),
                old(list)@[a]@,
            ).unwrap().enabled,
        forall|a: int, b: int|
            #![trigger old(list)@[a], old(list)@[b]]
            0 <= a < b < old(list)@.len() ==> idx_before(
                (old(list)@[a]@, key_get(kview(ls@), old(list)@[a]@).unwrap().priority as int),
                (old(list)@[b]@, key_get(kview(ls@), old(list)@[b]@).unwrap().priority as int),
            ),
        forall|a: int| 0 <= a < old(list)@.len() ==> (#[trigger] old(list)@[a])@ != id@,
    ensures
        forall|a: int|
            #![trigger final(list)@[a]]
            0 <= a < final(list)@.len() ==> has_key(kview(ls@), final(list)@[a]@) && key_get(
                kview(ls@),
                final(list)@[a]@,
            ).unwrap().enabled,
        forall|a: int, b: int|
            #![trigger final(list)@[a], final(list)@[b]]
            0 <= a < b < final(list)@.len() ==> idx_before(
                (
                    final(list)@[a]@,
                    key_get(kview(ls@), final(list)@[a]@).unwrap().priority as int,
                ),
                (
                    final(list)@[b]@,
                    key_get(kview(ls@), final(list)@[b]@).unwrap().priority as int,
                ),
            ),
        forall|j: int| 0 <= j < old(list)@.len() ==> id_in(final(list)@, (#[trigger] old(list)@[j])@),
        id_in(final(list)@, id@),
        forall|a: int|
            0 <= a < final(list)@.len() ==> (#[trigger] final(list)@[a])@ == id@ || id_in(
                old(list)@,
                final(list)@[a]@,
            ),
{
    let ghost s0 = list@;
    let ghost lsv = kview(ls@);
    let mut p: usize = 0;
    let mut stop = false;
    while p < list.len() && !stop
        invariant
            p <= list@.len(),
            list@ == s0,
            forall|a: int|
                0 <= a < p ==> idx_before(
                    (
                        (#[trigger] s0[a])@,
                        key_get(lsv, s0[a]@).unwrap().priority as int,
                    ),
                    (id@, pri as int),
                ),
            stop ==> p < list@.len() && idx_before(
                (id@, pri as int),
                (s0[p as int]@, key_get(lsv, s0[p as int]@).unwrap().priority as int),
            ),
        decreases list@.len() - p, (if stop { 0int } else { 1int }),
    {
        proof {
            lemma_key_index_of(lsv, s0[p as int]@);
        }
        let ep = match key_find(ls, list[p].as_str()) {
            Some(i) => ls[i].1.priority,
            None => i32::MIN,
        };
        let go = ep > pri || (ep == pri && str_lt(list[p].as_str(), id.as_str()));
        if go {
            p = p + 1;
        } else {
            proof {
                let epv = key_get(lsv, s0[p as int]@).unwrap().priority as int;
                assert(epv == ep as int);
                assert(!(epv > pri || (epv == pri && chars_lt(s0[p as int]@, id@))));
                lemma_chars_lt_total(s0[p as int]@, id@);
                assert(s0[p as int]@ != id@);
                assert(idx_before((id@, pri as int), (s0[p as int]@, epv)));
            }
            stop = true;
        }
    }
    list.insert(p, id.clone());
    proof {
        assert(list@.len() == s0.len() + 1);
        assert(list@[p as int]@ == id@);
        assert(forall|k: int| 0 <= k < p ==> #[trigger] list@[k] == s0[k]);
        assert(forall|k: int| p < k < s0.len() + 1 ==> #[trigger] list@[k] == s0[k - 1]);
        assert forall|a: int, b: int| 0 <= a < b < list@.len() implies idx_before(
            ((#[trigger] list@[a])@, key_get(lsv, list@[a]@).unwrap().priority as int),
            ((#[trigger] list@[b])@, key_get(lsv, list@[b]@).unwrap().priority as int),
        ) by {
            let pa = key_get(lsv, list@[a]@).unwrap().priority as int;
            let pb = key_get(lsv, list@[b]@).unwrap().priority as int;
            if b < p {
            } else if a < p && b == p {
            } else if a < p && b > p {
                assert(list@[b] == s0[b - 1]);
                if b - 1 == p as int {
                } else {
                }
            } else if a == p {
                assert(list@[b] == s0[b - 1]);
                let pc = key_get(lsv, s0[p as int]@).unwrap().priority as int;
                if b - 1 > p {
                    if pri as int == key_get(lsv, s0[b - 1]@).unwrap().priority as int {
                        if pri as int == pc {
                            lemma_chars_lt_trans(id@, s0[p as int]@, s0[b - 1]@);
                        }
                    }
                }
            } else {
                assert(list@[a] == s0[a - 1]);
                assert(list@[b] == s0[b - 1]);
            }
        }
        assert forall|j: int| 0 <= j < s0.len() implies id_in(list@, (#[trigger] s0[j])@) by {
            if j < p {
                assert(list@[j]@ == s0[j]@);
            } else {
                assert(list@[j + 1]@ == s0[j]@);
            }
        }
        assert(id_in(list@, id@)) by {
            assert(list@[p as int]@ == id@);
        }
        assert forall|a: int| 0 <= a < list@.len() implies (#[trigger] list@[a])@ == id@ || id_in(
            s0,
            list@[a]@,
        ) by {
            if a < p {
                assert(list@[a]@ == s0[a]@);
            } else if a > p {
                assert(list@[a]@ == s0[a - 1]@);
            }
        }
    }
}

/// Build the service index for a layer table: walk the enabled layers,
/// find through the catalog which services their ranges' variants serve,
/// and record each layer under each such service, every list ordered by
/// descending priority with ties by ascending id. The result is exact:
/// it lists a layer under a service if and only if the layer is enabled
/// and one of its range variant ids resolves to that service.
#[verifier::loop_isolation(false)]
#[verifier::rlimit(100)]
pub fn build_service_index(layers: &Vec<(String, Layer)>, catalog: &ExperimentCatalog) -> (r: Vec<
    (String, Vec<String>),
>)
    requires
        layers_wf(layers@),
    ensures
        index_wf(r@, layers@),
        index_exact(r@, layers@, *catalog),
{
    proof {
        reveal(index_wf);
        reveal(index_exact);
    }
    let mut idx: Vec<(String, Vec<String>)> = Vec::new();
    let mut i: usize = 0;
    while i < layers.len()
        invariant
            i <= layers@.len(),
            layers_wf(layers@),
            index_wf(idx@, layers@),
            forall|s1: int, s2: int|
                0 <= s1 < s2 < idx@.len() ==> (#[trigger] idx@[s1]).0@ != (#[trigger] idx@[s2]).0@,
            forall|s: int, a: int|
                #![trigger idx@[s].1@[a]]
                0 <= s < idx@.len() && 0 <= a < idx@[s].1@.len() ==> (key_get(
                    kview(layers@),
                    idx@[s].1@[a]@,
                ) matches Some(l) && layer_serves(l, *catalog, idx@[s].0@)),
            forall|i2: int, k: int|
                #![trigger layers@[i2].1.ranges@[k]]
                0 <= i2 < i && layers@[i2].1.enabled && 0 <= k < layers@[i2].1.ranges@.len()
                    && spec_variant(*catalog, layers@[i2].1.ranges@[k].vid) is Some ==> (key_get(
                    kview(idx@),
                    spec_variant(*catalog, layers@[i2].1.ranges@[k].vid).unwrap().1.service@,
                ) matches Some(ids) && id_in(ids@, layers@[i2].0@)),
        decreases layers@.len() - i,
    {
        proof {
            reveal(index_wf);
        }
        if layers[i].1.enabled {
            let ghost lsv = kview(layers@);
            proof {
                assert forall|j: int| 0 <= j < i implies lsv[j].0 != layers@[i as int].0@ by {
                    assert(lsv[j].0 == layers@[j].0@);
                }
                assert(lsv[i as int].0 == layers@[i as int].0@);
                lemma_key_index_of_is(lsv, layers@[i as int].0@, i as int);
            }
            let mut svcs: Vec<String> = Vec::new();
            let mut k: usize = 0;
            while k < layers[i].1.ranges.len()
                invariant
                    i < layers@.len(),
                    k <= layers@[i as int].1.ranges@.len(),
                    forall|q1: int, q2: int|
                        0 <= q1 < q2 < svcs@.len() ==> (#[trigger] svcs@[q1])@ != (
                        #[trigger] svcs@[q2])@,
                    forall|q: int|
                        0 <= q < svcs@.len() ==> layer_serves(
                            layers@[i as int].1,
                            *catalog,
                            (#[trigger] svcs@[q])@,
                        ),
                    forall|k2: int|
                        0 <= k2 < k && spec_variant(
                            *catalog,
                            (#[trigger] layers@[i as int].1.ranges@[k2]).vid,
                        ) is Some ==> id_in(
                            svcs@,
                            spec_variant(
                                *catalog,
                                layers@[i as int].1.ranges@[k2].vid,
                            ).unwrap().1.service@,
                        ),
                decreases layers@[i as int].1.ranges@.len() - k,
            {
                match catalog.get_variant(layers[i].1.ranges[k].vid) {
                    Some(t) => {
                        let svc: &String = t.1;
                        proof {
                            assert(spec_variant(
                                *catalog,
                                layers@[i as int].1.ranges@[k as int].vid,
                            ).unwrap().1.service@ == svc@);
                        }
                        let mut seen = false;
                        let mut q: usize = 0;
                        while q < svcs.len()
                            invariant
                                q <= svcs@.len(),
                                seen ==> id_in(svcs@, svc@),
                                !seen ==> forall|q2: int|
                                    0 <= q2 < q ==> (#[trigger] svcs@[q2])@ != svc@,
                            decreases svcs@.len() - q,
                        {
                            if str_eq(svcs[q].as_str(), svc.as_str()) {
                                seen = true;
                                proof {
                                    assert(svcs@[q as int]@ == svc@);
                                }
                            }
                            q = q + 1;
                        }
                        if !seen {
                            let ghost sb = svcs@;
                            svcs.push(svc.clone());
                            proof {
                                assert(forall|q2: int|
                                    0 <= q2 < sb.len() ==> #[trigger] svcs@[q2] == sb[q2]);
                                assert(svcs@[sb.len() as int]@ == svc@);
                                assert(layer_serves(layers@[i as int].1, *catalog, svc@)) by {
                                    assert(spec_variant(
                                        *catalog,
                                        (#[trigger] layers@[i as int].1.ranges@[k as int]).vid,
                                    ) matches Some(tt) && tt.1.service@ == svc@);
                                }
                                assert forall|k2: int|
                                    0 <= k2 < k && spec_variant(
                                        *catalog,
                                        (#[trigger] layers@[i as int].1.ranges@[k2]).vid,
                                    ) is Some implies id_in(
                                    svcs@,
                                    spec_variant(
                                        *catalog,
                                        layers@[i as int].1.ranges@[k2].vid,
                                    ).unwrap().1.service@,
                                ) by {
                                    let sv = spec_variant(
                                        *catalog,
                                        layers@[i as int].1.ranges@[k2].vid,
                                    ).unwrap().1.service@;
                                    let a = choose|a: int|
                                        0 <= a < sb.len() && (#[trigger] sb[a])@ == sv;
                                    assert(svcs@[a]@ == sv);
                                }
                            }
                        }
                        proof {
                            assert(id_in(svcs@, svc@));
                        }
                    },
                    None => {},
                }
                k = k + 1;
            }
            let lid = layers[i].0.clone();
            let pri = layers[i].1.priority;
            let mut t2: usize = 0;
            while t2 < svcs.len()
                invariant
                    t2 <= svcs@.len(),
                    i < layers@.len(),
                    layers_wf(layers@),
                    index_wf(idx@, layers@),
                    lid@ == layers@[i as int].0@,
                    pri == layers@[i as int].1.priority,
                    layers@[i as int].1.enabled,
                    key_get(kview(layers@), layers@[i as int].0@) == Some(layers@[i as int].1),
                    forall|q1: int, q2: int|
                        0 <= q1 < q2 < svcs@.len() ==> (#[trigger] svcs@[q1])@ != (
                        #[trigger] svcs@[q2])@,
                    forall|q: int|
                        0 <= q < svcs@.len() ==> layer_serves(
                            layers@[i as int].1,
                            *catalog,
                            (#[trigger] svcs@[q])@,
                        ),
                    forall|s1: int, s2: int|
                        0 <= s1 < s2 < idx@.len() ==> (#[trigger] idx@[s1]).0@ != (
                        #[trigger] idx@[s2]).0@,
                    forall|s: int, a: int|
                        #![trigger idx@[s].1@[a]]
                        0 <= s < idx@.len() && 0 <= a < idx@[s].1@.len() ==> (key_get(
                            kview(layers@),
                            idx@[s].1@[a]@,
                        ) matches Some(l) && layer_serves(l, *catalog, idx@[s].0@)),
                    forall|i2: int, k: int|
                        #![trigger layers@[i2].1.ranges@[k]]
                        0 <= i2 < i && layers@[i2].1.enabled && 0 <= k
                            < layers@[i2].1.ranges@.len() && spec_variant(
                            *catalog,
                            layers@[i2].1.ranges@[k].vid,
                        ) is Some ==> (key_get(
                            kview(idx@),
                            spec_variant(
                                *catalog,
                                layers@[i2].1.ranges@[k].vid,
                            ).unwrap().1.service@,
                        ) matches Some(ids) && id_in(ids@, layers@[i2].0@)),
                    forall|q: int|
                        0 <= q < t2 ==> (key_get(kview(idx@), (#[trigger] svcs@[q])@) matches Some(
                            ids,
                        ) && id_in(ids@, layers@[i as int].0@)),
                decreases svcs@.len() - t2,
            {
                proof {
                    reveal(index_wf);
                }
                let sname = &svcs[t2];
                let pos = match key_find(&idx, sname.as_str()) {
                    Some(p) => {
                        proof {
                            lemma_key_index_of(kview(idx@), sname@);
                        }
                        p
                    },
                    None => {
                        let ghost ib = idx@;
                        proof {
                            lemma_key_index_of(kview(ib), sname@);
                        }
                        idx.push((sname.clone(), Vec::new()));
                        proof {
                            let e = (sname@, idx@[ib.len() as int].1);
                            assert(kview(idx@) =~= kview(ib).push(e));
                            lemma_key_push(kview(ib), e);
                            assert(idx@[ib.len() as int].1@.len() == 0);
                            assert(forall|s: int|
                                0 <= s < ib.len() ==> #[trigger] idx@[s] == ib[s]);
                            assert(idx@[ib.len() as int].0@ == sname@);
                            assert forall|s1: int, s2: int|
                                0 <= s1 < s2 < idx@.len() implies (#[trigger] idx@[s1]).0@ != (
                            #[trigger] idx@[s2]).0@ by {
                                if s2 == ib.len() {
                                    assert(kview(ib)[s1].0 == ib[s1].0@);
                                }
                            }
                            assert forall|i2: int, k: int|
                                #![trigger layers@[i2].1.ranges@[k]]
                                0 <= i2 < i && layers@[i2].1.enabled && 0 <= k
                                    < layers@[i2].1.ranges@.len() && spec_variant(
                                    *catalog,
                                    layers@[i2].1.ranges@[k].vid,
                                ) is Some implies (key_get(
                                kview(idx@),
                                spec_variant(
                                    *catalog,
                                    layers@[i2].1.ranges@[k].vid,
                                ).unwrap().1.service@,
                            ) matches Some(ids) && id_in(ids@, layers@[i2].0@)) by {
                                let sv = spec_variant(
                                    *catalog,
                                    layers@[i2].1.ranges@[k].vid,
                                ).unwrap().1.service@;
                                assert(key_get(kview(ib), sv) matches Some(_));
                                assert(sv != sname@);
                            }
                            assert forall|q: int|
                                0 <= q < t2 implies (key_get(
                                kview(idx@),
                                (#[trigger] svcs@[q])@,
                            ) matches Some(ids) && id_in(ids@, layers@[i as int].0@)) by {
                                assert(key_get(kview(ib), svcs@[q]@) matches Some(_));
                                assert(svcs@[q]@ != sname@);
                            }
                        }
                        idx.len() - 1
                    },
                };
                proof {
                    assert(kview(idx@)[pos as int].0 == sname@);
                    assert forall|j: int| 0 <= j < pos implies kview(idx@)[j].0 != sname@ by {
                        assert(kview(idx@)[j].0 == idx@[j].0@);
                        assert(kview(idx@)[pos as int].0 == idx@[pos as int].0@);
                    }
                    lemma_key_index_of_is(kview(idx@), sname@, pos as int);
                }
                let ghost ib2 = idx@;
                let mut lst: Vec<String> = Vec::new();
                core::mem::swap(&mut idx[pos].1, &mut lst);
                let mut dup = false;
                let mut q2: usize = 0;
                while q2 < lst.len()
                    invariant
                        q2 <= lst@.len(),
                        dup == exists|a: int|
                            0 <= a < q2 && (#[trigger] lst@[a])@ == layers@[i as int].0@,
                    decreases lst@.len() - q2,
                {
                    if str_eq(lst[q2].as_str(), layers[i].0.as_str()) {
                        dup = true;
                        proof {
                            assert(lst@[q2 as int]@ == layers@[i as int].0@);
                        }
                    }
                    q2 = q2 + 1;
                }
                let ghost lst0 = lst@;
                proof {
                    assert(ib2[pos as int].1@ == lst@);
                }
                if !dup {
                    insert_id_sorted(&mut lst, &lid, pri, layers);
                }
                proof {
                    assert(id_in(lst@, lid@)) by {
                        if dup {
                            let a = choose|a: int|
                                0 <= a < lst0.len() && (#[trigger] lst0[a])@
                                    == layers@[i as int].0@;
                            assert(lst@[a]@ == lid@);
                        }
                    }
                    assert(forall|j: int|
                        0 <= j < lst0.len() ==> id_in(lst@, (#[trigger] lst0[j])@));
                    assert(forall|a: int|
                        0 <= a < lst@.len() ==> (#[trigger] lst@[a])@ == lid@ || id_in(
                            lst0,
                            lst@[a]@,
                        ));
                }
                idx[pos].1 = lst;
                proof {
                    assert(kview(idx@) =~= kview(ib2).update(
                        pos as int,
                        (kview(ib2)[pos as int].0, idx@[pos as int].1),
                    ));
                    lemma_key_update(kview(ib2), pos as int, idx@[pos as int].1);
                    assert(forall|s: int|
                        0 <= s < idx@.len() && s != pos ==> #[trigger] idx@[s] == ib2[s]);
                    assert(idx@[pos as int].0 == ib2[pos as int].0);
                    assert(idx@[pos as int].1@ == lst@);
                    assert forall|s: int, a: int|
                        #![trigger idx@[s].1@[a]]
                        0 <= s < idx@.len() && 0 <= a < idx@[s].1@.len() implies (key_get(
                        kview(layers@),
                        idx@[s].1@[a]@,
                    ) matches Some(l) && layer_serves(l, *catalog, idx@[s].0@)) by {
                        if s == pos {
                            if idx@[s].1@[a]@ == lid@ {
                                assert(key_get(kview(layers@), lid@) == Some(
                                    layers@[i as int].1,
                                ));
                                assert(layer_serves(
                                    layers@[i as int].1,
                                    *catalog,
                                    svcs@[t2 as int]@,
                                ));
                                assert(idx@[pos as int].0@ == sname@);
                            } else {
                                let j = choose|j: int|
                                    0 <= j < lst0.len() && (#[trigger] lst0[j])@
                                        == idx@[s].1@[a]@;
                                assert(ib2[pos as int].1@[j]@ == idx@[s].1@[a]@);
                            }
                        }
                    }
                    assert forall|s: int, a: int|
                        #![trigger idx@[s].1@[a]]
                        0 <= s < idx@.len() && 0 <= a < idx@[s].1@.len() implies has_key(
                        kview(layers@),
                        idx@[s].1@[a]@,
                    ) && key_get(kview(layers@), idx@[s].1@[a]@).unwrap().enabled by {
                        if s == pos {
                            if idx@[s].1@[a]@ == lid@ {
                            } else {
                                let j = choose|j: int|
                                    0 <= j < lst0.len() && (#[trigger] lst0[j])@
                                        == idx@[s].1@[a]@;
                                assert(ib2[pos as int].1@[j]@ == idx@[s].1@[a]@);
                            }
                        }
                    }
                    assert forall|s: int, a: int, b: int|
                        #![trigger idx@[s].1@[a], idx@[s].1@[b]]
                        0 <= s < idx@.len() && 0 <= a < b < idx@[s].1@.len() implies idx_before(
                        (
                            idx@[s].1@[a]@,
                            key_get(kview(layers@), idx@[s].1@[a]@).unwrap().priority as int,
                        ),
                        (
                            idx@[s].1@[b]@,
                            key_get(kview(layers@), idx@[s].1@[b]@).unwrap().priority as int,
                        ),
                    ) by {
                        if s != pos {
                            assert(idx@[s] == ib2[s]);
                        }
                    }
                    assert forall|i2: int, k: int|
                        #![trigger layers@[i2].1.ranges@[k]]
                        0 <= i2 < i && layers@[i2].1.enabled && 0 <= k
                            < layers@[i2].1.ranges@.len() && spec_variant(
                            *catalog,
                            layers@[i2].1.ranges@[k].vid,
                        ) is Some implies (key_get(
                        kview(idx@),
                        spec_variant(*catalog, layers@[i2].1.ranges@[k].vid).unwrap().1.service@,
                    ) matches Some(ids) && id_in(ids@, layers@[i2].0@)) by {
                        let sv = spec_variant(
                            *catalog,
                            layers@[i2].1.ranges@[k].vid,
                        ).unwrap().1.service@;
                        if key_index_of(kview(ib2), sv) == pos {
                            let olds = key_get(kview(ib2), sv).unwrap();
                            assert(olds == ib2[pos as int].1);
                            let j = choose|j: int|
                                0 <= j < olds@.len() && (#[trigger] olds@[j])@
                                    == layers@[i2].0@;
                            assert(id_in(lst@, lst0[j]@));
                        }
                    }
                    assert forall|q: int|
                        0 <= q < t2 + 1 implies (key_get(
                        kview(idx@),
                        (#[trigger] svcs@[q])@,
                    ) matches Some(ids) && id_in(ids@, layers@[i as int].0@)) by {
                        if q < t2 {
                            if key_index_of(kview(ib2), svcs@[q]@) == pos {
                                let olds = key_get(kview(ib2), svcs@[q]@).unwrap();
                                assert(olds == ib2[pos as int].1);
                                let j = choose|j: int|
                                    0 <= j < olds@.len() && (#[trigger] olds@[j])@
                                        == layers@[i as int].0@;
                                assert(id_in(lst@, lst0[j]@));
                            }
                        } else {
                            assert(key_get(kview(idx@), sname@) == Some(idx@[pos as int].1));
                        }
                    }
                }
                t2 = t2 + 1;
            }
            proof {
                assert forall|k2: int|
                    #![trigger layers@[i as int].1.ranges@[k2]]
                    0 <= k2 < layers@[i as int].1.ranges@.len() && spec_variant(
                        *catalog,
                        layers@[i as int].1.ranges@[k2].vid,
                    ) is Some implies (key_get(
                    kview(idx@),
                    spec_variant(
                        *catalog,
                        layers@[i as int].1.ranges@[k2].vid,
                    ).unwrap().1.service@,
                ) matches Some(ids) && id_in(ids@, layers@[i as int].0@)) by {
                    let sv = spec_variant(
                        *catalog,
                        layers@[i as int].1.ranges@[k2].vid,
                    ).unwrap().1.service@;
                    let q = choose|q: int| 0 <= q < svcs@.len() && (#[trigger] svcs@[q])@ == sv;
                }
            }
        }
        i = i + 1;
    }
    proof {
        reveal(index_exact);
    }
    idx
}

impl LayerManager {
    /// An empty manager: no layers, no index, no history.
    pub fn new() -> (r: LayerManager)
        ensures
            manager_wf(r),
            r.layers@.len() == 0,
            r.service_index@.len() == 0,
            r.history@.len() == 0,
    {
        proof {
            reveal(index_wf);
        }
        LayerManager { layers: Vec::new(), service_index: Vec::new(), history: Vec::new() }
    }

    /// The layer stored under `layer_id`, if any, as a copy.
    pub fn get_layer(&self, layer_id: &str) -> (r: Option<Layer>)
        ensures
            match r {
                Some(l) => listed_layer(*self, layer_id@) matches Some(sl) && same_layer(l, sl),
                None => listed_layer(*self, layer_id@) is None,
            },
    {
        match key_find(&self.layers, layer_id) {
            Some(i) => {
                proof {
                    lemma_key_index_of(kview(self.layers@), layer_id@);
                }
                Some(self.layers[i].1.duplicate())
            },
            None => None,
        }
    }

    /// All stored layer ids, in table order.
    pub fn get_layer_ids(&self) -> (r: Vec<String>)
        ensures
            r@.len() == self.layers@.len(),
            forall|i: int| 0 <= i < r@.len() ==> (#[trigger] r@[i])@ == self.layers@[i].0@,
    {
        let mut out: Vec<String> = Vec::new();
        let mut i: usize = 0;
        while i < self.layers.len()
            invariant
                i <= self.layers@.len(),
                out@.len() == i,
                forall|j: int| 0 <= j < i ==> (#[trigger] out@[j])@ == self.layers@[j].0@,
            decreases self.layers@.len() - i,
        {
            out.push(self.layers[i].0.clone());
            i = i + 1;
        }
        out
    }

    /// The layers eligible for one service: exactly the service's index
    /// entry materialized in index order (priority descending, ties by id
    /// ascending), disabled layers dropped, and empty exactly when the
    /// service is not in the index. Every returned layer is a stored,
    /// enabled layer in that order.
    #[verifier::loop_isolation(false)]
    pub fn get_layers_for_service(&self, service: &str) -> (r: Vec<Layer>)
        requires
            manager_wf(*self),
        ensures
            same_layers(r@, spec_service_layers(*self, service@)),
            forall|a: int|
                0 <= a < r@.len() ==> (listed_layer(*self, (#[trigger] r@[a]).layer_id@) matches
                    Some(sl) && same_layer(r@[a], sl) && r@[a].enabled && ranges_wf(
                    r@[a].ranges@,
                )),
            forall|a: int, b: int|
                0 <= a < b < r@.len() ==> idx_before(
                    ((#[trigger] r@[a]).layer_id@, r@[a].priority as int),
                    ((#[trigger] r@[b]).layer_id@, r@[b].priority as int),
                ),
    {
        proof {
            reveal(index_wf);
        }
        let mut out: Vec<Layer> = Vec::new();
        let s = match key_find(&self.service_index, service) {
            Some(s) => s,
            None => {
                proof {
                    assert(spec_service_layers(*self, service@) =~= Seq::<Layer>::empty());
                }
                return out;
            },
        };
        let ids: &Vec<String> = &self.service_index[s].1;
        proof {
            lemma_key_index_of(kview(self.service_index@), service@);
            assert(key_get(kview(self.service_index@), service@) == Some(
                self.service_index@[s as int].1,
            ));
            assert(ids@.take(0) =~= Seq::<String>::empty());
        }
        let mut a: usize = 0;
        while a < ids.len()
            invariant
                a <= ids@.len(),
                ids@ == self.service_index@[s as int].1@,
                s < self.service_index@.len(),
                key_get(kview(self.service_index@), service@) == Some(
                    self.service_index@[s as int].1,
                ),
                same_layers(out@, materialized_layers(*self, ids@.take(a as int))),
                forall|x: int|
                    0 <= x < out@.len() ==> (listed_layer(*self, (#[trigger] out@[x]).layer_id@)
                        matches Some(sl) && same_layer(out@[x], sl) && out@[x].enabled
                        && ranges_wf(out@[x].ranges@)),
                forall|x: int, y: int|
                    0 <= x < y < out@.len() ==> idx_before(
                        ((#[trigger] out@[x]).layer_id@, out@[x].priority as int),
                        ((#[trigger] out@[y]).layer_id@, out@[y].priority as int),
                    ),
                forall|x: int|
                    0 <= x < out@.len() ==> exists|p: int|
                        0 <= p < a && (#[trigger] out@[x]).layer_id@ == ids@[p]@,
            decreases ids@.len() - a,
        {
            let ghost mb = materialized_layers(*self, ids@.take(a as int));
            proof {
                assert(ids@.take(a + 1).drop_last() =~= ids@.take(a as int));
                assert(ids@.take(a + 1).last() == ids@[a as int]);
            }
            match key_find(&self.layers, ids[a].as_str()) {
                Some(i) => {
                    proof {
                        lemma_key_index_of(kview(self.layers@), ids@[a as int]@);
                        assert(listed_layer(*self, ids@[a as int]@) == Some(
                            self.layers@[i as int].1,
                        ));
                    }
                    let l = self.layers[i].1.duplicate();
                    if l.enabled {
                        let ghost obefore = out@;
                        out.push(l);
                        proof {
                            let mnext = materialized_layers(*self, ids@.take(a + 1));
                            assert(mnext == mb.push(self.layers@[i as int].1));
                            assert(same_layers(out@, mnext)) by {
                                assert forall|x: int| 0 <= x < out@.len() implies same_layer(
                                    out@[x],
                                    mnext[x],
                                ) by {
                                    if x < obefore.len() {
                                        assert(out@[x] == obefore[x]);
                                        assert(mnext[x] == mb[x]);
                                    } else {
                                        assert(out@[x] == l);
                                        assert(mnext[x] == self.layers@[i as int].1);
                                    }
                                }
                            }
                            assert forall|x: int, y: int| 0 <= x < y < out@.len() implies
                                idx_before(
                                ((#[trigger] out@[x]).layer_id@, out@[x].priority as int),
                                ((#[trigger] out@[y]).layer_id@, out@[y].priority as int),
                            ) by {
                                if y == out@.len() - 1 && x < y {
                                    let p = choose|p: int|
                                        0 <= p < a && (#[trigger] obefore[x]).layer_id@
                                            == ids@[p]@;
                                    assert(out@[x] == obefore[x]);
                                }
                            }
                            assert forall|x: int| 0 <= x < out@.len() implies exists|p: int|
                                0 <= p < a + 1 && (#[trigger] out@[x]).layer_id@ == ids@[p]@ by {
                                if x < obefore.len() {
                                    let p0 = choose|p0: int|
                                        0 <= p0 < a && (#[trigger] obefore[x]).layer_id@
                                            == ids@[p0]@;
                                    assert(out@[x] == obefore[x]);
                                    assert(0 <= p0 < a + 1 && out@[x].layer_id@ == ids@[p0]@);
                                } else {
                                    assert(out@[x].layer_id@ == ids@[a as int]@);
                                }
                            }
                        }
                    } else {
                        proof {
                            assert(same_layers(out@, materialized_layers(*self, ids@.take(a + 1))));
                        }
                    }
                },
                None => {
                    proof {
                        assert(listed_layer(*self, ids@[a as int]@) is None);
                        assert(same_layers(out@, materialized_layers(*self, ids@.take(a + 1))));
                    }
                },
            }
            a = a + 1;
        }
        proof {
            assert(ids@.take(ids@.len() as int) =~= ids@);
        }
        out
    }

    /// Replace the whole layer set: install the given layers, rebuild
    /// the service index against the catalog, and clear the history.
    /// The input carries distinct ids and well-formed ranges.
    #[verifier::rlimit(100)]
    #[verifier::loop_isolation(false)]
    pub fn load_all_layers(&mut self, layers: Vec<Layer>, catalog: &ExperimentCatalog)
        requires
            forall|i: int, j: int|
                0 <= i < j < layers@.len() ==> (#[trigger] layers@[i]).layer_id@ != (
                #[trigger] layers@[j]).layer_id@,
            forall|i: int| 0 <= i < layers@.len() ==> ranges_wf((#[trigger] layers@[i]).ranges@),
        ensures
            manager_wf(*final(self)),
            final(self).history@.len() == 0,
            final(self).layers@.len() == layers@.len(),
            forall|i: int|
                0 <= i < layers@.len() ==> (#[trigger] final(self).layers@[i]).0@
                    == layers@[i].layer_id@ && final(self).layers@[i].1 == layers@[i],
            index_exact(final(self).service_index@, final(self).layers@, *catalog),
    {
        let ghost lv = layers@;
        let mut rest = layers;
        let total = rest.len();
        proof {
            assert(lv.len() <= usize::MAX);
        }
        let mut table: Vec<(String, Layer)> = Vec::new();
        let mut t: usize = 0;
        while rest.len() > 0
            invariant
                t + rest@.len() == lv.len(),
                lv.len() <= usize::MAX,
                rest@ == lv.skip(t as int),
                table@.len() == t,
                forall|i: int|
                    0 <= i < t ==> (#[trigger] table@[i]).0@ == lv[i].layer_id@ && table@[i].1
                        == lv[i],
                forall|i: int, j: int|
                    0 <= i < j < lv.len() ==> (#[trigger] lv[i]).layer_id@ != (
                    #[trigger] lv[j]).layer_id@,
                forall|i: int| 0 <= i < lv.len() ==> ranges_wf((#[trigger] lv[i]).ranges@),
            decreases rest@.len(),
        {
            proof {
                assert(t < lv.len());
            }
            let l = rest.remove(0);
            proof {
                assert(l == lv[t as int]);
                assert(rest@ =~= lv.skip(t + 1));
            }
            let id = l.layer_id.clone();
            table.push((id, l));
            t = t + 1;
        }
        proof {
            assert(layers_wf(table@)) by {
                assert forall|i: int, j: int| 0 <= i < j < table@.len() implies (
                #[trigger] table@[i]).0@ != (#[trigger] table@[j]).0@ by {
                    assert(table@[i].0@ == lv[i].layer_id@);
                    assert(table@[j].0@ == lv[j].layer_id@);
                }
            }
        }
        let idx = build_service_index(&table, catalog);
        self.layers = table;
        self.service_index = idx;
        self.history = Vec::new();
    }

    /// Install or replace one layer: a previous version under the same id
    /// is pushed onto that layer's history stack (the stack grows by
    /// exactly one; a fresh id leaves the history untouched), every other
    /// layer and every other history stack is unchanged, and the index is
    /// rebuilt against the catalog.
    #[verifier::rlimit(100)]
    #[verifier::loop_isolation(false)]
    pub fn load_layer(&mut self, layer: Layer, catalog: &ExperimentCatalog)
        requires
            manager_wf(*old(self)),
            ranges_wf(layer.ranges@),
        ensures
            manager_wf(*final(self)),
            listed_layer(*final(self), layer.layer_id@) matches Some(sl) && same_layer(sl, layer),
            forall|id2: Seq<char>|
                id2 != layer.layer_id@ ==> #[trigger] listed_layer(*final(self), id2)
                    == listed_layer(*old(self), id2),
            final(self).layers@.len() == old(self).layers@.len() + (
            if listed_layer(*old(self), layer.layer_id@) is Some {
                0int
            } else {
                1int
            }),
            listed_layer(*old(self), layer.layer_id@) is None ==> final(self).history@ == old(
                self,
            ).history@,
            listed_layer(*old(self), layer.layer_id@) matches Some(prev) ==> (key_get(
                kview(final(self).history@),
                layer.layer_id@,
            ) matches Some(st2) && st2@ == (match key_get(
                kview(old(self).history@),
                layer.layer_id@,
            ) {
                Some(st) => st@,
                None => Seq::<Layer>::empty(),
            }).push(prev)),
            forall|id2: Seq<char>|
                id2 != layer.layer_id@ ==> #[trigger] key_get(kview(final(self).history@), id2)
                    == key_get(kview(old(self).history@), id2),
            index_exact(final(self).service_index@, final(self).layers@, *catalog),
    {
        let ghost l0 = self.layers@;
        let id = layer.layer_id.clone();
        match key_find(&self.layers, id.as_str()) {
            Some(i) => {
                proof {
                    lemma_key_index_of(kview(self.layers@), id@);
                }
                let mut old_layer = layer;
                core::mem::swap(&mut self.layers[i].1, &mut old_layer);
                proof {
                    assert(self.layers@ =~= l0.update(
                        i as int,
                        (l0[i as int].0, self.layers@[i as int].1),
                    ));
                    assert(listed_layer(*old(self), id@) == Some(l0[i as int].1));
                    assert(old_layer == l0[i as int].1);
                    assert(kview(self.layers@) =~= kview(l0).update(
                        i as int,
                        (kview(l0)[i as int].0, self.layers@[i as int].1),
                    ));
                    lemma_key_update(kview(l0), i as int, self.layers@[i as int].1);
                    assert forall|id2: Seq<char>| id2 != id@ implies #[trigger] key_get(
                        kview(self.layers@),
                        id2,
                    ) == key_get(kview(l0), id2) by {
                        if key_index_of(kview(l0), id2) == i {
                            lemma_key_index_of(kview(l0), id2);
                            assert(kview(l0)[i as int].0 == id2);
                            assert(false);
                        }
                    }
                }
                let ghost h0 = self.history@;
                match key_find(&self.history, id.as_str()) {
                    Some(h) => {
                        proof {
                            lemma_key_index_of(kview(h0), id@);
                        }
                        let ghost st0 = self.history@[h as int].1@;
                        self.history[h].1.push(old_layer);
                        proof {
                            assert(kview(self.history@) =~= kview(h0).update(
                                h as int,
                                (kview(h0)[h as int].0, self.history@[h as int].1),
                            ));
                            lemma_key_update(kview(h0), h as int, self.history@[h as int].1);
                            assert(key_index_of(kview(h0), id@) == h);
                            assert(key_get(kview(h0), id@) == Some(h0[h as int].1));
                            assert(h0[h as int].1@ == st0);
                            assert(self.history@[h as int].1@ == st0.push(old_layer));
                            assert forall|id2: Seq<char>| id2 != id@ implies #[trigger] key_get(
                                kview(self.history@),
                                id2,
                            ) == key_get(kview(h0), id2) by {
                                if key_index_of(kview(h0), id2) == h {
                                    lemma_key_index_of(kview(h0), id2);
                                    assert(kview(h0)[h as int].0 == id2);
                                    assert(false);
                                }
                            }
                            assert forall|s: int, a: int|
                                #![trigger self.history@[s].1@[a]]
                                0 <= s < self.history@.len() && 0 <= a
                                    < self.history@[s].1@.len() implies self.history@[s].1@[a].layer_id@
                                == self.history@[s].0@ && ranges_wf(
                                self.history@[s].1@[a].ranges@,
                            ) by {
                                if s != h {
                                    assert(self.history@[s] == h0[s]);
                                } else {
                                    if a < st0.len() {
                                        assert(self.history@[s].1@[a] == h0[s].1@[a]);
                                    } else {
                                        assert(self.history@[s].1@[a] == old_layer);
                                        assert(old_layer.layer_id@ == l0[i as int].0@);
                                    }
                                }
                            }
                        }
                    },
                    None => {
                        proof {
                            lemma_key_index_of(kview(h0), id@);
                        }
                        let mut st: Vec<Layer> = Vec::new();
                        st.push(old_layer);
                        self.history.push((id.clone(), st));
                        proof {
                            assert(kview(self.history@) =~= kview(h0).push(
                                (id@, self.history@[h0.len() as int].1),
                            ));
                            lemma_key_push(
                                kview(h0),
                                (id@, self.history@[h0.len() as int].1),
                            );
                            assert(!has_key(kview(h0), id@));
                            assert(self.history@[h0.len() as int].1@ =~= Seq::<
                                Layer,
                            >::empty().push(old_layer));
                            assert forall|s: int, a: int|
                                #![trigger self.history@[s].1@[a]]
                                0 <= s < self.history@.len() && 0 <= a
                                    < self.history@[s].1@.len() implies self.history@[s].1@[a].layer_id@
                                == self.history@[s].0@ && ranges_wf(
                                self.history@[s].1@[a].ranges@,
                            ) by {
                                if s < h0.len() {
                                    assert(self.history@[s] == h0[s]);
                                } else {
                                    assert(self.history@[s].1@[a] == old_layer);
                                    assert(old_layer.layer_id@ == l0[i as int].0@);
                                }
                            }
                        }
                    },
                }
                proof {
                    assert(layers_wf(self.layers@)) by {
                        assert forall|x: int, y: int| 0 <= x < y < self.layers@.len() implies (
                        #[trigger] self.layers@[x]).0@ != (#[trigger] self.layers@[y]).0@ by {
                            assert(self.layers@[x].0@ == l0[x].0@);
                            assert(self.layers@[y].0@ == l0[y].0@);
                        }
                        assert forall|x: int| 0 <= x < self.layers@.len() implies (
                        #[trigger] self.layers@[x]).0@ == self.layers@[x].1.layer_id@ by {
                            if x != i {
                                assert(self.layers@[x] == l0[x]);
                            }
                        }
                        assert forall|x: int| 0 <= x < self.layers@.len() implies ranges_wf(
                            (#[trigger] self.layers@[x]).1.ranges@,
                        ) by {
                            if x != i {
                                assert(self.layers@[x] == l0[x]);
                            }
                        }
                    }
                    assert(kview(l0)[i as int].0 == l0[i as int].0@);
                    assert forall|j: int| 0 <= j < i implies kview(self.layers@)[j].0
                        != layer.layer_id@ by {
                        assert(kview(self.layers@)[j].0 == l0[j].0@);
                        assert(l0[j].0@ != l0[i as int].0@);
                    }
                    assert(kview(self.layers@)[i as int].0 == layer.layer_id@);
                    lemma_key_index_of_is(kview(self.layers@), layer.layer_id@, i as int);
                    assert(key_get(kview(self.layers@), layer.layer_id@) == Some(
                        self.layers@[i as int].1,
                    ));
                }
            },
            None => {
                proof {
                    lemma_key_index_of(kview(self.layers@), id@);
                    assert(listed_layer(*old(self), layer.layer_id@) is None);
                }
                self.layers.push((id, layer));
                proof {
                    assert(kview(self.layers@) =~= kview(l0).push(
                        (layer.layer_id@, self.layers@[l0.len() as int].1),
                    ));
                    lemma_key_push(
                        kview(l0),
                        (layer.layer_id@, self.layers@[l0.len() as int].1),
                    );
                    assert forall|j: int| 0 <= j < l0.len() implies kview(self.layers@)[j].0
                        != layer.layer_id@ by {
                        assert(self.layers@[j] == l0[j]);
                        assert(kview(self.layers@)[j].0 == l0[j].0@);
                        assert(kview(l0)[j].0 == l0[j].0@);
                    }
                    assert(kview(self.layers@)[l0.len() as int].0 == layer.layer_id@);
                    lemma_key_index_of_is(
                        kview(self.layers@),
                        layer.layer_id@,
                        l0.len() as int,
                    );
                    assert(key_get(kview(self.layers@), layer.layer_id@) == Some(
                        self.layers@[l0.len() as int].1,
                    ));
                    assert(layers_wf(self.layers@)) by {
                        assert forall|x: int, y: int| 0 <= x < y < self.layers@.len() implies (
                        #[trigger] self.layers@[x]).0@ != (#[trigger] self.layers@[y]).0@ by {
                            if y < l0.len() {
                                assert(self.layers@[x] == l0[x]);
                                assert(self.layers@[y] == l0[y]);
                            } else {
                                if x < l0.len() {
                                    assert(self.layers@[x] == l0[x]);
                                    assert(kview(l0)[x].0 == l0[x].0@);
                                }
                            }
                        }
                        assert forall|x: int| 0 <= x < self.layers@.len() implies (
                        #[trigger] self.layers@[x]).0@ == self.layers@[x].1.layer_id@ by {
                            if x < l0.len() {
                                assert(self.layers@[x] == l0[x]);
                            }
                        }
                        assert forall|x: int| 0 <= x < self.layers@.len() implies ranges_wf(
                            (#[trigger] self.layers@[x]).1.ranges@,
                        ) by {
                            if x < l0.len() {
                                assert(self.layers@[x] == l0[x]);
                            }
                        }
                    }
                }
            },
        }
        let idx = build_service_index(&self.layers, catalog);
        self.service_index = idx;
    }

    /// Remove a layer by id and rebuild the index. Fails exactly when
    /// no layer carries the id, and then changes nothing. On success
    /// every other layer is untouched, and the history is never touched:
    /// a removal is not recorded there.
    #[verifier::rlimit(100)]
    #[verifier::loop_isolation(false)]
    pub fn remove_layer(&mut self, layer_id: &str, catalog: &ExperimentCatalog) -> (r: Result<
        (),
        ExperimentError,
    >)
        requires
            manager_wf(*old(self)),
        ensures
            manager_wf(*final(self)),
            r is Ok <==> has_key(kview(old(self).layers@), layer_id@),
            r is Err ==> *final(self) == *old(self),
            r matches Err(e) ==> e matches ExperimentError::LayerNotFound(_),
            r is Ok ==> listed_layer(*final(self), layer_id@) is None,
            final(self).history@ == old(self).history@,
            r is Ok ==> final(self).layers@.len() == old(self).layers@.len() - 1,
            forall|id2: Seq<char>|
                id2 != layer_id@ ==> #[trigger] listed_layer(*final(self), id2) == listed_layer(
                    *old(self),
                    id2,
                ),
            r is Ok ==> index_exact(final(self).service_index@, final(self).layers@, *catalog),
    {
        let i = match key_find(&self.layers, layer_id) {
            Some(i) => i,
            None => {
                return Err(ExperimentError::LayerNotFound(String::from_str(layer_id)));
            },
        };
        let ghost l0 = self.layers@;
        proof {
            lemma_key_index_of(kview(l0), layer_id@);
        }
        let _removed = self.layers.remove(i);
        proof {
            assert(self.layers@ =~= l0.remove(i as int));
            assert(kview(self.layers@) =~= kview(l0).remove(i as int));
            assert forall|i1: int, i2: int| 0 <= i1 < i2 < kview(l0).len() implies (
            #[trigger] kview(l0)[i1]).0 != (#[trigger] kview(l0)[i2]).0 by {
                assert(kview(l0)[i1].0 == l0[i1].0@);
                assert(kview(l0)[i2].0 == l0[i2].0@);
            }
            assert(kview(l0)[i as int].0 == layer_id@);
            crate::assoc::lemma_key_remove(kview(l0), i as int);
            assert(layers_wf(self.layers@)) by {
                assert forall|x: int, y: int| 0 <= x < y < self.layers@.len() implies (
                #[trigger] self.layers@[x]).0@ != (#[trigger] self.layers@[y]).0@ by {
                    assert(self.layers@[x] == (if x < i { l0[x] } else { l0[x + 1] }));
                    assert(self.layers@[y] == (if y < i { l0[y] } else { l0[y + 1] }));
                }
                assert forall|x: int| 0 <= x < self.layers@.len() implies (
                #[trigger] self.layers@[x]).0@ == self.layers@[x].1.layer_id@ && ranges_wf(
                    self.layers@[x].1.ranges@,
                ) by {
                    assert(self.layers@[x] == (if x < i { l0[x] } else { l0[x + 1] }));
                }
            }
        }
        let idx = build_service_index(&self.layers, catalog);
        self.service_index = idx;
        proof {
            lemma_key_index_of(kview(self.layers@), layer_id@);
            assert(kview(l0)[i as int].0 == l0[i as int].0@);
            if has_key(kview(self.layers@), layer_id@) {
                let m = key_index_of(kview(self.layers@), layer_id@);
                assert(kview(self.layers@)[m].0 == self.layers@[m].0@);
                assert(self.layers@[m] == (if m < i { l0[m] } else { l0[m + 1] }));
                assert(l0[i as int].0@ == layer_id@);
                assert(false);
            }
        }
        Ok(())
    }

    /// Roll a layer back to its most recent prior version: pop it from
    /// the history stack, reinstate it as current, and rebuild the
    /// index. Fails exactly when the layer has no recorded prior version
    /// or is not currently stored, and then changes nothing.
    #[verifier::rlimit(100)]
    #[verifier::loop_isolation(false)]
    pub fn rollback_layer(&mut self, layer_id: &str, catalog: &ExperimentCatalog) -> (r: Result<
        (),
        ExperimentError,
    >)
        requires
            manager_wf(*old(self)),
        ensures
            manager_wf(*final(self)),
            r is Err ==> *final(self) == *old(self),
            r matches Err(e) ==> e matches ExperimentError::InvalidVersion(_),
            r is Err <==> !(key_get(kview(old(self).history@), layer_id@) matches Some(st)
                && st@.len() > 0 && has_key(kview(old(self).layers@), layer_id@)),
            r is Ok ==> (key_get(kview(old(self).history@), layer_id@) matches Some(st)
                && listed_layer(*final(self), layer_id@) matches Some(cur) && same_layer(
                cur,
                st@[st@.len() - 1],
            )),
            r is Ok ==> (key_get(kview(final(self).history@), layer_id@) matches Some(st2)
                && key_get(kview(old(self).history@), layer_id@) matches Some(st) && st2@
                == st@.drop_last()),
            forall|id2: Seq<char>|
                id2 != layer_id@ ==> #[trigger] key_get(kview(final(self).history@), id2)
                    == key_get(kview(old(self).history@), id2),
            forall|id2: Seq<char>|
                id2 != layer_id@ ==> #[trigger] listed_layer(*final(self), id2) == listed_layer(
                    *old(self),
                    id2,
                ),
            final(self).layers@.len() == old(self).layers@.len(),
            r is Ok ==> index_exact(final(self).service_index@, final(self).layers@, *catalog),
    {
        let hi = match key_find(&self.history, layer_id) {
            Some(h) => h,
            None => {
                return Err(ExperimentError::InvalidVersion(String::from_str(layer_id)));
            },
        };
        proof {
            lemma_key_index_of(kview(self.history@), layer_id@);
        }
        if self.history[hi].1.len() == 0 {
            return Err(ExperimentError::InvalidVersion(String::from_str(layer_id)));
        }
        let li = match key_find(&self.layers, layer_id) {
            Some(i) => i,
            None => {
                return Err(ExperimentError::InvalidVersion(String::from_str(layer_id)));
            },
        };
        proof {
            lemma_key_index_of(kview(self.layers@), layer_id@);
        }
        let ghost h0 = self.history@;
        let ghost st = self.history@[hi as int].1@;
        let ghost l0 = self.layers@;
        let prev = match self.history[hi].1.pop() {
            Some(p) => p,
            None => {
                proof {
                    assert(false);
                }
                unreached()
            },
        };
        proof {
            assert(prev == st[st.len() - 1]);
            assert(prev.layer_id@ == h0[hi as int].0@);
            assert(h0[hi as int].0@ == layer_id@) by {
                assert(kview(h0)[hi as int].0 == h0[hi as int].0@);
            }
            assert(ranges_wf(prev.ranges@));
            assert(kview(self.history@) =~= kview(h0).update(
                hi as int,
                (kview(h0)[hi as int].0, self.history@[hi as int].1),
            ));
            lemma_key_update(kview(h0), hi as int, self.history@[hi as int].1);
            assert(key_index_of(kview(h0), layer_id@) == hi);
            assert(key_get(kview(h0), layer_id@) == Some(h0[hi as int].1));
            assert(self.history@[hi as int].1@ == st.drop_last());
            assert forall|id2: Seq<char>| id2 != layer_id@ implies #[trigger] key_get(
                kview(self.history@),
                id2,
            ) == key_get(kview(h0), id2) by {
                if key_index_of(kview(h0), id2) == hi {
                    lemma_key_index_of(kview(h0), id2);
                    assert(kview(h0)[hi as int].0 == id2);
                    assert(false);
                }
            }
        }
        let k = self.layers[li].0.clone();
        self.layers[li] = (k, prev);
        proof {
            assert(self.layers@ =~= l0.update(li as int, self.layers@[li as int]));
            assert(kview(self.layers@) =~= kview(l0).update(
                li as int,
                (kview(l0)[li as int].0, self.layers@[li as int].1),
            ));
            lemma_key_update(kview(l0), li as int, self.layers@[li as int].1);
            assert forall|id2: Seq<char>| id2 != layer_id@ implies #[trigger] key_get(
                kview(self.layers@),
                id2,
            ) == key_get(kview(l0), id2) by {
                if key_index_of(kview(l0), id2) == li {
                    lemma_key_index_of(kview(l0), id2);
                    assert(kview(l0)[li as int].0 == id2);
                    assert(false);
                }
            }
            assert(layers_wf(self.layers@)) by {
                assert forall|x: int, y: int| 0 <= x < y < self.layers@.len() implies (
                #[trigger] self.layers@[x]).0@ != (#[trigger] self.layers@[y]).0@ by {
                    assert(self.layers@[x].0@ == l0[x].0@);
                    assert(self.layers@[y].0@ == l0[y].0@);
                }
                assert forall|x: int| 0 <= x < self.layers@.len() implies (
                #[trigger] self.layers@[x]).0@ == self.layers@[x].1.layer_id@ && ranges_wf(
                    self.layers@[x].1.ranges@,
                ) by {
                    if x != li {
                        assert(self.layers@[x] == l0[x]);
                    } else {
                        assert(self.layers@[x].0@ == l0[li as int].0@);
                        assert(kview(l0)[li as int].0 == l0[li as int].0@);
                    }
                }
            }
            assert(history_wf(self.history@)) by {
                assert forall|s: int, a: int|
                    #![trigger self.history@[s].1@[a]]
                    0 <= s < self.history@.len() && 0 <= a < self.history@[s].1@.len() implies
                    self.history@[s].1@[a].layer_id@ == self.history@[s].0@ && ranges_wf(
                    self.history@[s].1@[a].ranges@,
                ) by {
                    if s != hi {
                        assert(self.history@[s] == h0[s]);
                    } else {
                        assert(self.history@[s].1@[a] == h0[s].1@[a]);
                    }
                }
            }
        }
        let idx = build_service_index(&self.layers, catalog);
        self.service_index = idx;
        proof {
            assert(kview(l0)[li as int].0 == l0[li as int].0@);
            assert forall|j: int| 0 <= j < li implies kview(self.layers@)[j].0 != layer_id@ by {
                assert(kview(self.layers@)[j].0 == self.layers@[j].0@);
                assert(self.layers@[j].0@ == l0[j].0@);
                assert(l0[j].0@ != l0[li as int].0@);
            }
            assert(kview(self.layers@)[li as int].0 == self.layers@[li as int].0@);
            assert(self.layers@[li as int].0@ == l0[li as int].0@);
            lemma_key_index_of_is(kview(self.layers@), layer_id@, li as int);
            assert(key_get(kview(self.layers@), layer_id@) == Some(
                self.layers@[li as int].1,
            ));
        }
        Ok(())
    }
}

impl LayerManager {
    /// Rebuild the service index against the catalog, leaving layers and
    /// history as they are. The rebuilt index is exact for the current
    /// layer table and the given catalog.
    pub fn rebuild_index(&mut self, catalog: &ExperimentCatalog)
        requires
            manager_wf(*old(self)),
        ensures
            manager_wf(*final(self)),
            final(self).layers@ == old(self).layers@,
            final(self).history@ == old(self).history@,
            index_exact(final(self).service_index@, final(self).layers@, *catalog),
    {
        let idx = build_service_index(&self.layers, catalog);
        self.service_index = idx;
    }
}

/// Whether a layer's ranges satisfy the table invariant: each range
/// half-open and in bounds, adjacent ranges non-overlapping in order.
#[verifier::loop_isolation(false)]
pub fn ranges_ok_check(l: &Layer) -> (r: bool)
    ensures
        r == ranges_wf(l.ranges@),
{
    let n = l.ranges.len();
    let mut i: usize = 0;
    while i < n
        invariant
            i <= n,
            n == l.ranges@.len(),
            forall|k: int| 0 <= k < i ==> range_ok(#[trigger] l.ranges@[k]),
            forall|k: int|
                0 <= k < i && k < n - 1 ==> (#[trigger] l.ranges@[k]).end <= l.ranges@[k + 1].start,
        decreases n - i,
    {
        if l.ranges[i].start >= l.ranges[i].end || l.ranges[i].end > crate::BUCKET_SIZE {
            return false;
        }
        if i + 1 < n && l.ranges[i + 1].start < l.ranges[i].end {
            proof {
                assert(!ranges_wf(l.ranges@));
            }
            return false;
        }
        i = i + 1;
    }
    proof {
        assert(ranges_wf(l.ranges@));
    }
    true
}

} // verus!
