//! The config applier: the decision core of the configuration loop. An
//! outside driver (a file watcher, a control-plane stream) produces
//! [`ConfigChange`] events; this module turns each into an update of the
//! catalog and the layer manager. A change that cannot be applied is
//! rejected and the previous state stands; the stream goes on.

use vstd::prelude::*;
use crate::error::ExperimentError;
use crate::layer::{Layer, ranges_wf, same_layer};
use crate::catalog::{ExperimentCatalog, ExperimentDef, catalog_wf, eids_unique, vids_unique,
    spec_experiment, spec_eid_of_vid, has_vid};
use crate::manager::{LayerManager, manager_wf, ranges_ok_check, listed_layer, index_exact};
use crate::assoc::{has_key, key_get, kview};
use crate::strings::str_eq;

verus! {

/// One event of the configuration stream.
pub enum ConfigChange {
    FullReload { layers: Vec<Layer>, experiments: Vec<ExperimentDef> },
    LayerUpdate { layer: Layer },
    LayerDelete { layer_id: String },
    ExperimentUpdate { experiment: ExperimentDef },
    ExperimentDelete { eid: i64 },
}

/// Whether one of the layers carries this id.
pub open spec fn kept_has_id(ls: Seq<Layer>, id: Seq<char>) -> bool {
    exists|i: int| 0 <= i < ls.len() && (#[trigger] ls[i]).layer_id@ == id
}

/// The layers a full reload keeps, in order: those whose ranges are
/// well-formed, the first occurrence of each id.
pub open spec fn kept_layers(ls: Seq<Layer>) -> Seq<Layer>
    decreases ls.len(),
{
    if ls.len() == 0 {
        Seq::empty()
    } else {
        let pre = kept_layers(ls.drop_last());
        let l = ls.last();
        if ranges_wf(l.ranges@) && !kept_has_id(pre, l.layer_id@) {
            pre.push(l)
        } else {
            pre
        }
    }
}

/// Apply one configuration change to the catalog and the layer manager.
/// Both invariants are kept whatever happens; a change that cannot be
/// applied returns the error and leaves both states exactly as they
/// were. A full reload succeeds exactly when the experiment and variant
/// ids are unique; layers with invalid ranges or repeated ids are then
/// dropped rather than failing the reload. A layer update succeeds
/// exactly when the layer's ranges are well-formed. Every successful
/// change leaves the service index exact for the new layer table and
/// catalog, and touches nothing the change does not name.
#[verifier::loop_isolation(false)]
#[verifier::rlimit(100)]
pub fn apply_config_change(
    manager: &mut LayerManager,
    catalog: &mut ExperimentCatalog,
    change: ConfigChange,
) -> (r: Result<(), ExperimentError>)
    requires
        manager_wf(*old(manager)),
        catalog_wf(*old(catalog)),
    ensures
        manager_wf(*final(manager)),
        catalog_wf(*final(catalog)),
        change matches ConfigChange::FullReload { layers, experiments } ==> {
            &&& (r is Ok <==> eids_unique(experiments@) && vids_unique(experiments@))
            &&& (r is Err ==> *final(manager) == *old(manager) && *final(catalog) == *old(catalog))
            &&& (r is Ok ==> {
                &&& final(catalog).experiments@.len() == experiments@.len()
                &&& forall|i: int|
                    0 <= i < experiments@.len() ==> #[trigger] final(catalog).experiments@[i] == (
                    experiments@[i].eid, experiments@[i])
                &&& final(manager).history@.len() == 0
                &&& final(manager).layers@.len() == kept_layers(layers@).len()
                &&& forall|i: int|
                    0 <= i < kept_layers(layers@).len() ==> (
                    #[trigger] final(manager).layers@[i]).0@ == kept_layers(layers@)[i].layer_id@
                        && final(manager).layers@[i].1 == kept_layers(layers@)[i]
                &&& index_exact(
                    final(manager).service_index@,
                    final(manager).layers@,
                    *final(catalog),
                )
            })
        },
        change matches ConfigChange::LayerUpdate { layer } ==> {
            &&& (r is Ok <==> ranges_wf(layer.ranges@))
            &&& *final(catalog) == *old(catalog)
            &&& (r is Err ==> *final(manager) == *old(manager))
            &&& (r is Ok ==> {
                &&& listed_layer(*final(manager), layer.layer_id@) matches Some(sl) && same_layer(
                    sl,
                    layer,
                )
                &&& forall|id2: Seq<char>|
                    id2 != layer.layer_id@ ==> #[trigger] listed_layer(*final(manager), id2)
                        == listed_layer(*old(manager), id2)
                &&& (listed_layer(*old(manager), layer.layer_id@) is None ==> final(manager).history@ == old(manager).history@)
                &&& (listed_layer(*old(manager), layer.layer_id@) matches Some(prev) ==> (key_get(
                    kview(final(manager).history@),
                    layer.layer_id@,
                ) matches Some(st2) && st2@ == (match key_get(
                    kview(old(manager).history@),
                    layer.layer_id@,
                ) {
                    Some(st) => st@,
                    None => Seq::<Layer>::empty(),
                }).push(prev)))
                &&& forall|id2: Seq<char>|
                    id2 != layer.layer_id@ ==> #[trigger] key_get(
                        kview(final(manager).history@),
                        id2,
                    ) == key_get(kview(old(manager).history@), id2)
                &&& index_exact(
                    final(manager).service_index@,
                    final(manager).layers@,
                    *final(catalog),
                )
            })
        },
        change matches ConfigChange::LayerDelete { layer_id } ==> {
            &&& *final(catalog) == *old(catalog)
            &&& (r is Ok <==> has_key(kview(old(manager).layers@), layer_id@))
            &&& (r matches Err(e) ==> e matches ExperimentError::LayerNotFound(_) && *final(manager) == *old(manager))
            &&& (r is Ok ==> listed_layer(*final(manager), layer_id@) is None)
            &&& forall|id2: Seq<char>|
                id2 != layer_id@ ==> #[trigger] listed_layer(*final(manager), id2)
                    == listed_layer(*old(manager), id2)
            &&& final(manager).history@ == old(manager).history@
            &&& (r is Ok ==> index_exact(
                final(manager).service_index@,
                final(manager).layers@,
                *final(catalog),
            ))
        },
        change matches ConfigChange::ExperimentUpdate { experiment } ==> {
            &&& final(manager).layers@ == old(manager).layers@
            &&& final(manager).history@ == old(manager).history@
            &&& (r is Ok <==> {
                &&& forall|j: int|
                    #![trigger experiment.variants@[j]]
                    0 <= j < experiment.variants@.len() ==> (spec_eid_of_vid(
                        *old(catalog),
                        experiment.variants@[j].vid,
                    ) is None || spec_eid_of_vid(*old(catalog), experiment.variants@[j].vid)
                        == Some(experiment.eid))
                &&& forall|b1: int, b2: int|
                    #![trigger experiment.variants@[b1], experiment.variants@[b2]]
                    0 <= b1 < b2 < experiment.variants@.len() ==> experiment.variants@[b1].vid
                        != experiment.variants@[b2].vid
            })
            &&& (r matches Err(e) ==> e matches ExperimentError::InvalidParameter(_) && *final(catalog) == *old(catalog) && *final(manager) == *old(manager))
            &&& (r is Ok ==> {
                &&& spec_experiment(*final(catalog), experiment.eid) == Some(experiment)
                &&& forall|e: i64|
                    e != experiment.eid ==> #[trigger] spec_experiment(*final(catalog), e)
                        == spec_experiment(*old(catalog), e)
                &&& forall|v: i64|
                    #[trigger] spec_eid_of_vid(*final(catalog), v) == (if has_vid(
                        experiment.variants@,
                        v,
                    ) {
                        Some(experiment.eid)
                    } else if spec_eid_of_vid(*old(catalog), v) == Some(experiment.eid) {
                        None::<i64>
                    } else {
                        spec_eid_of_vid(*old(catalog), v)
                    })
                &&& index_exact(
                    final(manager).service_index@,
                    final(manager).layers@,
                    *final(catalog),
                )
            })
        },
        change matches ConfigChange::ExperimentDelete { eid } ==> {
            &&& r is Ok
            &&& final(manager).layers@ == old(manager).layers@
            &&& final(manager).history@ == old(manager).history@
            &&& spec_experiment(*final(catalog), eid) is None
            &&& forall|e: i64|
                e != eid ==> #[trigger] spec_experiment(*final(catalog), e) == spec_experiment(
                    *old(catalog),
                    e,
                )
            &&& forall|v: i64|
                #[trigger] spec_eid_of_vid(*final(catalog), v) == (if spec_eid_of_vid(
                    *old(catalog),
                    v,
                ) == Some(eid) {
                    None::<i64>
                } else {
                    spec_eid_of_vid(*old(catalog), v)
                })
            &&& index_exact(
                final(manager).service_index@,
                final(manager).layers@,
                *final(catalog),
            )
        },
{
    match change {
        ConfigChange::FullReload { layers, experiments } => {
            let ghost ev = experiments@;
            let new_catalog = match ExperimentCatalog::from_experiments(experiments) {
                Ok(c) => c,
                Err(e) => {
                    return Err(e);
                },
            };
            *catalog = new_catalog;
            let ghost lv = layers@;
            let mut rest = layers;
            let total = rest.len();
            proof {
                assert(lv.len() <= usize::MAX);
                assert(lv.take(0) =~= Seq::<Layer>::empty());
            }
            let mut kept: Vec<Layer> = Vec::new();
            let mut t: usize = 0;
            while rest.len() > 0
                invariant
                    t + rest@.len() == lv.len(),
                    lv.len() <= usize::MAX,
                    rest@ == lv.skip(t as int),
                    kept@ == kept_layers(lv.take(t as int)),
                    forall|i: int, j: int|
                        0 <= i < j < kept@.len() ==> (#[trigger] kept@[i]).layer_id@ != (
                        #[trigger] kept@[j]).layer_id@,
                    forall|i: int|
                        0 <= i < kept@.len() ==> ranges_wf((#[trigger] kept@[i]).ranges@),
                decreases rest@.len(),
            {
                proof {
                    assert(t < lv.len());
                }
                let l = rest.remove(0);
                proof {
                    assert(l == lv[t as int]);
                    assert(rest@ =~= lv.skip(t + 1));
                    assert(lv.take(t + 1).drop_last() =~= lv.take(t as int));
                    assert(lv.take(t + 1).last() == lv[t as int]);
                }
                if ranges_ok_check(&l) {
                    let mut dup = false;
                    let mut q: usize = 0;
                    while q < kept.len()
                        invariant
                            q <= kept@.len(),
                            dup == exists|i: int|
                                0 <= i < q && (#[trigger] kept@[i]).layer_id@ == l.layer_id@,
                        decreases kept@.len() - q,
                    {
                        if str_eq(kept[q].layer_id.as_str(), l.layer_id.as_str()) {
                            dup = true;
                            proof {
                                assert(kept@[q as int].layer_id@ == l.layer_id@);
                            }
                        }
                        q = q + 1;
                    }
                    proof {
                        assert(dup == kept_has_id(kept@, l.layer_id@));
                    }
                    if !dup {
                        kept.push(l);
                    }
                } else {
                    proof {
                        assert(kept@ == kept_layers(lv.take(t + 1)));
                    }
                }
                t = t + 1;
            }
            proof {
                assert(lv.take(lv.len() as int) =~= lv);
            }
            manager.load_all_layers(kept, catalog);
            Ok(())
        },
        ConfigChange::LayerUpdate { layer } => {
            if !ranges_ok_check(&layer) {
                return Err(
                    ExperimentError::InvalidParameter(
                        String::from_str("Layer has invalid ranges"),
                    ),
                );
            }
            manager.load_layer(layer, catalog);
            Ok(())
        },
        ConfigChange::LayerDelete { layer_id } => {
            match manager.remove_layer(layer_id.as_str(), catalog) {
                Ok(()) => Ok(()),
                Err(e) => Err(e),
            }
        },
        ConfigChange::ExperimentUpdate { experiment } => {
            match catalog.update_experiment(experiment) {
                Ok(()) => {},
                Err(e) => {
                    return Err(e);
                },
            }
            manager.rebuild_index(catalog);
            Ok(())
        },
        ConfigChange::ExperimentDelete { eid } => {
            catalog.remove_experiment(eid);
            manager.rebuild_index(catalog);
            Ok(())
        },
    }
}

} // verus!
