//! The experiment catalog: an index from experiment ids to their
//! definitions, with a reverse index from variant ids to the owning
//! experiment. Experiment ids are unique, and a variant id belongs to at
//! most one experiment; loads and updates that would break either are
//! rejected whole.

use vstd::prelude::*;
use crate::error::ExperimentError;
use crate::json::JsonValue;
use crate::rule::Node;
use crate::layer::{sorted_unique_strings, insert_string_sorted_unique};
use crate::assoc::{ikey_index_of, has_ikey, ikey_get, ikey_find, lemma_ikey_index_of,
    lemma_ikey_index_of_is};

verus! {

/// One assignable outcome of an experiment; siblings differ only in
/// `params`.
pub struct VariantDef {
    pub vid: i64,
    pub params: JsonValue,
}

/// An experiment: a service, an optional gating rule shared by all its
/// variants, and the variants themselves.
pub struct ExperimentDef {
    pub eid: i64,
    pub service: String,
    pub rule: Option<Node>,
    pub variants: Vec<VariantDef>,
}

/// Index of the first variant carrying `vid`, or `-1`.
pub open spec fn variant_index_of(vs: Seq<VariantDef>, vid: i64) -> int
    decreases vs.len(),
{
    if vs.len() == 0 {
        -1
    } else if vs[0].vid == vid {
        0
    } else {
        let r = variant_index_of(vs.drop_first(), vid);
        if r < 0 {
            -1
        } else {
            r + 1
        }
    }
}

/// Whether some variant carries `vid`.
pub open spec fn has_vid(vs: Seq<VariantDef>, vid: i64) -> bool {
    variant_index_of(vs, vid) >= 0
}

/// The first variant carrying `vid`, if any.
pub open spec fn variant_get(vs: Seq<VariantDef>, vid: i64) -> Option<VariantDef> {
    if has_vid(vs, vid) {
        Some(vs[variant_index_of(vs, vid)])
    } else {
        None
    }
}

/// `variant_index_of` finds the first matching variant and nothing else.
pub proof fn lemma_variant_index_of(vs: Seq<VariantDef>, vid: i64)
    ensures
        variant_index_of(vs, vid) == -1 || (0 <= variant_index_of(vs, vid) < vs.len()),
        variant_index_of(vs, vid) >= 0 ==> vs[variant_index_of(vs, vid)].vid == vid,
        forall|j: int|
            0 <= j < vs.len() && (variant_index_of(vs, vid) == -1 || j < variant_index_of(
                vs,
                vid,
            )) ==> (#[trigger] vs[j]).vid != vid,
    decreases vs.len(),
{
    if vs.len() > 0 && vs[0].vid != vid {
        lemma_variant_index_of(vs.drop_first(), vid);
        assert forall|j: int|
            0 <= j < vs.len() && (variant_index_of(vs, vid) == -1 || j < variant_index_of(
                vs,
                vid,
            )) implies (#[trigger] vs[j]).vid != vid by {
            if j > 0 {
                assert(vs.drop_first()[j - 1] == vs[j]);
            }
        }
    }
}

/// The catalog: experiments keyed by eid, and the reverse index from vid
/// to eid that request evaluation uses.
pub struct ExperimentCatalog {
    pub experiments: Vec<(i64, ExperimentDef)>,
    pub vid_to_eid: Vec<(i64, i64)>,
}

/// The catalog's invariant. Experiment keys are unique and each entry is
/// keyed by its definition's own eid; variant keys are unique; and the
/// reverse index holds exactly the pairs `(vid, eid)` for which the
/// experiment `eid` defines variant `vid`.
pub open spec fn catalog_wf(c: ExperimentCatalog) -> bool {
    &&& forall|i: int, j: int|
        0 <= i < j < c.experiments@.len() ==> (#[trigger] c.experiments@[i]).0 != (
        #[trigger] c.experiments@[j]).0
    &&& forall|i: int|
        0 <= i < c.experiments@.len() ==> (#[trigger] c.experiments@[i]).0
            == c.experiments@[i].1.eid
    &&& forall|i: int, j: int|
        0 <= i < j < c.vid_to_eid@.len() ==> (#[trigger] c.vid_to_eid@[i]).0 != (
        #[trigger] c.vid_to_eid@[j]).0
    &&& forall|k: int|
        #![trigger c.vid_to_eid@[k]]
        0 <= k < c.vid_to_eid@.len() ==> {
            &&& has_ikey(c.experiments@, c.vid_to_eid@[k].1)
            &&& has_vid(
                ikey_get(c.experiments@, c.vid_to_eid@[k].1).unwrap().variants@,
                c.vid_to_eid@[k].0,
            )
        }
    &&& forall|i: int, j: int|
        #![trigger c.experiments@[i].1.variants@[j]]
        0 <= i < c.experiments@.len() && 0 <= j < c.experiments@[i].1.variants@.len()
            ==> ikey_get(c.vid_to_eid@, c.experiments@[i].1.variants@[j].vid) == Some(
            c.experiments@[i].0,
        )
    &&& forall|i: int, b1: int, b2: int|
        #![trigger c.experiments@[i].1.variants@[b1], c.experiments@[i].1.variants@[b2]]
        0 <= i < c.experiments@.len() && 0 <= b1 < b2 < c.experiments@[i].1.variants@.len()
            ==> c.experiments@[i].1.variants@[b1].vid != c.experiments@[i].1.variants@[b2].vid
}

/// The experiments the catalog holds, as the reverse map sees them.
pub open spec fn spec_eid_of_vid(c: ExperimentCatalog, vid: i64) -> Option<i64> {
    ikey_get(c.vid_to_eid@, vid)
}

/// The experiment stored under `eid`, if any.
pub open spec fn spec_experiment(c: ExperimentCatalog, eid: i64) -> Option<ExperimentDef> {
    ikey_get(c.experiments@, eid)
}

/// The catalog's view of a variant: its experiment id, the experiment's
/// service and rule, and the variant itself.
pub open spec fn spec_variant(c: ExperimentCatalog, vid: i64) -> Option<(i64, ExperimentDef,
    VariantDef,
)> {
    match spec_eid_of_vid(c, vid) {
        None => None,
        Some(eid) => match spec_experiment(c, eid) {
            None => None,
            Some(def) => match variant_get(def.variants@, vid) {
                None => None,
                Some(v) => Some((eid, def, v)),
            },
        },
    }
}

/// In a well-formed catalog, a variant id belongs to at most one
/// experiment: the reverse map is a function of the vid, its keys are
/// unique, and so are the experiment ids. This is the catalog uniqueness
/// law; it holds of every catalog this module hands out or mutates.
pub proof fn lemma_catalog_uniqueness(c: ExperimentCatalog)
    requires
        catalog_wf(c),
    ensures
        forall|i: int, j: int|
            0 <= i < j < c.vid_to_eid@.len() ==> (#[trigger] c.vid_to_eid@[i]).0 != (
            #[trigger] c.vid_to_eid@[j]).0,
        forall|i: int, j: int|
            0 <= i < j < c.experiments@.len() ==> (#[trigger] c.experiments@[i]).0 != (
            #[trigger] c.experiments@[j]).0,
        forall|a: int, b: int, a2: int, b2: int|
            #![trigger c.experiments@[a].1.variants@[b], c.experiments@[a2].1.variants@[b2]]
            0 <= a < c.experiments@.len() && 0 <= b < c.experiments@[a].1.variants@.len() && 0
                <= a2 < c.experiments@.len() && 0 <= b2 < c.experiments@[a2].1.variants@.len() && a
                != a2 ==> c.experiments@[a].1.variants@[b].vid
                != c.experiments@[a2].1.variants@[b2].vid,
{
    assert forall|a: int, b: int, a2: int, b2: int|
        #![trigger c.experiments@[a].1.variants@[b], c.experiments@[a2].1.variants@[b2]]
        0 <= a < c.experiments@.len() && 0 <= b < c.experiments@[a].1.variants@.len() && 0 <= a2
            < c.experiments@.len() && 0 <= b2 < c.experiments@[a2].1.variants@.len() && a != a2
        implies c.experiments@[a].1.variants@[b].vid
        != c.experiments@[a2].1.variants@[b2].vid by {
        let v1 = c.experiments@[a].1.variants@[b].vid;
        let v2 = c.experiments@[a2].1.variants@[b2].vid;
        if v1 == v2 {
            assert(ikey_get(c.vid_to_eid@, v1) == Some(c.experiments@[a].0));
            assert(ikey_get(c.vid_to_eid@, v2) == Some(c.experiments@[a2].0));
            assert(c.experiments@[a].0 == c.experiments@[a2].0);
        }
    }
}

impl ExperimentCatalog {
    /// The experiment stored under `eid`, if any.
    pub fn get_experiment(&self, eid: i64) -> (r: Option<&ExperimentDef>)
        ensures
            match r {
                Some(d) => spec_experiment(*self, eid) == Some(*d),
                None => spec_experiment(*self, eid) is None,
            },
    {
        match ikey_find(&self.experiments, eid) {
            Some(i) => {
                proof {
                    lemma_ikey_index_of(self.experiments@, eid);
                }
                Some(&self.experiments[i].1)
            },
            None => None,
        }
    }

    /// The experiment id that variant `vid` belongs to, if any.
    pub fn get_eid_by_vid(&self, vid: i64) -> (r: Option<i64>)
        ensures
            r == spec_eid_of_vid(*self, vid),
    {
        match ikey_find(&self.vid_to_eid, vid) {
            Some(i) => {
                proof {
                    lemma_ikey_index_of(self.vid_to_eid@, vid);
                }
                Some(self.vid_to_eid[i].1)
            },
            None => None,
        }
    }

    /// The hot-path lookup: resolve a variant id to its experiment id,
    /// the experiment's service and rule, and the variant's parameters.
    #[verifier::loop_isolation(false)]
    pub fn get_variant(&self, vid: i64) -> (r: Option<(i64, &String, &Option<Node>, &JsonValue)>)
        ensures
            match r {
                Some(t) => spec_variant(*self, vid) matches Some(s) && t.0 == s.0 && *t.1 == s.1.service
                    && *t.2 == s.1.rule && *t.3 == s.2.params,
                None => spec_variant(*self, vid) is None,
            },
    {
        let eid = match self.get_eid_by_vid(vid) {
            Some(e) => e,
            None => {
                return None;
            },
        };
        let def = match self.get_experiment(eid) {
            Some(d) => d,
            None => {
                return None;
            },
        };
        proof {
            lemma_variant_index_of(def.variants@, vid);
        }
        let mut i: usize = 0;
        while i < def.variants.len()
            invariant
                i <= def.variants@.len(),
                forall|j: int| 0 <= j < i ==> (#[trigger] def.variants@[j]).vid != vid,
            decreases def.variants@.len() - i,
        {
            if def.variants[i].vid == vid {
                proof {
                    assert(variant_index_of(def.variants@, vid) == i as int) by {
                        lemma_variant_index_of(def.variants@, vid);
                    }
                }
                return Some((eid, &def.service, &def.rule, &def.variants[i].params));
            }
            i = i + 1;
        }
        proof {
            lemma_variant_index_of(def.variants@, vid);
        }
        None
    }

    /// How many experiments the catalog holds.
    pub fn len(&self) -> (r: usize)
        ensures
            r == self.experiments@.len(),
    {
        self.experiments.len()
    }

    /// Whether the catalog holds no experiment.
    pub fn is_empty(&self) -> (r: bool)
        ensures
            r == (self.experiments@.len() == 0),
    {
        self.experiments.len() == 0
    }
}

/// All experiment ids in the list are distinct.
pub open spec fn eids_unique(defs: Seq<ExperimentDef>) -> bool {
    forall|i: int, j: int|
        0 <= i < j < defs.len() ==> (#[trigger] defs[i]).eid != (#[trigger] defs[j]).eid
}

/// All variant ids across the whole list are distinct.
pub open spec fn vids_unique(defs: Seq<ExperimentDef>) -> bool {
    forall|a: int, b: int, a2: int, b2: int|
        #![trigger defs[a].variants@[b], defs[a2].variants@[b2]]
        0 <= a < defs.len() && 0 <= b < defs[a].variants@.len() && 0 <= a2 < defs.len() && 0 <= b2
            < defs[a2].variants@.len() && (a != a2 || b != b2) ==> defs[a].variants@[b].vid
            != defs[a2].variants@[b2].vid
}

impl ExperimentCatalog {
    /// Build a catalog from a list of experiment definitions. Succeeds
    /// exactly when the experiment ids are distinct and no variant id
    /// occurs twice anywhere; the catalog then holds the definitions in
    /// the given order.
    #[verifier::rlimit(60)]
    #[verifier::loop_isolation(false)]
    pub fn from_experiments(defs: Vec<ExperimentDef>) -> (r: Result<
        ExperimentCatalog,
        ExperimentError,
    >)
        ensures
            r is Ok <==> eids_unique(defs@) && vids_unique(defs@),
            r matches Ok(c) ==> catalog_wf(c) && c.experiments@.len() == defs@.len() && forall|
                i: int,
            | 0 <= i < defs@.len() ==> #[trigger] c.experiments@[i] == (defs@[i].eid, defs@[i]),
            r matches Err(e) ==> e matches ExperimentError::InvalidParameter(_),
    {
        let ghost original = defs@;
        let mut rest = defs;
        let total = rest.len();
        proof {
            assert(original.len() <= usize::MAX);
        }
        let mut exps: Vec<(i64, ExperimentDef)> = Vec::new();
        let mut vmap: Vec<(i64, i64)> = Vec::new();
        let mut i: usize = 0;
        while rest.len() > 0
            invariant
                original.len() <= usize::MAX,
                i + rest@.len() == original.len(),
                rest@ == original.skip(i as int),
                exps@.len() == i,
                forall|k: int|
                    0 <= k < i ==> #[trigger] exps@[k] == (original[k].eid, original[k]),
                forall|k1: int, k2: int|
                    0 <= k1 < k2 < i ==> (#[trigger] original[k1]).eid != (
                    #[trigger] original[k2]).eid,
                forall|m1: int, m2: int|
                    0 <= m1 < m2 < vmap@.len() ==> (#[trigger] vmap@[m1]).0 != (
                    #[trigger] vmap@[m2]).0,
                forall|m: int|
                    #![trigger vmap@[m]]
                    0 <= m < vmap@.len() ==> exists|a: int, b: int|
                        0 <= a < i && 0 <= b < original[a].variants@.len() && vmap@[m] == (
                        original[a].variants@[b].vid,
                        original[a].eid,
                        ),
                forall|a: int, b: int|
                    #![trigger original[a].variants@[b]]
                    0 <= a < i && 0 <= b < original[a].variants@.len() ==> ikey_get(
                        vmap@,
                        original[a].variants@[b].vid,
                    ) == Some(original[a].eid),
                forall|a: int, b1: int, b2: int|
                    #![trigger original[a].variants@[b1], original[a].variants@[b2]]
                    0 <= a < i && 0 <= b1 < b2 < original[a].variants@.len()
                        ==> original[a].variants@[b1].vid != original[a].variants@[b2].vid,
            decreases rest@.len(),
        {
            proof {
                assert(i < original.len());
            }
            let d = rest.remove(0);
            proof {
                assert(d == original[i as int]);
                assert(rest@ =~= original.skip(i + 1));
            }
            match ikey_find(&exps, d.eid) {
                Some(k) => {
                    proof {
                        lemma_ikey_index_of(exps@, d.eid);
                        assert(exps@[k as int] == (original[k as int].eid, original[k as int]));
                        assert(original[k as int].eid == original[i as int].eid);
                    }
                    return Err(
                        ExperimentError::InvalidParameter(
                            String::from_str("Duplicate eid in catalog"),
                        ),
                    );
                },
                None => {
                    proof {
                        lemma_ikey_index_of(exps@, d.eid);
                        assert forall|k: int| 0 <= k < i implies (#[trigger] original[k]).eid
                            != d.eid by {
                            assert(exps@[k].0 == original[k].eid);
                        }
                    }
                },
            }
            let ghost vmap_before = vmap@;
            let mut b: usize = 0;
            while b < d.variants.len()
                invariant
                    b <= d.variants@.len(),
                    d == original[i as int],
                    i < original.len(),
                    forall|m1: int, m2: int|
                        0 <= m1 < m2 < vmap@.len() ==> (#[trigger] vmap@[m1]).0 != (
                        #[trigger] vmap@[m2]).0,
                    forall|m: int|
                        #![trigger vmap@[m]]
                        0 <= m < vmap@.len() ==> (exists|a: int, bb: int|
                            0 <= a < i && 0 <= bb < original[a].variants@.len() && vmap@[m] == (
                            original[a].variants@[bb].vid,
                            original[a].eid,
                            )) || (exists|bb: int|
                            0 <= bb < b && vmap@[m] == (
                            original[i as int].variants@[bb].vid,
                            original[i as int].eid,
                            )),
                    forall|a: int, bb: int|
                        #![trigger original[a].variants@[bb]]
                        0 <= a < i && 0 <= bb < original[a].variants@.len() ==> ikey_get(
                            vmap@,
                            original[a].variants@[bb].vid,
                        ) == Some(original[a].eid),
                    forall|bb: int|
                        0 <= bb < b ==> ikey_get(
                            vmap@,
                            (#[trigger] original[i as int].variants@[bb]).vid,
                        ) == Some(original[i as int].eid),
                    forall|b1: int, b2: int|
                        #![trigger original[i as int].variants@[b1], original[i as int].variants@[b2]]
                        0 <= b1 < b2 < b ==> original[i as int].variants@[b1].vid
                            != original[i as int].variants@[b2].vid,
                decreases d.variants@.len() - b,
            {
                let vid = d.variants[b].vid;
                match ikey_find(&vmap, vid) {
                    Some(m) => {
                        proof {
                            lemma_ikey_index_of(vmap@, vid);
                            assert(vmap@[m as int].0 == vid);
                        }
                        return Err(
                            ExperimentError::InvalidParameter(
                                String::from_str("Duplicate vid in catalog"),
                            ),
                        );
                    },
                    None => {
                        proof {
                            lemma_ikey_index_of(vmap@, vid);
                            assert forall|b1: int| 0 <= b1 < b implies original[
                                i as int
                            ].variants@[b1].vid != vid by {
                                assert(ikey_get(vmap@, original[i as int].variants@[b1].vid)
                                    == Some(original[i as int].eid));
                            }
                        }
                        let ghost vm0 = vmap@;
                        vmap.push((vid, d.eid));
                        proof {
                            assert(vmap@ =~= vm0.push((vid, d.eid)));
                            assert forall|a: int, bb: int|
                                #![trigger original[a].variants@[bb]]
                                0 <= a < i && 0 <= bb < original[a].variants@.len() implies
                                ikey_get(vmap@, original[a].variants@[bb].vid) == Some(
                                original[a].eid,
                            ) by {
                                let w = original[a].variants@[bb].vid;
                                lemma_ikey_index_of(vm0, w);
                                let idx = ikey_index_of(vm0, w);
                                lemma_ikey_index_of_is(vmap@, w, idx);
                            }
                            assert forall|bb: int| 0 <= bb < b + 1 implies ikey_get(
                                vmap@,
                                (#[trigger] original[i as int].variants@[bb]).vid,
                            ) == Some(original[i as int].eid) by {
                                let w = original[i as int].variants@[bb].vid;
                                if bb < b {
                                    lemma_ikey_index_of(vm0, w);
                                    let idx = ikey_index_of(vm0, w);
                                    lemma_ikey_index_of_is(vmap@, w, idx);
                                } else {
                                    assert(vmap@[vm0.len() as int] == (vid, d.eid));
                                    lemma_ikey_index_of(vm0, w);
                                    lemma_ikey_index_of_is(vmap@, w, vm0.len() as int);
                                }
                            }
                        }
                    },
                }
                b = b + 1;
            }
            let ghost e0 = exps@;
            proof {
                lemma_ikey_index_of(e0, d.eid);
            }
            exps.push((d.eid, d));
            proof {
                assert(exps@ =~= e0.push((original[i as int].eid, original[i as int])));
            }
            i = i + 1;
        }
        proof {
            assert(i == original.len());
        }
        let c = ExperimentCatalog { experiments: exps, vid_to_eid: vmap };
        proof {
            assert(eids_unique(original));
            assert forall|a: int, b: int, a2: int, b2: int|
                #![trigger original[a].variants@[b], original[a2].variants@[b2]]
                0 <= a < original.len() && 0 <= b < original[a].variants@.len() && 0 <= a2
                    < original.len() && 0 <= b2 < original[a2].variants@.len() && (a != a2 || b
                    != b2) implies original[a].variants@[b].vid
                != original[a2].variants@[b2].vid by {
                let v1 = original[a].variants@[b].vid;
                let v2 = original[a2].variants@[b2].vid;
                if v1 == v2 {
                    assert(ikey_get(c.vid_to_eid@, v1) == Some(original[a].eid));
                    assert(ikey_get(c.vid_to_eid@, v2) == Some(original[a2].eid));
                    if a != a2 {
                        assert(original[a].eid != original[a2].eid);
                        assert(false);
                    } else {
                        assert(false);
                    }
                }
            }
            assert forall|k: int|
                #![trigger c.vid_to_eid@[k]]
                0 <= k < c.vid_to_eid@.len() implies {
                &&& has_ikey(c.experiments@, c.vid_to_eid@[k].1)
                &&& has_vid(
                    ikey_get(c.experiments@, c.vid_to_eid@[k].1).unwrap().variants@,
                    c.vid_to_eid@[k].0,
                )
            } by {
                let (a, b) = choose|a: int, b: int|
                    0 <= a < i && 0 <= b < original[a].variants@.len() && c.vid_to_eid@[k] == (
                    original[a].variants@[b].vid,
                    original[a].eid,
                    );
                assert(c.experiments@[a] == (original[a].eid, original[a]));
                assert forall|j: int| 0 <= j < a implies c.experiments@[j].0
                    != original[a].eid by {
                    assert(c.experiments@[j] == (original[j].eid, original[j]));
                }
                lemma_ikey_index_of_is(c.experiments@, original[a].eid, a);
                lemma_variant_index_of(original[a].variants@, original[a].variants@[b].vid);
            }
        }
        Ok(c)
    }
}


/// What a well-formed reverse index says about any vid: a hit names an
/// experiment that defines the variant, and a miss means no experiment
/// does.
pub proof fn lemma_wf_vid_lookup(c: ExperimentCatalog, v: i64)
    requires
        catalog_wf(c),
    ensures
        match ikey_get(c.vid_to_eid@, v) {
            Some(e) => has_ikey(c.experiments@, e) && (ikey_get(c.experiments@, e) matches Some(
                d,
            ) && has_vid(d.variants@, v)),
            None => forall|i: int|
                0 <= i < c.experiments@.len() ==> !has_vid(
                    (#[trigger] c.experiments@[i]).1.variants@,
                    v,
                ),
        },
{
    lemma_ikey_index_of(c.vid_to_eid@, v);
    match ikey_get(c.vid_to_eid@, v) {
        Some(e) => {
            let k = ikey_index_of(c.vid_to_eid@, v);
            assert(c.vid_to_eid@[k].0 == v && c.vid_to_eid@[k].1 == e);
        },
        None => {
            assert forall|i: int| 0 <= i < c.experiments@.len() implies !has_vid(
                (#[trigger] c.experiments@[i]).1.variants@,
                v,
            ) by {
                if has_vid(c.experiments@[i].1.variants@, v) {
                    lemma_variant_index_of(c.experiments@[i].1.variants@, v);
                    let b = variant_index_of(c.experiments@[i].1.variants@, v);
                    assert(c.experiments@[i].1.variants@[b].vid == v);
                    assert(ikey_get(c.vid_to_eid@, v) == Some(c.experiments@[i].0));
                }
            }
        },
    }
}

impl ExperimentCatalog {
    /// Rebuild the catalog without the experiment under `eid`, appending
    /// a replacement definition when one is given. The caller has ruled
    /// out variant-id collisions for the replacement.
    #[verifier::rlimit(100)]
    #[verifier::loop_isolation(false)]
    fn rebuilt(&mut self, eid: i64, replacement: Option<ExperimentDef>)
        requires
            catalog_wf(*old(self)),
            replacement matches Some(d) ==> {
                &&& d.eid == eid
                &&& forall|b1: int, b2: int|
                    #![trigger d.variants@[b1], d.variants@[b2]]
                    0 <= b1 < b2 < d.variants@.len() ==> d.variants@[b1].vid
                        != d.variants@[b2].vid
                &&& forall|j: int|
                    #![trigger d.variants@[j]]
                    0 <= j < d.variants@.len() ==> (ikey_get(
                        old(self).vid_to_eid@,
                        d.variants@[j].vid,
                    ) is None || ikey_get(old(self).vid_to_eid@, d.variants@[j].vid) == Some(eid))
            },
        ensures
            catalog_wf(*final(self)),
            spec_experiment(*final(self), eid) == replacement,
            forall|e: i64|
                e != eid ==> #[trigger] spec_experiment(*final(self), e) == spec_experiment(
                    *old(self),
                    e,
                ),
            forall|v: i64|
                #[trigger] spec_eid_of_vid(*final(self), v) == (match replacement {
                    Some(d) => if has_vid(d.variants@, v) {
                        Some(eid)
                    } else if spec_eid_of_vid(*old(self), v) == Some(eid) {
                        None
                    } else {
                        spec_eid_of_vid(*old(self), v)
                    },
                    None => if spec_eid_of_vid(*old(self), v) == Some(eid) {
                        None
                    } else {
                        spec_eid_of_vid(*old(self), v)
                    },
                }),
    {
        proof {
            lemma_catalog_uniqueness(*old(self));
        }
        let ghost oldc = *self;
        let mut tmp: Vec<(i64, ExperimentDef)> = Vec::new();
        core::mem::swap(&mut self.experiments, &mut tmp);
        let ghost oe = tmp@;
        let total = tmp.len();
        proof {
            assert(oe.len() <= usize::MAX);
        }
        let mut defs: Vec<ExperimentDef> = Vec::new();
        let ghost mut srcmap: Seq<int> = Seq::empty();
        let mut t: usize = 0;
        while tmp.len() > 0
            invariant
                t + tmp@.len() == oe.len(),
                oe.len() <= usize::MAX,
                tmp@ == oe.skip(t as int),
                srcmap.len() == defs@.len(),
                forall|m: int|
                    0 <= m < defs@.len() ==> 0 <= #[trigger] srcmap[m] < t && oe[srcmap[m]].0
                        != eid && oe[srcmap[m]].1 == defs@[m],
                forall|m1: int, m2: int|
                    0 <= m1 < m2 < defs@.len() ==> #[trigger] srcmap[m1] < #[trigger] srcmap[m2],
                forall|t2: int|
                    0 <= t2 < t && (#[trigger] oe[t2]).0 != eid ==> exists|m: int|
                        0 <= m < defs@.len() && #[trigger] srcmap[m] == t2,
            decreases tmp@.len(),
        {
            proof {
                assert(t < oe.len());
            }
            let entry = tmp.remove(0);
            proof {
                assert(entry == oe[t as int]);
                assert(tmp@ =~= oe.skip(t + 1));
            }
            let ghost sm0 = srcmap;
            let ghost dlen0 = defs@.len();
            if entry.0 != eid {
                defs.push(entry.1);
                proof {
                    srcmap = srcmap.push(t as int);
                }
            }
            proof {
                assert forall|t2: int|
                    0 <= t2 < t + 1 && (#[trigger] oe[t2]).0 != eid implies exists|m: int|
                    0 <= m < defs@.len() && #[trigger] srcmap[m] == t2 by {
                    if t2 < t {
                        let m0 = choose|m0: int|
                            0 <= m0 < dlen0 && #[trigger] sm0[m0] == t2;
                        assert(srcmap[m0] == t2);
                    } else {
                        assert(entry == oe[t as int]);
                        assert(srcmap[dlen0 as int] == t2);
                    }
                }
            }
            t = t + 1;
        }
        let ghost base = defs@;
        match replacement {
            Some(d) => {
                defs.push(d);
            },
            None => {},
        }
        let ghost dl = defs@;
        let ghost repl = replacement;
        proof {
            assert forall|m: int| 0 <= m < base.len() implies (#[trigger] dl[m]).eid != eid
                && dl[m] == oe[srcmap[m]].1 && oe[srcmap[m]].0 != eid by {
                assert(dl[m] == base[m]);
                assert(oe[srcmap[m]].0 == oe[srcmap[m]].1.eid);
            }
            assert(eids_unique(dl)) by {
                assert forall|m1: int, m2: int| 0 <= m1 < m2 < dl.len() implies (
                #[trigger] dl[m1]).eid != (#[trigger] dl[m2]).eid by {
                    if m2 < base.len() {
                        assert(dl[m1].eid == oe[srcmap[m1]].0);
                        assert(dl[m2].eid == oe[srcmap[m2]].0);
                        assert(srcmap[m1] != srcmap[m2]);
                    } else {
                        assert(dl[m2].eid == eid);
                        assert(dl[m1].eid != eid);
                    }
                }
            }
            assert(vids_unique(dl)) by {
                assert forall|a: int, b: int, a2: int, b2: int|
                    #![trigger dl[a].variants@[b], dl[a2].variants@[b2]]
                    0 <= a < dl.len() && 0 <= b < dl[a].variants@.len() && 0 <= a2 < dl.len() && 0
                        <= b2 < dl[a2].variants@.len() && (a != a2 || b != b2) implies
                    dl[a].variants@[b].vid != dl[a2].variants@[b2].vid by {
                    let v1 = dl[a].variants@[b].vid;
                    let v2 = dl[a2].variants@[b2].vid;
                    if v1 == v2 && (a != a2 || b != b2) {
                        if a < base.len() && a2 < base.len() {
                            let k = srcmap[a];
                            let k2 = srcmap[a2];
                            assert(oldc.experiments@[k].1.variants@[b].vid == v1);
                            assert(oldc.experiments@[k2].1.variants@[b2].vid == v2);
                            if a != a2 {
                                assert(k != k2);
                                assert(false);
                            } else {
                                assert(false);
                            }
                        } else if a < base.len() && a2 >= base.len() {
                            let k = srcmap[a];
                            assert(oldc.experiments@[k].1.variants@[b].vid == v1);
                            assert(ikey_get(oldc.vid_to_eid@, v1) == Some(
                                oldc.experiments@[k].0,
                            ));
                            assert(oldc.experiments@[k].0 != eid);
                            assert(dl[a2] == repl.unwrap());
                            assert(false);
                        } else if a >= base.len() && a2 < base.len() {
                            let k2 = srcmap[a2];
                            assert(oldc.experiments@[k2].1.variants@[b2].vid == v2);
                            assert(ikey_get(oldc.vid_to_eid@, v2) == Some(
                                oldc.experiments@[k2].0,
                            ));
                            assert(oldc.experiments@[k2].0 != eid);
                            assert(dl[a] == repl.unwrap());
                            assert(false);
                        } else {
                            assert(a == base.len() && a2 == base.len());
                            assert(false);
                        }
                    }
                }
            }
        }
        let newc = match Self::from_experiments(defs) {
            Ok(c) => c,
            Err(_) => {
                proof {
                    assert(false);
                }
                unreached()
            },
        };
        self.experiments = newc.experiments;
        self.vid_to_eid = newc.vid_to_eid;
        proof {
            let f = *self;
            lemma_ikey_index_of(f.experiments@, eid);
            match repl {
                Some(d) => {
                    assert(f.experiments@[base.len() as int] == (dl[base.len() as int].eid, dl[
                        base.len() as int
                    ]));
                    assert forall|m: int| 0 <= m < base.len() implies f.experiments@[m].0
                        != eid by {
                        assert(f.experiments@[m] == (dl[m].eid, dl[m]));
                    }
                    lemma_ikey_index_of_is(f.experiments@, eid, base.len() as int);
                },
                None => {
                    if has_ikey(f.experiments@, eid) {
                        let m = ikey_index_of(f.experiments@, eid);
                        assert(f.experiments@[m] == (dl[m].eid, dl[m]));
                        assert(false);
                    }
                },
            }
            assert forall|e: i64| e != eid implies #[trigger] spec_experiment(f, e)
                == spec_experiment(oldc, e) by {
                lemma_ikey_index_of(oe, e);
                lemma_ikey_index_of(f.experiments@, e);
                if has_ikey(oe, e) {
                    let m0 = ikey_index_of(oe, e);
                    assert(oe[m0].0 == e);
                    let m = choose|m: int| 0 <= m < base.len() && #[trigger] srcmap[m] == m0;
                    assert(dl[m] == oe[m0].1);
                    assert(f.experiments@[m] == (dl[m].eid, dl[m]));
                    assert(dl[m].eid == oe[m0].0) by {
                        assert(oe[m0].0 == oe[m0].1.eid);
                    }
                    assert forall|j: int| 0 <= j < m implies f.experiments@[j].0 != e by {
                        assert(f.experiments@[j] == (dl[j].eid, dl[j]));
                        assert(dl[j].eid == oe[srcmap[j]].0) by {
                            assert(oe[srcmap[j]].0 == oe[srcmap[j]].1.eid);
                        }
                        assert(srcmap[j] < srcmap[m]);
                    }
                    lemma_ikey_index_of_is(f.experiments@, e, m);
                    assert(ikey_get(f.experiments@, e) == Some(oe[m0].1));
                    assert(ikey_get(oe, e) == Some(oe[m0].1));
                } else {
                    if has_ikey(f.experiments@, e) {
                        let m = ikey_index_of(f.experiments@, e);
                        assert(f.experiments@[m] == (dl[m].eid, dl[m]));
                        if m < base.len() {
                            assert(dl[m].eid == oe[srcmap[m]].0) by {
                                assert(oe[srcmap[m]].0 == oe[srcmap[m]].1.eid);
                            }
                            assert(oe[srcmap[m]].0 == e);
                            assert(false);
                        } else {
                            assert(dl[m].eid == eid);
                            assert(false);
                        }
                    }
                }
            }
            assert forall|v: i64| #[trigger] spec_eid_of_vid(f, v) == (match repl {
                Some(d) => if has_vid(d.variants@, v) {
                    Some(eid)
                } else if spec_eid_of_vid(oldc, v) == Some(eid) {
                    None
                } else {
                    spec_eid_of_vid(oldc, v)
                },
                None => if spec_eid_of_vid(oldc, v) == Some(eid) {
                    None
                } else {
                    spec_eid_of_vid(oldc, v)
                },
            }) by {
                let newdef = (repl matches Some(d) && has_vid(d.variants@, v));
                if newdef {
                    let d = repl.unwrap();
                    lemma_variant_index_of(d.variants@, v);
                    let b = variant_index_of(d.variants@, v);
                    assert(f.experiments@[base.len() as int] == (d.eid, d));
                    assert(f.experiments@[base.len() as int].1.variants@[b].vid == v);
                    assert(ikey_get(f.vid_to_eid@, v) == Some(eid));
                } else {
                    match spec_eid_of_vid(f, v) {
                        Some(e2) => {
                            lemma_wf_vid_lookup(f, v);
                            let fd = ikey_get(f.experiments@, e2).unwrap();
                            if e2 == eid {
                                match repl {
                                    Some(d) => {
                                        assert(fd == d);
                                        lemma_variant_index_of(d.variants@, v);
                                        assert(false);
                                    },
                                    None => {
                                        assert(false);
                                    },
                                }
                            } else {
                                assert(spec_experiment(f, e2) == Some(fd));
                                assert(spec_experiment(oldc, e2) == Some(fd));
                                lemma_variant_index_of(fd.variants@, v);
                                let b2 = variant_index_of(fd.variants@, v);
                                lemma_ikey_index_of(oldc.experiments@, e2);
                                let i2 = ikey_index_of(oldc.experiments@, e2);
                                assert(oldc.experiments@[i2].1.variants@[b2].vid == v);
                                assert(ikey_get(oldc.vid_to_eid@, v) == Some(
                                    oldc.experiments@[i2].0,
                                ));
                                assert(oldc.experiments@[i2].0 == e2);
                            }
                        },
                        None => {
                            lemma_wf_vid_lookup(f, v);
                            match spec_eid_of_vid(oldc, v) {
                                Some(e3) => {
                                    if e3 != eid {
                                        lemma_wf_vid_lookup(oldc, v);
                                        let od = ikey_get(oldc.experiments@, e3).unwrap();
                                        assert(spec_experiment(f, e3) == Some(od));
                                        lemma_variant_index_of(od.variants@, v);
                                        let b3 = variant_index_of(od.variants@, v);
                                        lemma_ikey_index_of(f.experiments@, e3);
                                        let i3 = ikey_index_of(f.experiments@, e3);
                                        assert(f.experiments@[i3].1.variants@[b3].vid == v);
                                        assert(ikey_get(f.vid_to_eid@, v) == Some(
                                            f.experiments@[i3].0,
                                        ));
                                        assert(false);
                                    }
                                },
                                None => {},
                            }
                        },
                    }
                }
            }
        }
    }

    /// Replace (or add) the experiment with `exp_def`'s id. Succeeds
    /// exactly when every variant id of the new definition is fresh or
    /// already owned by this same experiment, and not repeated inside the
    /// definition; the old snapshot is kept on rejection.
    #[verifier::loop_isolation(false)]
    pub fn update_experiment(&mut self, exp_def: ExperimentDef) -> (r: Result<
        (),
        ExperimentError,
    >)
        requires
            catalog_wf(*old(self)),
        ensures
            catalog_wf(*final(self)),
            r is Ok <==> {
                &&& forall|j: int|
                    #![trigger exp_def.variants@[j]]
                    0 <= j < exp_def.variants@.len() ==> (spec_eid_of_vid(
                        *old(self),
                        exp_def.variants@[j].vid,
                    ) is None || spec_eid_of_vid(*old(self), exp_def.variants@[j].vid) == Some(
                        exp_def.eid,
                    ))
                &&& forall|b1: int, b2: int|
                    #![trigger exp_def.variants@[b1], exp_def.variants@[b2]]
                    0 <= b1 < b2 < exp_def.variants@.len() ==> exp_def.variants@[b1].vid
                        != exp_def.variants@[b2].vid
            },
            r is Ok ==> spec_experiment(*final(self), exp_def.eid) == Some(exp_def),
            r matches Err(e) ==> e matches ExperimentError::InvalidParameter(_) && *final(self)
                == *old(self),
            r is Ok ==> forall|e: i64|
                e != exp_def.eid ==> #[trigger] spec_experiment(*final(self), e)
                    == spec_experiment(*old(self), e),
            r is Ok ==> forall|v: i64|
                #[trigger] spec_eid_of_vid(*final(self), v) == (if has_vid(
                    exp_def.variants@,
                    v,
                ) {
                    Some(exp_def.eid)
                } else if spec_eid_of_vid(*old(self), v) == Some(exp_def.eid) {
                    None::<i64>
                } else {
                    spec_eid_of_vid(*old(self), v)
                }),
    {
        let mut j: usize = 0;
        while j < exp_def.variants.len()
            invariant
                j <= exp_def.variants@.len(),
                self == old(self),
                catalog_wf(*self),
                forall|jj: int|
                    #![trigger exp_def.variants@[jj]]
                    0 <= jj < j ==> (spec_eid_of_vid(*self, exp_def.variants@[jj].vid) is None
                        || spec_eid_of_vid(*self, exp_def.variants@[jj].vid) == Some(
                        exp_def.eid,
                    )),
            decreases exp_def.variants@.len() - j,
        {
            match ikey_find(&self.vid_to_eid, exp_def.variants[j].vid) {
                Some(m) => {
                    proof {
                        lemma_ikey_index_of(self.vid_to_eid@, exp_def.variants@[j as int].vid);
                    }
                    if self.vid_to_eid[m].1 != exp_def.eid {
                        return Err(
                            ExperimentError::InvalidParameter(
                                String::from_str("Duplicate vid in catalog"),
                            ),
                        );
                    }
                },
                None => {
                    proof {
                        lemma_ikey_index_of(self.vid_to_eid@, exp_def.variants@[j as int].vid);
                    }
                },
            }
            j = j + 1;
        }
        let mut b1: usize = 0;
        while b1 < exp_def.variants.len()
            invariant
                b1 <= exp_def.variants@.len(),
                self == old(self),
                catalog_wf(*self),
                forall|jj: int|
                    #![trigger exp_def.variants@[jj]]
                    0 <= jj < exp_def.variants@.len() ==> (spec_eid_of_vid(
                        *self,
                        exp_def.variants@[jj].vid,
                    ) is None || spec_eid_of_vid(*self, exp_def.variants@[jj].vid) == Some(
                        exp_def.eid,
                    )),
                forall|x1: int, x2: int|
                    #![trigger exp_def.variants@[x1], exp_def.variants@[x2]]
                    0 <= x1 < x2 < exp_def.variants@.len() && x1 < b1
                        ==> exp_def.variants@[x1].vid != exp_def.variants@[x2].vid,
            decreases exp_def.variants@.len() - b1,
        {
            let mut b2: usize = b1 + 1;
            while b2 < exp_def.variants.len()
                invariant
                    b1 < b2 <= exp_def.variants@.len() || b2 == b1 + 1,
                    b1 < exp_def.variants@.len(),
                    self == old(self),
                    catalog_wf(*self),
                    forall|x2: int|
                        b1 < x2 < b2 ==> exp_def.variants@[b1 as int].vid != (
                        #[trigger] exp_def.variants@[x2]).vid,
                decreases exp_def.variants@.len() - b2,
            {
                if exp_def.variants[b1].vid == exp_def.variants[b2].vid {
                    return Err(
                        ExperimentError::InvalidParameter(
                            String::from_str("Duplicate vid in catalog"),
                        ),
                    );
                }
                b2 = b2 + 1;
            }
            b1 = b1 + 1;
        }
        let eid = exp_def.eid;
        self.rebuilt(eid, Some(exp_def));
        Ok(())
    }

    /// Remove the experiment under `eid`, and with it every entry of the
    /// reverse index that pointed at it. Every other experiment and every
    /// variant mapping not owned by `eid` is untouched; removing an
    /// unknown id leaves an equivalent catalog.
    pub fn remove_experiment(&mut self, eid: i64)
        requires
            catalog_wf(*old(self)),
        ensures
            catalog_wf(*final(self)),
            spec_experiment(*final(self), eid) is None,
            forall|e: i64|
                e != eid ==> #[trigger] spec_experiment(*final(self), e) == spec_experiment(
                    *old(self),
                    e,
                ),
            forall|v: i64|
                #[trigger] spec_eid_of_vid(*final(self), v) == (if spec_eid_of_vid(
                    *old(self),
                    v,
                ) == Some(eid) {
                    None::<i64>
                } else {
                    spec_eid_of_vid(*old(self), v)
                }),
    {
        self.rebuilt(eid, None);
    }

    /// All services the catalog's experiments target: the sorted list of
    /// the distinct service names, one for each experiment that declares
    /// it and nothing else.
    #[verifier::loop_isolation(false)]
    pub fn get_all_services(&self) -> (r: Vec<String>)
        ensures
            sorted_unique_strings(r@),
            forall|x: int| 0 <= x < r@.len() ==> service_listed(*self, (#[trigger] r@[x])@),
            forall|j: int|
                0 <= j < self.experiments@.len() ==> name_in(
                    r@,
                    (#[trigger] self.experiments@[j]).1.service@,
                ),
    {
        let mut out: Vec<String> = Vec::new();
        let mut i: usize = 0;
        while i < self.experiments.len()
            invariant
                i <= self.experiments@.len(),
                sorted_unique_strings(out@),
                forall|x: int|
                    0 <= x < out@.len() ==> service_listed(*self, (#[trigger] out@[x])@),
                forall|j: int|
                    0 <= j < i ==> name_in(out@, (#[trigger] self.experiments@[j]).1.service@),
            decreases self.experiments@.len() - i,
        {
            let ghost ob = out@;
            let svc = self.experiments[i].1.service.clone();
            let ghost sv = self.experiments@[i as int].1.service@;
            insert_string_sorted_unique(&mut out, svc);
            proof {
                assert(service_listed(*self, sv)) by {
                    assert((self.experiments@[i as int]).1.service@ == sv);
                }
                assert forall|x: int| 0 <= x < out@.len() implies service_listed(
                    *self,
                    (#[trigger] out@[x])@,
                ) by {
                    if out@[x]@ != sv {
                        let y = choose|y: int| 0 <= y < ob.len() && #[trigger] out@[x]@ == ob[y]@;
                        assert(service_listed(*self, ob[y]@));
                    }
                }
                assert forall|j: int| 0 <= j < i + 1 implies name_in(
                    out@,
                    (#[trigger] self.experiments@[j]).1.service@,
                ) by {
                    if j < i {
                        let y = choose|y: int|
                            0 <= y < ob.len() && (#[trigger] ob[y])@
                                == self.experiments@[j].1.service@;
                        let x = choose|x: int|
                            0 <= x < out@.len() && (#[trigger] out@[x])@ == ob[y]@;
                        assert(name_in(out@, out@[x]@));
                    } else {
                        let x = choose|x: int|
                            0 <= x < out@.len() && (#[trigger] out@[x])@ == sv;
                        assert(name_in(out@, out@[x]@));
                    }
                }
            }
            i = i + 1;
        }
        out
    }
}

/// Whether some experiment of the catalog declares this service name.
pub open spec fn service_listed(c: ExperimentCatalog, name: Seq<char>) -> bool {
    exists|j: int|
        0 <= j < c.experiments@.len() && (#[trigger] c.experiments@[j]).1.service@ == name
}

/// Whether one of the listed names views as `name`.
pub open spec fn name_in(v: Seq<String>, name: Seq<char>) -> bool {
    exists|x: int| 0 <= x < v.len() && (#[trigger] v[x])@ == name
}


} // verus!
