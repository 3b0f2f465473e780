//! The synchronization engine's decisions.
//!
//! For one group, the engine collects the candidate copies (locals first,
//! then remotes as `host:path`), partitions them by observed modification
//! time into the co-freshest set and the stale targets, and plans the
//! transfers: the first co-freshest candidate overwrites every stale one.
//! Observations are handed in by the caller, which alone touches the
//! filesystem and the transfer program: a local always carries a time (zero
//! when unreadable), a remote carries none when staging it failed and the
//! candidate drops out of the round.

use crate::store::{remote_str, GroupModel, Sync};
use vstd::prelude::*;

verus! {

/// One candidate copy with its observed modification time, or nothing when
/// the copy could not be staged.
pub type Observation = (String, Option<i64>);

/// The spec-level form of an observation.
pub type ObservationModel = (Seq<char>, Option<i64>);

/// Freshness partition of a group's candidates: the highest modification
/// time seen, the candidates tied with it, and the strictly older ones.
pub struct Partition {
    pub latest: i64,
    pub others: Vec<String>,
    pub targets: Vec<String>,
}

/// Mathematical content of a [`Partition`].
#[verifier::ext_equal]
pub struct PartitionModel {
    pub latest: i64,
    pub others: Seq<Seq<char>>,
    pub targets: Seq<Seq<char>>,
}

impl View for Partition {
    type V = PartitionModel;

    open spec fn view(&self) -> PartitionModel {
        PartitionModel {
            latest: self.latest,
            others: self.others.deep_view(),
            targets: self.targets.deep_view(),
        }
    }
}

/// The empty partition: no candidate seen, highest time zero.
pub open spec fn initial_partition() -> PartitionModel {
    PartitionModel { latest: 0, others: Seq::empty(), targets: Seq::empty() }
}

/// One candidate classified against the partition so far: a strictly newer
/// time demotes every tied candidate to a target and leads alone; a tied
/// time joins the leaders; an older time is a target.
pub open spec fn partition_step(st: PartitionModel, path: Seq<char>, mtime: i64) -> PartitionModel {
    if mtime > st.latest {
        PartitionModel { latest: mtime, others: seq![path], targets: st.targets + st.others }
    } else if mtime == st.latest {
        PartitionModel { others: st.others.push(path), ..st }
    } else {
        PartitionModel { targets: st.targets.push(path), ..st }
    }
}

/// The partition after classifying every observation in order; candidates
/// without an observed time are dropped from the round.
pub open spec fn partition_fold(obs: Seq<ObservationModel>) -> PartitionModel
    decreases obs.len(),
{
    if obs.len() == 0 {
        initial_partition()
    } else {
        let st = partition_fold(obs.drop_last());
        match obs.last().1 {
            Some(t) => partition_step(st, obs.last().0, t),
            None => st,
        }
    }
}

/// Classifies the observed candidates in order.
pub fn partition(entries: &Vec<Observation>) -> (r: Partition)
    ensures
        r@ == partition_fold(entries.deep_view()),
{
    let ghost es = entries.deep_view();
    let mut latest: i64 = 0;
    let mut others: Vec<String> = Vec::new();
    let mut targets: Vec<String> = Vec::new();
    let mut k: usize = 0;
    while k < entries.len()
        invariant
            k <= entries@.len(),
            es == entries.deep_view(),
            es.len() == entries@.len(),
            (PartitionModel {
                latest,
                others: others.deep_view(),
                targets: targets.deep_view(),
            }) == partition_fold(es.take(k as int)),
        decreases entries@.len() - k,
    {
        proof {
            assert(es.take(k + 1).drop_last() =~= es.take(k as int));
            assert(es.take(k + 1).last() == es[k as int]);
        }
        let e = &entries[k];
        proof {
            assert(es[k as int] == e.deep_view());
        }
        match e.1 {
            Some(t) => {
                let ghost st = partition_fold(es.take(k as int));
                if t > latest {
                    latest = t;
                    let ghost pre_t = targets.deep_view();
                    let ghost pre_tv = targets@;
                    let ghost pre_o = others.deep_view();
                    let ghost pre_ov = others@;
                    targets.append(&mut others);
                    others.push(e.0.clone());
                    proof {
                        assert(targets@ == pre_tv + pre_ov);
                        assert forall|j: int|
                            0 <= j < targets@.len() implies #[trigger] targets.deep_view()[j] == (
                        pre_t + pre_o)[j] by {
                            if j < pre_tv.len() {
                                assert(targets@[j] == pre_tv[j]);
                            } else {
                                assert(targets@[j] == pre_ov[j - pre_tv.len()]);
                            }
                        }
                        assert(targets.deep_view() =~~= pre_t + pre_o);
                        assert(others@ =~= seq![others@[0]]);
                        assert(others.deep_view() =~~= seq![es[k as int].0]);
                        assert(PartitionModel {
                            latest,
                            others: others.deep_view(),
                            targets: targets.deep_view(),
                        } =~~= partition_step(st, es[k as int].0, t));
                    }
                } else if t == latest {
                    let ghost pre_deep = others.deep_view();
                    let ghost pre_vec = others@;
                    others.push(e.0.clone());
                    proof {
                        assert(others@ == pre_vec.push(others@[pre_vec.len() as int]));
                        assert forall|j: int|
                            0 <= j < pre_vec.len() implies #[trigger] others.deep_view()[j]
                            == pre_deep[j] by {
                            assert(others@[j] == pre_vec[j]);
                        }
                        assert(others.deep_view() =~~= pre_deep.push(es[k as int].0));
                        assert(PartitionModel {
                            latest,
                            others: others.deep_view(),
                            targets: targets.deep_view(),
                        } =~~= partition_step(st, es[k as int].0, t));
                    }
                } else {
                    let ghost pre_deep = targets.deep_view();
                    let ghost pre_vec = targets@;
                    targets.push(e.0.clone());
                    proof {
                        assert(targets@ == pre_vec.push(targets@[pre_vec.len() as int]));
                        assert forall|j: int|
                            0 <= j < pre_vec.len() implies #[trigger] targets.deep_view()[j]
                            == pre_deep[j] by {
                            assert(targets@[j] == pre_vec[j]);
                        }
                        assert(targets.deep_view() =~~= pre_deep.push(es[k as int].0));
                        assert(PartitionModel {
                            latest,
                            others: others.deep_view(),
                            targets: targets.deep_view(),
                        } =~~= partition_step(st, es[k as int].0, t));
                    }
                }
            }
            None => {
                proof {
                    assert(partition_fold(es.take(k + 1)) == partition_fold(es.take(k as int)));
                }
            }
        }
        k += 1;
    }
    proof {
        assert(es.take(es.len() as int) =~= es);
    }
    Partition { latest, others, targets }
}

/// A group where every candidate shares one non-negative modification time
/// has no stale target: all candidates are co-freshest.
pub proof fn lemma_all_tied_no_targets(obs: Seq<ObservationModel>, t: i64)
    requires
        t >= 0,
        forall|i: int| 0 <= i < obs.len() ==> (#[trigger] obs[i]).1 == Some(t),
    ensures
        partition_fold(obs).targets == Seq::<Seq<char>>::empty(),
        partition_fold(obs).others =~= obs.map_values(|e: ObservationModel| e.0),
        partition_fold(obs).latest == if obs.len() == 0 {
            0
        } else {
            t
        },
    decreases obs.len(),
{
    if obs.len() > 0 {
        assert forall|i: int| 0 <= i < obs.drop_last().len() implies (#[trigger] obs.drop_last()[i]).1
            == Some(t) by {
            assert(obs.drop_last()[i] == obs[i]);
        }
        lemma_all_tied_no_targets(obs.drop_last(), t);
        let st = partition_fold(obs.drop_last());
        assert(obs.last().1 == Some(t)) by {
            assert(obs.last() == obs[obs.len() - 1]);
        }
        if obs.len() == 1 {
            assert(st.targets + st.others =~= Seq::<Seq<char>>::empty());
            assert(partition_fold(obs).others =~= obs.map_values(|e: ObservationModel| e.0));
        } else {
            assert(partition_fold(obs).others =~= st.others.push(obs.last().0));
            assert(st.others =~= obs.drop_last().map_values(|e: ObservationModel| e.0));
            assert(partition_fold(obs).others =~= obs.map_values(|e: ObservationModel| e.0));
        }
    }
}

/// A candidate that could not be staged has no effect at all: the partition
/// is the one of the observations that carry a time.
pub proof fn lemma_unstaged_dropped(obs: Seq<ObservationModel>)
    ensures
        partition_fold(obs) == partition_fold(
            obs.filter(|e: ObservationModel| e.1 is Some),
        ),
    decreases obs.len(),
{
    broadcast use vstd::seq_lib::group_seq_properties;

    let pred = |e: ObservationModel| e.1 is Some;
    reveal(Seq::filter);
    if obs.len() == 0 {
    } else {
        lemma_unstaged_dropped(obs.drop_last());
        if pred(obs.last()) {
            assert(obs.filter(pred) == obs.drop_last().filter(pred).push(obs.last()));
            assert(obs.filter(pred).drop_last() =~= obs.drop_last().filter(pred));
            assert(obs.filter(pred).last() == obs.last());
        } else {
            assert(obs.filter(pred) == obs.drop_last().filter(pred));
        }
    }
}

/// The transfers one round performs: the source copy that overwrites every
/// target, or no source at all when nothing was observed, in which case
/// there is nothing to synchronize and no transfer is made.
pub struct SyncPlan {
    pub source: Option<String>,
    pub targets: Vec<String>,
}

/// Mathematical content of a [`SyncPlan`].
#[verifier::ext_equal]
pub struct PlanModel {
    pub source: Option<Seq<char>>,
    pub targets: Seq<Seq<char>>,
}

impl View for SyncPlan {
    type V = PlanModel;

    open spec fn view(&self) -> PlanModel {
        PlanModel {
            source: match self.source {
                Some(s) => Some(s@),
                None => None,
            },
            targets: self.targets.deep_view(),
        }
    }
}

/// The group's candidate paths in tie-break order.
pub open spec fn candidate_paths(g: GroupModel) -> Seq<Seq<char>> {
    g.locals + g.remotes.map_values(|m: (Seq<char>, Seq<char>)| remote_str(m))
}

/// Candidate paths paired with their observed times, position by position.
pub open spec fn zip_obs(ps: Seq<Seq<char>>, ts: Seq<Option<i64>>) -> Seq<ObservationModel> {
    Seq::new(ps.len(), |i: int| (ps[i], ts[i]))
}

/// The freshness partition of one round over a group, given the observed
/// times of its candidates in candidate order.
pub open spec fn sync_partition(g: GroupModel, ts: Seq<Option<i64>>) -> PartitionModel {
    partition_fold(zip_obs(candidate_paths(g), ts))
}

/// The transfer plan of one round: the first co-freshest candidate is the
/// source and every stale candidate a target; no source and no targets when
/// no candidate was observed at all.
pub open spec fn sync_plan(g: GroupModel, ts: Seq<Option<i64>>) -> PlanModel {
    let p = sync_partition(g, ts);
    if p.others.len() > 0 {
        PlanModel { source: Some(p.others[0]), targets: p.targets }
    } else {
        PlanModel { source: None, targets: Seq::empty() }
    }
}

impl Sync {
    /// Decides one synchronization round for this group.  `mtimes` holds one
    /// observation per candidate, in candidate order: the modification time
    /// of a local (zero when unreadable) or of a staged remote copy, and
    /// nothing for a remote that failed to stage.
    pub fn sync(&self, mtimes: &Vec<Option<i64>>) -> (r: SyncPlan)
        requires
            mtimes@.len() == self@.locals.len() + self@.remotes.len(),
        ensures
            r@ == sync_plan(self@, mtimes.deep_view()),
    {
        let cands = self.candidates();
        let ghost cs = cands.deep_view();
        let ghost ts = mtimes.deep_view();
        let ghost obs = zip_obs(cs, ts);
        let mut entries: Vec<Observation> = Vec::new();
        let mut i: usize = 0;
        proof {
            assert(cs.len() == self@.locals.len() + self@.remotes.len());
            assert(ts.len() == mtimes@.len());
        }
        while i < cands.len()
            invariant
                i <= cands@.len(),
                cs == cands.deep_view(),
                ts == mtimes.deep_view(),
                obs == zip_obs(cs, ts),
                cs.len() == cands@.len(),
                ts.len() == cs.len(),
                entries.deep_view() == obs.take(i as int),
            decreases cands@.len() - i,
        {
            let c = &cands[i];
            let m = mtimes[i];
            let ghost pre_deep = entries.deep_view();
            let ghost pre_vec = entries@;
            entries.push((c.clone(), m));
            proof {
                assert(entries@ == pre_vec.push(entries@[pre_vec.len() as int]));
                assert forall|j: int| 0 <= j < pre_vec.len() implies #[trigger] entries.deep_view()[j]
                    == pre_deep[j] by {
                    assert(entries@[j] == pre_vec[j]);
                }
                assert(c@ == cs[i as int]);
                assert(m == ts[i as int]);
                assert(entries.deep_view() =~~= pre_deep.push(obs[i as int]));
                assert(entries.deep_view() =~~= obs.take(i + 1));
            }
            i += 1;
        }
        proof {
            assert(obs.take(obs.len() as int) =~= obs);
        }
        let part = partition(&entries);
        let ghost pm = sync_partition(self@, ts);
        proof {
            assert(part@ == pm);
        }
        if part.others.len() > 0 {
            let src = part.others[0].clone();
            proof {
                assert(src@ == pm.others[0]);
            }
            let r = SyncPlan { source: Some(src), targets: part.targets };
            proof {
                assert(r@ =~~= sync_plan(self@, ts));
            }
            r
        } else {
            let r = SyncPlan { source: None, targets: Vec::new() };
            proof {
                assert(r@.targets =~~= Seq::<Seq<char>>::empty());
                assert(r@ =~~= sync_plan(self@, ts));
            }
            r
        }
    }

    /// The group's candidate copies for one round, in tie-break order: the
    /// locals in stored order, then the remotes in stored order as
    /// `host:path`.
    pub fn candidates(&self) -> (r: Vec<String>)
        ensures
            r.deep_view() == self@.locals + self@.remotes.map_values(
                |m: (Seq<char>, Seq<char>)| remote_str(m),
            ),
    {
        let ghost goal = self@.locals + self@.remotes.map_values(
            |m: (Seq<char>, Seq<char>)| remote_str(m),
        );
        let mut acc: Vec<String> = Vec::new();
        let mut i: usize = 0;
        while i < self.locals.len()
            invariant
                i <= self.locals@.len(),
                goal == self@.locals + self@.remotes.map_values(
                    |m: (Seq<char>, Seq<char>)| remote_str(m),
                ),
                acc.deep_view() == self@.locals.take(i as int),
            decreases self.locals@.len() - i,
        {
            let e = &self.locals[i];
            let ghost pre_deep = acc.deep_view();
            let ghost pre_vec = acc@;
            acc.push(e.clone());
            proof {
                assert(acc@ == pre_vec.push(acc@[pre_vec.len() as int]));
                assert forall|j: int| 0 <= j < pre_vec.len() implies #[trigger] acc.deep_view()[j]
                    == pre_deep[j] by {
                    assert(acc@[j] == pre_vec[j]);
                }
                assert(e@ == self@.locals[i as int]);
                assert(acc.deep_view() =~~= pre_deep.push(e@));
                assert(acc.deep_view() =~~= self@.locals.take(i + 1));
            }
            i += 1;
        }
        proof {
            assert(self@.locals.take(self@.locals.len() as int) =~= self@.locals);
        }
        let mut i: usize = 0;
        while i < self.remotes.len()
            invariant
                i <= self.remotes@.len(),
                goal == self@.locals + self@.remotes.map_values(
                    |m: (Seq<char>, Seq<char>)| remote_str(m),
                ),
                acc.deep_view() == self@.locals + self@.remotes.take(i as int).map_values(
                    |m: (Seq<char>, Seq<char>)| remote_str(m),
                ),
            decreases self.remotes@.len() - i,
        {
            let e = &self.remotes[i];
            let s = crate::store::remote_to_path(e);
            let ghost pre_deep = acc.deep_view();
            let ghost pre_vec = acc@;
            acc.push(s);
            proof {
                assert(acc@ == pre_vec.push(acc@[pre_vec.len() as int]));
                assert forall|j: int| 0 <= j < pre_vec.len() implies #[trigger] acc.deep_view()[j]
                    == pre_deep[j] by {
                    assert(acc@[j] == pre_vec[j]);
                }
                assert(self@.remotes[i as int] == e.deep_view());
                assert(acc.deep_view() =~~= pre_deep.push(remote_str(e.deep_view())));
                assert(acc.deep_view() =~~= self@.locals + self@.remotes.take(i + 1).map_values(
                    |m: (Seq<char>, Seq<char>)| remote_str(m),
                ));
            }
            i += 1;
        }
        proof {
            assert(self@.remotes.take(self@.remotes.len() as int) =~= self@.remotes);
        }
        acc
    }
}

} // verus!

