//! Resolving a user-supplied name or location against the stored groups.
//!
//! Name lookup is conservative: a prefix query that matches no group or more
//! than one group resolves to nothing, even when one of several matches is
//! exact.  Location lookup returns every matching group.

use crate::matching::is_prefix;
use crate::store::{group_matches_path, models_of, GroupModel, Sync};
use vstd::prelude::*;

verus! {

/// The names of the groups whose name starts with the query, in order.
pub open spec fn matching_name_models(gs: Seq<GroupModel>, q: Seq<char>) -> Seq<Seq<char>>
    decreases gs.len(),
{
    if gs.len() == 0 {
        Seq::empty()
    } else if is_prefix(q, gs.last().name) {
        matching_name_models(gs.drop_last(), q).push(gs.last().name)
    } else {
        matching_name_models(gs.drop_last(), q)
    }
}

/// The groups with a member under the query location, in order.
pub open spec fn groups_under(gs: Seq<GroupModel>, q: Seq<char>) -> Seq<GroupModel>
    decreases gs.len(),
{
    if gs.len() == 0 {
        Seq::empty()
    } else if group_matches_path(gs.last(), q) {
        groups_under(gs.drop_last(), q).push(gs.last())
    } else {
        groups_under(gs.drop_last(), q)
    }
}

/// The names of every group whose name starts with the query, in stored
/// order; the candidate listing shown on an ambiguous lookup.
pub fn matching_names(syncs: &Vec<Sync>, name: &String) -> (r: Vec<String>)
    ensures
        r.deep_view() == matching_name_models(models_of(syncs@), name@),
{
    let ghost ms = models_of(syncs@);
    let mut acc: Vec<String> = Vec::new();
    let mut i: usize = 0;
    while i < syncs.len()
        invariant
            i <= syncs@.len(),
            ms == models_of(syncs@),
            ms.len() == syncs@.len(),
            acc.deep_view() == matching_name_models(ms.take(i as int), name@),
        decreases syncs@.len() - i,
    {
        proof {
            assert(ms.take(i + 1).drop_last() =~= ms.take(i as int));
            assert(ms.take(i + 1).last() == ms[i as int]);
            assert(ms[i as int] == syncs@[i as int]@);
        }
        let g = &syncs[i];
        if g.name_matches(name) {
            let ghost pre_deep = acc.deep_view();
            let ghost pre_vec = acc@;
            acc.push(g.name.clone());
            proof {
                assert(acc@ == pre_vec.push(acc@[pre_vec.len() as int]));
                assert forall|j: int| 0 <= j < pre_vec.len() implies #[trigger] acc.deep_view()[j]
                    == pre_deep[j] by {
                    assert(acc@[j] == pre_vec[j]);
                }
                assert(acc.deep_view() =~~= pre_deep.push(ms[i as int].name));
            }
        }
        i += 1;
    }
    proof {
        assert(ms.take(ms.len() as int) =~= ms);
    }
    acc
}

/// Resolves a name query: the unique group whose name starts with the query,
/// when there is exactly one; nothing when there is none or more than one.
pub fn select_by_name(syncs: &Vec<Sync>, name: &String) -> (r: Option<String>)
    ensures
        ({
            let m = matching_name_models(models_of(syncs@), name@);
            &&& (r is Some <==> m.len() == 1)
            &&& (m.len() == 1 ==> (r matches Some(n) && n@ == m[0]))
        }),
{
    let ghost m = matching_name_models(models_of(syncs@), name@);
    let mut v = matching_names(syncs, name);
    proof {
        assert(v.deep_view().len() == v@.len());
    }
    if v.len() == 1 {
        let n = v.remove(0);
        proof {
            assert(n@ == m[0]);
        }
        Some(n)
    } else {
        None
    }
}

/// Every group with at least one member under the query location, in stored
/// order.
pub fn select_by_folder<'a>(syncs: &'a Vec<Sync>, path: &String) -> (r: Vec<&'a Sync>)
    ensures
        r@.map_values(|g: &Sync| g@) == groups_under(models_of(syncs@), path@),
{
    let ghost ms = models_of(syncs@);
    let mut acc: Vec<&'a Sync> = Vec::new();
    let mut i: usize = 0;
    while i < syncs.len()
        invariant
            i <= syncs@.len(),
            ms == models_of(syncs@),
            ms.len() == syncs@.len(),
            acc@.map_values(|g: &Sync| g@) == groups_under(ms.take(i as int), path@),
        decreases syncs@.len() - i,
    {
        proof {
            assert(ms.take(i + 1).drop_last() =~= ms.take(i as int));
            assert(ms.take(i + 1).last() == ms[i as int]);
            assert(ms[i as int] == syncs@[i as int]@);
        }
        let g = &syncs[i];
        if g.has_file_inside(path.as_str()) {
            let ghost pre_vec = acc@;
            acc.push(g);
            proof {
                assert(acc@ == pre_vec.push(g));
                assert(acc@.map_values(|m: &Sync| m@) =~~= pre_vec.map_values(|m: &Sync| m@).push(
                    ms[i as int],
                ));
            }
        }
        i += 1;
    }
    proof {
        assert(ms.take(ms.len() as int) =~= ms);
    }
    acc
}

} // verus!
