//! The reconciliation engine: the merge algorithm that computes the new
//! document content from the current document and the desired-state snapshot.
//!
//! The algorithm, on each partition (roles and users):
//! 1. resolve every stored identifier through the placeholder renderer,
//! 2. prune every stored entry whose identifier no desired record has —
//!    user entries are pruned by their identifier, exactly like role entries,
//! 3. for every desired record, in snapshot order: drop any entry of its
//!    partition with the same identifier and append a fresh entry built from
//!    the record (last desired state wins).

use crate::facts::Facts;
use crate::model::{
    arn_is_role, is_role_arn, Entry, IAMIdentityMappingSpec, MapRole, MapUser, ARN,
};
use crate::template::rendered;
use vstd::prelude::*;

verus! {

/// The models of a role list.
pub open spec fn role_views(rs: Seq<MapRole>) -> Seq<Entry> {
    rs.map_values(|r: MapRole| r@)
}

/// The models of a user list.
pub open spec fn user_views(us: Seq<MapUser>) -> Seq<Entry> {
    us.map_values(|u: MapUser| u@)
}

/// The models of a desired-state snapshot.
pub open spec fn desired_views(ds: Seq<IAMIdentityMappingSpec>) -> Seq<Entry> {
    ds.map_values(|d: IAMIdentityMappingSpec| d@)
}

/// Some desired record carries this identifier.
pub open spec fn desired_has_arn(ds: Seq<Entry>, arn: Seq<char>) -> bool {
    exists|i: int| 0 <= i < ds.len() && ds[i].arn == arn
}

/// Step 2, pruning: the entries of `es`, in order, whose identifier some
/// desired record has.
pub open spec fn keep_desired(es: Seq<Entry>, ds: Seq<Entry>) -> Seq<Entry>
    decreases es.len(),
{
    if es.len() == 0 {
        Seq::empty()
    } else {
        let rest = keep_desired(es.drop_last(), ds);
        if desired_has_arn(ds, es.last().arn) {
            rest.push(es.last())
        } else {
            rest
        }
    }
}

/// The entries of `es`, in order, whose identifier differs from `arn`.
pub open spec fn remove_arn(es: Seq<Entry>, arn: Seq<char>) -> Seq<Entry>
    decreases es.len(),
{
    if es.len() == 0 {
        Seq::empty()
    } else {
        let rest = remove_arn(es.drop_last(), arn);
        if es.last().arn == arn {
            rest
        } else {
            rest.push(es.last())
        }
    }
}

/// Step 3, one partition's upsert: every desired record of the partition
/// (`role_part` selects it), in snapshot order, replaces any entry with its
/// identifier and is appended.
pub open spec fn upsert_part(es: Seq<Entry>, ds: Seq<Entry>, role_part: bool) -> Seq<Entry>
    decreases ds.len(),
{
    if ds.len() == 0 {
        es
    } else {
        let prev = upsert_part(es, ds.drop_last(), role_part);
        let d = ds.last();
        if is_role_arn(d.arn) == role_part {
            remove_arn(prev, d.arn).push(d)
        } else {
            prev
        }
    }
}

/// The merge algorithm on models: prune both partitions, then upsert the
/// desired records into them.
pub open spec fn spec_reconcile(roles: Seq<Entry>, users: Seq<Entry>, ds: Seq<Entry>) -> (
    Seq<Entry>,
    Seq<Entry>,
) {
    (
        upsert_part(keep_desired(roles, ds), ds, true),
        upsert_part(keep_desired(users, ds), ds, false),
    )
}

/// Step 1, resolution: an entry with its identifier rendered against the
/// environment facts.
pub open spec fn resolve_entry(e: Entry, vals: Map<Seq<char>, Seq<char>>) -> Entry {
    Entry { arn: rendered(e.arn, vals, 0), username: e.username, groups: e.groups }
}

/// Step 1 over a whole list.
pub open spec fn resolve_entries(es: Seq<Entry>, vals: Map<Seq<char>, Seq<char>>) -> Seq<Entry> {
    es.map_values(|e: Entry| resolve_entry(e, vals))
}

/// Copies an optional group list; the model is unchanged.
fn clone_groups(g: &Option<Vec<String>>) -> (r: Option<Vec<String>>)
    ensures
        r.deep_view() == g.deep_view(),
{
    match g {
        Option::None => Option::None,
        Option::Some(v) => {
            let mut out: Vec<String> = Vec::new();
            let mut i: usize = 0;
            while i < v.len()
                invariant
                    i <= v.len(),
                    out.len() == i,
                    forall|t: int| 0 <= t < i ==> out@[t]@ == v@[t]@,
                decreases v.len() - i,
            {
                out.push(v[i].clone());
                i = i + 1;
            }
            proof {
                assert(out.deep_view() =~= v.deep_view());
            }
            Option::Some(out)
        },
    }
}

/// A fresh role entry built from a desired record; its model is the record's.
fn role_from_desired(d: &IAMIdentityMappingSpec) -> (r: MapRole)
    ensures
        r@ == d@,
{
    MapRole {
        rolearn: ARN(d.arn.clone()),
        username: d.username.clone(),
        groups: clone_groups(&d.groups),
    }
}

/// A fresh user entry built from a desired record; its model is the record's.
fn user_from_desired(d: &IAMIdentityMappingSpec) -> (r: MapUser)
    ensures
        r@ == d@,
{
    MapUser {
        userarn: ARN(d.arn.clone()),
        username: d.username.clone(),
        groups: clone_groups(&d.groups),
    }
}

/// A copy of a role entry with the same model.
fn clone_role(r: &MapRole) -> (c: MapRole)
    ensures
        c@ == r@,
{
    MapRole {
        rolearn: ARN(r.rolearn.0.clone()),
        username: r.username.clone(),
        groups: clone_groups(&r.groups),
    }
}

/// A copy of a user entry with the same model.
fn clone_user(u: &MapUser) -> (c: MapUser)
    ensures
        c@ == u@,
{
    MapUser {
        userarn: ARN(u.userarn.0.clone()),
        username: u.username.clone(),
        groups: clone_groups(&u.groups),
    }
}

/// Whether some desired record carries exactly this identifier.
fn desired_contains_arn(desired: &Vec<IAMIdentityMappingSpec>, arn: &String) -> (b: bool)
    ensures
        b == desired_has_arn(desired_views(desired@), arn@),
{
    let mut i: usize = 0;
    while i < desired.len()
        invariant
            i <= desired.len(),
            forall|t: int| 0 <= t < i ==> desired_views(desired@)[t].arn != arn@,
        decreases desired.len() - i,
    {
        if desired[i].arn == *arn {
            proof {
                assert(desired_views(desired@)[i as int].arn == arn@);
            }
            return true;
        }
        i = i + 1;
    }
    false
}

/// Step 1 on the role list: every stored identifier is rendered against the
/// environment facts.
fn resolve_roles(roles: &Vec<MapRole>, facts: &Facts) -> (r: Vec<MapRole>)
    ensures
        role_views(r@) == resolve_entries(role_views(roles@), facts@),
{
    let mut out: Vec<MapRole> = Vec::new();
    let mut i: usize = 0;
    while i < roles.len()
        invariant
            i <= roles.len(),
            out.len() == i,
            forall|t: int| 0 <= t < i ==> out@[t]@ == resolve_entry(roles@[t]@, facts@),
        decreases roles.len() - i,
    {
        out.push(
            MapRole {
                rolearn: ARN::resolve(roles[i].rolearn.0.as_str(), facts),
                username: roles[i].username.clone(),
                groups: clone_groups(&roles[i].groups),
            },
        );
        i = i + 1;
    }
    proof {
        assert(role_views(out@) =~= resolve_entries(role_views(roles@), facts@));
    }
    out
}

/// Step 1 on the user list.
fn resolve_users(users: &Vec<MapUser>, facts: &Facts) -> (r: Vec<MapUser>)
    ensures
        user_views(r@) == resolve_entries(user_views(users@), facts@),
{
    let mut out: Vec<MapUser> = Vec::new();
    let mut i: usize = 0;
    while i < users.len()
        invariant
            i <= users.len(),
            out.len() == i,
            forall|t: int| 0 <= t < i ==> out@[t]@ == resolve_entry(users@[t]@, facts@),
        decreases users.len() - i,
    {
        out.push(
            MapUser {
                userarn: ARN::resolve(users[i].userarn.0.as_str(), facts),
                username: users[i].username.clone(),
                groups: clone_groups(&users[i].groups),
            },
        );
        i = i + 1;
    }
    proof {
        assert(user_views(out@) =~= resolve_entries(user_views(users@), facts@));
    }
    out
}

/// Step 2 on the role list: keep the entries whose identifier some desired
/// record has.
fn prune_roles(roles: &Vec<MapRole>, desired: &Vec<IAMIdentityMappingSpec>) -> (r: Vec<MapRole>)
    ensures
        role_views(r@) == keep_desired(role_views(roles@), desired_views(desired@)),
{
    let mut out: Vec<MapRole> = Vec::new();
    let mut i: usize = 0;
    while i < roles.len()
        invariant
            i <= roles.len(),
            role_views(out@) == keep_desired(
                role_views(roles@.take(i as int)),
                desired_views(desired@),
            ),
        decreases roles.len() - i,
    {
        proof {
            assert(role_views(roles@.take(i as int + 1)).drop_last() =~= role_views(
                roles@.take(i as int),
            ));
            assert(role_views(roles@.take(i as int + 1)).last() == roles@[i as int]@);
        }
        let keep = desired_contains_arn(desired, &roles[i].rolearn.0);
        if keep {
            let c = clone_role(&roles[i]);
            out.push(c);
            proof {
                assert(role_views(out@) =~= keep_desired(
                    role_views(roles@.take(i as int + 1)),
                    desired_views(desired@),
                ));
            }
        } else {
            proof {
                assert(role_views(out@) =~= keep_desired(
                    role_views(roles@.take(i as int + 1)),
                    desired_views(desired@),
                ));
            }
        }
        i = i + 1;
    }
    proof {
        assert(roles@.take(roles@.len() as int) =~= roles@);
    }
    out
}

/// Step 2 on the user list.
fn prune_users(users: &Vec<MapUser>, desired: &Vec<IAMIdentityMappingSpec>) -> (r: Vec<MapUser>)
    ensures
        user_views(r@) == keep_desired(user_views(users@), desired_views(desired@)),
{
    let mut out: Vec<MapUser> = Vec::new();
    let mut i: usize = 0;
    while i < users.len()
        invariant
            i <= users.len(),
            user_views(out@) == keep_desired(
                user_views(users@.take(i as int)),
                desired_views(desired@),
            ),
        decreases users.len() - i,
    {
        proof {
            assert(user_views(users@.take(i as int + 1)).drop_last() =~= user_views(
                users@.take(i as int),
            ));
            assert(user_views(users@.take(i as int + 1)).last() == users@[i as int]@);
        }
        let keep = desired_contains_arn(desired, &users[i].userarn.0);
        if keep {
            let c = clone_user(&users[i]);
            out.push(c);
            proof {
                assert(user_views(out@) =~= keep_desired(
                    user_views(users@.take(i as int + 1)),
                    desired_views(desired@),
                ));
            }
        } else {
            proof {
                assert(user_views(out@) =~= keep_desired(
                    user_views(users@.take(i as int + 1)),
                    desired_views(desired@),
                ));
            }
        }
        i = i + 1;
    }
    proof {
        assert(users@.take(users@.len() as int) =~= users@);
    }
    out
}

/// The entries of the role list whose identifier differs from `arn`.
fn remove_role_arn(roles: &Vec<MapRole>, arn: &String) -> (r: Vec<MapRole>)
    ensures
        role_views(r@) == remove_arn(role_views(roles@), arn@),
{
    let mut out: Vec<MapRole> = Vec::new();
    let mut i: usize = 0;
    while i < roles.len()
        invariant
            i <= roles.len(),
            role_views(out@) == remove_arn(role_views(roles@.take(i as int)), arn@),
        decreases roles.len() - i,
    {
        proof {
            assert(role_views(roles@.take(i as int + 1)).drop_last() =~= role_views(
                roles@.take(i as int),
            ));
            assert(role_views(roles@.take(i as int + 1)).last() == roles@[i as int]@);
        }
        if !(roles[i].rolearn.0 == *arn) {
            let c = clone_role(&roles[i]);
            out.push(c);
            proof {
                assert(role_views(out@) =~= remove_arn(
                    role_views(roles@.take(i as int + 1)),
                    arn@,
                ));
            }
        } else {
            proof {
                assert(role_views(out@) =~= remove_arn(
                    role_views(roles@.take(i as int + 1)),
                    arn@,
                ));
            }
        }
        i = i + 1;
    }
    proof {
        assert(roles@.take(roles@.len() as int) =~= roles@);
    }
    out
}

/// The entries of the user list whose identifier differs from `arn`.
fn remove_user_arn(users: &Vec<MapUser>, arn: &String) -> (r: Vec<MapUser>)
    ensures
        user_views(r@) == remove_arn(user_views(users@), arn@),
{
    let mut out: Vec<MapUser> = Vec::new();
    let mut i: usize = 0;
    while i < users.len()
        invariant
            i <= users.len(),
            user_views(out@) == remove_arn(user_views(users@.take(i as int)), arn@),
        decreases users.len() - i,
    {
        proof {
            assert(user_views(users@.take(i as int + 1)).drop_last() =~= user_views(
                users@.take(i as int),
            ));
            assert(user_views(users@.take(i as int + 1)).last() == users@[i as int]@);
        }
        if !(users[i].userarn.0 == *arn) {
            let c = clone_user(&users[i]);
            out.push(c);
            proof {
                assert(user_views(out@) =~= remove_arn(
                    user_views(users@.take(i as int + 1)),
                    arn@,
                ));
            }
        } else {
            proof {
                assert(user_views(out@) =~= remove_arn(
                    user_views(users@.take(i as int + 1)),
                    arn@,
                ));
            }
        }
        i = i + 1;
    }
    proof {
        assert(users@.take(users@.len() as int) =~= users@);
    }
    out
}

/// The reconciliation engine: given the desired-state snapshot, the current
/// document's two lists and the environment facts, computes the new document
/// content — stored identifiers resolved, orphaned entries pruned, and every
/// desired record upserted into its partition, last desired state winning.
pub fn reconcile(
    desired: &Vec<IAMIdentityMappingSpec>,
    roles: &Vec<MapRole>,
    users: &Vec<MapUser>,
    facts: &Facts,
) -> (r: (Vec<MapRole>, Vec<MapUser>))
    ensures
        ({
            let rr = resolve_entries(role_views(roles@), facts@);
            let uu = resolve_entries(user_views(users@), facts@);
            let ds = desired_views(desired@);
            &&& role_views(r.0@) == spec_reconcile(rr, uu, ds).0
            &&& user_views(r.1@) == spec_reconcile(rr, uu, ds).1
        }),
{
    let ghost ds = desired_views(desired@);
    let resolved_roles = resolve_roles(roles, facts);
    let resolved_users = resolve_users(users, facts);
    let ghost rr = resolve_entries(role_views(roles@), facts@);
    let ghost uu = resolve_entries(user_views(users@), facts@);
    // Prune: drop every stored entry with no corresponding desired record.
    let mut cur_roles = prune_roles(&resolved_roles, desired);
    let mut cur_users = prune_users(&resolved_users, desired);
    // Upsert: replace-and-append an entry for every desired record.
    let mut i: usize = 0;
    proof {
        assert(ds.take(0) =~= Seq::<Entry>::empty());
    }
    while i < desired.len()
        invariant
            i <= desired.len(),
            ds == desired_views(desired@),
            rr == resolve_entries(role_views(roles@), facts@),
            uu == resolve_entries(user_views(users@), facts@),
            role_views(cur_roles@) == upsert_part(keep_desired(rr, ds), ds.take(i as int), true),
            user_views(cur_users@) == upsert_part(keep_desired(uu, ds), ds.take(i as int), false),
        decreases desired.len() - i,
    {
        proof {
            assert(ds.take(i as int + 1).drop_last() =~= ds.take(i as int));
            assert(ds.take(i as int + 1).last() == desired@[i as int]@);
        }
        let d = &desired[i];
        if arn_is_role(d.arn.as_str()) {
            let removed = remove_role_arn(&cur_roles, &d.arn);
            cur_roles = removed;
            let fresh = role_from_desired(d);
            cur_roles.push(fresh);
            proof {
                assert(role_views(cur_roles@) =~= upsert_part(
                    keep_desired(rr, ds),
                    ds.take(i as int + 1),
                    true,
                ));
                assert(user_views(cur_users@) == upsert_part(
                    keep_desired(uu, ds),
                    ds.take(i as int + 1),
                    false,
                ));
            }
        } else {
            let removed = remove_user_arn(&cur_users, &d.arn);
            cur_users = removed;
            let fresh = user_from_desired(d);
            cur_users.push(fresh);
            proof {
                assert(user_views(cur_users@) =~= upsert_part(
                    keep_desired(uu, ds),
                    ds.take(i as int + 1),
                    false,
                ));
                assert(role_views(cur_roles@) == upsert_part(
                    keep_desired(rr, ds),
                    ds.take(i as int + 1),
                    true,
                ));
            }
        }
        i = i + 1;
    }
    proof {
        assert(ds.take(desired@.len() as int) =~= ds);
    }
    (cur_roles, cur_users)
}

} // verus!
