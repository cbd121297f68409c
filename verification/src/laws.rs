//! Laws of the merge algorithm, proved once for every desired-state snapshot
//! and every starting document:
//!
//! * idempotence — merging twice with the same snapshot changes nothing more,
//! * pruning — an identifier no desired record has is absent from the result,
//! * upsert-replace — of several desired records with one identifier, exactly
//!   the last one (in snapshot order) survives,
//! * partitioning — a desired record lands in the partition its identifier
//!   selects, and never plants a new entry in the other one.

use crate::engine::{
    desired_has_arn, keep_desired, remove_arn, resolve_entries, spec_reconcile, upsert_part,
};
use crate::model::{is_role_arn, Entry};
use crate::template::rendered;
use vstd::prelude::*;

verus! {

/// Some desired record of the partition selected by `role_part` carries this
/// identifier.
pub open spec fn part_hit(ds: Seq<Entry>, arn: Seq<char>, role_part: bool) -> bool {
    exists|i: int|
        0 <= i < ds.len() && ds[i].arn == arn && is_role_arn(ds[i].arn) == role_part
}

/// The entries of `es`, in order, whose identifier no desired record of the
/// selected partition carries.
pub open spec fn keep_unhit(es: Seq<Entry>, ds: Seq<Entry>, role_part: bool) -> Seq<Entry>
    decreases es.len(),
{
    if es.len() == 0 {
        Seq::empty()
    } else {
        let rest = keep_unhit(es.drop_last(), ds, role_part);
        if part_hit(ds, es.last().arn, role_part) {
            rest
        } else {
            rest.push(es.last())
        }
    }
}

/// The entries of `es`, in order, whose identifier is exactly `arn`.
pub open spec fn with_arn(es: Seq<Entry>, arn: Seq<char>) -> Seq<Entry>
    decreases es.len(),
{
    if es.len() == 0 {
        Seq::empty()
    } else {
        let rest = with_arn(es.drop_last(), arn);
        if es.last().arn == arn {
            rest.push(es.last())
        } else {
            rest
        }
    }
}

/// The position of the last desired record carrying `arn` (meaningful only
/// under `desired_has_arn(ds, arn)`).
pub open spec fn last_index_with(ds: Seq<Entry>, arn: Seq<char>) -> int
    decreases ds.len(),
{
    if ds.len() == 0 {
        0
    } else if ds.last().arn == arn {
        ds.len() - 1
    } else {
        last_index_with(ds.drop_last(), arn)
    }
}

/// One unfolding step of `remove_arn` at an appended entry.
pub proof fn lemma_remove_arn_push(es: Seq<Entry>, e: Entry, arn: Seq<char>)
    ensures
        remove_arn(es.push(e), arn) == if e.arn == arn {
            remove_arn(es, arn)
        } else {
            remove_arn(es, arn).push(e)
        },
{
    assert(es.push(e).drop_last() =~= es);
    assert(es.push(e).last() == e);
}

/// One unfolding step of `keep_unhit` at an appended entry.
pub proof fn lemma_keep_unhit_push(es: Seq<Entry>, e: Entry, ds: Seq<Entry>, role_part: bool)
    ensures
        keep_unhit(es.push(e), ds, role_part) == if part_hit(ds, e.arn, role_part) {
            keep_unhit(es, ds, role_part)
        } else {
            keep_unhit(es, ds, role_part).push(e)
        },
{
    assert(es.push(e).drop_last() =~= es);
    assert(es.push(e).last() == e);
}

/// Every pruned entry stems from the input and has a desired identifier.
pub proof fn lemma_keep_desired_elems(es: Seq<Entry>, ds: Seq<Entry>)
    ensures
        forall|k: int|
            0 <= k < keep_desired(es, ds).len() ==> desired_has_arn(
                ds,
                (#[trigger] keep_desired(es, ds)[k]).arn,
            ) && es.contains(keep_desired(es, ds)[k]),
    decreases es.len(),
{
    if es.len() > 0 {
        lemma_keep_desired_elems(es.drop_last(), ds);
        let r0 = keep_desired(es.drop_last(), ds);
        let r = keep_desired(es, ds);
        assert forall|k: int| 0 <= k < r.len() implies desired_has_arn(ds, (#[trigger] r[k]).arn)
            && es.contains(r[k]) by {
            if k < r0.len() {
                assert(r[k] == r0[k]);
                let j = choose|j: int|
                    0 <= j < es.drop_last().len() && es.drop_last()[j] == r0[k];
                assert(es[j] == r0[k]);
                assert(es.contains(r[k]));
            } else {
                assert(r[k] == es.last());
                assert(es[es.len() - 1] == es.last());
                assert(es.contains(r[k]));
            }
        }
    }
}

/// Pruning entries that all have desired identifiers changes nothing.
pub proof fn lemma_keep_desired_identity(es: Seq<Entry>, ds: Seq<Entry>)
    requires
        forall|k: int| 0 <= k < es.len() ==> desired_has_arn(ds, (#[trigger] es[k]).arn),
    ensures
        keep_desired(es, ds) == es,
    decreases es.len(),
{
    if es.len() > 0 {
        assert(es[es.len() - 1] == es.last());
        lemma_keep_desired_identity(es.drop_last(), ds);
        assert(keep_desired(es, ds) =~= es.drop_last().push(es.last()));
        assert(es.drop_last().push(es.last()) =~= es);
    } else {
        assert(keep_desired(es, ds) =~= es);
    }
}

/// Every entry of the upsert result stems from the input or is one of the
/// desired records of the selected partition.
pub proof fn lemma_upsert_elems(es: Seq<Entry>, ds: Seq<Entry>, role_part: bool)
    ensures
        forall|k: int|
            0 <= k < upsert_part(es, ds, role_part).len() ==> es.contains(
                #[trigger] upsert_part(es, ds, role_part)[k],
            ) || (exists|i: int|
                0 <= i < ds.len() && upsert_part(es, ds, role_part)[k] == ds[i] && is_role_arn(
                    ds[i].arn,
                ) == role_part),
    decreases ds.len(),
{
    if ds.len() > 0 {
        lemma_upsert_elems(es, ds.drop_last(), role_part);
        let prev = upsert_part(es, ds.drop_last(), role_part);
        let r = upsert_part(es, ds, role_part);
        let d = ds.last();
        assert(ds[ds.len() - 1] == d);
        if is_role_arn(d.arn) == role_part {
            lemma_remove_arn_elems(prev, d.arn);
            let rem = remove_arn(prev, d.arn);
            assert forall|k: int| 0 <= k < r.len() implies es.contains(#[trigger] r[k]) || (
            exists|i: int|
                0 <= i < ds.len() && r[k] == ds[i] && is_role_arn(ds[i].arn) == role_part) by {
                if k < rem.len() {
                    assert(r[k] == rem[k]);
                    assert(prev.contains(rem[k]));
                    let j = choose|j: int| 0 <= j < prev.len() && prev[j] == rem[k];
                    if es.contains(prev[j]) {
                        assert(es.contains(r[k]));
                    } else {
                        let i = choose|i: int|
                            0 <= i < ds.drop_last().len() && prev[j] == ds.drop_last()[i]
                                && is_role_arn(ds.drop_last()[i].arn) == role_part;
                        assert(ds[i] == ds.drop_last()[i]);
                        assert(r[k] == ds[i] && is_role_arn(ds[i].arn) == role_part);
                    }
                } else {
                    assert(r[k] == d);
                    assert(r[k] == ds[ds.len() - 1]);
                }
            }
        } else {
            assert(r == prev);
            assert forall|k: int| 0 <= k < r.len() implies es.contains(#[trigger] r[k]) || (
            exists|i: int|
                0 <= i < ds.len() && r[k] == ds[i] && is_role_arn(ds[i].arn) == role_part) by {
                if !es.contains(prev[k]) {
                    let i = choose|i: int|
                        0 <= i < ds.drop_last().len() && prev[k] == ds.drop_last()[i]
                            && is_role_arn(ds.drop_last()[i].arn) == role_part;
                    assert(ds[i] == ds.drop_last()[i]);
                }
            }
        }
    }
}

/// Appending a desired record of the selected partition extends the hits by
/// exactly its identifier; one of the other partition extends them not at
/// all.
pub proof fn lemma_part_hit_push(ds: Seq<Entry>, d: Entry, arn: Seq<char>, role_part: bool)
    ensures
        is_role_arn(d.arn) == role_part ==> (part_hit(ds.push(d), arn, role_part) <==> (part_hit(
            ds,
            arn,
            role_part,
        ) || arn == d.arn)),
        is_role_arn(d.arn) != role_part ==> (part_hit(ds.push(d), arn, role_part) <==> part_hit(
            ds,
            arn,
            role_part,
        )),
{
    assert(ds.push(d)[ds.len() as int] == d);
    assert(forall|i: int| 0 <= i < ds.len() ==> ds.push(d)[i] == ds[i]);
    if part_hit(ds.push(d), arn, role_part) {
        let i = choose|i: int|
            0 <= i < ds.push(d).len() && ds.push(d)[i].arn == arn && is_role_arn(
                ds.push(d)[i].arn,
            ) == role_part;
        if i < ds.len() {
            assert(part_hit(ds, arn, role_part));
        }
    }
    if part_hit(ds, arn, role_part) {
        let i = choose|i: int|
            0 <= i < ds.len() && ds[i].arn == arn && is_role_arn(ds[i].arn) == role_part;
        assert(ds.push(d)[i] == ds[i]);
        assert(part_hit(ds.push(d), arn, role_part));
    }
}

/// With no desired records at all, nothing is hit and nothing is filtered.
pub proof fn lemma_keep_unhit_nil(es: Seq<Entry>, role_part: bool)
    ensures
        keep_unhit(es, Seq::<Entry>::empty(), role_part) == es,
    decreases es.len(),
{
    if es.len() > 0 {
        lemma_keep_unhit_nil(es.drop_last(), role_part);
        assert(!part_hit(Seq::<Entry>::empty(), es.last().arn, role_part));
        assert(keep_unhit(es, Seq::<Entry>::empty(), role_part) =~= es.drop_last().push(
            es.last(),
        ));
        assert(es.drop_last().push(es.last()) =~= es);
    } else {
        assert(keep_unhit(es, Seq::<Entry>::empty(), role_part) =~= es);
    }
}

/// `keep_unhit` filters a concatenation piecewise.
pub proof fn lemma_keep_unhit_concat(x: Seq<Entry>, y: Seq<Entry>, ds: Seq<Entry>, role_part: bool)
    ensures
        keep_unhit(x + y, ds, role_part) == keep_unhit(x, ds, role_part) + keep_unhit(
            y,
            ds,
            role_part,
        ),
    decreases y.len(),
{
    if y.len() == 0 {
        assert(x + y =~= x);
        assert(keep_unhit(x, ds, role_part) + keep_unhit(y, ds, role_part) =~= keep_unhit(
            x,
            ds,
            role_part,
        ));
    } else {
        lemma_keep_unhit_concat(x, y.drop_last(), ds, role_part);
        assert((x + y).drop_last() =~= x + y.drop_last());
        assert((x + y).last() == y.last());
        if part_hit(ds, y.last().arn, role_part) {
            assert(keep_unhit(y, ds, role_part) == keep_unhit(y.drop_last(), ds, role_part));
        } else {
            assert(keep_unhit(x, ds, role_part) + keep_unhit(y.drop_last(), ds, role_part).push(
                y.last(),
            ) =~= (keep_unhit(x, ds, role_part) + keep_unhit(y.drop_last(), ds, role_part)).push(
                y.last(),
            ));
        }
    }
}

/// `remove_arn` filters a concatenation piecewise.
pub proof fn lemma_remove_arn_concat(x: Seq<Entry>, y: Seq<Entry>, arn: Seq<char>)
    ensures
        remove_arn(x + y, arn) == remove_arn(x, arn) + remove_arn(y, arn),
    decreases y.len(),
{
    if y.len() == 0 {
        assert(x + y =~= x);
        assert(remove_arn(x, arn) + remove_arn(y, arn) =~= remove_arn(x, arn));
    } else {
        lemma_remove_arn_concat(x, y.drop_last(), arn);
        assert((x + y).drop_last() =~= x + y.drop_last());
        assert((x + y).last() == y.last());
        if y.last().arn != arn {
            assert(remove_arn(x, arn) + remove_arn(y.drop_last(), arn).push(y.last()) =~= (
            remove_arn(x, arn) + remove_arn(y.drop_last(), arn)).push(y.last()));
        }
    }
}

/// Removing the identifier of a newly appended desired record of the
/// partition turns the filter of `ds` into the filter of `ds.push(d)`.
pub proof fn lemma_keep_unhit_push_hit(es: Seq<Entry>, ds: Seq<Entry>, d: Entry, role_part: bool)
    requires
        is_role_arn(d.arn) == role_part,
    ensures
        remove_arn(keep_unhit(es, ds, role_part), d.arn) == keep_unhit(
            es,
            ds.push(d),
            role_part,
        ),
    decreases es.len(),
{
    if es.len() == 0 {
        assert(remove_arn(keep_unhit(es, ds, role_part), d.arn) =~= keep_unhit(
            es,
            ds.push(d),
            role_part,
        ));
    } else {
        let es0 = es.drop_last();
        let e = es.last();
        assert(es0.push(e) =~= es);
        lemma_keep_unhit_push_hit(es0, ds, d, role_part);
        lemma_part_hit_push(ds, d, e.arn, role_part);
        lemma_keep_unhit_push(es0, e, ds, role_part);
        lemma_keep_unhit_push(es0, e, ds.push(d), role_part);
        if part_hit(ds, e.arn, role_part) {
            assert(part_hit(ds.push(d), e.arn, role_part));
        } else if e.arn == d.arn {
            assert(part_hit(ds.push(d), e.arn, role_part));
            lemma_remove_arn_push(keep_unhit(es0, ds, role_part), e, d.arn);
        } else {
            assert(!part_hit(ds.push(d), e.arn, role_part));
            lemma_remove_arn_push(keep_unhit(es0, ds, role_part), e, d.arn);
        }
    }
}

/// A desired record of the other partition does not change the filter.
pub proof fn lemma_keep_unhit_push_miss(es: Seq<Entry>, ds: Seq<Entry>, d: Entry, role_part: bool)
    requires
        is_role_arn(d.arn) != role_part,
    ensures
        keep_unhit(es, ds.push(d), role_part) == keep_unhit(es, ds, role_part),
    decreases es.len(),
{
    if es.len() > 0 {
        lemma_keep_unhit_push_miss(es.drop_last(), ds, d, role_part);
        lemma_part_hit_push(ds, d, es.last().arn, role_part);
        assert(keep_unhit(es, ds.push(d), role_part) =~= keep_unhit(es, ds, role_part));
    } else {
        assert(keep_unhit(es, ds.push(d), role_part) =~= keep_unhit(es, ds, role_part));
    }
}

/// The upsert result splits into the input entries whose identifier the
/// partition's desired records never carry, followed by a tail that depends
/// on the desired records alone.
pub proof fn lemma_upsert_decompose(es: Seq<Entry>, ds: Seq<Entry>, role_part: bool)
    ensures
        upsert_part(es, ds, role_part) == keep_unhit(es, ds, role_part) + upsert_part(
            Seq::<Entry>::empty(),
            ds,
            role_part,
        ),
    decreases ds.len(),
{
    if ds.len() == 0 {
        assert(ds =~= Seq::<Entry>::empty());
        lemma_keep_unhit_nil(es, role_part);
        assert(keep_unhit(es, ds, role_part) + upsert_part(
            Seq::<Entry>::empty(),
            ds,
            role_part,
        ) =~= es);
    } else {
        let ds0 = ds.drop_last();
        let d = ds.last();
        lemma_upsert_decompose(es, ds0, role_part);
        assert(ds0.push(d) =~= ds);
        let front = keep_unhit(es, ds0, role_part);
        let tail0 = upsert_part(Seq::<Entry>::empty(), ds0, role_part);
        if is_role_arn(d.arn) == role_part {
            lemma_remove_arn_concat(front, tail0, d.arn);
            lemma_keep_unhit_push_hit(es, ds0, d, role_part);
            assert(upsert_part(es, ds, role_part) == remove_arn(front + tail0, d.arn).push(d));
            assert(remove_arn(front + tail0, d.arn).push(d) =~= keep_unhit(es, ds, role_part) + (
            remove_arn(tail0, d.arn).push(d)));
            assert(upsert_part(Seq::<Entry>::empty(), ds, role_part) == remove_arn(
                tail0,
                d.arn,
            ).push(d));
        } else {
            lemma_keep_unhit_push_miss(es, ds0, d, role_part);
            assert(upsert_part(es, ds, role_part) == front + tail0);
            assert(upsert_part(Seq::<Entry>::empty(), ds, role_part) == tail0);
        }
    }
}

/// Entries that are all hit are all filtered away.
pub proof fn lemma_keep_unhit_empty(es: Seq<Entry>, ds: Seq<Entry>, role_part: bool)
    requires
        forall|k: int|
            0 <= k < es.len() ==> part_hit(ds, (#[trigger] es[k]).arn, role_part),
    ensures
        keep_unhit(es, ds, role_part) == Seq::<Entry>::empty(),
    decreases es.len(),
{
    if es.len() > 0 {
        assert(es[es.len() - 1] == es.last());
        lemma_keep_unhit_empty(es.drop_last(), ds, role_part);
        assert(keep_unhit(es, ds, role_part) =~= Seq::<Entry>::empty());
    } else {
        assert(keep_unhit(es, ds, role_part) =~= Seq::<Entry>::empty());
    }
}

/// Entries that are all unhit all stay.
pub proof fn lemma_keep_unhit_identity(es: Seq<Entry>, ds: Seq<Entry>, role_part: bool)
    requires
        forall|k: int|
            0 <= k < es.len() ==> !part_hit(ds, (#[trigger] es[k]).arn, role_part),
    ensures
        keep_unhit(es, ds, role_part) == es,
    decreases es.len(),
{
    if es.len() > 0 {
        assert(es[es.len() - 1] == es.last());
        lemma_keep_unhit_identity(es.drop_last(), ds, role_part);
        assert(keep_unhit(es, ds, role_part) =~= es.drop_last().push(es.last()));
        assert(es.drop_last().push(es.last()) =~= es);
    } else {
        assert(keep_unhit(es, ds, role_part) =~= es);
    }
}

/// No survivor of `keep_unhit` is hit, and each stems from the input.
pub proof fn lemma_keep_unhit_elems(es: Seq<Entry>, ds: Seq<Entry>, role_part: bool)
    ensures
        forall|k: int|
            0 <= k < keep_unhit(es, ds, role_part).len() ==> !part_hit(
                ds,
                (#[trigger] keep_unhit(es, ds, role_part)[k]).arn,
                role_part,
            ),
    decreases es.len(),
{
    if es.len() > 0 {
        lemma_keep_unhit_elems(es.drop_last(), ds, role_part);
        let r0 = keep_unhit(es.drop_last(), ds, role_part);
        let r = keep_unhit(es, ds, role_part);
        assert forall|k: int| 0 <= k < r.len() implies !part_hit(
            ds,
            (#[trigger] r[k]).arn,
            role_part,
        ) by {
            if k < r0.len() {
                assert(r[k] == r0[k]);
            } else {
                assert(r[k] == es.last());
            }
        }
    }
}

/// Every entry of the desired-records tail is hit by its own record.
pub proof fn lemma_upsert_tail_hit(ds: Seq<Entry>, role_part: bool)
    ensures
        forall|k: int|
            0 <= k < upsert_part(Seq::<Entry>::empty(), ds, role_part).len() ==> part_hit(
                ds,
                (#[trigger] upsert_part(Seq::<Entry>::empty(), ds, role_part)[k]).arn,
                role_part,
            ),
{
    lemma_upsert_elems(Seq::<Entry>::empty(), ds, role_part);
    let a = upsert_part(Seq::<Entry>::empty(), ds, role_part);
    assert forall|k: int| 0 <= k < a.len() implies part_hit(
        ds,
        (#[trigger] a[k]).arn,
        role_part,
    ) by {
        assert(!Seq::<Entry>::empty().contains(a[k]));
        let i = choose|i: int|
            0 <= i < ds.len() && a[k] == ds[i] && is_role_arn(ds[i].arn) == role_part;
        assert(ds[i].arn == a[k].arn);
        assert(part_hit(ds, a[k].arn, role_part));
    }
}

/// One partition's merge is idempotent.
pub proof fn lemma_part_idempotent(es: Seq<Entry>, ds: Seq<Entry>, role_part: bool)
    ensures
        ({
            let once = upsert_part(keep_desired(es, ds), ds, role_part);
            upsert_part(keep_desired(once, ds), ds, role_part) == once
        }),
{
    let kd = keep_desired(es, ds);
    let once = upsert_part(kd, ds, role_part);
    let tail = upsert_part(Seq::<Entry>::empty(), ds, role_part);
    // Every entry of `once` has a desired identifier, so the second prune
    // changes nothing.
    lemma_keep_desired_elems(es, ds);
    lemma_upsert_elems(kd, ds, role_part);
    assert forall|k: int| 0 <= k < once.len() implies desired_has_arn(
        ds,
        (#[trigger] once[k]).arn,
    ) by {
        if kd.contains(once[k]) {
            let j = choose|j: int| 0 <= j < kd.len() && kd[j] == once[k];
            assert(desired_has_arn(ds, kd[j].arn));
        } else {
            let i = choose|i: int|
                0 <= i < ds.len() && once[k] == ds[i] && is_role_arn(ds[i].arn) == role_part;
            assert(ds[i].arn == once[k].arn);
            assert(desired_has_arn(ds, once[k].arn));
        }
    }
    lemma_keep_desired_identity(once, ds);
    // Decompose both merges and cancel the overlap.
    lemma_upsert_decompose(kd, ds, role_part);
    lemma_upsert_decompose(once, ds, role_part);
    let front = keep_unhit(kd, ds, role_part);
    lemma_keep_unhit_concat(front, tail, ds, role_part);
    lemma_keep_unhit_elems(kd, ds, role_part);
    lemma_keep_unhit_identity(front, ds, role_part);
    lemma_upsert_tail_hit(ds, role_part);
    lemma_keep_unhit_empty(tail, ds, role_part);
    assert(keep_unhit(once, ds, role_part) =~= front);
    assert(upsert_part(keep_desired(once, ds), ds, role_part) =~= once);
}

/// Law (idempotence): merging twice with one desired-state snapshot gives
/// the document that merging once gives.
pub proof fn lemma_reconcile_idempotent(roles: Seq<Entry>, users: Seq<Entry>, ds: Seq<Entry>)
    ensures
        ({
            let once = spec_reconcile(roles, users, ds);
            spec_reconcile(once.0, once.1, ds) == once
        }),
{
    lemma_part_idempotent(roles, ds, true);
    lemma_part_idempotent(users, ds, false);
}

/// Law (idempotence, with resolution): where every identifier of the merged
/// document is a fixed point of rendering — re-resolving it changes nothing,
/// as it does after ordinary resolution — running the whole engine again,
/// resolution step included, gives the same document.
pub proof fn lemma_engine_idempotent(
    roles: Seq<Entry>,
    users: Seq<Entry>,
    ds: Seq<Entry>,
    vals: Map<Seq<char>, Seq<char>>,
)
    requires
        forall|k: int|
            0 <= k < spec_reconcile(roles, users, ds).0.len() ==> rendered(
                (#[trigger] spec_reconcile(roles, users, ds).0[k]).arn,
                vals,
                0,
            ) == spec_reconcile(roles, users, ds).0[k].arn,
        forall|k: int|
            0 <= k < spec_reconcile(roles, users, ds).1.len() ==> rendered(
                (#[trigger] spec_reconcile(roles, users, ds).1[k]).arn,
                vals,
                0,
            ) == spec_reconcile(roles, users, ds).1[k].arn,
    ensures
        ({
            let once = spec_reconcile(roles, users, ds);
            spec_reconcile(
                resolve_entries(once.0, vals),
                resolve_entries(once.1, vals),
                ds,
            ) == once
        }),
{
    let once = spec_reconcile(roles, users, ds);
    assert forall|k: int| 0 <= k < once.0.len() implies resolve_entries(once.0, vals)[k]
        == once.0[k] by {
        assert(resolve_entries(once.0, vals)[k] =~= once.0[k]);
    }
    assert forall|k: int| 0 <= k < once.1.len() implies resolve_entries(once.1, vals)[k]
        == once.1[k] by {
        assert(resolve_entries(once.1, vals)[k] =~= once.1[k]);
    }
    assert(resolve_entries(once.0, vals) =~= once.0);
    assert(resolve_entries(once.1, vals) =~= once.1);
    lemma_reconcile_idempotent(roles, users, ds);
}

/// Law (pruning): an identifier that no desired record carries is absent
/// from both partitions of the result.
pub proof fn lemma_reconcile_prunes(
    roles: Seq<Entry>,
    users: Seq<Entry>,
    ds: Seq<Entry>,
    arn: Seq<char>,
)
    requires
        !desired_has_arn(ds, arn),
    ensures
        forall|k: int|
            0 <= k < spec_reconcile(roles, users, ds).0.len() ==> (#[trigger] spec_reconcile(
                roles,
                users,
                ds,
            ).0[k]).arn != arn,
        forall|k: int|
            0 <= k < spec_reconcile(roles, users, ds).1.len() ==> (#[trigger] spec_reconcile(
                roles,
                users,
                ds,
            ).1[k]).arn != arn,
{
    lemma_part_prunes(roles, ds, arn, true);
    lemma_part_prunes(users, ds, arn, false);
}

/// Pruning law for a single partition.
pub proof fn lemma_part_prunes(es: Seq<Entry>, ds: Seq<Entry>, arn: Seq<char>, role_part: bool)
    requires
        !desired_has_arn(ds, arn),
    ensures
        forall|k: int|
            0 <= k < upsert_part(keep_desired(es, ds), ds, role_part).len() ==> (
            #[trigger] upsert_part(keep_desired(es, ds), ds, role_part)[k]).arn != arn,
{
    let kd = keep_desired(es, ds);
    let r = upsert_part(kd, ds, role_part);
    lemma_keep_desired_elems(es, ds);
    lemma_upsert_elems(kd, ds, role_part);
    assert forall|k: int| 0 <= k < r.len() implies (#[trigger] r[k]).arn != arn by {
        if kd.contains(r[k]) {
            let j = choose|j: int| 0 <= j < kd.len() && kd[j] == r[k];
            assert(desired_has_arn(ds, kd[j].arn));
        } else {
            let i = choose|i: int|
                0 <= i < ds.len() && r[k] == ds[i] && is_role_arn(ds[i].arn) == role_part;
            assert(ds[i].arn == r[k].arn);
            if r[k].arn == arn {
                assert(desired_has_arn(ds, arn));
            }
        }
    }
}

/// One unfolding step of `with_arn` at an appended entry.
pub proof fn lemma_with_arn_push(es: Seq<Entry>, e: Entry, arn: Seq<char>)
    ensures
        with_arn(es.push(e), arn) == if e.arn == arn {
            with_arn(es, arn).push(e)
        } else {
            with_arn(es, arn)
        },
{
    assert(es.push(e).drop_last() =~= es);
    assert(es.push(e).last() == e);
}

/// After removing an identifier nothing carries it.
pub proof fn lemma_with_arn_remove_same(es: Seq<Entry>, arn: Seq<char>)
    ensures
        with_arn(remove_arn(es, arn), arn) == Seq::<Entry>::empty(),
    decreases es.len(),
{
    if es.len() > 0 {
        let es0 = es.drop_last();
        let e = es.last();
        lemma_with_arn_remove_same(es0, arn);
        if e.arn != arn {
            lemma_with_arn_push(remove_arn(es0, arn), e, arn);
        }
    }
}

/// Removing one identifier leaves the entries of another unchanged.
pub proof fn lemma_with_arn_remove_other(es: Seq<Entry>, arn: Seq<char>, other: Seq<char>)
    requires
        arn != other,
    ensures
        with_arn(remove_arn(es, other), arn) == with_arn(es, arn),
    decreases es.len(),
{
    if es.len() > 0 {
        let es0 = es.drop_last();
        let e = es.last();
        lemma_with_arn_remove_other(es0, arn, other);
        if e.arn != other {
            lemma_with_arn_push(remove_arn(es0, other), e, arn);
        }
    }
}

/// Every entry selected by `with_arn` carries the identifier and stems from
/// the input.
pub proof fn lemma_with_arn_elems(es: Seq<Entry>, arn: Seq<char>)
    ensures
        forall|k: int|
            0 <= k < with_arn(es, arn).len() ==> (#[trigger] with_arn(es, arn)[k]).arn == arn
                && es.contains(with_arn(es, arn)[k]),
    decreases es.len(),
{
    if es.len() > 0 {
        lemma_with_arn_elems(es.drop_last(), arn);
        let r0 = with_arn(es.drop_last(), arn);
        let r = with_arn(es, arn);
        assert forall|k: int| 0 <= k < r.len() implies (#[trigger] r[k]).arn == arn && es.contains(
            r[k],
        ) by {
            if k < r0.len() {
                assert(r[k] == r0[k]);
                let j = choose|j: int|
                    0 <= j < es.drop_last().len() && es.drop_last()[j] == r0[k];
                assert(es[j] == r0[k]);
                assert(es.contains(r[k]));
            } else {
                assert(r[k] == es.last());
                assert(es[es.len() - 1] == es.last());
                assert(es.contains(r[k]));
            }
        }
    }
}

/// The last position carrying an identifier: it does carry it, and no later
/// one does.
pub proof fn lemma_last_index(ds: Seq<Entry>, arn: Seq<char>)
    requires
        desired_has_arn(ds, arn),
    ensures
        0 <= last_index_with(ds, arn) < ds.len(),
        ds[last_index_with(ds, arn)].arn == arn,
        forall|k: int|
            last_index_with(ds, arn) < k < ds.len() ==> (#[trigger] ds[k]).arn != arn,
    decreases ds.len(),
{
    let i = choose|i: int| 0 <= i < ds.len() && ds[i].arn == arn;
    if ds.last().arn != arn {
        assert(i < ds.len() - 1);
        assert(ds.drop_last()[i] == ds[i]);
        assert(desired_has_arn(ds.drop_last(), arn));
        lemma_last_index(ds.drop_last(), arn);
        let li = last_index_with(ds.drop_last(), arn);
        assert(ds[li] == ds.drop_last()[li]);
        assert forall|k: int| li < k < ds.len() implies (#[trigger] ds[k]).arn != arn by {
            if k < ds.len() - 1 {
                assert(ds.drop_last()[k] == ds[k]);
            } else {
                assert(ds[k] == ds.last());
            }
        }
    }
}

/// Law (upsert-replace) for one partition: among the entries carrying a
/// desired identifier of the partition, exactly one survives, built from the
/// last desired record that carries it.
pub proof fn lemma_upsert_last(es: Seq<Entry>, ds: Seq<Entry>, arn: Seq<char>, role_part: bool)
    requires
        desired_has_arn(ds, arn),
        is_role_arn(arn) == role_part,
    ensures
        with_arn(upsert_part(es, ds, role_part), arn) == seq![ds[last_index_with(ds, arn)]],
    decreases ds.len(),
{
    if ds.len() == 0 {
        let i = choose|i: int| 0 <= i < ds.len() && ds[i].arn == arn;
        assert(false);
    } else {
        let ds0 = ds.drop_last();
        let d = ds.last();
        let prev = upsert_part(es, ds0, role_part);
        if d.arn == arn {
            assert(ds[ds.len() - 1] == d);
            lemma_with_arn_push(remove_arn(prev, d.arn), d, arn);
            lemma_with_arn_remove_same(prev, arn);
            assert(with_arn(upsert_part(es, ds, role_part), arn) =~= seq![
                ds[last_index_with(ds, arn)],
            ]);
        } else {
            let i = choose|i: int| 0 <= i < ds.len() && ds[i].arn == arn;
            assert(i < ds.len() - 1);
            assert(ds0[i] == ds[i]);
            assert(desired_has_arn(ds0, arn));
            lemma_upsert_last(es, ds0, arn, role_part);
            lemma_last_index(ds0, arn);
            let li = last_index_with(ds0, arn);
            assert(ds[li] == ds0[li]);
            if is_role_arn(d.arn) == role_part {
                lemma_with_arn_push(remove_arn(prev, d.arn), d, arn);
                lemma_with_arn_remove_other(prev, arn, d.arn);
            }
        }
    }
}

/// Entries of a foreign identifier's partition are never planted by the
/// merge: each stems from the starting list.
pub proof fn lemma_part_foreign(es: Seq<Entry>, ds: Seq<Entry>, arn: Seq<char>, role_part: bool)
    requires
        is_role_arn(arn) != role_part,
    ensures
        forall|k: int|
            0 <= k < upsert_part(keep_desired(es, ds), ds, role_part).len() && (
            #[trigger] upsert_part(keep_desired(es, ds), ds, role_part)[k]).arn == arn
                ==> es.contains(upsert_part(keep_desired(es, ds), ds, role_part)[k]),
{
    let kd = keep_desired(es, ds);
    let r = upsert_part(kd, ds, role_part);
    lemma_keep_desired_elems(es, ds);
    lemma_upsert_elems(kd, ds, role_part);
    assert forall|k: int| 0 <= k < r.len() && (#[trigger] r[k]).arn == arn implies es.contains(
        r[k],
    ) by {
        if kd.contains(r[k]) {
            let j = choose|j: int| 0 <= j < kd.len() && kd[j] == r[k];
            assert(es.contains(kd[j]));
        } else {
            let i = choose|i: int|
                0 <= i < ds.len() && r[k] == ds[i] && is_role_arn(ds[i].arn) == role_part;
            assert(ds[i].arn == arn);
            assert(false);
        }
    }
}

/// Law (upsert-replace): of all desired records carrying one identifier,
/// exactly the last one (in snapshot order) stands in the result, as the only
/// entry of its partition with that identifier.
pub proof fn lemma_upsert_replace(
    roles: Seq<Entry>,
    users: Seq<Entry>,
    ds: Seq<Entry>,
    arn: Seq<char>,
)
    requires
        desired_has_arn(ds, arn),
    ensures
        0 <= last_index_with(ds, arn) < ds.len(),
        ds[last_index_with(ds, arn)].arn == arn,
        forall|k: int|
            last_index_with(ds, arn) < k < ds.len() ==> (#[trigger] ds[k]).arn != arn,
        is_role_arn(arn) ==> with_arn(spec_reconcile(roles, users, ds).0, arn) == seq![
            ds[last_index_with(ds, arn)],
        ],
        !is_role_arn(arn) ==> with_arn(spec_reconcile(roles, users, ds).1, arn) == seq![
            ds[last_index_with(ds, arn)],
        ],
{
    lemma_last_index(ds, arn);
    if is_role_arn(arn) {
        lemma_upsert_last(keep_desired(roles, ds), ds, arn, true);
    } else {
        lemma_upsert_last(keep_desired(users, ds), ds, arn, false);
    }
}

/// Law (partitioning): a desired record lands in the partition its
/// identifier selects — an entry carrying it stands there — and the other
/// partition gains no entry with that identifier that was not already in its
/// starting list.
pub proof fn lemma_partitioning(roles: Seq<Entry>, users: Seq<Entry>, ds: Seq<Entry>, i: int)
    requires
        0 <= i < ds.len(),
    ensures
        is_role_arn(ds[i].arn) ==> spec_reconcile(roles, users, ds).0.contains(
            ds[last_index_with(ds, ds[i].arn)],
        ),
        is_role_arn(ds[i].arn) ==> forall|k: int|
            0 <= k < spec_reconcile(roles, users, ds).1.len() && (#[trigger] spec_reconcile(
                roles,
                users,
                ds,
            ).1[k]).arn == ds[i].arn ==> users.contains(spec_reconcile(roles, users, ds).1[k]),
        !is_role_arn(ds[i].arn) ==> spec_reconcile(roles, users, ds).1.contains(
            ds[last_index_with(ds, ds[i].arn)],
        ),
        !is_role_arn(ds[i].arn) ==> forall|k: int|
            0 <= k < spec_reconcile(roles, users, ds).0.len() && (#[trigger] spec_reconcile(
                roles,
                users,
                ds,
            ).0[k]).arn == ds[i].arn ==> roles.contains(spec_reconcile(roles, users, ds).0[k]),
{
    let a = ds[i].arn;
    assert(desired_has_arn(ds, a));
    lemma_upsert_replace(roles, users, ds, a);
    if is_role_arn(a) {
        let r = spec_reconcile(roles, users, ds).0;
        lemma_with_arn_elems(r, a);
        assert(with_arn(r, a)[0] == ds[last_index_with(ds, a)]);
        assert(r.contains(ds[last_index_with(ds, a)]));
        lemma_part_foreign(users, ds, a, false);
    } else {
        let r = spec_reconcile(roles, users, ds).1;
        lemma_with_arn_elems(r, a);
        assert(with_arn(r, a)[0] == ds[last_index_with(ds, a)]);
        assert(r.contains(ds[last_index_with(ds, a)]));
        lemma_part_foreign(roles, ds, a, true);
    }
}

/// Every entry surviving `remove_arn` stems from the input and has another
/// identifier.
pub proof fn lemma_remove_arn_elems(es: Seq<Entry>, arn: Seq<char>)
    ensures
        forall|k: int|
            0 <= k < remove_arn(es, arn).len() ==> (#[trigger] remove_arn(es, arn)[k]).arn != arn
                && es.contains(remove_arn(es, arn)[k]),
    decreases es.len(),
{
    if es.len() > 0 {
        lemma_remove_arn_elems(es.drop_last(), arn);
        let r0 = remove_arn(es.drop_last(), arn);
        let r = remove_arn(es, arn);
        assert forall|k: int| 0 <= k < r.len() implies (#[trigger] r[k]).arn != arn && es.contains(
            r[k],
        ) by {
            if k < r0.len() {
                assert(r[k] == r0[k]);
                let j = choose|j: int|
                    0 <= j < es.drop_last().len() && es.drop_last()[j] == r0[k];
                assert(es[j] == r0[k]);
                assert(es.contains(r[k]));
            } else {
                assert(r[k] == es.last());
                assert(es[es.len() - 1] == es.last());
                assert(es.contains(r[k]));
            }
        }
    }
}

} // verus!
