//! Properties of the change-detection algorithm, proved once and for all
//! over `scan_spec`: ignored paths are invisible, a first observation and a
//! strictly newer modification each fire exactly once, an unchanged rescan
//! fires nothing, and distinct changed files batch one event each.

use vstd::prelude::*;

use crate::scan::{ignored, scan_spec};

verus! {

/// How often `p` is observed in one scan.
pub open spec fn count_path(obs: Seq<(Seq<char>, u128)>, p: Seq<char>) -> nat
    decreases obs.len(),
{
    if obs.len() == 0 {
        0
    } else {
        (if obs[0].0 == p {
            1nat
        } else {
            0nat
        }) + count_path(obs.drop_first(), p)
    }
}

/// How often `p` stands in a batch.
pub open spec fn count_in(batch: Seq<Seq<char>>, p: Seq<char>) -> nat
    decreases batch.len(),
{
    if batch.len() == 0 {
        0
    } else {
        (if batch[0] == p {
            1nat
        } else {
            0nat
        }) + count_in(batch.drop_first(), p)
    }
}

/// A path that is counted zero times does not occur.
pub proof fn lemma_count_in_zero(batch: Seq<Seq<char>>, p: Seq<char>)
    ensures
        count_in(batch, p) == 0 <==> !batch.contains(p),
    decreases batch.len(),
{
    if batch.len() > 0 {
        lemma_count_in_zero(batch.drop_first(), p);
        if batch[0] == p {
        } else if batch.contains(p) {
            let i = choose|i: int| 0 <= i < batch.len() && batch[i] == p;
            assert(batch.drop_first()[i - 1] == p);
        } else {
            assert(!batch.drop_first().contains(p)) by {
                if batch.drop_first().contains(p) {
                    let i = choose|i: int|
                        0 <= i < batch.drop_first().len() && batch.drop_first()[i] == p;
                    assert(batch[i + 1] == p);
                }
            }
        }
    }
}

/// A path that is never observed in a scan is never batched, and its table
/// entry (or absence) is untouched.
pub proof fn lemma_untouched(
    table: Map<Seq<char>, u128>,
    igs: Set<Seq<char>>,
    obs: Seq<(Seq<char>, u128)>,
    p: Seq<char>,
)
    requires
        count_path(obs, p) == 0,
    ensures
        ({
            let r = scan_spec(table, igs, obs);
            &&& count_in(r.1, p) == 0
            &&& r.0.contains_key(p) == table.contains_key(p)
            &&& table.contains_key(p) ==> r.0[p] == table[p]
        }),
    decreases obs.len(),
{
    if obs.len() > 0 {
        let q = obs[0].0;
        let t = obs[0].1;
        let r = scan_spec(table, igs, obs);
        assert(q != p);
        if ignored(q, igs) {
            lemma_untouched(table, igs, obs.drop_first(), p);
            assert(r == scan_spec(table, igs, obs.drop_first()));
        } else if !table.contains_key(q) || table[q] < t {
            lemma_untouched(table.insert(q, t), igs, obs.drop_first(), p);
            let rr = scan_spec(table.insert(q, t), igs, obs.drop_first());
            assert(r.0 == rr.0);
            assert(r.1 == seq![q] + rr.1);
            assert((seq![q] + rr.1)[0] == q);
            assert((seq![q] + rr.1).drop_first() =~= rr.1);
        } else {
            lemma_untouched(table, igs, obs.drop_first(), p);
            assert(r == scan_spec(table, igs, obs.drop_first()));
        }
    }
}

/// A file whose path contains an ignore substring never appears in a batch
/// and never enters the table, however often it is observed.
pub proof fn lemma_ignored_never_tracked(
    table: Map<Seq<char>, u128>,
    igs: Set<Seq<char>>,
    obs: Seq<(Seq<char>, u128)>,
    p: Seq<char>,
)
    requires
        ignored(p, igs),
        !table.contains_key(p),
    ensures
        ({
            let r = scan_spec(table, igs, obs);
            &&& !r.0.contains_key(p)
            &&& !r.1.contains(p)
            &&& count_in(r.1, p) == 0
        }),
    decreases obs.len(),
{
    let r = scan_spec(table, igs, obs);
    if obs.len() == 0 {
        lemma_count_in_zero(r.1, p);
    } else {
        let q = obs[0].0;
        let t = obs[0].1;
        if ignored(q, igs) {
            lemma_ignored_never_tracked(table, igs, obs.drop_first(), p);
            assert(r == scan_spec(table, igs, obs.drop_first()));
        } else if !table.contains_key(q) || table[q] < t {
            assert(q != p);
            lemma_ignored_never_tracked(table.insert(q, t), igs, obs.drop_first(), p);
            let rr = scan_spec(table.insert(q, t), igs, obs.drop_first());
            assert(r.0 == rr.0);
            assert(r.1 == seq![q] + rr.1);
            assert((seq![q] + rr.1)[0] == q);
            assert((seq![q] + rr.1).drop_first() =~= rr.1);
            lemma_count_in_zero(r.1, p);
        } else {
            lemma_ignored_never_tracked(table, igs, obs.drop_first(), p);
            assert(r == scan_spec(table, igs, obs.drop_first()));
        }
    }
}

/// Cold start, and every first observation: a path that is not yet tracked,
/// not ignored, and observed exactly once in a scan is batched exactly once
/// and is tracked afterwards.
pub proof fn lemma_first_observation(
    table: Map<Seq<char>, u128>,
    igs: Set<Seq<char>>,
    obs: Seq<(Seq<char>, u128)>,
    p: Seq<char>,
)
    requires
        !ignored(p, igs),
        !table.contains_key(p),
        count_path(obs, p) == 1,
    ensures
        ({
            let r = scan_spec(table, igs, obs);
            &&& count_in(r.1, p) == 1
            &&& r.0.contains_key(p)
        }),
    decreases obs.len(),
{
    let r = scan_spec(table, igs, obs);
    let q = obs[0].0;
    let t = obs[0].1;
    if q == p {
        lemma_untouched(table.insert(p, t), igs, obs.drop_first(), p);
        let rr = scan_spec(table.insert(p, t), igs, obs.drop_first());
        assert(r.0 == rr.0);
        assert(r.1 == seq![p] + rr.1);
        assert((seq![p] + rr.1)[0] == p);
        assert((seq![p] + rr.1).drop_first() =~= rr.1);
    } else {
        if ignored(q, igs) {
            lemma_first_observation(table, igs, obs.drop_first(), p);
            assert(r == scan_spec(table, igs, obs.drop_first()));
        } else if !table.contains_key(q) || table[q] < t {
            lemma_first_observation(table.insert(q, t), igs, obs.drop_first(), p);
            let rr = scan_spec(table.insert(q, t), igs, obs.drop_first());
            assert(r.0 == rr.0);
            assert(r.1 == seq![q] + rr.1);
            assert((seq![q] + rr.1)[0] == q);
            assert((seq![q] + rr.1).drop_first() =~= rr.1);
        } else {
            lemma_first_observation(table, igs, obs.drop_first(), p);
            assert(r == scan_spec(table, igs, obs.drop_first()));
        }
    }
}

/// A tracked path whose observations in a scan never exceed its recorded
/// instant is never batched, and its record is unchanged.
pub proof fn lemma_stable(
    table: Map<Seq<char>, u128>,
    igs: Set<Seq<char>>,
    obs: Seq<(Seq<char>, u128)>,
    p: Seq<char>,
)
    requires
        table.contains_key(p),
        forall|i: int| 0 <= i < obs.len() && (#[trigger] obs[i]).0 == p ==> obs[i].1 <= table[p],
    ensures
        ({
            let r = scan_spec(table, igs, obs);
            &&& count_in(r.1, p) == 0
            &&& r.0.contains_key(p)
            &&& r.0[p] == table[p]
        }),
    decreases obs.len(),
{
    if obs.len() > 0 {
        let q = obs[0].0;
        let t = obs[0].1;
        let r = scan_spec(table, igs, obs);
        assert(forall|i: int|
            0 <= i < obs.drop_first().len() ==> (#[trigger] obs.drop_first()[i]) == obs[i + 1]);
        if ignored(q, igs) {
            lemma_stable(table, igs, obs.drop_first(), p);
            assert(r == scan_spec(table, igs, obs.drop_first()));
        } else if !table.contains_key(q) || table[q] < t {
            assert(q != p) by {
                assert(obs[0].0 == q && obs[0].1 == t);
            }
            lemma_stable(table.insert(q, t), igs, obs.drop_first(), p);
            let rr = scan_spec(table.insert(q, t), igs, obs.drop_first());
            assert(r.0 == rr.0);
            assert(r.1 == seq![q] + rr.1);
            assert((seq![q] + rr.1)[0] == q);
            assert((seq![q] + rr.1).drop_first() =~= rr.1);
        } else {
            lemma_stable(table, igs, obs.drop_first(), p);
            assert(r == scan_spec(table, igs, obs.drop_first()));
        }
    }
}

/// A tracked, non-ignored path observed exactly once, with an instant
/// strictly past its record, is batched exactly once and its record moves
/// to the new instant; scanning the very same observations again batches it
/// zero further times and leaves the record alone.
pub proof fn lemma_modified_then_stable(
    table: Map<Seq<char>, u128>,
    igs: Set<Seq<char>>,
    obs: Seq<(Seq<char>, u128)>,
    p: Seq<char>,
    t1: u128,
)
    requires
        !ignored(p, igs),
        table.contains_key(p),
        table[p] < t1,
        count_path(obs, p) == 1,
        forall|i: int| 0 <= i < obs.len() && (#[trigger] obs[i]).0 == p ==> obs[i].1 == t1,
    ensures
        ({
            let r1 = scan_spec(table, igs, obs);
            &&& count_in(r1.1, p) == 1
            &&& r1.0.contains_key(p)
            &&& r1.0[p] == t1
            &&& ({
                let r2 = scan_spec(r1.0, igs, obs);
                &&& count_in(r2.1, p) == 0
                &&& r2.0.contains_key(p)
                &&& r2.0[p] == t1
            })
        }),
{
    lemma_single_update(table, igs, obs, p, t1);
    let r1 = scan_spec(table, igs, obs);
    lemma_stable(r1.0, igs, obs, p);
}

/// The shared step of `lemma_modified_then_stable`: one observation of `p`
/// at `t1`, strictly past its record, fires once and sets the record.
proof fn lemma_single_update(
    table: Map<Seq<char>, u128>,
    igs: Set<Seq<char>>,
    obs: Seq<(Seq<char>, u128)>,
    p: Seq<char>,
    t1: u128,
)
    requires
        !ignored(p, igs),
        table.contains_key(p),
        table[p] < t1,
        count_path(obs, p) == 1,
        forall|i: int| 0 <= i < obs.len() && (#[trigger] obs[i]).0 == p ==> obs[i].1 == t1,
    ensures
        ({
            let r = scan_spec(table, igs, obs);
            &&& count_in(r.1, p) == 1
            &&& r.0.contains_key(p)
            &&& r.0[p] == t1
        }),
    decreases obs.len(),
{
    let r = scan_spec(table, igs, obs);
    let q = obs[0].0;
    let t = obs[0].1;
    assert(forall|i: int|
        0 <= i < obs.drop_first().len() ==> (#[trigger] obs.drop_first()[i]) == obs[i + 1]);
    if q == p {
        assert(obs[0].1 == t1);
        lemma_untouched(table.insert(p, t1), igs, obs.drop_first(), p);
        let rr = scan_spec(table.insert(p, t1), igs, obs.drop_first());
        assert(r.0 == rr.0);
        assert(r.1 == seq![p] + rr.1);
        assert((seq![p] + rr.1)[0] == p);
        assert((seq![p] + rr.1).drop_first() =~= rr.1);
    } else {
        if ignored(q, igs) {
            lemma_single_update(table, igs, obs.drop_first(), p, t1);
            assert(r == scan_spec(table, igs, obs.drop_first()));
        } else if !table.contains_key(q) || table[q] < t {
            lemma_single_update(table.insert(q, t), igs, obs.drop_first(), p, t1);
            let rr = scan_spec(table.insert(q, t), igs, obs.drop_first());
            assert(r.0 == rr.0);
            assert(r.1 == seq![q] + rr.1);
            assert((seq![q] + rr.1)[0] == q);
            assert((seq![q] + rr.1).drop_first() =~= rr.1);
        } else {
            lemma_single_update(table, igs, obs.drop_first(), p, t1);
            assert(r == scan_spec(table, igs, obs.drop_first()));
        }
    }
}

/// Whether one observation fires against `table`: its path is not ignored
/// and is either untracked or strictly newer than its record.
pub open spec fn qualifies(
    table: Map<Seq<char>, u128>,
    igs: Set<Seq<char>>,
    o: (Seq<char>, u128),
) -> bool {
    !ignored(o.0, igs) && (!table.contains_key(o.0) || table[o.0] < o.1)
}

/// How many observations fire against `table`, each judged against the
/// table as it stood before the scan.
pub open spec fn change_count(
    table: Map<Seq<char>, u128>,
    igs: Set<Seq<char>>,
    obs: Seq<(Seq<char>, u128)>,
) -> nat
    decreases obs.len(),
{
    if obs.len() == 0 {
        0
    } else {
        (if qualifies(table, igs, obs[0]) {
            1nat
        } else {
            0nat
        }) + change_count(table, igs, obs.drop_first())
    }
}

/// Inserting a path that none of the observations mention does not change
/// how many of them fire.
proof fn lemma_change_count_insert(
    table: Map<Seq<char>, u128>,
    igs: Set<Seq<char>>,
    obs: Seq<(Seq<char>, u128)>,
    p: Seq<char>,
    t: u128,
)
    requires
        forall|i: int| 0 <= i < obs.len() ==> (#[trigger] obs[i]).0 != p,
    ensures
        change_count(table.insert(p, t), igs, obs) == change_count(table, igs, obs),
    decreases obs.len(),
{
    if obs.len() > 0 {
        assert(obs[0].0 != p);
        assert(qualifies(table.insert(p, t), igs, obs[0]) == qualifies(table, igs, obs[0]));
        assert(forall|i: int|
            0 <= i < obs.drop_first().len() ==> (#[trigger] obs.drop_first()[i]) == obs[i + 1]);
        lemma_change_count_insert(table, igs, obs.drop_first(), p, t);
    }
}

/// In a scan whose observations have pairwise-distinct paths, the batch
/// holds exactly as many paths as there are qualifying observations: the
/// ones that are not ignored and are untracked or strictly newer.
pub proof fn lemma_batch_counts_changes(
    table: Map<Seq<char>, u128>,
    igs: Set<Seq<char>>,
    obs: Seq<(Seq<char>, u128)>,
)
    requires
        forall|i: int, j: int| 0 <= i < j < obs.len() ==> obs[i].0 != obs[j].0,
    ensures
        scan_spec(table, igs, obs).1.len() == change_count(table, igs, obs),
    decreases obs.len(),
{
    if obs.len() > 0 {
        let p = obs[0].0;
        let t = obs[0].1;
        let r = scan_spec(table, igs, obs);
        assert(forall|i: int|
            0 <= i < obs.drop_first().len() ==> (#[trigger] obs.drop_first()[i]) == obs[i + 1]);
        let rest = obs.drop_first();
        assert forall|i: int, j: int| 0 <= i < j < rest.len() implies rest[i].0 != rest[j].0 by {
            assert(rest[i] == obs[i + 1]);
            assert(rest[j] == obs[j + 1]);
        }
        if ignored(p, igs) {
            lemma_batch_counts_changes(table, igs, obs.drop_first());
            assert(r == scan_spec(table, igs, obs.drop_first()));
            assert(!qualifies(table, igs, obs[0]));
        } else if !table.contains_key(p) || table[p] < t {
            lemma_batch_counts_changes(table.insert(p, t), igs, obs.drop_first());
            assert forall|i: int|
                0 <= i < obs.drop_first().len() implies (#[trigger] obs.drop_first()[i]).0
                != p by {
                assert(obs.drop_first()[i] == obs[i + 1]);
            }
            lemma_change_count_insert(table, igs, obs.drop_first(), p, t);
            let rr = scan_spec(table.insert(p, t), igs, obs.drop_first());
            assert(r.1 == seq![p] + rr.1);
            assert(qualifies(table, igs, obs[0]));
        } else {
            lemma_batch_counts_changes(table, igs, obs.drop_first());
            assert(r == scan_spec(table, igs, obs.drop_first()));
            assert(!qualifies(table, igs, obs[0]));
        }
    }
}

/// Touching N distinct non-ignored files between two scans batches exactly
/// N paths: one scan, one batch, one command run for the whole batch.
pub proof fn lemma_batch_size(
    table: Map<Seq<char>, u128>,
    igs: Set<Seq<char>>,
    obs: Seq<(Seq<char>, u128)>,
)
    requires
        forall|i: int| 0 <= i < obs.len() ==> !ignored((#[trigger] obs[i]).0, igs),
        forall|i: int|
            0 <= i < obs.len() ==> !table.contains_key((#[trigger] obs[i]).0) || table[obs[i].0]
                < obs[i].1,
        forall|i: int, j: int| 0 <= i < j < obs.len() ==> obs[i].0 != obs[j].0,
    ensures
        scan_spec(table, igs, obs).1.len() == obs.len(),
{
    lemma_batch_counts_changes(table, igs, obs);
    lemma_change_count_full(table, igs, obs);
}

/// When every observation qualifies, all of them are counted.
proof fn lemma_change_count_full(
    table: Map<Seq<char>, u128>,
    igs: Set<Seq<char>>,
    obs: Seq<(Seq<char>, u128)>,
)
    requires
        forall|i: int| 0 <= i < obs.len() ==> qualifies(table, igs, #[trigger] obs[i]),
    ensures
        change_count(table, igs, obs) == obs.len(),
    decreases obs.len(),
{
    if obs.len() > 0 {
        assert(qualifies(table, igs, obs[0]));
        assert(forall|i: int|
            0 <= i < obs.drop_first().len() ==> (#[trigger] obs.drop_first()[i]) == obs[i + 1]);
        lemma_change_count_full(table, igs, obs.drop_first());
    }
}

} // verus!
