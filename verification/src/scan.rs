//! The change-detection core. One scan iteration takes the sequence of
//! observed entries (path and modification instant), filters out ignored
//! paths, and compares each remaining entry against the modification-time
//! table: an unseen path, or one whose instant moved strictly forward, is a
//! change; an equal or older instant is not. The changed paths form the
//! batch for that iteration, and the command runs once when the batch is
//! non-empty.

use vstd::prelude::*;

use crate::table::{PathStamp, TimeTable};
use crate::text::{contains_seq, contains_str};

verus! {

/// A path is ignored when any ignore substring occurs in it.
pub open spec fn ignored(p: Seq<char>, igs: Set<Seq<char>>) -> bool {
    exists|g: Seq<char>| igs.contains(g) && contains_seq(p, g)
}

/// The observations of one scan, as pairs of path and instant.
pub open spec fn stamps_obs(s: Seq<PathStamp>) -> Seq<(Seq<char>, u128)> {
    s.map_values(|e: PathStamp| (e.path@, e.mtime))
}

/// What one scan iteration does: the table after the scan, and the batch of
/// changed paths, in observation order. Ignored paths are skipped before the
/// table is consulted; an unseen path or a strictly newer instant is a
/// change and updates the table; anything else leaves both untouched.
pub open spec fn scan_spec(
    table: Map<Seq<char>, u128>,
    igs: Set<Seq<char>>,
    obs: Seq<(Seq<char>, u128)>,
) -> (Map<Seq<char>, u128>, Seq<Seq<char>>)
    decreases obs.len(),
{
    if obs.len() == 0 {
        (table, Seq::empty())
    } else {
        let p = obs[0].0;
        let t = obs[0].1;
        if ignored(p, igs) {
            scan_spec(table, igs, obs.drop_first())
        } else if !table.contains_key(p) || table[p] < t {
            let r = scan_spec(table.insert(p, t), igs, obs.drop_first());
            (r.0, seq![p] + r.1)
        } else {
            scan_spec(table, igs, obs.drop_first())
        }
    }
}

/// The watcher: the watch roots, the ignore substrings, and the
/// modification-time table that persists across scans.
pub struct Watcher {
    pub watches: Vec<String>,
    pub ignores: Vec<String>,
    pub table: TimeTable,
}

impl Watcher {
    /// The ignore substrings, as a set.
    pub open spec fn ignore_set(self) -> Set<Seq<char>> {
        self.ignores.deep_view().to_set()
    }

    /// The table is well formed and never tracks an ignored path.
    pub open spec fn wf(self) -> bool {
        &&& self.table.wf()
        &&& forall|p: Seq<char>|
            #[trigger] self.table@.contains_key(p) ==> !ignored(p, self.ignore_set())
    }

    /// A fresh watcher: nothing tracked yet.
    pub fn new(watches: Vec<String>, ignores: Vec<String>) -> (w: Watcher)
        ensures
            w.wf(),
            w.watches == watches,
            w.ignores == ignores,
            w.table@ == Map::<Seq<char>, u128>::empty(),
    {
        Watcher { watches, ignores, table: TimeTable::new() }
    }

    /// Whether some ignore substring occurs in `path`.
    pub fn is_path_ignored(&self, path: &str) -> (r: bool)
        ensures
            r == ignored(path@, self.ignore_set()),
    {
        let n = self.ignores.len();
        let mut i: usize = 0;
        while i < n
            invariant
                n == self.ignores@.len(),
                i <= n,
                forall|j: int| 0 <= j < i ==> !contains_seq(path@, self.ignores.deep_view()[j]),
            decreases n - i,
        {
            if contains_str(path, self.ignores[i].as_str()) {
                proof {
                    let dv = self.ignores.deep_view();
                    assert(dv[i as int] == self.ignores@[i as int]@);
                    assert(dv.contains(dv[i as int]));
                    assert(self.ignore_set().contains(dv[i as int]));
                }
                return true;
            }
            i = i + 1;
        }
        proof {
            if ignored(path@, self.ignore_set()) {
                let g = choose|g: Seq<char>|
                    self.ignore_set().contains(g) && contains_seq(path@, g);
                let dv = self.ignores.deep_view();
                let j = choose|j: int| 0 <= j < dv.len() && dv[j] == g;
                assert(!contains_seq(path@, dv[j]));
            }
        }
        false
    }

    /// Run one scan iteration over the given observations. The table and
    /// the returned batch are exactly what `scan_spec` says.
    pub fn process_entries(&mut self, entries: &Vec<PathStamp>) -> (batch: Vec<String>)
        requires
            old(self).wf(),
        ensures
            final(self).wf(),
            final(self).watches == old(self).watches,
            final(self).ignores == old(self).ignores,
            ({
                let r = scan_spec(old(self).table@, old(self).ignore_set(), stamps_obs(entries@));
                final(self).table@ == r.0 && batch.deep_view() == r.1
            }),
    {
        let ghost t0 = self.table@;
        let ghost igs = self.ignore_set();
        let ghost obs = stamps_obs(entries@);
        let ghost r = scan_spec(t0, igs, obs);
        let mut batch: Vec<String> = Vec::new();
        let n = entries.len();
        let mut i: usize = 0;
        proof {
            assert(obs.skip(0) =~= obs);
            assert(batch.deep_view() =~= Seq::<Seq<char>>::empty());
            assert(Seq::<Seq<char>>::empty() + r.1 =~= r.1);
        }
        while i < n
            invariant
                self.watches == old(self).watches,
                self.ignores == old(self).ignores,
                self.table.wf(),
                forall|p: Seq<char>| #[trigger] self.table@.contains_key(p) ==> !ignored(p, igs),
                igs == self.ignore_set(),
                obs == stamps_obs(entries@),
                r == scan_spec(t0, igs, obs),
                n == entries@.len(),
                i <= n,
                r.0 == scan_spec(self.table@, igs, obs.skip(i as int)).0,
                r.1 == batch.deep_view() + scan_spec(self.table@, igs, obs.skip(i as int)).1,
            decreases n - i,
        {
            let e = &entries[i];
            proof {
                assert(obs[i as int] == (e.path@, e.mtime));
                assert(obs.skip(i as int)[0] == obs[i as int]);
                assert(obs.skip(i as int).drop_first() =~= obs.skip(i as int + 1));
            }
            let ign = self.is_path_ignored(e.path.as_str());
            if !ign {
                let cur = self.table.get(e.path.as_str());
                let is_change = match cur {
                    None => true,
                    Some(t) => t < e.mtime,
                };
                if is_change {
                    let ghost old_batch = batch.deep_view();
                    batch.push(e.path.clone());
                    self.table.set(&e.path, e.mtime);
                    proof {
                        assert(batch.deep_view() =~= old_batch.push(e.path@));
                        assert(old_batch + (seq![e.path@] + scan_spec(
                            self.table@,
                            igs,
                            obs.skip(i as int + 1),
                        ).1) =~= batch.deep_view() + scan_spec(
                            self.table@,
                            igs,
                            obs.skip(i as int + 1),
                        ).1);
                    }
                }
            }
            i = i + 1;
        }
        proof {
            assert(obs.skip(n as int) =~= Seq::<(Seq<char>, u128)>::empty());
            assert(batch.deep_view() + Seq::<Seq<char>>::empty() =~= batch.deep_view());
        }
        batch
    }

    /// Whether `path` is currently tracked.
    pub fn is_tracked(&self, path: &str) -> (r: bool)
        requires
            self.wf(),
        ensures
            r == self.table@.contains_key(path@),
    {
        match self.table.get(path) {
            Some(_) => true,
            None => false,
        }
    }

    /// How many paths are tracked.
    pub fn table_len(&self) -> (r: usize)
        requires
            self.wf(),
        ensures
            r == self.table@.dom().len(),
    {
        self.table.len()
    }

    /// Scan every watch root on the real file system and fold the
    /// observations into the table. What comes back from the file system is
    /// outside the library's control, so the contract states what holds of
    /// every outcome: the configuration is untouched, tracked paths stay
    /// tracked, and every batched path is tracked and not ignored.
    pub fn scan_filesystem(&mut self) -> (batch: Vec<String>)
        requires
            old(self).wf(),
        ensures
            final(self).wf(),
            final(self).watches == old(self).watches,
            final(self).ignores == old(self).ignores,
            forall|p: Seq<char>|
                #[trigger] old(self).table@.contains_key(p) ==> final(self).table@.contains_key(p),
            forall|j: int|
                0 <= j < batch.deep_view().len() ==> final(self).table@.contains_key(
                    #[trigger] batch.deep_view()[j],
                ) && !ignored(batch.deep_view()[j], final(self).ignore_set()),
    {
        let mut batch: Vec<String> = Vec::new();
        let n = self.watches.len();
        let mut i: usize = 0;
        while i < n
            invariant
                self.wf(),
                self.watches == old(self).watches,
                self.ignores == old(self).ignores,
                n == self.watches@.len(),
                i <= n,
                forall|p: Seq<char>|
                    #[trigger] old(self).table@.contains_key(p) ==> self.table@.contains_key(p),
                forall|j: int|
                    0 <= j < batch.deep_view().len() ==> self.table@.contains_key(
                        #[trigger] batch.deep_view()[j],
                    ) && !ignored(batch.deep_view()[j], self.ignore_set()),
            decreases n - i,
        {
            let entries = walk_collect(&self.watches[i]);
            let ghost tb = self.table@;
            let ghost old_batch_dv = batch.deep_view();
            let mut b = self.process_entries(&entries);
            let ghost b_dv = b.deep_view();
            proof {
                lemma_scan_props(tb, self.ignore_set(), stamps_obs(entries@));
            }
            batch.append(&mut b);
            proof {
                assert(batch.deep_view() =~= old_batch_dv + b_dv);
                assert forall|j: int| 0 <= j < batch.deep_view().len() implies self.table@
                    .contains_key(#[trigger] batch.deep_view()[j]) && !ignored(
                    batch.deep_view()[j],
                    self.ignore_set(),
                ) by {
                    if j < old_batch_dv.len() {
                        assert(batch.deep_view()[j] == old_batch_dv[j]);
                    } else {
                        assert(batch.deep_view()[j] == b_dv[j - old_batch_dv.len()]);
                    }
                }
            }
            i = i + 1;
        }
        batch
    }
}

/// Whether a non-empty batch came out of a scan: the command runs exactly
/// when it did.
pub fn should_run(batch: &Vec<String>) -> (r: bool)
    ensures
        r == (batch@.len() > 0),
{
    batch.len() > 0
}

/// The scanned table contains every previously tracked path; a path it newly
/// tracks is never an ignored one; and every batched path is tracked after
/// the scan and is not ignored.
pub proof fn lemma_scan_props(
    table: Map<Seq<char>, u128>,
    igs: Set<Seq<char>>,
    obs: Seq<(Seq<char>, u128)>,
)
    ensures
        ({
            let r = scan_spec(table, igs, obs);
            &&& forall|p: Seq<char>|
                #[trigger] table.contains_key(p) ==> r.0.contains_key(p)
            &&& forall|p: Seq<char>|
                #[trigger] r.0.contains_key(p) ==> table.contains_key(p) || !ignored(p, igs)
            &&& forall|j: int|
                0 <= j < r.1.len() ==> r.0.contains_key(#[trigger] r.1[j]) && !ignored(
                    r.1[j],
                    igs,
                )
        }),
    decreases obs.len(),
{
    if obs.len() > 0 {
        let p = obs[0].0;
        let t = obs[0].1;
        let r = scan_spec(table, igs, obs);
        if ignored(p, igs) {
            lemma_scan_props(table, igs, obs.drop_first());
            assert(r == scan_spec(table, igs, obs.drop_first()));
        } else if !table.contains_key(p) || table[p] < t {
            lemma_scan_props(table.insert(p, t), igs, obs.drop_first());
            let rr = scan_spec(table.insert(p, t), igs, obs.drop_first());
            assert(r.0 == rr.0);
            assert(r.1 == seq![p] + rr.1);
            assert(table.insert(p, t).contains_key(p));
            assert(rr.0.contains_key(p));
            assert forall|q: Seq<char>| #[trigger] table.contains_key(q) implies r.0.contains_key(
                q,
            ) by {
                assert(table.insert(p, t).contains_key(q));
            }
            assert forall|q: Seq<char>| #[trigger] r.0.contains_key(q) implies table.contains_key(
                q,
            ) || !ignored(q, igs) by {
                assert(rr.0.contains_key(q));
                if table.insert(p, t).contains_key(q) {
                    if q == p {
                    } else {
                        assert(table.contains_key(q));
                    }
                }
            }
            assert forall|j: int| 0 <= j < r.1.len() implies r.0.contains_key(
                #[trigger] r.1[j],
            ) && !ignored(r.1[j], igs) by {
                if j == 0 {
                    assert(r.1[0] == p);
                } else {
                    assert(r.1[j] == rr.1[j - 1]);
                }
            }
        } else {
            lemma_scan_props(table, igs, obs.drop_first());
            assert(r == scan_spec(table, igs, obs.drop_first()));
        }
    }
}

/// Relies on `walkdir::WalkDir` to traverse each directory tree and on
/// `std::fs` metadata to read modification times. Entries that cannot be
/// read, or whose path is not valid UTF-8, are skipped rather than aborting
/// a scan. The result depends on the state of the file system, so nothing
/// is promised of it; every caller is verified for every possible return.
#[verifier::external_body]
fn walk_collect(root: &String) -> Vec<PathStamp>
{
    let mut out = Vec::new();
    for entry in walkdir::WalkDir::new(root).into_iter().flatten() {
        if let (Some(path), Ok(meta)) = (entry.path().to_str(), entry.metadata()) {
            if let Ok(modified) = meta.modified() {
                let mtime = match modified.duration_since(std::time::UNIX_EPOCH) {
                    Ok(d) => d.as_nanos(),
                    Err(_) => 0,
                };
                out.push(PathStamp { path: path.to_string(), mtime });
            }
        }
    }
    out
}

} // verus!
