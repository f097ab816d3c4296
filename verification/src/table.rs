//! The modification-time table: a record, per tracked path, of the last
//! observed modification instant. Keys are path strings; values are
//! nanoseconds since the epoch. The table only ever grows or updates values
//! in place; entries are never removed.

use vstd::prelude::*;

use crate::text::str_eq;

verus! {

/// A path string paired with a modification instant.
pub struct PathStamp {
    pub path: String,
    pub mtime: u128,
}

/// The map described by a sequence of entries; later entries win.
pub open spec fn stamps_map(s: Seq<PathStamp>) -> Map<Seq<char>, u128>
    decreases s.len(),
{
    if s.len() == 0 {
        Map::empty()
    } else {
        stamps_map(s.drop_last()).insert(s.last().path@, s.last().mtime)
    }
}

/// The modification-time table, viewed as a map from path to instant.
pub struct TimeTable {
    entries: Vec<PathStamp>,
}

impl View for TimeTable {
    type V = Map<Seq<char>, u128>;

    closed spec fn view(&self) -> Map<Seq<char>, u128> {
        stamps_map(self.entries@)
    }
}

/// No two entries share a path.
pub open spec fn distinct_paths(s: Seq<PathStamp>) -> bool {
    forall|i: int, j: int| 0 <= i < j < s.len() ==> s[i].path@ != s[j].path@
}

proof fn lemma_stamps_contains(s: Seq<PathStamp>, p: Seq<char>)
    ensures
        stamps_map(s).contains_key(p) <==> exists|i: int| 0 <= i < s.len() && s[i].path@ == p,
    decreases s.len(),
{
    if s.len() > 0 {
        lemma_stamps_contains(s.drop_last(), p);
        if s.last().path@ == p {
            assert(s[s.len() - 1].path@ == p);
        } else if stamps_map(s).contains_key(p) {
            let i = choose|i: int| 0 <= i < s.drop_last().len() && s.drop_last()[i].path@ == p;
            assert(s[i].path@ == p);
        } else {
            assert forall|i: int| 0 <= i < s.len() implies s[i].path@ != p by {
                if i < s.len() - 1 {
                    assert(s.drop_last()[i].path@ == s[i].path@);
                }
            }
        }
    }
}

proof fn lemma_stamps_value(s: Seq<PathStamp>, i: int)
    requires
        distinct_paths(s),
        0 <= i < s.len(),
    ensures
        stamps_map(s).contains_key(s[i].path@),
        stamps_map(s)[s[i].path@] == s[i].mtime,
    decreases s.len(),
{
    if i == s.len() - 1 {
    } else {
        lemma_stamps_value(s.drop_last(), i);
        assert(s.drop_last()[i] == s[i]);
        assert(s[i].path@ != s.last().path@);
    }
}

proof fn lemma_stamps_update(s: Seq<PathStamp>, i: int, x: PathStamp)
    requires
        distinct_paths(s),
        0 <= i < s.len(),
        s[i].path@ == x.path@,
    ensures
        stamps_map(s.update(i, x)) == stamps_map(s).insert(x.path@, x.mtime),
    decreases s.len(),
{
    let t = s.update(i, x);
    if i == s.len() - 1 {
        assert(t.drop_last() =~= s.drop_last());
        assert(t.last() == x);
        assert(stamps_map(t) =~= stamps_map(s).insert(x.path@, x.mtime));
    } else {
        assert(t.drop_last() =~= s.drop_last().update(i, x));
        lemma_stamps_update(s.drop_last(), i, x);
        assert(t.last() == s.last());
        assert(s[i].path@ != s.last().path@);
        assert(stamps_map(t) == stamps_map(s.drop_last()).insert(x.path@, x.mtime).insert(
            s.last().path@,
            s.last().mtime,
        ));
        assert(stamps_map(s.drop_last()).insert(x.path@, x.mtime).insert(
            s.last().path@,
            s.last().mtime,
        ) =~= stamps_map(s).insert(x.path@, x.mtime));
    }
}

impl TimeTable {
    /// The table's entries never repeat a path.
    pub closed spec fn wf(self) -> bool {
        distinct_paths(self.entries@)
    }

    /// An empty table: nothing has been observed yet.
    pub fn new() -> (r: TimeTable)
        ensures
            r.wf(),
            r@ == Map::<Seq<char>, u128>::empty(),
    {
        TimeTable { entries: Vec::new() }
    }

    /// The recorded instant for `path`, if `path` is tracked.
    pub fn get(&self, path: &str) -> (r: Option<u128>)
        requires
            self.wf(),
        ensures
            match r {
                Some(t) => self@.contains_key(path@) && self@[path@] == t,
                None => !self@.contains_key(path@),
            },
    {
        let n = self.entries.len();
        let mut i: usize = 0;
        while i < n
            invariant
                self.wf(),
                n == self.entries@.len(),
                i <= n,
                forall|j: int| 0 <= j < i ==> self.entries@[j].path@ != path@,
            decreases n - i,
        {
            if str_eq(self.entries[i].path.as_str(), path) {
                proof {
                    lemma_stamps_value(self.entries@, i as int);
                }
                return Some(self.entries[i].mtime);
            }
            i = i + 1;
        }
        proof {
            lemma_stamps_contains(self.entries@, path@);
        }
        None
    }

    /// Record `mtime` for `path`: update in place when tracked, append when new.
    pub fn set(&mut self, path: &String, mtime: u128)
        requires
            old(self).wf(),
        ensures
            final(self).wf(),
            final(self)@ == old(self)@.insert(path@, mtime),
    {
        let n = self.entries.len();
        let mut i: usize = 0;
        while i < n
            invariant
                self.wf(),
                self == old(self),
                n == self.entries@.len(),
                i <= n,
                forall|j: int| 0 <= j < i ==> self.entries@[j].path@ != path@,
            decreases n - i,
        {
            if str_eq(self.entries[i].path.as_str(), path.as_str()) {
                let stamp = PathStamp { path: path.clone(), mtime };
                proof {
                    lemma_stamps_update(self.entries@, i as int, stamp);
                }
                self.entries.set(i, stamp);
                return ;
            }
            i = i + 1;
        }
        let stamp = PathStamp { path: path.clone(), mtime };
        proof {
            assert(self.entries@.push(stamp).drop_last() =~= self.entries@);
        }
        self.entries.push(stamp);
    }

    /// How many paths are tracked.
    pub fn len(&self) -> (r: usize)
        requires
            self.wf(),
        ensures
            r == self@.dom().len(),
    {
        proof {
            lemma_distinct_len(self.entries@);
        }
        self.entries.len()
    }
}

/// With distinct paths, the map has exactly one key per entry.
proof fn lemma_distinct_len(s: Seq<PathStamp>)
    requires
        distinct_paths(s),
    ensures
        stamps_map(s).dom().finite(),
        stamps_map(s).dom().len() == s.len(),
    decreases s.len(),
{
    if s.len() > 0 {
        lemma_distinct_len(s.drop_last());
        lemma_stamps_contains(s.drop_last(), s.last().path@);
        assert(forall|i: int|
            0 <= i < s.drop_last().len() ==> s.drop_last()[i].path@ != s.last().path@);
        assert(!stamps_map(s.drop_last()).contains_key(s.last().path@));
        assert(stamps_map(s).dom() =~= stamps_map(s.drop_last()).dom().insert(s.last().path@));
    }
}

} // verus!
