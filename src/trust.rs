use vstd::prelude::*;

use crate::model::copy_text;

verus! {

/// A user's approval of a directory's scripts, as they were when hashed.
#[derive(Debug, Clone, PartialEq, Eq)]
pub struct TrustRecord {
    pub path: String,
    pub hash: String,
}

impl View for TrustRecord {
    type V = (Seq<char>, Seq<char>);

    open spec fn view(&self) -> (Seq<char>, Seq<char>) {
        (self.path@, self.hash@)
    }
}

/// The approvals, at most one for each directory.
#[derive(Debug, Clone, PartialEq, Eq)]
pub struct TrustStore {
    pub records: Vec<TrustRecord>,
}

pub open spec fn records_view(v: Seq<TrustRecord>) -> Seq<(Seq<char>, Seq<char>)> {
    v.map_values(|r: TrustRecord| r@)
}

impl View for TrustStore {
    type V = Seq<(Seq<char>, Seq<char>)>;

    open spec fn view(&self) -> Seq<(Seq<char>, Seq<char>)> {
        records_view(self.records@)
    }
}

/// A directory is trusted for a hash when a record approves exactly that hash.
pub open spec fn trusted(rs: Seq<(Seq<char>, Seq<char>)>, path: Seq<char>, hash: Seq<char>) -> bool {
    exists|i: int| 0 <= i < rs.len() && rs[i] == (path, hash)
}

/// The records without those of `path`.
pub open spec fn without_path(rs: Seq<(Seq<char>, Seq<char>)>, path: Seq<char>) -> Seq<
    (Seq<char>, Seq<char>),
>
    decreases rs.len(),
{
    if rs.len() == 0 {
        rs
    } else if rs.last().0 == path {
        without_path(rs.drop_last(), path)
    } else {
        without_path(rs.drop_last(), path).push(rs.last())
    }
}

impl TrustStore {
    pub fn new() -> (r: TrustStore)
        ensures
            r@ == Seq::<(Seq<char>, Seq<char>)>::empty(),
    {
        let r = TrustStore { records: Vec::new() };
        assert(r@ =~= Seq::<(Seq<char>, Seq<char>)>::empty());
        r
    }

    /// Whether the directory is trusted for the current hash of its scripts;
    /// a missing record or another hash means it is not.
    pub fn is_trusted(&self, path: &String, hash: &String) -> (r: bool)
        ensures
            r == trusted(self@, path@, hash@),
    {
        let mut i: usize = 0;
        while i < self.records.len()
            invariant
                i <= self.records@.len(),
                forall|j: int| 0 <= j < i ==> self@[j] != (path@, hash@),
            decreases self.records@.len() - i,
        {
            if self.records[i].path.eq(path) && self.records[i].hash.eq(hash) {
                assert(self@[i as int] == (path@, hash@));
                return true;
            }
            i += 1;
        }
        false
    }

    /// Removes the approval of `path`, if any.
    pub fn revoke_trust(&mut self, path: &String)
        ensures
            final(self)@ == without_path(old(self)@, path@),
    {
        let ghost rv = old(self)@;
        let mut out: Vec<TrustRecord> = Vec::new();
        let mut i: usize = 0;
        while i < self.records.len()
            invariant
                i <= self.records@.len(),
                rv == records_view(self.records@),
                records_view(out@) == without_path(rv.take(i as int), path@),
            decreases self.records@.len() - i,
        {
            let ghost before = out@;
            assert(rv.take(i + 1).drop_last() =~= rv.take(i as int));
            assert(rv.take(i + 1).last() == rv[i as int]);
            if !self.records[i].path.eq(path) {
                out.push(
                    TrustRecord {
                        path: copy_text(&self.records[i].path),
                        hash: copy_text(&self.records[i].hash),
                    },
                );
                assert(records_view(out@) =~= records_view(before).push(rv[i as int]));
            }
            i += 1;
        }
        assert(rv.take(rv.len() as int) =~= rv);
        self.records = out;
    }

    /// Approves `path` for `hash`, in place of any earlier approval of it.
    pub fn record_trust(&mut self, path: &String, hash: &String)
        ensures
            final(self)@ == without_path(old(self)@, path@).push((path@, hash@)),
    {
        self.revoke_trust(path);
        let ghost before = self.records@;
        self.records.push(TrustRecord { path: copy_text(path), hash: copy_text(hash) });
        assert(records_view(self.records@) =~= records_view(before).push((path@, hash@)));
    }
}

} // verus!
