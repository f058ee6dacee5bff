//! The classification of a run: each candidate path against the snapshot.
use vstd::prelude::*;

use crate::file_check::{FileCheckResult, FileToCheck};
use crate::file_info::FileInfo;
use crate::stats::StatsCollector;
use crate::file_info::FileInfoView;
use crate::text::chars_of;

verus! {

/// The bucket of a path in the snapshot's index.
pub open spec fn path_hash(s: Seq<char>) -> nat
    decreases s.len(),
{
    if s.len() == 0 {
        0
    } else {
        (path_hash(s.drop_last()) * 31 + (s.last() as u32) as nat) % 65536
    }
}

/// The last record before `k` with path `p`, or -1.
pub open spec fn last_with_path(prior: Seq<FileInfo>, p: Seq<char>, k: int) -> int
    decreases k,
{
    if k <= 0 {
        -1
    } else if prior[k - 1].rel_path@ == p {
        k - 1
    } else {
        last_with_path(prior, p, k - 1)
    }
}

/// The record that stands for path `p` in the snapshot: the last with that path.
pub open spec fn entry_of(prior: Seq<FileInfo>, p: Seq<char>) -> int {
    last_with_path(prior, p, prior.len() as int)
}

/// A record that a later one with the same path replaces.
pub open spec fn shadowed(prior: Seq<FileInfo>, j: int) -> bool {
    entry_of(prior, prior[j].rel_path@) != j
}

/// The order of paths: character by character, with `/` before every other
/// character, so that a directory's files come before names that extend it.
pub open spec fn path_order(a: Seq<char>, b: Seq<char>) -> core::cmp::Ordering
    decreases a.len(),
{
    if a.len() == 0 {
        if b.len() == 0 {
            core::cmp::Ordering::Equal
        } else {
            core::cmp::Ordering::Less
        }
    } else if b.len() == 0 {
        core::cmp::Ordering::Greater
    } else if char_key(a[0]) < char_key(b[0]) {
        core::cmp::Ordering::Less
    } else if char_key(a[0]) > char_key(b[0]) {
        core::cmp::Ordering::Greater
    } else {
        path_order(a.drop_first(), b.drop_first())
    }
}

pub open spec fn char_key(c: char) -> int {
    if c == '/' {
        0
    } else {
        (c as u32) as int + 1
    }
}

pub open spec fn sorted_by_path(s: Seq<FileCheckResult>) -> bool {
    forall|i: int, j: int|
        0 <= i < j < s.len() ==> path_order(#[trigger] s[i].path(), #[trigger] s[j].path())
            != core::cmp::Ordering::Greater
}

/// Compares two paths in path order.
pub fn compare_paths(a: &String, b: &String) -> (r: core::cmp::Ordering)
    ensures
        r == path_order(a@, b@),
{
    let x = chars_of(a.as_str());
    let y = chars_of(b.as_str());
    let mut i: usize = 0;
    assert(x@.subrange(0, x@.len() as int) =~= x@);
    assert(y@.subrange(0, y@.len() as int) =~= y@);
    while i < x.len() && i < y.len()
        invariant
            x@ == a@,
            y@ == b@,
            i <= x@.len(),
            i <= y@.len(),
            path_order(a@, b@) == path_order(x@.subrange(i as int, x@.len() as int), y@.subrange(i as int, y@.len() as int)),
        decreases x@.len() - i,
    {
        let ghost xs = x@.subrange(i as int, x@.len() as int);
        let ghost ys = y@.subrange(i as int, y@.len() as int);
        assert(xs[0] == x@[i as int]);
        assert(ys[0] == y@[i as int]);
        let kx: u64 = if x[i] == '/' { 0 } else { (x[i] as u32) as u64 + 1 };
        let ky: u64 = if y[i] == '/' { 0 } else { (y[i] as u32) as u64 + 1 };
        if kx < ky {
            return core::cmp::Ordering::Less;
        }
        if kx > ky {
            return core::cmp::Ordering::Greater;
        }
        assert(xs.drop_first() =~= x@.subrange(i + 1, x@.len() as int));
        assert(ys.drop_first() =~= y@.subrange(i + 1, y@.len() as int));
        i = i + 1;
    }
    if x.len() == i && y.len() == i {
        core::cmp::Ordering::Equal
    } else if x.len() == i {
        core::cmp::Ordering::Less
    } else {
        core::cmp::Ordering::Greater
    }
}

/// Relies on slice::sort_by: the items are permuted into the comparator's
/// order; here the comparator is `compare_paths`, a total order.
#[verifier::external_body]
fn sort_outcomes(v: &mut Vec<FileCheckResult>)
    ensures
        final(v)@.to_multiset() == old(v)@.to_multiset(),
        sorted_by_path(final(v)@),
{
    v.sort_by(|a, b| compare_paths(a.rel_path(), b.rel_path()))
}

/// Record `j` stands in the bucket of its path.
pub open spec fn indexed(buckets: Seq<Vec<usize>>, prior: Seq<FileInfo>, j: int) -> bool {
    exists|k: int|
        0 <= k < buckets[path_hash(prior[j].rel_path@) as int]@.len() && buckets[path_hash(
            prior[j].rel_path@,
        ) as int]@[k] == j
}

/// The snapshot records that no candidate matched, in snapshot order.
pub open spec fn missing_of(prior: Seq<FileInfo>, done: Seq<bool>) -> Seq<FileCheckResult>
    decreases prior.len(),
{
    if prior.len() == 0 || done.len() != prior.len() {
        Seq::empty()
    } else {
        let r = missing_of(prior.drop_last(), done.drop_last());
        if done.last() {
            r
        } else {
            r.push(FileCheckResult::Missing(prior.last()))
        }
    }
}

pub fn hash_path(p: &str) -> (h: usize)
    ensures
        h as nat == path_hash(p@),
        h < 65536,
{
    let cs = chars_of(p);
    let mut h: u64 = 0;
    let mut i: usize = 0;
    while i < cs.len()
        invariant
            i <= cs@.len(),
            cs@ == p@,
            h as nat == path_hash(cs@.subrange(0, i as int)),
            h < 65536,
        decreases cs@.len() - i,
    {
        proof {
            assert(cs@.subrange(0, i + 1).drop_last() =~= cs@.subrange(0, i as int));
            assert(cs@.subrange(0, i + 1).last() == cs@[i as int]);
        }
        let c: u32 = cs[i] as u32;
        h = (h * 31 + c as u64) % 65536;
        i = i + 1;
    }
    proof {
        assert(cs@.subrange(0, cs@.len() as int) =~= cs@);
    }
    h as usize
}

/// The state of a run's classification.
pub struct CheckRun {
    prior: Vec<FileInfo>,
    /// Indices of `prior`, by the bucket of their path, in increasing order.
    buckets: Vec<Vec<usize>>,
    /// Whether a record was matched by a candidate, or is shadowed.
    done: Vec<bool>,
    read_all_files: bool,
    unchanged: Vec<FileCheckResult>,
    considered: Ghost<nat>,
    issued: Ghost<nat>,
    /// Tracked files handed out to be read so far.
    rereads: Ghost<nat>,
}

impl CheckRun {
    pub closed spec fn prior(&self) -> Seq<FileInfo> {
        self.prior@
    }

    pub closed spec fn done(&self) -> Seq<bool> {
        self.done@
    }

    /// Outcomes decided without reading: tracked files whose metadata is the recorded one.
    pub closed spec fn unchanged(&self) -> Seq<FileCheckResult> {
        self.unchanged@
    }

    pub closed spec fn read_all_files(&self) -> bool {
        self.read_all_files
    }

    /// Candidates considered so far.
    pub closed spec fn considered(&self) -> nat {
        self.considered@
    }

    /// Files handed out to be read so far.
    pub closed spec fn issued(&self) -> nat {
        self.issued@
    }

    /// Tracked files handed out to be read so far.
    pub closed spec fn rereads(&self) -> nat {
        self.rereads@
    }

    pub closed spec fn index_wf(&self) -> bool {
        &&& self.buckets@.len() == 65536
        &&& forall|b: int, i: int|
            0 <= b < 65536 && 0 <= i < self.buckets@[b]@.len() ==> {
                let j = #[trigger] self.buckets@[b]@[i] as int;
                &&& 0 <= j < self.prior@.len()
                &&& path_hash(self.prior@[j].rel_path@) == b
            }
        &&& forall|b: int, i: int, k: int|
            0 <= b < 65536 && 0 <= i < k < self.buckets@[b]@.len() ==> #[trigger] self.buckets@[b]@[i]
                < #[trigger] self.buckets@[b]@[k]
        &&& forall|j: int| 0 <= j < self.prior@.len() ==> #[trigger] indexed(self.buckets@, self.prior@, j)
    }

    pub closed spec fn wf(&self) -> bool {
        &&& self.index_wf()
        &&& self.done@.len() == self.prior@.len()
        &&& forall|j: int| 0 <= j < self.prior@.len() && shadowed(self.prior@, j) ==> #[trigger] self.done@[j]
        &&& self.issued@ + self.unchanged@.len() == self.considered@
        &&& matched_upto(self.prior@, self.done@, self.prior@.len() as int) == self.rereads@ + self.unchanged@.len()
        &&& self.rereads@ <= self.issued@
        &&& forall|i: int| 0 <= i < self.unchanged@.len() ==> #[trigger] self.unchanged@[i] is Unmodifed
    }

    /// A run over the snapshot's records; where several share a path, the last stands.
    pub fn new(prior: Vec<FileInfo>, read_all_files: bool) -> (r: CheckRun)
        ensures
            r.wf(),
            r.prior() == prior@,
            r.read_all_files() == read_all_files,
            r.unchanged().len() == 0,
            r.considered() == 0,
            r.issued() == 0,
            r.rereads() == 0,
            forall|j: int| 0 <= j < prior@.len() ==> #[trigger] r.done()[j] == shadowed(prior@, j),
    {
        let mut buckets: Vec<Vec<usize>> = Vec::new();
        let mut b: usize = 0;
        while b < 65536
            invariant
                b <= 65536,
                buckets@.len() == b,
                forall|j: int| 0 <= j < b ==> (#[trigger] buckets@[j])@.len() == 0,
            decreases 65536 - b,
        {
            buckets.push(Vec::new());
            b = b + 1;
        }
        let n = prior.len();
        let ghost pv = prior@;
        let mut i: usize = 0;
        while i < n
            invariant
                n == prior@.len(),
                i <= n,
                buckets@.len() == 65536,
                forall|b: int, k: int|
                    0 <= b < 65536 && 0 <= k < buckets@[b]@.len() ==> {
                        let j = #[trigger] buckets@[b]@[k] as int;
                        &&& 0 <= j < i
                        &&& path_hash(prior@[j].rel_path@) == b
                    },
                forall|b: int, k: int, l: int|
                    0 <= b < 65536 && 0 <= k < l < buckets@[b]@.len() ==> #[trigger] buckets@[b]@[k]
                        < #[trigger] buckets@[b]@[l],
                forall|j: int| 0 <= j < i ==> #[trigger] indexed(buckets@, prior@, j),
            decreases n - i,
        {
            let h = hash_path(prior[i].rel_path.as_str());
            assert(h == path_hash(prior@[i as int].rel_path@));
            let ghost old_buckets = buckets@;
            buckets[h].push(i);
            proof {
                assert forall|b: int, k: int|
                    0 <= b < 65536 && 0 <= k < buckets@[b]@.len() implies {
                    let j = #[trigger] buckets@[b]@[k] as int;
                    &&& 0 <= j < i + 1
                    &&& path_hash(prior@[j].rel_path@) == b
                } by {
                    if b != h || k < old_buckets[b]@.len() {
                        assert(buckets@[b]@[k] == old_buckets[b]@[k]);
                    }
                }
                assert forall|b: int, k: int, l: int|
                    0 <= b < 65536 && 0 <= k < l < buckets@[b]@.len() implies #[trigger] buckets@[b]@[k]
                        < #[trigger] buckets@[b]@[l] by {
                    if b != h || l < old_buckets[b]@.len() {
                        assert(buckets@[b]@[k] == old_buckets[b]@[k]);
                        assert(buckets@[b]@[l] == old_buckets[b]@[l]);
                    } else {
                        assert(buckets@[b]@[k] == old_buckets[b]@[k]);
                    }
                }
                assert forall|j: int| 0 <= j < i + 1 implies #[trigger] indexed(buckets@, prior@, j) by {
                    let hb = path_hash(prior@[j].rel_path@) as int;
                    if j == i {
                        assert(buckets@[hb]@[old_buckets[hb]@.len() as int] == j);
                    } else {
                        assert(0 <= j < i);
                        assert(indexed(old_buckets, prior@, j));
                        let k = choose|k: int|
                            0 <= k < old_buckets[hb]@.len() && old_buckets[hb]@[k] == j;
                        if hb == h {
                            assert(buckets@[hb]@[k] == old_buckets[hb]@[k]);
                        } else {
                            assert(buckets@[hb] == old_buckets[hb]);
                        }
                        assert(buckets@[hb]@[k] == j);
                    }
                }
            }
            i = i + 1;
        }
        let mut run = CheckRun {
            prior,
            buckets,
            done: Vec::new(),
            read_all_files,
            unchanged: Vec::new(),
            considered: Ghost(0),
            issued: Ghost(0),
            rereads: Ghost(0),
        };
        assert(run.index_wf());
        let mut j: usize = 0;
        while j < n
            invariant
                n == run.prior@.len(),
                j <= n,
                run.done@.len() == j,
                run.index_wf(),
                run.prior@ == pv,
                run.read_all_files == read_all_files,
                forall|k: int| 0 <= k < j ==> #[trigger] run.done@[k] == shadowed(run.prior@, k),
                run.unchanged@.len() == 0,
                run.considered@ == 0,
                run.rereads@ == 0,
                run.issued@ == 0,
            decreases n - j,
        {
            let e = run.lookup(run.prior[j].rel_path.as_str());
            let s = match e {
                Some(k) => k != j,
                None => true,
            };
            run.done.push(s);
            j = j + 1;
        }
        proof {
            lemma_matched_zero(run.prior@, run.done@, n as int);
        }
        run
    }

    /// The index of the record that stands for `p`.
    #[verifier::loop_isolation(false)]
    fn lookup(&self, p: &str) -> (r: Option<usize>)
        requires
            self.index_wf(),
        ensures
            match r {
                Some(j) => entry_of(self.prior@, p@) == j as int && j < self.prior@.len(),
                None => entry_of(self.prior@, p@) == -1,
            },
    {
        let h = hash_path(p);
        let bucket = &self.buckets[h];
        let mut i: usize = bucket.len();
        while i > 0
            invariant
                i <= bucket@.len(),
                bucket == self.buckets@[h as int],
                h as nat == path_hash(p@),
                h < 65536,
                forall|k: int| i <= k < bucket@.len() ==> self.prior@[#[trigger] bucket@[k] as int].rel_path@ != p@,
            decreases i,
        {
            let j = bucket[i - 1];
            assert(0 <= j < self.prior@.len() && path_hash(self.prior@[j as int].rel_path@) == h);
            if self.prior[j].rel_path == p.to_owned() {
                proof {
                    self.lemma_found(p@, h as int, i - 1);
                }
                return Some(j);
            }
            i = i - 1;
        }
        proof {
            self.lemma_not_found(p@, h as int);
        }
        None
    }

    /// Classifies one candidate path, given its current metadata, at time `now`.
    /// A path the snapshot does not hold (or whose record was matched before)
    /// is handed out to be read as new; a tracked file is handed out to be read
    /// where its size or modification time differs from the record, or every
    /// file is read, and is otherwise unchanged without a read, seen at `now`.
    pub fn consider(
        &mut self,
        rel_path: String,
        mtime_secs: u64,
        mtime_nanos: u32,
        len: u64,
        now: u64,
        stats: &mut StatsCollector,
    ) -> (r: Option<FileToCheck>)
        requires
            old(self).wf(),
        ensures
            final(self).wf(),
            final(self).prior() == old(self).prior(),
            final(self).read_all_files() == old(self).read_all_files(),
            final(self).considered() == old(self).considered() + 1,
            ({
                let prior = old(self).prior();
                let e = entry_of(prior, rel_path@);
                if e >= 0 && !old(self).done()[e] {
                    let rec = prior[e];
                    &&& final(self).done() == old(self).done().update(e, true)
                    &&& if rec.needs_reading_spec(mtime_secs, mtime_nanos, len) || old(self).read_all_files() {
                        &&& r matches Some(FileToCheck::NeedsChecking(fi)) && fi@ == rec@
                        &&& final(self).unchanged() == old(self).unchanged()
                        &&& final(self).issued() == old(self).issued() + 1
                        &&& final(self).rereads() == old(self).rereads() + 1
                        &&& final(stats)@ == (crate::stats::Stats {
                            files_checked: crate::stats::sat(old(stats)@.files_checked, 1),
                            ..old(stats)@
                        })
                    } else {
                        &&& r is None
                        &&& final(self).unchanged().len() == old(self).unchanged().len() + 1
                        &&& final(self).unchanged().drop_last() == old(self).unchanged()
                        &&& final(self).unchanged().last() matches FileCheckResult::Unmodifed(fi)
                            && fi@ == (FileInfoView { last_seen: now, ..rec@ })
                        &&& final(self).issued() == old(self).issued()
                        &&& final(self).rereads() == old(self).rereads()
                        &&& final(stats)@ == (crate::stats::Stats {
                            files_checked: crate::stats::sat(old(stats)@.files_checked, 1),
                            files_unchanged: crate::stats::sat(old(stats)@.files_unchanged, 1),
                            files_unchanged_size: crate::stats::sat(
                                old(stats)@.files_unchanged_size,
                                rec.len,
                            ),
                            ..old(stats)@
                        })
                    }
                } else {
                    &&& r matches Some(FileToCheck::New(p)) && p@ == rel_path@
                    &&& final(self).done() == old(self).done()
                    &&& final(self).unchanged() == old(self).unchanged()
                    &&& final(self).issued() == old(self).issued() + 1
                    &&& final(self).rereads() == old(self).rereads()
                    &&& final(stats)@ == (crate::stats::Stats {
                        files_checked: crate::stats::sat(old(stats)@.files_checked, 1),
                        ..old(stats)@
                    })
                }
            }),
    {
        stats.files_checked(1);
        let found = self.lookup(rel_path.as_str());
        match found {
            Some(e) => {
                if self.done[e] {
                    self.considered = Ghost(self.considered@ + 1);
                    self.issued = Ghost(self.issued@ + 1);
                    return Some(FileToCheck::New(rel_path));
                }
                proof {
                    lemma_entry_not_shadowed(self.prior@, rel_path@);
                    lemma_matched_flip(self.prior@, self.done@, e as int, self.prior@.len() as int);
                }
                self.done.set(e, true);
                self.considered = Ghost(self.considered@ + 1);
                let rec = self.prior[e].duplicate();
                if rec.needs_reading(mtime_secs, mtime_nanos, len) || self.read_all_files {
                    self.issued = Ghost(self.issued@ + 1);
                    self.rereads = Ghost(self.rereads@ + 1);
                    Some(FileToCheck::NeedsChecking(rec))
                } else {
                    stats.file_unchanged(&rec);
                    let mut seen = rec;
                    seen.last_seen = now;
                    self.unchanged.push(FileCheckResult::Unmodifed(seen));
                    None
                }
            },
            None => {
                self.considered = Ghost(self.considered@ + 1);
                self.issued = Ghost(self.issued@ + 1);
                Some(FileToCheck::New(rel_path))
            },
        }
    }

    /// Ends the run: the unchanged outcomes, a `Missing` outcome for every
    /// record no candidate matched, and the outcomes of the files read, sorted by path.
    pub fn finish(self, mut read: Vec<FileCheckResult>, stats: &mut StatsCollector) -> (r: Vec<FileCheckResult>)
        requires
            self.wf(),
        ensures
            r@.to_multiset() == (self.unchanged() + missing_of(self.prior(), self.done()) + read@).to_multiset(),
            sorted_by_path(r@),
            final(stats)@ == (crate::stats::Stats {
                files_checked: crate::stats::sat(old(stats)@.files_checked, missing_of(self.prior(), self.done()).len() as u64),
                files_not_found: crate::stats::sat(old(stats)@.files_not_found, missing_of(self.prior(), self.done()).len() as u64),
                ..old(stats)@
            }),
    {
        let ghost prior = self.prior@;
        let ghost done = self.done@;
        let mut out = self.unchanged;
        let ghost base = out@;
        let done_flags = self.done;
        let mut missing: u64 = 0;
        let n = done_flags.len();
        let mut j: usize = 0;
        for fi in it: self.prior.into_iter()
            invariant
                j as int == it.index(),
                n == done_flags@.len(),
                done_flags@ == done,
                done.len() == prior.len(),
                it.seq() == prior,
                out@ == base + missing_of(prior.subrange(0, it.index() as int), done.subrange(0, it.index() as int)),
                missing as nat == missing_of(prior.subrange(0, it.index() as int), done.subrange(0, it.index() as int)).len(),
                missing <= it.index(),
                it.index() <= prior.len(),
        {
            let ghost i = it.index() as int;
            proof {
                assert(prior.subrange(0, i + 1).drop_last() =~= prior.subrange(0, i));
                assert(done.subrange(0, i + 1).drop_last() =~= done.subrange(0, i));
                assert(prior.subrange(0, i + 1).last() == fi);
            }
            if !done_flags[j] {
                out.push(FileCheckResult::Missing(fi));
                missing = missing + 1;
            }
            j = j + 1;
        }
        proof {
            assert(prior.subrange(0, prior.len() as int) =~= prior);
            assert(done.subrange(0, done.len() as int) =~= done);
        }
        stats.files_checked(missing);
        stats.files_not_found(missing);
        let ghost before_read = out@;
        let ghost read_view = read@;
        out.append(&mut read);
        assert(out@ == before_read + read_view);
        sort_outcomes(&mut out);
        out
    }

    proof fn lemma_found(&self, p: Seq<char>, h: int, i: int)
        requires
            self.index_wf(),
            0 <= h < 65536,
            h == path_hash(p),
            0 <= i < self.buckets@[h]@.len(),
            self.prior@[self.buckets@[h]@[i] as int].rel_path@ == p,
            forall|k: int| i < k < self.buckets@[h]@.len() ==> self.prior@[#[trigger] self.buckets@[h]@[k] as int].rel_path@ != p,
        ensures
            entry_of(self.prior@, p) == self.buckets@[h]@[i] as int,
    {
        let j = self.buckets@[h]@[i] as int;
        let n = self.prior@.len() as int;
        assert forall|m: int| j < m < n implies self.prior@[m].rel_path@ != p by {
            if self.prior@[m].rel_path@ == p {
                assert(indexed(self.buckets@, self.prior@, m));
                let k = choose|k: int|
                    0 <= k < self.buckets@[path_hash(self.prior@[m].rel_path@) as int]@.len()
                        && self.buckets@[path_hash(self.prior@[m].rel_path@) as int]@[k] == m;
                if k <= i {
                    if k < i {
                        assert(self.buckets@[h]@[k] < self.buckets@[h]@[i]);
                    }
                } else {
                    assert(self.prior@[self.buckets@[h]@[k] as int].rel_path@ != p);
                }
            }
        }
        lemma_last_with_path_at(self.prior@, p, j, n);
    }

    proof fn lemma_not_found(&self, p: Seq<char>, h: int)
        requires
            self.index_wf(),
            0 <= h < 65536,
            h == path_hash(p),
            forall|k: int| 0 <= k < self.buckets@[h]@.len() ==> self.prior@[#[trigger] self.buckets@[h]@[k] as int].rel_path@ != p,
        ensures
            entry_of(self.prior@, p) == -1,
    {
        let n = self.prior@.len() as int;
        assert forall|m: int| 0 <= m < n implies self.prior@[m].rel_path@ != p by {
            if self.prior@[m].rel_path@ == p {
                assert(indexed(self.buckets@, self.prior@, m));
                let k = choose|k: int|
                    0 <= k < self.buckets@[path_hash(self.prior@[m].rel_path@) as int]@.len()
                        && self.buckets@[path_hash(self.prior@[m].rel_path@) as int]@[k] == m;
                assert(self.prior@[self.buckets@[h]@[k] as int].rel_path@ != p);
            }
        }
        lemma_last_with_path_none(self.prior@, p, n);
    }
}

proof fn lemma_last_with_path_at(prior: Seq<FileInfo>, p: Seq<char>, j: int, k: int)
    requires
        0 <= j < k <= prior.len(),
        prior[j].rel_path@ == p,
        forall|m: int| j < m < k ==> prior[m].rel_path@ != p,
    ensures
        last_with_path(prior, p, k) == j,
    decreases k,
{
    if k - 1 > j {
        lemma_last_with_path_at(prior, p, j, k - 1);
    }
}

proof fn lemma_last_with_path_none(prior: Seq<FileInfo>, p: Seq<char>, k: int)
    requires
        0 <= k <= prior.len(),
        forall|m: int| 0 <= m < k ==> prior[m].rel_path@ != p,
    ensures
        last_with_path(prior, p, k) == -1,
    decreases k,
{
    if k > 0 {
        lemma_last_with_path_none(prior, p, k - 1);
    }
}

/// The number of records before `k` that stand for their path.
pub open spec fn live_upto(prior: Seq<FileInfo>, k: int) -> nat
    decreases k,
{
    if k <= 0 {
        0
    } else {
        live_upto(prior, k - 1) + if !shadowed(prior, k - 1) {
            1nat
        } else {
            0nat
        }
    }
}

/// The number of records before `k` that stand for their path and were matched.
pub open spec fn matched_upto(prior: Seq<FileInfo>, done: Seq<bool>, k: int) -> nat
    decreases k,
{
    if k <= 0 {
        0
    } else {
        matched_upto(prior, done, k - 1) + if done[k - 1] && !shadowed(prior, k - 1) {
            1nat
        } else {
            0nat
        }
    }
}

/// The number of records before `k` that no candidate matched.
pub open spec fn unmatched_upto(done: Seq<bool>, k: int) -> nat
    decreases k,
{
    if k <= 0 {
        0
    } else {
        unmatched_upto(done, k - 1) + if done[k - 1] {
            0nat
        } else {
            1nat
        }
    }
}

proof fn lemma_last_with_path_found(prior: Seq<FileInfo>, p: Seq<char>, k: int)
    requires
        0 <= k <= prior.len(),
    ensures
        last_with_path(prior, p, k) < k,
        last_with_path(prior, p, k) >= 0 ==> prior[last_with_path(prior, p, k)].rel_path@ == p,
        last_with_path(prior, p, k) >= -1,
    decreases k,
{
    if k > 0 {
        lemma_last_with_path_found(prior, p, k - 1);
    }
}

proof fn lemma_entry_not_shadowed(prior: Seq<FileInfo>, p: Seq<char>)
    requires
        entry_of(prior, p) >= 0,
    ensures
        entry_of(prior, p) < prior.len(),
        !shadowed(prior, entry_of(prior, p)),
{
    lemma_last_with_path_found(prior, p, prior.len() as int);
}

proof fn lemma_matched_flip(prior: Seq<FileInfo>, done: Seq<bool>, e: int, k: int)
    requires
        done.len() == prior.len(),
        0 <= e < done.len(),
        !done[e],
        !shadowed(prior, e),
        0 <= k <= prior.len(),
    ensures
        matched_upto(prior, done.update(e, true), k) == matched_upto(prior, done, k) + if e < k {
            1nat
        } else {
            0nat
        },
    decreases k,
{
    if k > 0 {
        lemma_matched_flip(prior, done, e, k - 1);
    }
}

proof fn lemma_matched_zero(prior: Seq<FileInfo>, done: Seq<bool>, k: int)
    requires
        done.len() == prior.len(),
        0 <= k <= prior.len(),
        forall|j: int| 0 <= j < prior.len() ==> #[trigger] done[j] == shadowed(prior, j),
    ensures
        matched_upto(prior, done, k) == 0,
    decreases k,
{
    if k > 0 {
        lemma_matched_zero(prior, done, k - 1);
    }
}

proof fn lemma_live_split(prior: Seq<FileInfo>, done: Seq<bool>, k: int)
    requires
        done.len() == prior.len(),
        0 <= k <= prior.len(),
        forall|j: int| 0 <= j < prior.len() && shadowed(prior, j) ==> #[trigger] done[j],
    ensures
        live_upto(prior, k) == matched_upto(prior, done, k) + unmatched_upto(done, k),
    decreases k,
{
    if k > 0 {
        lemma_live_split(prior, done, k - 1);
    }
}

proof fn lemma_unmatched_prefix(done: Seq<bool>, k: int)
    requires
        0 <= k < done.len(),
    ensures
        unmatched_upto(done.drop_last(), k) == unmatched_upto(done, k),
    decreases k,
{
    if k > 0 {
        lemma_unmatched_prefix(done, k - 1);
    }
}

proof fn lemma_missing_len(prior: Seq<FileInfo>, done: Seq<bool>)
    requires
        prior.len() == done.len(),
    ensures
        missing_of(prior, done).len() == unmatched_upto(done, done.len() as int),
    decreases prior.len(),
{
    if prior.len() > 0 {
        lemma_missing_len(prior.drop_last(), done.drop_last());
        lemma_unmatched_prefix(done, done.len() - 1);
    }
}

/// No path is skipped or counted twice. Every candidate considered was
/// handed out to be read or found unchanged, once; and every record that
/// stands for its path is exactly one of: a tracked file handed out to be
/// read (which `check` makes `Unmodifed` or `Modified`), a tracked file found
/// unchanged without a read, or one of the `Missing` outcomes of `finish`.
pub proof fn lemma_classification_complete(run: &CheckRun)
    requires
        run.wf(),
    ensures
        run.issued() + run.unchanged().len() == run.considered(),
        run.rereads() <= run.issued(),
        live_upto(run.prior(), run.prior().len() as int) == run.rereads() + run.unchanged().len()
            + missing_of(run.prior(), run.done()).len(),
{
    lemma_missing_len(run.prior(), run.done());
    lemma_live_split(run.prior(), run.done(), run.prior().len() as int);
}

/// Path order is antisymmetric: `a` after `b` exactly when `b` before `a`.
pub proof fn lemma_path_order_flip(a: Seq<char>, b: Seq<char>)
    ensures
        (path_order(a, b) == core::cmp::Ordering::Greater) == (path_order(b, a)
            == core::cmp::Ordering::Less),
    decreases a.len(),
{
    if a.len() > 0 && b.len() > 0 {
        lemma_path_order_flip(a.drop_first(), b.drop_first());
    }
}

/// Path order is reflexive.
pub proof fn lemma_path_order_refl(a: Seq<char>)
    ensures
        path_order(a, a) == core::cmp::Ordering::Equal,
    decreases a.len(),
{
    if a.len() > 0 {
        lemma_path_order_refl(a.drop_first());
    }
}

/// Path order is transitive.
pub proof fn lemma_path_order_trans(a: Seq<char>, b: Seq<char>, c: Seq<char>)
    requires
        path_order(a, b) != core::cmp::Ordering::Greater,
        path_order(b, c) != core::cmp::Ordering::Greater,
    ensures
        path_order(a, c) != core::cmp::Ordering::Greater,
    decreases a.len(),
{
    if a.len() > 0 && b.len() > 0 && c.len() > 0 {
        if char_key(a[0]) == char_key(b[0]) && char_key(b[0]) == char_key(c[0]) {
            lemma_path_order_trans(a.drop_first(), b.drop_first(), c.drop_first());
        }
    }
}

} // verus!
