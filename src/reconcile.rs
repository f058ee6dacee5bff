//! Dedup of an update run's outcomes, and the verdicts of a verify run.
use vstd::prelude::*;

use crate::digest_set::DigestSet;
use crate::file_check::FileCheckResult;

verus! {

/// Digests of contents found on disk in this run.
pub open spec fn present_set(outs: Seq<FileCheckResult>) -> Set<Seq<u8>> {
    Set::new(
        |d: Seq<u8>| exists|i: int| 0 <= i < outs.len() && #[trigger] outs[i].present_digest() == Some(d),
    )
}

/// Digests the snapshot held for the paths of this run's outcomes.
pub open spec fn archive_set(outs: Seq<FileCheckResult>) -> Set<Seq<u8>> {
    Set::new(
        |d: Seq<u8>| exists|i: int| 0 <= i < outs.len() && #[trigger] outs[i].archived_digest() == Some(d),
    )
}

/// One outcome after dedup against the digests present: a missing file whose
/// contents are present elsewhere is dropped; a modified file whose previous
/// contents are present elsewhere becomes new.
pub open spec fn dedup_one(o: FileCheckResult, present: Set<Seq<u8>>) -> Option<FileCheckResult> {
    match o {
        FileCheckResult::Missing(fi) => if present.contains(fi.sha256_digest@) {
            None
        } else {
            Some(o)
        },
        FileCheckResult::Modified(m) => if present.contains(m.previous.sha256_digest@) {
            Some(FileCheckResult::New(m.current))
        } else {
            Some(o)
        },
        _ => Some(o),
    }
}

/// Whether dedup drops or reclassifies the outcome.
pub open spec fn is_duplicate(o: FileCheckResult, present: Set<Seq<u8>>) -> bool {
    match o {
        FileCheckResult::Missing(fi) => present.contains(fi.sha256_digest@),
        FileCheckResult::Modified(m) => present.contains(m.previous.sha256_digest@),
        _ => false,
    }
}

/// Every outcome, in order, after dedup against `present`.
pub open spec fn dedup_with(outs: Seq<FileCheckResult>, present: Set<Seq<u8>>) -> Seq<
    FileCheckResult,
>
    decreases outs.len(),
{
    if outs.len() == 0 {
        Seq::empty()
    } else {
        let r = dedup_with(outs.drop_last(), present);
        match dedup_one(outs.last(), present) {
            Some(o) => r.push(o),
            None => r,
        }
    }
}

/// The number of outcomes that dedup drops or reclassifies.
pub open spec fn count_duplicates(s: Seq<FileCheckResult>, present: Set<Seq<u8>>) -> nat
    decreases s.len(),
{
    if s.len() == 0 {
        0
    } else {
        count_duplicates(s.drop_last(), present) + if is_duplicate(s.last(), present) {
            1nat
        } else {
            0nat
        }
    }
}

/// The outcome of dedup: what stays of the outcomes, and how many were
/// duplicates.
pub open spec fn dedup_spec(outs: Seq<FileCheckResult>) -> (Seq<FileCheckResult>, nat) {
    let present = present_set(outs);
    (dedup_with(outs, present), count_duplicates(outs, present))
}

proof fn lemma_present_set_push(s: Seq<FileCheckResult>, o: FileCheckResult)
    ensures
        present_set(s.push(o)) == (match o.present_digest() {
            Some(d) => present_set(s).insert(d),
            None => present_set(s),
        }),
{
    let t = s.push(o);
    assert forall|d: Seq<u8>| present_set(s).contains(d) implies present_set(t).contains(d) by {
        let i = choose|i: int| 0 <= i < s.len() && #[trigger] s[i].present_digest() == Some(d);
        assert(t[i] == s[i]);
    }
    if let Some(d0) = o.present_digest() {
        assert(t[s.len() as int] == o);
    }
    assert forall|d: Seq<u8>| present_set(t).contains(d) implies (match o.present_digest() {
        Some(d0) => present_set(s).insert(d0),
        None => present_set(s),
    }).contains(d) by {
        let i = choose|i: int| 0 <= i < t.len() && #[trigger] t[i].present_digest() == Some(d);
        if i < s.len() {
            assert(t[i] == s[i]);
        }
    }
    assert(present_set(t) =~= (match o.present_digest() {
        Some(d) => present_set(s).insert(d),
        None => present_set(s),
    }));
}

pub(crate) proof fn lemma_archive_set_push(s: Seq<FileCheckResult>, o: FileCheckResult)
    ensures
        archive_set(s.push(o)) == (match o.archived_digest() {
            Some(d) => archive_set(s).insert(d),
            None => archive_set(s),
        }),
{
    let t = s.push(o);
    assert forall|d: Seq<u8>| archive_set(s).contains(d) implies archive_set(t).contains(d) by {
        let i = choose|i: int| 0 <= i < s.len() && #[trigger] s[i].archived_digest() == Some(d);
        assert(t[i] == s[i]);
    }
    if let Some(d0) = o.archived_digest() {
        assert(t[s.len() as int] == o);
    }
    assert forall|d: Seq<u8>| archive_set(t).contains(d) implies (match o.archived_digest() {
        Some(d0) => archive_set(s).insert(d0),
        None => archive_set(s),
    }).contains(d) by {
        let i = choose|i: int| 0 <= i < t.len() && #[trigger] t[i].archived_digest() == Some(d);
        if i < s.len() {
            assert(t[i] == s[i]);
        }
    }
    assert(archive_set(t) =~= (match o.archived_digest() {
        Some(d) => archive_set(s).insert(d),
        None => archive_set(s),
    }));
}

/// The digests of contents found on disk.
pub fn present_digests(outs: &Vec<FileCheckResult>) -> (r: DigestSet)
    ensures
        r.wf(),
        r.view() == present_set(outs@),
{
    let mut set = DigestSet::new();
    let mut i: usize = 0;
    assert(present_set(outs@.subrange(0, 0)) =~= Set::<Seq<u8>>::empty());
    while i < outs.len()
        invariant
            i <= outs@.len(),
            set.wf(),
            set.view() == present_set(outs@.subrange(0, i as int)),
        decreases outs@.len() - i,
    {
        proof {
            assert(outs@.subrange(0, i + 1) =~= outs@.subrange(0, i as int).push(outs@[i as int]));
            lemma_present_set_push(outs@.subrange(0, i as int), outs@[i as int]);
        }
        match &outs[i] {
            FileCheckResult::New(fi) => set.insert(fi.sha256_digest),
            FileCheckResult::Unmodifed(fi) => set.insert(fi.sha256_digest),
            FileCheckResult::Modified(m) => set.insert(m.current.sha256_digest),
            FileCheckResult::Missing(_) => {},
        }
        i = i + 1;
    }
    assert(outs@.subrange(0, outs@.len() as int) =~= outs@);
    set
}

/// The digests the snapshot held for the outcomes' paths.
pub fn archived_digests(outs: &Vec<FileCheckResult>) -> (r: DigestSet)
    ensures
        r.wf(),
        r.view() == archive_set(outs@),
{
    let mut set = DigestSet::new();
    let mut i: usize = 0;
    assert(archive_set(outs@.subrange(0, 0)) =~= Set::<Seq<u8>>::empty());
    while i < outs.len()
        invariant
            i <= outs@.len(),
            set.wf(),
            set.view() == archive_set(outs@.subrange(0, i as int)),
        decreases outs@.len() - i,
    {
        proof {
            assert(outs@.subrange(0, i + 1) =~= outs@.subrange(0, i as int).push(outs@[i as int]));
            lemma_archive_set_push(outs@.subrange(0, i as int), outs@[i as int]);
        }
        match &outs[i] {
            FileCheckResult::New(_) => {},
            FileCheckResult::Unmodifed(fi) => set.insert(fi.sha256_digest),
            FileCheckResult::Modified(m) => set.insert(m.previous.sha256_digest),
            FileCheckResult::Missing(fi) => set.insert(fi.sha256_digest),
        }
        i = i + 1;
    }
    assert(outs@.subrange(0, outs@.len() as int) =~= outs@);
    set
}

/// Dedup of an update run's outcomes against the digests present on disk:
/// what stays, in order, and how many outcomes were duplicates.
pub fn dedup(outcomes: Vec<FileCheckResult>) -> (r: (Vec<FileCheckResult>, u64))
    ensures
        r.0@ == dedup_spec(outcomes@).0,
        r.1 as nat == dedup_spec(outcomes@).1,
{
    let present = present_digests(&outcomes);
    let ghost outs = outcomes@;
    let ghost pset = present_set(outs);
    let mut kept: Vec<FileCheckResult> = Vec::new();
    let mut removed: u64 = 0;
    let n = outcomes.len();
    for o in it: outcomes.into_iter()
        invariant
            present.wf(),
            present.view() == pset,
            it.seq() == outs,
            kept@ == dedup_with(outs.subrange(0, it.index() as int), pset),
            removed as nat == count_duplicates(outs.subrange(0, it.index() as int), pset),
            removed <= it.index(),
            it.index() <= outs.len(),
            outs.len() == n,
    {
        let ghost i = it.index() as int;
        proof {
            assert(outs.subrange(0, i + 1).drop_last() =~= outs.subrange(0, i));
            assert(outs.subrange(0, i + 1).last() == o);
        }
        match o {
            FileCheckResult::Missing(fi) => {
                if present.contains(&fi.sha256_digest) {
                    removed = removed + 1;
                } else {
                    kept.push(FileCheckResult::Missing(fi));
                }
            },
            FileCheckResult::Modified(m) => {
                if present.contains(&m.previous.sha256_digest) {
                    removed = removed + 1;
                    kept.push(FileCheckResult::New(m.current));
                } else {
                    kept.push(FileCheckResult::Modified(m));
                }
            },
            other => {
                kept.push(other);
            },
        }
    }
    proof {
        assert(outs.subrange(0, outs.len() as int) =~= outs);
    }
    (kept, removed)
}

proof fn lemma_dedup_keeps_present(s: Seq<FileCheckResult>, p: Set<Seq<u8>>)
    ensures
        present_set(dedup_with(s, p)) == present_set(s),
        forall|i: int|
            0 <= i < dedup_with(s, p).len() ==> !is_duplicate(#[trigger] dedup_with(s, p)[i], p),
    decreases s.len(),
{
    if s.len() == 0 {
        assert(present_set(s) =~= Set::<Seq<u8>>::empty());
        assert(present_set(dedup_with(s, p)) =~= Set::<Seq<u8>>::empty());
    } else {
        let init = s.drop_last();
        lemma_dedup_keeps_present(init, p);
        assert(s == init.push(s.last()));
        lemma_present_set_push(init, s.last());
        let r = dedup_with(init, p);
        match dedup_one(s.last(), p) {
            Some(o) => {
                lemma_present_set_push(r, o);
                assert forall|i: int| 0 <= i < r.push(o).len() implies !is_duplicate(
                    #[trigger] r.push(o)[i],
                    p,
                ) by {
                    if i < r.len() {
                        assert(r.push(o)[i] == r[i]);
                    }
                }
            },
            None => {},
        }
    }
}

proof fn lemma_dedup_no_duplicates(t: Seq<FileCheckResult>, p: Set<Seq<u8>>)
    requires
        forall|i: int| 0 <= i < t.len() ==> !is_duplicate(#[trigger] t[i], p),
    ensures
        dedup_with(t, p) == t,
        count_duplicates(t, p) == 0,
    decreases t.len(),
{
    if t.len() > 0 {
        let init = t.drop_last();
        assert forall|i: int| 0 <= i < init.len() implies !is_duplicate(#[trigger] init[i], p) by {
            assert(init[i] == t[i]);
        }
        lemma_dedup_no_duplicates(init, p);
        assert(!is_duplicate(t[t.len() - 1], p));
        assert(t == init.push(t.last()));
    }
}

/// Dedup is idempotent: dedup of what dedup kept keeps all of it and finds
/// no duplicate.
pub proof fn lemma_dedup_idempotent(outs: Seq<FileCheckResult>)
    ensures
        dedup_spec(dedup_spec(outs).0).0 == dedup_spec(outs).0,
        dedup_spec(dedup_spec(outs).0).1 == 0,
{
    let p = present_set(outs);
    let t = dedup_with(outs, p);
    lemma_dedup_keeps_present(outs, p);
    lemma_dedup_no_duplicates(t, p);
}

} // verus!
