//! Snapshot files: which one is read, what a snapshot holds, and the text of a new one.
use vstd::prelude::*;

use crate::check_run::{
    compare_paths, lemma_path_order_flip, lemma_path_order_refl, lemma_path_order_trans, path_order,
};
use crate::file_check::FileCheckResult;
use crate::file_info::{decode_line, line_of, FileInfo, FileInfoView, ParseError};
use crate::policy::count_missing;
use crate::reconcile::{dedup_spec, dedup_with, present_set};
use crate::text::{has_lit_at, lit_at, chars_of, push_str};

verus! {

/// The name of a snapshot file: it ends in `.state`.
pub open spec fn is_state_name(s: Seq<char>) -> bool {
    s.len() >= 6 && lit_at(s, s.len() - 6, ".state"@)
}

/// Whether a file name is that of a snapshot.
pub fn is_state_file(name: &String) -> (r: bool)
    ensures
        r == is_state_name(name@),
{
    let cs = chars_of(name.as_str());
    if cs.len() < 6 {
        return false;
    }
    has_lit_at(&cs, cs.len() - 6, ".state")
}

/// Of a directory's file names, the snapshot to read: the last `.state` name
/// in name order (timestamped names sort by time); none where there is none.
pub fn latest_state(names: &Vec<String>) -> (r: Option<usize>)
    ensures
        match r {
            Some(i) => {
                &&& i < names@.len()
                &&& is_state_name(names@[i as int]@)
                &&& forall|j: int|
                    0 <= j < names@.len() && is_state_name(#[trigger] names@[j]@) ==> path_order(
                        names@[j]@,
                        names@[i as int]@,
                    ) != core::cmp::Ordering::Greater
            },
            None => forall|j: int| 0 <= j < names@.len() ==> !is_state_name(#[trigger] names@[j]@),
        },
{
    let mut best: Option<usize> = None;
    let mut i: usize = 0;
    while i < names.len()
        invariant
            i <= names@.len(),
            match best {
                Some(b) => {
                    &&& b < i
                    &&& is_state_name(names@[b as int]@)
                    &&& forall|j: int|
                        0 <= j < i && is_state_name(#[trigger] names@[j]@) ==> path_order(
                            names@[j]@,
                            names@[b as int]@,
                        ) != core::cmp::Ordering::Greater
                },
                None => forall|j: int| 0 <= j < i ==> !is_state_name(#[trigger] names@[j]@),
            },
        decreases names@.len() - i,
    {
        if is_state_file(&names[i]) {
            match best {
                None => {
                    proof {
                        lemma_path_order_refl(names@[i as int]@);
                    }
                    best = Some(i);
                },
                Some(b) => {
                    let c = compare_paths(&names[i], &names[b]);
                    proof {
                        lemma_path_order_flip(names@[b as int]@, names@[i as int]@);
                        lemma_path_order_refl(names@[i as int]@);
                    }
                    if !matches!(c, core::cmp::Ordering::Less) {
                        proof {
                            assert forall|j: int|
                                0 <= j < i + 1 && is_state_name(#[trigger] names@[j]@) implies path_order(
                                names@[j]@,
                                names@[i as int]@,
                            ) != core::cmp::Ordering::Greater by {
                                if j < i {
                                    lemma_path_order_trans(names@[j]@, names@[b as int]@, names@[i as int]@);
                                }
                            }
                        }
                        best = Some(i);
                    }
                },
            }
        }
        i = i + 1;
    }
    best
}

/// The records of a snapshot's lines, where every line follows the grammar.
pub open spec fn records_of(lines: Seq<Seq<char>>) -> Option<Seq<crate::file_info::FileInfoView>>
    decreases lines.len(),
{
    if lines.len() == 0 {
        Some(Seq::empty())
    } else {
        match (records_of(lines.drop_last()), decode_line(lines.last())) {
            (Some(r), Some(m)) => Some(r.push(m)),
            _ => None,
        }
    }
}

/// Reads a snapshot from its lines: fails on the first line that does not
/// follow the grammar, with that line.
pub fn parse_lines(lines: &Vec<String>) -> (r: Result<Vec<FileInfo>, ParseError>)
    ensures
        match r {
            Ok(v) => records_of(lines@.map_values(|l: String| l@)) == Some(
                v@.map_values(|f: FileInfo| f@),
            ),
            Err(e) => records_of(lines@.map_values(|l: String| l@)) is None && exists|i: int|
                0 <= i < lines@.len() && e.line@ == lines@[i]@ && decode_line(lines@[i]@) is None,
        },
{
    let ghost ls = lines@.map_values(|l: String| l@);
    let mut out: Vec<FileInfo> = Vec::new();
    let mut i: usize = 0;
    while i < lines.len()
        invariant
            i <= lines@.len(),
            ls == lines@.map_values(|l: String| l@),
            records_of(ls.subrange(0, i as int)) == Some(out@.map_values(|f: FileInfo| f@)),
        decreases lines@.len() - i,
    {
        proof {
            assert(ls.subrange(0, i + 1).drop_last() =~= ls.subrange(0, i as int));
            assert(ls.subrange(0, i + 1).last() == lines@[i as int]@);
        }
        match FileInfo::parse(lines[i].as_str()) {
            Ok(fi) => {
                out.push(fi);
                assert(out@.map_values(|f: FileInfo| f@) =~= (records_of(ls.subrange(0, i as int))->Some_0).push(fi@));
            },
            Err(e) => {
                proof {
                    lemma_records_of_prefix_none(ls, i + 1);
                }
                return Err(e);
            },
        }
        i = i + 1;
    }
    assert(ls.subrange(0, lines@.len() as int) =~= ls);
    Ok(out)
}

proof fn lemma_records_of_prefix_none(ls: Seq<Seq<char>>, k: int)
    requires
        0 <= k <= ls.len(),
        records_of(ls.subrange(0, k)) is None,
    ensures
        records_of(ls) is None,
    decreases ls.len() - k,
{
    if k < ls.len() {
        assert(ls.subrange(0, k + 1).drop_last() =~= ls.subrange(0, k));
        lemma_records_of_prefix_none(ls, k + 1);
    } else {
        assert(ls.subrange(0, k) =~= ls);
    }
}

/// The text of a snapshot: the line of every new, unchanged and (current)
/// modified file.
pub open spec fn state_text(outs: Seq<FileCheckResult>) -> Seq<char>
    decreases outs.len(),
{
    if outs.len() == 0 {
        Seq::empty()
    } else {
        state_text(outs.drop_last()) + match outs.last() {
            FileCheckResult::New(fi) => line_of(fi@),
            FileCheckResult::Unmodifed(fi) => line_of(fi@),
            FileCheckResult::Modified(m) => line_of(m.current@),
            FileCheckResult::Missing(_) => Seq::empty(),
        }
    }
}

/// The text of the log of modified files: their previous records.
pub open spec fn modified_text(outs: Seq<FileCheckResult>) -> Seq<char>
    decreases outs.len(),
{
    if outs.len() == 0 {
        Seq::empty()
    } else {
        modified_text(outs.drop_last()) + match outs.last() {
            FileCheckResult::Modified(m) => line_of(m.previous@),
            _ => Seq::empty(),
        }
    }
}

/// The text of the log of missing files.
pub open spec fn missing_text(outs: Seq<FileCheckResult>) -> Seq<char>
    decreases outs.len(),
{
    if outs.len() == 0 {
        Seq::empty()
    } else {
        missing_text(outs.drop_last()) + match outs.last() {
            FileCheckResult::Missing(fi) => line_of(fi@),
            _ => Seq::empty(),
        }
    }
}

/// The three files of a new snapshot; a log that holds no line is not written.
pub struct StateFiles {
    pub state: String,
    pub modified: Option<String>,
    pub missing: Option<String>,
}

/// The texts of a new snapshot from an update run's outcomes.
pub fn render_state(outcomes: &Vec<FileCheckResult>) -> (r: StateFiles)
    ensures
        r.state@ == state_text(outcomes@),
        match r.modified {
            Some(t) => t@ == modified_text(outcomes@) && t@.len() > 0,
            None => modified_text(outcomes@).len() == 0,
        },
        match r.missing {
            Some(t) => t@ == missing_text(outcomes@) && t@.len() > 0,
            None => missing_text(outcomes@).len() == 0,
        },
{
    let mut state = String::new();
    let mut modified = String::new();
    let mut missing = String::new();
    let mut i: usize = 0;
    while i < outcomes.len()
        invariant
            i <= outcomes@.len(),
            state@ == state_text(outcomes@.subrange(0, i as int)),
            modified@ == modified_text(outcomes@.subrange(0, i as int)),
            missing@ == missing_text(outcomes@.subrange(0, i as int)),
        decreases outcomes@.len() - i,
    {
        proof {
            assert(outcomes@.subrange(0, i + 1).drop_last() =~= outcomes@.subrange(0, i as int));
            assert(outcomes@.subrange(0, i + 1).last() == outcomes@[i as int]);
        }
        match &outcomes[i] {
            FileCheckResult::New(fi) => push_str(&mut state, fi.write().as_str()),
            FileCheckResult::Unmodifed(fi) => push_str(&mut state, fi.write().as_str()),
            FileCheckResult::Modified(m) => {
                push_str(&mut state, m.current.write().as_str());
                push_str(&mut modified, m.previous.write().as_str());
            },
            FileCheckResult::Missing(fi) => push_str(&mut missing, fi.write().as_str()),
        }
        assert(state@ =~= state_text(outcomes@.subrange(0, i + 1)));
        assert(modified@ =~= modified_text(outcomes@.subrange(0, i + 1)));
        assert(missing@ =~= missing_text(outcomes@.subrange(0, i + 1)));
        i = i + 1;
    }
    assert(outcomes@.subrange(0, outcomes@.len() as int) =~= outcomes@);
    let modified = if modified.as_str().is_empty() { None } else { Some(modified) };
    let missing = if missing.as_str().is_empty() { None } else { Some(missing) };
    StateFiles { state, modified, missing }
}

/// The records of a snapshot's lines, in order.
pub open spec fn lines_text(rs: Seq<FileInfoView>) -> Seq<char>
    decreases rs.len(),
{
    if rs.len() == 0 {
        Seq::empty()
    } else {
        lines_text(rs.drop_last()) + line_of(rs.last())
    }
}

/// The record of every new, unchanged or (current) modified outcome, in order.
pub open spec fn state_records(outs: Seq<FileCheckResult>) -> Seq<FileInfoView>
    decreases outs.len(),
{
    if outs.len() == 0 {
        Seq::empty()
    } else {
        let r = state_records(outs.drop_last());
        if outs.last() is Missing {
            r
        } else {
            r.push(outs.last().record()@)
        }
    }
}

/// The record of every missing outcome whose contents are not in `present`, in order.
pub open spec fn missing_kept(outs: Seq<FileCheckResult>, present: Set<Seq<u8>>) -> Seq<FileInfoView>
    decreases outs.len(),
{
    if outs.len() == 0 {
        Seq::empty()
    } else {
        let r = missing_kept(outs.drop_last(), present);
        match outs.last() {
            FileCheckResult::Missing(fi) => if present.contains(fi.sha256_digest@) {
                r
            } else {
                r.push(fi@)
            },
            _ => r,
        }
    }
}

pub open spec fn distinct_paths(outs: Seq<FileCheckResult>) -> bool {
    forall|i: int, j: int| 0 <= i < j < outs.len() ==> #[trigger] outs[i].path() != #[trigger] outs[j].path()
}

proof fn lemma_texts(outs: Seq<FileCheckResult>, present: Set<Seq<u8>>)
    ensures
        state_text(dedup_with(outs, present)) == lines_text(state_records(outs)),
        missing_text(dedup_with(outs, present)) == lines_text(missing_kept(outs, present)),
    decreases outs.len(),
{
    if outs.len() > 0 {
        let init = outs.drop_last();
        lemma_texts(init, present);
        let r = dedup_with(init, present);
        let sr = state_records(init);
        let mk = missing_kept(init, present);
        match crate::reconcile::dedup_one(outs.last(), present) {
            Some(o) => {
                assert(r.push(o).drop_last() == r);
                assert(r.push(o).last() == o);
                if outs.last() is Missing {
                    assert(state_text(r.push(o)) =~= state_text(r));
                    assert(mk.push(o.record()@).drop_last() == mk);
                    assert(missing_text(r.push(o)) =~= missing_text(r) + line_of(o.record()@));
                } else {
                    assert(sr.push(o.record()@).drop_last() == sr);
                    assert(state_text(r.push(o)) =~= state_text(r) + line_of(o.record()@));
                    assert(missing_text(r.push(o)) =~= missing_text(r));
                }
            },
            None => {},
        }
    }
}

proof fn lemma_state_count(outs: Seq<FileCheckResult>)
    ensures
        state_records(outs).len() + count_missing(outs) == outs.len(),
    decreases outs.len(),
{
    if outs.len() > 0 {
        lemma_state_count(outs.drop_last());
    }
}

proof fn lemma_records_from(outs: Seq<FileCheckResult>, present: Set<Seq<u8>>)
    ensures
        state_records(outs).len() <= outs.len(),
        forall|i: int|
            0 <= i < state_records(outs).len() ==> exists|j: int|
                0 <= j < outs.len() && !(outs[j] is Missing) && #[trigger] state_records(outs)[i].rel_path
                    == outs[j].path(),
        forall|i: int|
            0 <= i < missing_kept(outs, present).len() ==> exists|j: int|
                0 <= j < outs.len() && outs[j] is Missing && #[trigger] missing_kept(outs, present)[i].rel_path
                    == outs[j].path(),
    decreases outs.len(),
{
    if outs.len() > 0 {
        let init = outs.drop_last();
        lemma_records_from(init, present);
        let n = outs.len() - 1;
        assert forall|i: int| 0 <= i < state_records(outs).len() implies exists|j: int|
            0 <= j < outs.len() && !(outs[j] is Missing) && #[trigger] state_records(outs)[i].rel_path
                == outs[j].path() by {
            if i < state_records(init).len() {
                let j = choose|j: int|
                    0 <= j < init.len() && !(init[j] is Missing) && state_records(init)[i].rel_path
                        == init[j].path();
                assert(outs[j] == init[j]);
            } else {
                assert(state_records(outs)[i].rel_path == outs[n].path());
            }
        }
        assert forall|i: int| 0 <= i < missing_kept(outs, present).len() implies exists|j: int|
            0 <= j < outs.len() && outs[j] is Missing && #[trigger] missing_kept(outs, present)[i].rel_path
                == outs[j].path() by {
            if i < missing_kept(init, present).len() {
                let j = choose|j: int|
                    0 <= j < init.len() && init[j] is Missing && missing_kept(init, present)[i].rel_path
                        == init[j].path();
                assert(outs[j] == init[j]);
            } else {
                assert(missing_kept(outs, present)[i].rel_path == outs[n].path());
            }
        }
    }
}

/// The new snapshot of an update run, as `render_state` writes it from what
/// `dedup` kept: its text is the lines of one record per new, unchanged or
/// modified outcome (dedup drops none of them, and keeps their records); the
/// log of missing files holds the missing records whose contents are present
/// nowhere; and where the outcomes' paths are distinct no path stands in both.
pub proof fn lemma_snapshot_partition(outs: Seq<FileCheckResult>)
    ensures
        state_text(dedup_spec(outs).0) == lines_text(state_records(outs)),
        state_records(outs).len() + count_missing(outs) == outs.len(),
        missing_text(dedup_spec(outs).0) == lines_text(missing_kept(outs, present_set(outs))),
        distinct_paths(outs) ==> forall|i: int, j: int|
            0 <= i < state_records(outs).len() && 0 <= j < missing_kept(outs, present_set(outs)).len()
                ==> #[trigger] state_records(outs)[i].rel_path != #[trigger] missing_kept(
                outs,
                present_set(outs),
            )[j].rel_path,
{
    let p = present_set(outs);
    lemma_texts(outs, p);
    lemma_state_count(outs);
    lemma_records_from(outs, p);
    if distinct_paths(outs) {
        assert forall|i: int, j: int|
            0 <= i < state_records(outs).len() && 0 <= j < missing_kept(outs, p).len() implies #[trigger] state_records(
            outs,
        )[i].rel_path != #[trigger] missing_kept(outs, p)[j].rel_path by {
            let a = choose|a: int|
                0 <= a < outs.len() && !(outs[a] is Missing) && state_records(outs)[i].rel_path
                    == outs[a].path();
            let b = choose|b: int|
                0 <= b < outs.len() && outs[b] is Missing && missing_kept(outs, p)[j].rel_path
                    == outs[b].path();
            if a < b {
                assert(outs[a].path() != outs[b].path());
            } else {
                assert(outs[b].path() != outs[a].path());
            }
        }
    }
}

} // verus!
