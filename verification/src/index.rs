//! Building the deduplicated commit table from the record stream.
//!
//! The index verifies, rather than assumes, the first-sighting invariant of
//! the parser: metadata must arrive exactly once per commit identifier, and
//! before any bare sighting of that identifier.

use vstd::prelude::*;

use crate::records::{
    AggregationError, AggregationErrorView, Commit, CommitView, LineRecord, LineRecordView,
    commit_views, record_views,
};

verus! {

/// The index of the first commit in `cs` whose hash is `h`, or `-1`.
pub open spec fn find_hash(cs: Seq<CommitView>, h: Seq<char>) -> int
    decreases cs.len(),
{
    if cs.len() == 0 {
        -1
    } else if cs[0].hash == h {
        0
    } else {
        let r = find_hash(cs.skip(1), h);
        if r < 0 {
            -1
        } else {
            r + 1
        }
    }
}

/// Some commit in `cs` has hash `h`.
pub open spec fn has_hash(cs: Seq<CommitView>, h: Seq<char>) -> bool {
    exists|k: int| 0 <= k < cs.len() && cs[k].hash == h
}

pub proof fn lemma_find_hash_props(cs: Seq<CommitView>, h: Seq<char>)
    ensures
        find_hash(cs, h) >= 0 ==> find_hash(cs, h) < cs.len() && cs[find_hash(cs, h)].hash == h
            && (forall|k: int| 0 <= k < find_hash(cs, h) ==> cs[k].hash != h),
        find_hash(cs, h) < 0 ==> find_hash(cs, h) == -1 && (forall|k: int|
            0 <= k < cs.len() ==> cs[k].hash != h),
        find_hash(cs, h) >= 0 <==> has_hash(cs, h),
    decreases cs.len(),
{
    if cs.len() > 0 && cs[0].hash != h {
        lemma_find_hash_props(cs.skip(1), h);
        assert(forall|k: int| 1 <= k < cs.len() ==> cs[k] == cs.skip(1)[k - 1]);
    }
}

/// The total of `num_lines` over a sequence of commits.
pub open spec fn sum_lines(cs: Seq<CommitView>) -> int
    decreases cs.len(),
{
    if cs.len() == 0 {
        0
    } else {
        sum_lines(cs.drop_last()) + cs.last().num_lines
    }
}

pub proof fn lemma_sum_lines_nonneg(cs: Seq<CommitView>)
    requires
        forall|k: int| 0 <= k < cs.len() ==> cs[k].num_lines >= 0,
    ensures
        sum_lines(cs) >= 0,
    decreases cs.len(),
{
    if cs.len() > 0 {
        lemma_sum_lines_nonneg(cs.drop_last());
    }
}

pub proof fn lemma_elem_le_sum_lines(cs: Seq<CommitView>, k: int)
    requires
        forall|m: int| 0 <= m < cs.len() ==> cs[m].num_lines >= 0,
        0 <= k < cs.len(),
    ensures
        cs[k].num_lines <= sum_lines(cs),
    decreases cs.len(),
{
    if k == cs.len() - 1 {
        lemma_sum_lines_nonneg(cs.drop_last());
    } else {
        lemma_elem_le_sum_lines(cs.drop_last(), k);
    }
}

pub proof fn lemma_sum_take_le(cs: Seq<CommitView>, j: int)
    requires
        forall|k: int| 0 <= k < cs.len() ==> cs[k].num_lines >= 0,
        0 <= j <= cs.len(),
    ensures
        sum_lines(cs.take(j)) <= sum_lines(cs),
    decreases cs.len() - j,
{
    if j == cs.len() {
        assert(cs.take(j) =~= cs);
    } else {
        assert(cs.take(j + 1).drop_last() =~= cs.take(j));
        assert(cs.take(j + 1).last() == cs[j]);
        lemma_sum_take_le(cs, j + 1);
    }
}

proof fn lemma_sum_lines_update(cs: Seq<CommitView>, k: int, c: CommitView)
    requires
        0 <= k < cs.len(),
    ensures
        sum_lines(cs.update(k, c)) == sum_lines(cs) - cs[k].num_lines + c.num_lines,
    decreases cs.len(),
{
    let u = cs.update(k, c);
    if k == cs.len() - 1 {
        assert(u.drop_last() =~= cs.drop_last());
    } else {
        assert(u.drop_last() =~= cs.drop_last().update(k, c));
        lemma_sum_lines_update(cs.drop_last(), k, c);
    }
}

/// The commit table that the records from index `i` on, folded onto the
/// table `acc`, build; or the first violation of the first-sighting rule.
pub open spec fn spec_build_at(
    recs: Seq<LineRecordView>,
    i: int,
    acc: Seq<CommitView>,
) -> Result<Seq<CommitView>, AggregationErrorView>
    decreases recs.len() - i,
{
    if i < 0 || i >= recs.len() {
        Ok(acc)
    } else {
        let r = recs[i];
        match r.extra {
            Some(m) => {
                if find_hash(acc, r.hash) >= 0 {
                    Err(AggregationErrorView::DuplicateMetadata { hash: r.hash })
                } else {
                    spec_build_at(
                        recs,
                        i + 1,
                        acc.push(
                            CommitView {
                                hash: r.hash,
                                author: m.author,
                                author_mail: m.author_mail,
                                num_lines: 1,
                            },
                        ),
                    )
                }
            },
            None => {
                let k = find_hash(acc, r.hash);
                if k < 0 {
                    Err(AggregationErrorView::MissingMetadata { hash: r.hash })
                } else {
                    spec_build_at(
                        recs,
                        i + 1,
                        acc.update(k, CommitView { num_lines: acc[k].num_lines + 1, ..acc[k] }),
                    )
                }
            },
        }
    }
}

/// The commit table built from a whole record stream.
pub open spec fn spec_build(recs: Seq<LineRecordView>) -> Result<
    Seq<CommitView>,
    AggregationErrorView,
> {
    spec_build_at(recs, 0, Seq::empty())
}

proof fn lemma_build_at_sum(recs: Seq<LineRecordView>, i: int, acc: Seq<CommitView>)
    requires
        0 <= i <= recs.len(),
    ensures
        spec_build_at(recs, i, acc) matches Ok(cs) ==> sum_lines(cs) == sum_lines(acc) + (
        recs.len() - i),
    decreases recs.len() - i,
{
    if i < recs.len() {
        if let Ok(cs) = spec_build_at(recs, i, acc) {
            let r = recs[i];
            match r.extra {
                Some(m) => {
                    let c = CommitView {
                        hash: r.hash,
                        author: m.author,
                        author_mail: m.author_mail,
                        num_lines: 1,
                    };
                    assert(acc.push(c).drop_last() =~= acc);
                    lemma_build_at_sum(recs, i + 1, acc.push(c));
                },
                None => {
                    let k = find_hash(acc, r.hash);
                    let c = CommitView { num_lines: acc[k].num_lines + 1, ..acc[k] };
                    lemma_find_hash_props(acc, r.hash);
                    lemma_sum_lines_update(acc, k, c);
                    lemma_build_at_sum(recs, i + 1, acc.update(k, c));
                },
            }
        }
    }
}

/// A successfully built table accounts for every record exactly once: the
/// line counts add up to the number of records.
pub proof fn lemma_build_sum(recs: Seq<LineRecordView>)
    ensures
        spec_build(recs) matches Ok(cs) ==> sum_lines(cs) == recs.len(),
{
    lemma_build_at_sum(recs, 0, Seq::empty());
}

proof fn lemma_build_at_first_sighting(recs: Seq<LineRecordView>, i: int, acc: Seq<CommitView>)
    requires
        0 <= i <= recs.len(),
        spec_build_at(recs, i, acc) is Ok,
    ensures
        forall|j: int|
            i <= j < recs.len() && recs[j].extra is Some ==> !has_hash(acc, recs[j].hash),
        forall|j1: int, j2: int|
            i <= j1 < j2 < recs.len() && recs[j2].extra is Some ==> recs[j1].hash != recs[j2].hash,
    decreases recs.len() - i,
{
    if i < recs.len() {
        let r = recs[i];
        match r.extra {
            Some(m) => {
                lemma_find_hash_props(acc, r.hash);
                let c = CommitView {
                    hash: r.hash,
                    author: m.author,
                    author_mail: m.author_mail,
                    num_lines: 1,
                };
                let acc2 = acc.push(c);
                lemma_build_at_first_sighting(recs, i + 1, acc2);
                assert forall|j: int|
                    i <= j < recs.len() && recs[j].extra is Some implies !has_hash(
                    acc,
                    recs[j].hash,
                ) by {
                    if j > i {
                        if has_hash(acc, recs[j].hash) {
                            let w = choose|w: int|
                                0 <= w < acc.len() && acc[w].hash == recs[j].hash;
                            assert(acc2[w].hash == recs[j].hash);
                        }
                    }
                }
                assert forall|j1: int, j2: int|
                    i <= j1 < j2 < recs.len() && recs[j2].extra is Some implies recs[j1].hash
                    != recs[j2].hash by {
                    if j1 == i {
                        assert(acc2[acc.len() as int].hash == r.hash);
                        assert(!has_hash(acc2, recs[j2].hash));
                    }
                }
            },
            None => {
                let k = find_hash(acc, r.hash);
                lemma_find_hash_props(acc, r.hash);
                let c = CommitView { num_lines: acc[k].num_lines + 1, ..acc[k] };
                let acc2 = acc.update(k, c);
                lemma_build_at_first_sighting(recs, i + 1, acc2);
                assert forall|j: int|
                    i <= j < recs.len() && recs[j].extra is Some implies !has_hash(
                    acc,
                    recs[j].hash,
                ) by {
                    if has_hash(acc, recs[j].hash) {
                        let w = choose|w: int| 0 <= w < acc.len() && acc[w].hash == recs[j].hash;
                        assert(acc2[w].hash == recs[j].hash);
                    }
                }
                assert forall|j1: int, j2: int|
                    i <= j1 < j2 < recs.len() && recs[j2].extra is Some implies recs[j1].hash
                    != recs[j2].hash by {
                    if j1 == i {
                        assert(acc[k].hash == r.hash);
                        assert(!has_hash(acc, recs[j2].hash));
                    }
                }
            },
        }
    }
}

/// First sighting, verified: in a record stream that the index accepts, a
/// record carrying metadata is the first record of its commit identifier,
/// so metadata arrives at most once per identifier, and before every bare
/// sighting of it.
pub proof fn lemma_first_sighting(recs: Seq<LineRecordView>)
    requires
        spec_build(recs) is Ok,
    ensures
        forall|j1: int, j2: int|
            0 <= j1 < j2 < recs.len() && recs[j2].extra is Some ==> recs[j1].hash != recs[j2].hash,
{
    lemma_build_at_first_sighting(recs, 0, Seq::empty());
}

proof fn lemma_build_at_wf(recs: Seq<LineRecordView>, i: int, acc: Seq<CommitView>)
    requires
        0 <= i <= recs.len(),
        forall|k1: int, k2: int| 0 <= k1 < k2 < acc.len() ==> acc[k1].hash != acc[k2].hash,
        forall|k: int| 0 <= k < acc.len() ==> acc[k].num_lines >= 1,
    ensures
        spec_build_at(recs, i, acc) matches Ok(cs) ==> (forall|k1: int, k2: int|
            0 <= k1 < k2 < cs.len() ==> cs[k1].hash != cs[k2].hash) && (forall|k: int|
            0 <= k < cs.len() ==> cs[k].num_lines >= 1),
    decreases recs.len() - i,
{
    if i < recs.len() {
        if spec_build_at(recs, i, acc) is Ok {
            let r = recs[i];
            match r.extra {
                Some(m) => {
                    lemma_find_hash_props(acc, r.hash);
                    let c = CommitView {
                        hash: r.hash,
                        author: m.author,
                        author_mail: m.author_mail,
                        num_lines: 1,
                    };
                    lemma_build_at_wf(recs, i + 1, acc.push(c));
                },
                None => {
                    let k = find_hash(acc, r.hash);
                    lemma_find_hash_props(acc, r.hash);
                    let c = CommitView { num_lines: acc[k].num_lines + 1, ..acc[k] };
                    lemma_build_at_wf(recs, i + 1, acc.update(k, c));
                },
            }
        }
    }
}

/// A successfully built table is a set keyed by identifier: hashes are
/// distinct, and every commit owns at least one line.
pub proof fn lemma_build_commits_wf(recs: Seq<LineRecordView>)
    ensures
        spec_build(recs) matches Ok(cs) ==> (forall|k1: int, k2: int|
            0 <= k1 < k2 < cs.len() ==> cs[k1].hash != cs[k2].hash) && (forall|k: int|
            0 <= k < cs.len() ==> cs[k].num_lines >= 1),
{
    lemma_build_at_wf(recs, 0, Seq::empty());
}

/// The first commit in `cs` with hash `h`, when there is one.
fn find_commit(cs: &Vec<Commit>, h: &String) -> (r: Option<usize>)
    ensures
        match r {
            Some(j) => j < cs@.len() && find_hash(commit_views(cs@), h@) == j,
            None => find_hash(commit_views(cs@), h@) == -1,
        },
{
    let ghost cv = commit_views(cs@);
    let n = cs.len();
    let mut j: usize = 0;
    while j < n
        invariant
            j <= n,
            n == cs@.len(),
            cv == commit_views(cs@),
            forall|k: int| 0 <= k < j ==> cv[k].hash != h@,
        decreases n - j,
    {
        if (&cs[j].hash).eq(h) {
            proof {
                lemma_find_hash_props(cv, h@);
                assert(cv[j as int].hash == h@);
            }
            return Some(j);
        }
        j = j + 1;
    }
    proof {
        lemma_find_hash_props(cv, h@);
        if find_hash(cv, h@) >= 0 {
            assert(cv[find_hash(cv, h@)].hash == h@);
        }
    }
    None
}

/// Consumes the record stream in order and builds one commit per distinct
/// identifier, counting the lines attributed to it; fails on the first
/// record that violates the first-sighting invariant.
pub fn build(records: &Vec<LineRecord>) -> (r: Result<Vec<Commit>, AggregationError>)
    ensures
        match r {
            Ok(cs) => spec_build(record_views(records@)) == Ok::<
                Seq<CommitView>,
                AggregationErrorView,
            >(commit_views(cs@)),
            Err(e) => spec_build(record_views(records@)) == Err::<
                Seq<CommitView>,
                AggregationErrorView,
            >(e@),
        },
{
    let ghost rv = record_views(records@);
    let n = records.len();
    let mut acc: Vec<Commit> = Vec::new();
    let mut i: usize = 0;
    proof {
        assert(commit_views(acc@) =~= Seq::<CommitView>::empty());
    }
    while i < n
        invariant
            i <= n,
            n == records@.len(),
            rv == record_views(records@),
            spec_build(rv) == spec_build_at(rv, i as int, commit_views(acc@)),
            sum_lines(commit_views(acc@)) == i as int,
        decreases n - i,
    {
        let rec = &records[i];
        proof {
            assert(rv[i as int] == rec@);
        }
        let ghost old_cv = commit_views(acc@);
        let found = find_commit(&acc, &rec.hash);
        match &rec.extra {
            Some(m) => {
                match found {
                    Some(_) => {
                        return Err(
                            AggregationError::DuplicateMetadata { hash: rec.hash.clone() },
                        );
                    },
                    None => {
                        let c = Commit {
                            hash: rec.hash.clone(),
                            author: m.author.clone(),
                            author_mail: m.author_mail.clone(),
                            num_lines: 1,
                        };
                        let ghost cv = c@;
                        acc.push(c);
                        proof {
                            assert(commit_views(acc@) =~= old_cv.push(cv));
                            assert(commit_views(acc@).drop_last() =~= old_cv);
                        }
                    },
                }
            },
            None => {
                match found {
                    None => {
                        return Err(AggregationError::MissingMetadata { hash: rec.hash.clone() });
                    },
                    Some(j) => {
                        proof {
                            assert(forall|m2: int|
                                0 <= m2 < old_cv.len() ==> old_cv[m2].num_lines >= 0);
                            lemma_elem_le_sum_lines(old_cv, j as int);
                        }
                        let mut c = acc.remove(j);
                        let nl = c.num_lines;
                        c.num_lines = nl + 1;
                        let ghost cv = c@;
                        acc.insert(j, c);
                        proof {
                            assert(commit_views(acc@) =~= old_cv.update(j as int, cv));
                            lemma_sum_lines_update(old_cv, j as int, cv);
                        }
                    },
                }
            },
        }
        i = i + 1;
    }
    Ok(acc)
}

} // verus!
