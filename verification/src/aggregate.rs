//! Grouping commits by author identity and ranking authors.
//!
//! Commits are partitioned by (name, mail); each group's line counts are
//! summed; the groups are ordered by descending line total, ties broken by
//! author name and then mail, ascending, so the ranking is reproducible.

use vstd::prelude::*;

use crate::index::sum_lines;
use crate::records::{
    Author, AuthorSummary, AuthorSummaryView, AuthorView, Commit, CommitView, commit_views,
    summary_views,
};

verus! {

/// The author identity of a commit.
pub open spec fn author_of(c: CommitView) -> AuthorView {
    AuthorView { name: c.author, mail: c.author_mail }
}

/// The total of `total_lines` over a sequence of summaries.
pub open spec fn sum_totals(ss: Seq<AuthorSummaryView>) -> int
    decreases ss.len(),
{
    if ss.len() == 0 {
        0
    } else {
        sum_totals(ss.drop_last()) + ss.last().total_lines
    }
}

proof fn lemma_sum_totals_concat(a: Seq<AuthorSummaryView>, b: Seq<AuthorSummaryView>)
    ensures
        sum_totals(a + b) == sum_totals(a) + sum_totals(b),
    decreases b.len(),
{
    if b.len() == 0 {
        assert(a + b =~= a);
    } else {
        assert((a + b).drop_last() =~= a + b.drop_last());
        assert((a + b).last() == b.last());
        lemma_sum_totals_concat(a, b.drop_last());
    }
}

pub proof fn lemma_sum_totals_nonneg(ss: Seq<AuthorSummaryView>)
    requires
        forall|k: int| 0 <= k < ss.len() ==> ss[k].total_lines >= 0,
    ensures
        sum_totals(ss) >= 0,
    decreases ss.len(),
{
    if ss.len() > 0 {
        lemma_sum_totals_nonneg(ss.drop_last());
    }
}

pub proof fn lemma_elem_le_sum_totals(ss: Seq<AuthorSummaryView>, k: int)
    requires
        forall|m: int| 0 <= m < ss.len() ==> ss[m].total_lines >= 0,
        0 <= k < ss.len(),
    ensures
        ss[k].total_lines <= sum_totals(ss),
    decreases ss.len(),
{
    if k == ss.len() - 1 {
        lemma_sum_totals_nonneg(ss.drop_last());
    } else {
        lemma_elem_le_sum_totals(ss.drop_last(), k);
    }
}

proof fn lemma_sum_totals_update(ss: Seq<AuthorSummaryView>, k: int, s: AuthorSummaryView)
    requires
        0 <= k < ss.len(),
    ensures
        sum_totals(ss.update(k, s)) == sum_totals(ss) - ss[k].total_lines + s.total_lines,
    decreases ss.len(),
{
    let u = ss.update(k, s);
    if k == ss.len() - 1 {
        assert(u.drop_last() =~= ss.drop_last());
    } else {
        assert(u.drop_last() =~= ss.drop_last().update(k, s));
        lemma_sum_totals_update(ss.drop_last(), k, s);
    }
}

/// The index of the first summary in `ss` for the author `a`, or `-1`.
pub open spec fn find_author(ss: Seq<AuthorSummaryView>, a: AuthorView) -> int
    decreases ss.len(),
{
    if ss.len() == 0 {
        -1
    } else if ss[0].author == a {
        0
    } else {
        let r = find_author(ss.skip(1), a);
        if r < 0 {
            -1
        } else {
            r + 1
        }
    }
}

proof fn lemma_find_author_at(ss: Seq<AuthorSummaryView>, a: AuthorView, j: int)
    requires
        0 <= j <= ss.len(),
        forall|k: int| 0 <= k < j ==> ss[k].author != a,
        j == ss.len() || ss[j].author == a,
    ensures
        find_author(ss, a) == if j == ss.len() {
            -1
        } else {
            j
        },
    decreases j,
{
    if j > 0 {
        assert(ss[0].author != a);
        let tail = ss.skip(1);
        assert(forall|k: int| 0 <= k < j - 1 ==> tail[k] == ss[k + 1] && tail[k].author != a);
        assert(j - 1 == tail.len() || tail[j - 1] == ss[j]);
        lemma_find_author_at(tail, a, j - 1);
    }
}

pub proof fn lemma_find_author_props(ss: Seq<AuthorSummaryView>, a: AuthorView)
    ensures
        find_author(ss, a) >= 0 ==> find_author(ss, a) < ss.len() && ss[find_author(ss, a)].author
            == a,
        find_author(ss, a) < 0 ==> find_author(ss, a) == -1 && (forall|k: int|
            0 <= k < ss.len() ==> ss[k].author != a),
    decreases ss.len(),
{
    if ss.len() > 0 && ss[0].author != a {
        lemma_find_author_props(ss.skip(1), a);
        assert(forall|k: int| 1 <= k < ss.len() ==> ss[k] == ss.skip(1)[k - 1]);
    }
}

/// Folds one commit into the partial grouping: either a new group or an
/// update of the commit's author's group.
pub open spec fn add_commit(ss: Seq<AuthorSummaryView>, c: CommitView) -> Seq<AuthorSummaryView> {
    let k = find_author(ss, author_of(c));
    if k < 0 {
        ss.push(
            AuthorSummaryView {
                author: author_of(c),
                total_lines: c.num_lines,
                commits: seq![c],
            },
        )
    } else {
        ss.update(
            k,
            AuthorSummaryView {
                author: ss[k].author,
                total_lines: ss[k].total_lines + c.num_lines,
                commits: ss[k].commits.push(c),
            },
        )
    }
}

/// The grouping of a commit sequence by author, in order of first sighting.
pub open spec fn group_commits(cs: Seq<CommitView>) -> Seq<AuthorSummaryView>
    decreases cs.len(),
{
    if cs.len() == 0 {
        Seq::empty()
    } else {
        add_commit(group_commits(cs.drop_last()), cs.last())
    }
}

/// Strict lexicographic order on character sequences, by code point; a
/// proper prefix comes first.
pub open spec fn lex_lt(a: Seq<char>, b: Seq<char>) -> bool
    decreases a.len(),
{
    if b.len() == 0 {
        false
    } else if a.len() == 0 {
        true
    } else if a[0] < b[0] {
        true
    } else if a[0] == b[0] {
        lex_lt(a.skip(1), b.skip(1))
    } else {
        false
    }
}

pub proof fn lemma_lex_total(a: Seq<char>, b: Seq<char>)
    ensures
        lex_lt(a, b) || lex_lt(b, a) || a == b,
    decreases a.len(),
{
    if a.len() == 0 && b.len() == 0 {
        assert(a =~= b);
    } else if a.len() > 0 && b.len() > 0 {
        if a[0] == b[0] {
            lemma_lex_total(a.skip(1), b.skip(1));
            if a.skip(1) == b.skip(1) {
                assert(a.len() == b.len()) by {
                    assert(a.skip(1).len() == a.len() - 1);
                    assert(b.skip(1).len() == b.len() - 1);
                }
                assert forall|k: int| 0 <= k < a.len() implies a[k] == b[k] by {
                    if k >= 1 {
                        assert(a[k] == a.skip(1)[k - 1]);
                        assert(b[k] == b.skip(1)[k - 1]);
                    }
                }
                assert(a =~= b);
            }
        }
    }
}

pub proof fn lemma_lex_trans(a: Seq<char>, b: Seq<char>, c: Seq<char>)
    requires
        lex_lt(a, b),
        lex_lt(b, c),
    ensures
        lex_lt(a, c),
    decreases a.len(),
{
    if a.len() > 0 && b.len() > 0 && a[0] == b[0] && b[0] == c[0] {
        lemma_lex_trans(a.skip(1), b.skip(1), c.skip(1));
    }
}

/// Non-strict lexicographic order.
pub open spec fn lex_le(a: Seq<char>, b: Seq<char>) -> bool {
    lex_lt(a, b) || a == b
}

/// Tie-break order on author identities: name, then mail, ascending.
pub open spec fn author_le(a: AuthorView, b: AuthorView) -> bool {
    lex_lt(a.name, b.name) || (a.name == b.name && lex_le(a.mail, b.mail))
}

/// The ranking order: more lines first; ties broken by author identity.
pub open spec fn summary_le(a: AuthorSummaryView, b: AuthorSummaryView) -> bool {
    a.total_lines > b.total_lines || (a.total_lines == b.total_lines && author_le(
        a.author,
        b.author,
    ))
}

/// The ranking order holds between every pair of a sequence, in order.
pub open spec fn ranked(ss: Seq<AuthorSummaryView>) -> bool {
    forall|i: int, j: int| 0 <= i < j < ss.len() ==> summary_le(ss[i], ss[j])
}

pub proof fn lemma_summary_le_total(a: AuthorSummaryView, b: AuthorSummaryView)
    ensures
        summary_le(a, b) || summary_le(b, a),
{
    if a.total_lines == b.total_lines {
        lemma_lex_total(a.author.name, b.author.name);
        if a.author.name == b.author.name {
            lemma_lex_total(a.author.mail, b.author.mail);
        }
    }
}

pub proof fn lemma_summary_le_trans(a: AuthorSummaryView, b: AuthorSummaryView, c: AuthorSummaryView)
    requires
        summary_le(a, b),
        summary_le(b, c),
    ensures
        summary_le(a, c),
{
    if a.total_lines == b.total_lines && b.total_lines == c.total_lines {
        if lex_lt(a.author.name, b.author.name) && lex_lt(b.author.name, c.author.name) {
            lemma_lex_trans(a.author.name, b.author.name, c.author.name);
        }
        if lex_lt(a.author.name, c.author.name) {
        } else if a.author.name == b.author.name && b.author.name == c.author.name {
            if lex_lt(a.author.mail, b.author.mail) && lex_lt(b.author.mail, c.author.mail) {
                lemma_lex_trans(a.author.mail, b.author.mail, c.author.mail);
            }
        }
    }
}

/// Places `x` before the first already-placed summary it precedes.
pub open spec fn insert_sorted(
    x: AuthorSummaryView,
    ss: Seq<AuthorSummaryView>,
) -> Seq<AuthorSummaryView>
    decreases ss.len(),
{
    if ss.len() == 0 {
        seq![x]
    } else if summary_le(x, ss[0]) {
        seq![x] + ss
    } else {
        seq![ss[0]] + insert_sorted(x, ss.skip(1))
    }
}

/// Insertion sort of the grouped summaries under the ranking order.
pub open spec fn sort_summaries(ss: Seq<AuthorSummaryView>) -> Seq<AuthorSummaryView>
    decreases ss.len(),
{
    if ss.len() == 0 {
        Seq::empty()
    } else {
        insert_sorted(ss.last(), sort_summaries(ss.drop_last()))
    }
}

proof fn lemma_insert_sorted_at(x: AuthorSummaryView, ss: Seq<AuthorSummaryView>, p: int)
    requires
        0 <= p <= ss.len(),
        forall|k: int| 0 <= k < p ==> !summary_le(x, ss[k]),
        p == ss.len() || summary_le(x, ss[p]),
    ensures
        insert_sorted(x, ss) == ss.take(p) + seq![x] + ss.skip(p),
    decreases p,
{
    if p == 0 {
        if ss.len() == 0 {
            assert(insert_sorted(x, ss) =~= ss.take(0) + seq![x] + ss.skip(0));
        } else {
            assert(summary_le(x, ss[0]));
            assert(seq![x] + ss =~= ss.take(0) + seq![x] + ss.skip(0));
        }
    } else {
        assert(!summary_le(x, ss[0]));
        let tail = ss.skip(1);
        assert(forall|k: int| 0 <= k < p - 1 ==> tail[k] == ss[k + 1] && !summary_le(x, tail[k]));
        assert(p - 1 == tail.len() || summary_le(x, tail[p - 1]));
        lemma_insert_sorted_at(x, tail, p - 1);
        assert(seq![ss[0]] + (tail.take(p - 1) + seq![x] + tail.skip(p - 1)) =~= ss.take(p)
            + seq![x] + ss.skip(p));
    }
}

proof fn lemma_insert_sorted_elems(x: AuthorSummaryView, ss: Seq<AuthorSummaryView>)
    ensures
        insert_sorted(x, ss).len() == ss.len() + 1,
        forall|k: int|
            0 <= k < insert_sorted(x, ss).len() ==> (insert_sorted(x, ss)[k] == x || exists|m: int|
                0 <= m < ss.len() && insert_sorted(x, ss)[k] == ss[m]),
    decreases ss.len(),
{
    let r = insert_sorted(x, ss);
    if ss.len() == 0 {
    } else if summary_le(x, ss[0]) {
        assert(forall|k: int| 1 <= k < r.len() ==> r[k] == ss[k - 1]);
    } else {
        lemma_insert_sorted_elems(x, ss.skip(1));
        let rt = insert_sorted(x, ss.skip(1));
        assert(r[0] == ss[0]);
        assert forall|k: int| 1 <= k < r.len() implies (r[k] == x || exists|m: int|
            0 <= m < ss.len() && r[k] == ss[m]) by {
            assert(r[k] == rt[k - 1]);
            if rt[k - 1] != x {
                let m = choose|m: int| 0 <= m < ss.skip(1).len() && rt[k - 1] == ss.skip(1)[m];
                assert(ss.skip(1)[m] == ss[m + 1]);
            }
        }
    }
}

proof fn lemma_insert_sorted_ranked(x: AuthorSummaryView, ss: Seq<AuthorSummaryView>)
    requires
        ranked(ss),
    ensures
        ranked(insert_sorted(x, ss)),
    decreases ss.len(),
{
    let r = insert_sorted(x, ss);
    if ss.len() == 0 {
    } else if summary_le(x, ss[0]) {
        assert forall|i: int, j: int| 0 <= i < j < r.len() implies summary_le(r[i], r[j]) by {
            if i == 0 {
                assert(r[j] == ss[j - 1]);
                if j > 1 {
                    lemma_summary_le_trans(x, ss[0], ss[j - 1]);
                }
            } else {
                assert(r[i] == ss[i - 1] && r[j] == ss[j - 1]);
            }
        }
    } else {
        assert(ranked(ss.skip(1))) by {
            assert(forall|k: int| 0 <= k < ss.skip(1).len() ==> ss.skip(1)[k] == ss[k + 1]);
        }
        lemma_insert_sorted_ranked(x, ss.skip(1));
        lemma_insert_sorted_elems(x, ss.skip(1));
        let rt = insert_sorted(x, ss.skip(1));
        lemma_summary_le_total(x, ss[0]);
        assert forall|i: int, j: int| 0 <= i < j < r.len() implies summary_le(r[i], r[j]) by {
            if i == 0 {
                assert(r[j] == rt[j - 1]);
                if rt[j - 1] == x {
                    assert(summary_le(ss[0], x));
                } else {
                    let m = choose|m: int|
                        0 <= m < ss.skip(1).len() && rt[j - 1] == ss.skip(1)[m];
                    assert(ss.skip(1)[m] == ss[m + 1]);
                    assert(summary_le(ss[0], ss[m + 1]));
                }
            } else {
                assert(r[i] == rt[i - 1] && r[j] == rt[j - 1]);
            }
        }
    }
}

/// The ranked output of aggregation over a commit table.
pub open spec fn spec_aggregate(cs: Seq<CommitView>) -> Seq<AuthorSummaryView> {
    sort_summaries(group_commits(cs))
}

proof fn lemma_lex_lt_skip(a: Seq<char>, b: Seq<char>, j: int)
    requires
        0 <= j <= a.len(),
        j <= b.len(),
        forall|k: int| 0 <= k < j ==> a[k] == b[k],
    ensures
        lex_lt(a, b) == lex_lt(a.skip(j), b.skip(j)),
    decreases j,
{
    if j == 0 {
        assert(a.skip(0) =~= a);
        assert(b.skip(0) =~= b);
    } else {
        assert(a[0] == b[0]);
        assert(lex_lt(a, b) == lex_lt(a.skip(1), b.skip(1)));
        assert(forall|k: int| 0 <= k < j - 1 ==> a.skip(1)[k] == a[k + 1] && b.skip(1)[k] == b[k
            + 1]);
        lemma_lex_lt_skip(a.skip(1), b.skip(1), j - 1);
        assert(a.skip(1).skip(j - 1) =~= a.skip(j));
        assert(b.skip(1).skip(j - 1) =~= b.skip(j));
    }
}

/// Whether `a` comes strictly before `b` in lexicographic order.
fn lex_lt_exec(a: &str, b: &str) -> (r: bool)
    ensures
        r == lex_lt(a@, b@),
{
    let la = a.unicode_len();
    let lb = b.unicode_len();
    let mut j: usize = 0;
    loop
        invariant
            j <= la,
            j <= lb,
            la == a@.len(),
            lb == b@.len(),
            forall|k: int| 0 <= k < j ==> a@[k] == b@[k],
        ensures
            j <= la,
            j <= lb,
            forall|k: int| 0 <= k < j ==> a@[k] == b@[k],
            j == la || j == lb || a@[j as int] != b@[j as int],
        decreases la - j,
    {
        if j >= la || j >= lb {
            break;
        }
        if a.get_char(j) != b.get_char(j) {
            break;
        }
        j = j + 1;
    }
    proof {
        lemma_lex_lt_skip(a@, b@, j as int);
    }
    if j == lb {
        proof {
            assert(b@.skip(j as int).len() == 0);
        }
        false
    } else if j == la {
        proof {
            assert(a@.skip(j as int).len() == 0);
            assert(b@.skip(j as int).len() > 0);
        }
        true
    } else {
        let ca = a.get_char(j);
        let cb = b.get_char(j);
        proof {
            assert(a@.skip(j as int)[0] == a@[j as int]);
            assert(b@.skip(j as int)[0] == b@[j as int]);
        }
        ca < cb
    }
}

/// Whether `a` ranks no later than `b`.
fn summary_before(a: &AuthorSummary, b: &AuthorSummary) -> (r: bool)
    ensures
        r == summary_le(a@, b@),
{
    if a.total_lines > b.total_lines {
        true
    } else if a.total_lines < b.total_lines {
        false
    } else if lex_lt_exec(a.author.name.as_str(), b.author.name.as_str()) {
        true
    } else if (&a.author.name).eq(&b.author.name) {
        if lex_lt_exec(a.author.mail.as_str(), b.author.mail.as_str()) {
            true
        } else {
            (&a.author.mail).eq(&b.author.mail)
        }
    } else {
        false
    }
}

/// The first summary for the given author identity, when there is one.
fn find_author_slot(ss: &Vec<AuthorSummary>, name: &String, mail: &String) -> (r: Option<usize>)
    ensures
        match r {
            Some(j) => j < ss@.len() && find_author(
                summary_views(ss@),
                AuthorView { name: name@, mail: mail@ },
            ) == j,
            None => find_author(summary_views(ss@), AuthorView { name: name@, mail: mail@ })
                == -1,
        },
{
    let ghost sv = summary_views(ss@);
    let ghost a = AuthorView { name: name@, mail: mail@ };
    let n = ss.len();
    let mut j: usize = 0;
    while j < n
        invariant
            j <= n,
            n == ss@.len(),
            sv == summary_views(ss@),
            a == (AuthorView { name: name@, mail: mail@ }),
            forall|k: int| 0 <= k < j ==> sv[k].author != a,
        decreases n - j,
    {
        if (&ss[j].author.name).eq(name) && (&ss[j].author.mail).eq(mail) {
            proof {
                assert(sv[j as int].author == a);
                lemma_find_author_at(sv, a, j as int);
            }
            return Some(j);
        }
        j = j + 1;
    }
    proof {
        lemma_find_author_at(sv, a, sv.len() as int);
    }
    None
}

/// A field-by-field copy of a commit.
fn clone_commit(c: &Commit) -> (r: Commit)
    ensures
        r@ == c@,
{
    Commit {
        hash: c.hash.clone(),
        author: c.author.clone(),
        author_mail: c.author_mail.clone(),
        num_lines: c.num_lines,
    }
}

/// Groups the commits by author, sums their line counts, and ranks the
/// authors by descending total, ties broken by name and then mail. Returns
/// nothing only when the input's line total does not fit in `usize`.
pub fn aggregate(commits: &Vec<Commit>) -> (r: Option<Vec<AuthorSummary>>)
    ensures
        match r {
            Some(v) => summary_views(v@) == spec_aggregate(commit_views(commits@)) && ranked(
                summary_views(v@),
            ),
            None => sum_lines(commit_views(commits@)) > usize::MAX,
        },
{
    proof {
        lemma_aggregate_ranked(commit_views(commits@));
    }
    let ghost cv = commit_views(commits@);
    proof {
        assert(forall|k: int| 0 <= k < cv.len() ==> cv[k].num_lines >= 0);
    }
    let n = commits.len();
    let mut grouped: Vec<AuthorSummary> = Vec::new();
    let mut i: usize = 0;
    proof {
        assert(cv.take(0) =~= Seq::<CommitView>::empty());
        assert(summary_views(grouped@) =~= Seq::<AuthorSummaryView>::empty());
    }
    while i < n
        invariant
            i <= n,
            n == commits@.len(),
            cv == commit_views(commits@),
            forall|k: int| 0 <= k < cv.len() ==> cv[k].num_lines >= 0,
            summary_views(grouped@) == group_commits(cv.take(i as int)),
            sum_totals(summary_views(grouped@)) == sum_lines(cv.take(i as int)),
        decreases n - i,
    {
        let c = &commits[i];
        let ghost gv = summary_views(grouped@);
        proof {
            assert(cv[i as int] == c@);
            assert(cv.take(i + 1).drop_last() =~= cv.take(i as int));
            assert(cv.take(i + 1).last() == cv[i as int]);
        }
        match find_author_slot(&grouped, &c.author, &c.author_mail) {
            None => {
                let owned = clone_commit(c);
                let mut cvec: Vec<Commit> = Vec::new();
                cvec.push(owned);
                let s = AuthorSummary {
                    author: Author { name: c.author.clone(), mail: c.author_mail.clone() },
                    total_lines: c.num_lines,
                    commits: cvec,
                };
                proof {
                    assert(s@.commits =~= seq![c@]);
                    assert(s@ == (AuthorSummaryView {
                        author: author_of(c@),
                        total_lines: c@.num_lines,
                        commits: seq![c@],
                    }));
                }
                grouped.push(s);
                proof {
                    assert(summary_views(grouped@) =~= gv.push(
                        AuthorSummaryView {
                            author: author_of(c@),
                            total_lines: c@.num_lines,
                            commits: seq![c@],
                        },
                    ));
                    assert(summary_views(grouped@).drop_last() =~= gv);
                }
            },
            Some(j) => {
                proof {
                    assert(forall|m: int| 0 <= m < gv.len() ==> gv[m].total_lines >= 0);
                    lemma_elem_le_sum_totals(gv, j as int);
                    assert(cv.take(i as int).len() <= cv.len());
                    crate::index::lemma_sum_take_le(cv, i + 1);
                }
                let ghost old_vec = grouped@;
                let mut s = grouped.remove(j);
                let owned = clone_commit(c);
                match s.total_lines.checked_add(c.num_lines) {
                    None => {
                        return None;
                    },
                    Some(t) => {
                        s.total_lines = t;
                        s.commits.push(owned);
                        grouped.insert(j, s);
                        proof {
                            let nv = AuthorSummaryView {
                                author: gv[j as int].author,
                                total_lines: gv[j as int].total_lines + c@.num_lines,
                                commits: gv[j as int].commits.push(c@),
                            };
                            assert(grouped@ =~= old_vec.update(j as int, s));
                            assert(s@.commits =~= gv[j as int].commits.push(c@));
                            assert(s@ == nv);
                            assert(summary_views(grouped@) =~= gv.update(j as int, nv));
                            lemma_sum_totals_update(gv, j as int, nv);
                        }
                    },
                }
            },
        }
        i = i + 1;
    }
    proof {
        assert(cv.take(n as int) =~= cv);
    }
    let ghost g0 = summary_views(grouped@);
    let mut sorted: Vec<AuthorSummary> = Vec::new();
    proof {
        assert(g0.skip(0) =~= g0);
        assert(g0.take(0) =~= Seq::<AuthorSummaryView>::empty());
        assert(summary_views(sorted@) =~= Seq::<AuthorSummaryView>::empty());
    }
    while grouped.len() > 0
        invariant
            grouped@.len() <= g0.len(),
            summary_views(grouped@) == g0.skip(g0.len() - grouped@.len()),
            summary_views(sorted@) == sort_summaries(g0.take(g0.len() - grouped@.len())),
        decreases grouped@.len(),
    {
        let ghost d = g0.len() - grouped@.len();
        let ghost old_vec = grouped@;
        let ghost sv = summary_views(sorted@);
        let x = grouped.remove(0);
        proof {
            assert(x@ == summary_views(old_vec)[0]);
            assert(x@ == g0[d]);
            assert(grouped@ =~= old_vec.skip(1));
            assert forall|k: int| 0 <= k < grouped@.len() implies summary_views(grouped@)[k]
                == g0.skip(d + 1)[k] by {
                assert(summary_views(grouped@)[k] == grouped@[k]@);
                assert(grouped@[k] == old_vec[k + 1]);
                assert(summary_views(old_vec)[k + 1] == old_vec[k + 1]@);
                assert(g0.skip(d)[k + 1] == g0[d + k + 1]);
                assert(g0.skip(d + 1)[k] == g0[d + k + 1]);
            }
            assert(summary_views(grouped@) =~= g0.skip(d + 1));
        }
        let sl = sorted.len();
        let mut p: usize = 0;
        loop
            invariant
                p <= sl,
                sl == sorted@.len(),
                sv == summary_views(sorted@),
                forall|k: int| 0 <= k < p ==> !summary_le(x@, sv[k]),
            ensures
                p <= sl,
                forall|k: int| 0 <= k < p ==> !summary_le(x@, sv[k]),
                p == sl || summary_le(x@, sv[p as int]),
            decreases sl - p,
        {
            if p >= sl {
                break;
            }
            if summary_before(&x, &sorted[p]) {
                break;
            }
            p = p + 1;
        }
        proof {
            lemma_insert_sorted_at(x@, sv, p as int);
        }
        let ghost old_sorted = sorted@;
        sorted.insert(p, x);
        proof {
            assert(sorted@ =~= old_sorted.take(p as int) + seq![x] + old_sorted.skip(p as int));
            assert forall|k: int| 0 <= k < sorted@.len() implies summary_views(sorted@)[k]
                == insert_sorted(x@, sv)[k] by {
                assert(summary_views(sorted@)[k] == sorted@[k]@);
                assert(insert_sorted(x@, sv) == sv.take(p as int) + seq![x@] + sv.skip(p as int));
                if k < p {
                    assert(sorted@[k] == old_sorted[k]);
                } else if k == p {
                    assert(sorted@[k] == x);
                } else {
                    assert(sorted@[k] == old_sorted[k - 1]);
                }
            }
            assert(summary_views(sorted@) =~= insert_sorted(x@, sv));
            assert(g0.take(d + 1).drop_last() =~= g0.take(d));
            assert(g0.take(d + 1).last() == g0[d]);
        }
    }
    proof {
        assert(g0.take(g0.len() as int) =~= g0);
    }
    Some(sorted)
}

proof fn lemma_group_sum(cs: Seq<CommitView>)
    ensures
        sum_totals(group_commits(cs)) == sum_lines(cs),
    decreases cs.len(),
{
    if cs.len() > 0 {
        lemma_group_sum(cs.drop_last());
        let prev = group_commits(cs.drop_last());
        let c = cs.last();
        let k = find_author(prev, author_of(c));
        lemma_find_author_props(prev, author_of(c));
        if k < 0 {
            let g = prev.push(
                AuthorSummaryView {
                    author: author_of(c),
                    total_lines: c.num_lines,
                    commits: seq![c],
                },
            );
            assert(g.drop_last() =~= prev);
        } else {
            let nv = AuthorSummaryView {
                author: prev[k].author,
                total_lines: prev[k].total_lines + c.num_lines,
                commits: prev[k].commits.push(c),
            };
            lemma_sum_totals_update(prev, k, nv);
        }
    }
}

proof fn lemma_insert_sorted_sum(x: AuthorSummaryView, ss: Seq<AuthorSummaryView>)
    ensures
        sum_totals(insert_sorted(x, ss)) == sum_totals(ss) + x.total_lines,
    decreases ss.len(),
{
    if ss.len() == 0 {
        assert(insert_sorted(x, ss) == seq![x]);
        assert(seq![x].drop_last() =~= Seq::<AuthorSummaryView>::empty());
        assert(seq![x].last() == x);
        assert(sum_totals(Seq::<AuthorSummaryView>::empty()) == 0);
    } else if summary_le(x, ss[0]) {
        lemma_sum_totals_concat(seq![x], ss);
        assert(seq![x].drop_last() =~= Seq::<AuthorSummaryView>::empty());
        assert(seq![x].last() == x);
        assert(sum_totals(Seq::<AuthorSummaryView>::empty()) == 0);
        assert(sum_totals(seq![x]) == x.total_lines);
    } else {
        lemma_insert_sorted_sum(x, ss.skip(1));
        lemma_sum_totals_concat(seq![ss[0]], insert_sorted(x, ss.skip(1)));
        lemma_sum_totals_concat(seq![ss[0]], ss.skip(1));
        assert(seq![ss[0]] + ss.skip(1) =~= ss);
        assert(seq![ss[0]].drop_last() =~= Seq::<AuthorSummaryView>::empty());
        assert(seq![ss[0]].last() == ss[0]);
        assert(sum_totals(Seq::<AuthorSummaryView>::empty()) == 0);
        assert(sum_totals(seq![ss[0]]) == ss[0].total_lines);
    }
}

proof fn lemma_sort_sum(ss: Seq<AuthorSummaryView>)
    ensures
        sum_totals(sort_summaries(ss)) == sum_totals(ss),
    decreases ss.len(),
{
    if ss.len() > 0 {
        lemma_sort_sum(ss.drop_last());
        lemma_insert_sorted_sum(ss.last(), sort_summaries(ss.drop_last()));
    }
}

/// Conservation across aggregation: the ranked summaries' line totals add
/// up to the commit table's line totals; no commit or author is dropped
/// from the count.
pub proof fn lemma_aggregate_conserves(cs: Seq<CommitView>)
    ensures
        sum_totals(spec_aggregate(cs)) == sum_lines(cs),
{
    lemma_group_sum(cs);
    lemma_sort_sum(group_commits(cs));
}

proof fn lemma_sort_ranked(ss: Seq<AuthorSummaryView>)
    ensures
        ranked(sort_summaries(ss)),
    decreases ss.len(),
{
    if ss.len() > 0 {
        lemma_sort_ranked(ss.drop_last());
        lemma_insert_sorted_ranked(ss.last(), sort_summaries(ss.drop_last()));
    }
}

/// The aggregation's output is ranked: descending line totals, ties broken
/// by author name and then mail, ascending.
pub proof fn lemma_aggregate_ranked(cs: Seq<CommitView>)
    ensures
        ranked(spec_aggregate(cs)),
{
    lemma_sort_ranked(group_commits(cs));
}

/// Aggregation is deterministic: over one and the same commit table any two
/// results that meet [`aggregate`]'s contract are identical, order included.
pub proof fn lemma_aggregate_deterministic(
    cs: Seq<CommitView>,
    r1: Seq<AuthorSummaryView>,
    r2: Seq<AuthorSummaryView>,
)
    requires
        r1 == spec_aggregate(cs),
        r2 == spec_aggregate(cs),
    ensures
        r1 == r2,
{
}

} // verus!
