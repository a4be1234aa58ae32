//! Attributes the lines of a tracked file to the commits and authors that
//! last changed them, by parsing the stateful line-oriented output of a
//! version-control blame query and reducing it to ranked per-author counts.

use vstd::prelude::*;

pub mod aggregate;
pub mod index;
pub mod lines;
pub mod parser;
pub mod records;

use crate::aggregate::{aggregate, ranked, spec_aggregate};
use crate::index::{spec_build, sum_lines, lemma_build_sum};
use crate::lines::split_lines;
use crate::parser::{count_content, lemma_parse_line_count, parse_blame, spec_parse};
use crate::records::{
    AggregationError, AggregationErrorView, AuthorSummary, Commit, CommitView, LineRecordView,
    ParseError, commit_views, record_views, summary_views,
};

verus! {

/// Mathematical view of [`BlameError`].
pub ghost enum BlameErrorView {
    Parse(ParseError),
    Aggregation(AggregationErrorView),
}

/// Why no commit table could be obtained from a raw blame text: either the
/// text does not conform to the grammar, or its record stream violates the
/// first-sighting invariant.
#[derive(Debug)]
pub enum BlameError {
    Parse(ParseError),
    Aggregation(AggregationError),
}

impl View for BlameError {
    type V = BlameErrorView;

    open spec fn view(&self) -> BlameErrorView {
        match self {
            BlameError::Parse(e) => BlameErrorView::Parse(*e),
            BlameError::Aggregation(e) => BlameErrorView::Aggregation(e@),
        }
    }
}

/// The deduplicated commit table of one blamed file.
#[derive(Debug)]
pub struct TrackedFile {
    pub path: String,
    pub commits: Vec<Commit>,
}

impl TrackedFile {
    /// Parses a raw blame text and builds the commit table for the file at
    /// `path`: the sole entry from raw text to commits. Returns the first
    /// parse error or first-sighting violation instead, and never a
    /// partial table.
    pub fn from_raw_text(path: String, text: &str) -> (r: Result<TrackedFile, BlameError>)
        ensures
            match r {
                Ok(tf) => tf.path@ == path@ && (match spec_parse(split_lines(text@)) {
                    Ok(recs) => spec_build(recs) == Ok::<Seq<CommitView>, AggregationErrorView>(
                        commit_views(tf.commits@),
                    ) && commit_views(tf.commits@).len() <= usize::MAX && sum_lines(
                        commit_views(tf.commits@),
                    ) <= usize::MAX && sum_lines(commit_views(tf.commits@)) == count_content(
                        split_lines(text@),
                    ),
                    Err(_) => false,
                }),
                Err(e) => match e@ {
                    BlameErrorView::Parse(pe) => spec_parse(split_lines(text@)) == Err::<
                        Seq<LineRecordView>,
                        ParseError,
                    >(pe),
                    BlameErrorView::Aggregation(ae) => match spec_parse(split_lines(text@)) {
                        Ok(recs) => spec_build(recs) == Err::<
                            Seq<CommitView>,
                            AggregationErrorView,
                        >(ae),
                        Err(_) => false,
                    },
                },
            },
    {
        let records = match parse_blame(text) {
            Ok(v) => v,
            Err(e) => {
                return Err(BlameError::Parse(e));
            },
        };
        let commits = match crate::index::build(&records) {
            Ok(v) => v,
            Err(e) => {
                return Err(BlameError::Aggregation(e));
            },
        };
        let rlen = records.len();
        let clen = commits.len();
        proof {
            lemma_parse_line_count(split_lines(text@));
            lemma_build_sum(record_views(records@));
            assert(record_views(records@).len() == rlen as int);
            assert(commit_views(commits@).len() == clen as int);
        }
        Ok(TrackedFile { path, commits })
    }

    /// The ranked author summaries of this file's commit table, for the
    /// presenter. The bound on the line total is met by every table that
    /// [`TrackedFile::from_raw_text`] returns.
    pub fn ranked_summaries(&self) -> (r: Vec<AuthorSummary>)
        requires
            sum_lines(commit_views(self.commits@)) <= usize::MAX,
        ensures
            summary_views(r@) == spec_aggregate(commit_views(self.commits@)),
            ranked(summary_views(r@)),
    {
        match aggregate(&self.commits) {
            Some(v) => v,
            None => {
                proof {
                    assert(false);
                }
                Vec::new()
            },
        }
    }
}

/// Line conservation across the pipeline: a successful parse yields one
/// record per content line of the input, and a successfully built commit
/// table accounts for every record, so the commits' line counts add up to
/// the number of content lines.
pub proof fn lemma_line_conservation(
    lines: Seq<Seq<char>>,
    recs: Seq<LineRecordView>,
    cs: Seq<CommitView>,
)
    requires
        spec_parse(lines) == Ok::<Seq<LineRecordView>, ParseError>(recs),
        spec_build(recs) == Ok::<Seq<CommitView>, AggregationErrorView>(cs),
    ensures
        recs.len() == count_content(lines),
        sum_lines(cs) == recs.len(),
{
    lemma_parse_line_count(lines);
    lemma_build_sum(recs);
}

} // verus!
