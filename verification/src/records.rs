//! Core data model: line records produced by the blame parser, commits
//! accumulated by the index, and per-author summaries.

use vstd::prelude::*;

verus! {

/// Mathematical view of [`CommitMetadata`].
pub ghost struct MetadataView {
    pub author: Seq<char>,
    pub author_mail: Seq<char>,
}

/// Author name and contact, present only on the first sighting of a commit.
#[derive(Debug)]
pub struct CommitMetadata {
    pub author: String,
    pub author_mail: String,
}

impl View for CommitMetadata {
    type V = MetadataView;

    open spec fn view(&self) -> MetadataView {
        MetadataView { author: self.author@, author_mail: self.author_mail@ }
    }
}

/// Mathematical view of [`LineRecord`].
pub ghost struct LineRecordView {
    pub hash: Seq<char>,
    pub extra: Option<MetadataView>,
}

/// One record per content line of the blamed file, in file order.
/// `extra` carries the commit's metadata on its first sighting only.
#[derive(Debug)]
pub struct LineRecord {
    pub hash: String,
    pub extra: Option<CommitMetadata>,
}

impl View for LineRecord {
    type V = LineRecordView;

    open spec fn view(&self) -> LineRecordView {
        LineRecordView {
            hash: self.hash@,
            extra: match self.extra {
                Some(m) => Some(m@),
                None => None,
            },
        }
    }
}

/// Mathematical view of [`Commit`]; `num_lines` is unbounded here.
pub ghost struct CommitView {
    pub hash: Seq<char>,
    pub author: Seq<char>,
    pub author_mail: Seq<char>,
    pub num_lines: int,
}

/// One distinct commit observed in the blame output, with the number of
/// lines attributed to it.
#[derive(Debug)]
pub struct Commit {
    pub hash: String,
    pub author: String,
    pub author_mail: String,
    pub num_lines: usize,
}

impl View for Commit {
    type V = CommitView;

    open spec fn view(&self) -> CommitView {
        CommitView {
            hash: self.hash@,
            author: self.author@,
            author_mail: self.author_mail@,
            num_lines: self.num_lines as int,
        }
    }
}

/// Mathematical view of [`Author`].
pub ghost struct AuthorView {
    pub name: Seq<char>,
    pub mail: Seq<char>,
}

/// Author identity: two commits with the same name and mail belong to the
/// same author even if their hashes differ.
#[derive(Debug)]
pub struct Author {
    pub name: String,
    pub mail: String,
}

impl View for Author {
    type V = AuthorView;

    open spec fn view(&self) -> AuthorView {
        AuthorView { name: self.name@, mail: self.mail@ }
    }
}

impl Author {
    /// Builds an author identity from its two components.
    pub fn new(name: &str, mail: &str) -> (r: Self)
        ensures
            r@.name == name@,
            r@.mail == mail@,
    {
        Author { name: name.to_owned(), mail: mail.to_owned() }
    }
}

/// Mathematical view of [`AuthorSummary`].
pub ghost struct AuthorSummaryView {
    pub author: AuthorView,
    pub total_lines: int,
    pub commits: Seq<CommitView>,
}

/// Ranked entry: one author, the total number of lines over the author's
/// commits, and those commits in input order.
#[derive(Debug)]
pub struct AuthorSummary {
    pub author: Author,
    pub total_lines: usize,
    pub commits: Vec<Commit>,
}

impl View for AuthorSummary {
    type V = AuthorSummaryView;

    open spec fn view(&self) -> AuthorSummaryView {
        AuthorSummaryView {
            author: self.author@,
            total_lines: self.total_lines as int,
            commits: self.commits@.map_values(|c: Commit| c@),
        }
    }
}

/// The views of a sequence of line records.
pub open spec fn record_views(s: Seq<LineRecord>) -> Seq<LineRecordView> {
    s.map_values(|r: LineRecord| r@)
}

/// The views of a sequence of commits.
pub open spec fn commit_views(s: Seq<Commit>) -> Seq<CommitView> {
    s.map_values(|c: Commit| c@)
}

/// The views of a sequence of author summaries.
pub open spec fn summary_views(s: Seq<AuthorSummary>) -> Seq<AuthorSummaryView> {
    s.map_values(|a: AuthorSummary| a@)
}

/// The raw text does not conform to the blame grammar; carries the
/// 1-based offending line number.
#[derive(Debug)]
pub enum ParseError {
    /// A line that is neither a well-formed header, a recognized metadata
    /// field, nor a content line where one was expected.
    MalformedHeader { line: usize },
    /// A metadata block ended before both required fields were seen, or
    /// the input ended inside a group.
    IncompleteMetadata { line: usize },
}

/// Mathematical view of [`AggregationError`].
pub ghost enum AggregationErrorView {
    MissingMetadata { hash: Seq<char> },
    DuplicateMetadata { hash: Seq<char> },
}

/// The record stream violates the first-sighting invariant; carries the
/// implicated commit identifier.
#[derive(Debug)]
pub enum AggregationError {
    /// A commit identifier appeared without a prior metadata block.
    MissingMetadata { hash: String },
    /// A second metadata block appeared for an already-seen identifier.
    DuplicateMetadata { hash: String },
}

impl View for AggregationError {
    type V = AggregationErrorView;

    open spec fn view(&self) -> AggregationErrorView {
        match self {
            AggregationError::MissingMetadata { hash } => {
                AggregationErrorView::MissingMetadata { hash: hash@ }
            },
            AggregationError::DuplicateMetadata { hash } => {
                AggregationErrorView::DuplicateMetadata { hash: hash@ }
            },
        }
    }
}

} // verus!
