use blame_stats::aggregate::aggregate;
use blame_stats::index::build;
use blame_stats::lines::split_into_lines;
use blame_stats::parser::parse_blame;
use blame_stats::records::{
    AggregationError, Author, Commit, CommitMetadata, LineRecord, ParseError,
};
use blame_stats::{BlameError, TrackedFile};

fn commit(hash: &str, author: &str, mail: &str, num_lines: usize) -> Commit {
    Commit {
        hash: hash.to_string(),
        author: author.to_string(),
        author_mail: mail.to_string(),
        num_lines,
    }
}

fn record(hash: &str, extra: Option<(&str, &str)>) -> LineRecord {
    LineRecord {
        hash: hash.to_string(),
        extra: extra.map(|(a, m)| CommitMetadata {
            author: a.to_string(),
            author_mail: m.to_string(),
        }),
    }
}

const THREE_LINES: &str = "abc123 1 1 2\nauthor Alice\nauthor-mail alice@x.com\nauthor-time 1700000000\nauthor-tz +0000\nsummary first change\nfilename demo.txt\n\tline one\nabc123 2 2\n\tline two\ndef456 3 3 1\nauthor Bob\nauthor-mail bob@x.com\nsummary second change\nfilename demo.txt\n\tline three\n";

#[test]
fn split_keeps_lines_in_order() {
    let lines = split_into_lines("a\nb\n\nc");
    assert_eq!(lines, vec!["a".to_string(), "b".to_string(), "".to_string(), "c".to_string()]);
    let trailing = split_into_lines("a\nb\n");
    assert_eq!(trailing, vec!["a".to_string(), "b".to_string()]);
    assert_eq!(split_into_lines(""), Vec::<String>::new());
}

#[test]
fn author_new_keeps_fields() {
    let a = Author::new("Alice", "alice@x.com");
    assert_eq!(a.name, "Alice");
    assert_eq!(a.mail, "alice@x.com");
}

#[test]
fn parse_empty_input_gives_no_records() {
    let recs = parse_blame("").unwrap();
    assert!(recs.is_empty());
}

#[test]
fn parse_three_records_one_per_content_line() {
    let recs = parse_blame(THREE_LINES).unwrap();
    assert_eq!(recs.len(), 3);
    assert_eq!(recs[0].hash, "abc123");
    assert!(recs[0].extra.is_some());
    let meta = recs[0].extra.as_ref().unwrap();
    assert_eq!(meta.author, "Alice");
    assert_eq!(meta.author_mail, "alice@x.com");
    assert_eq!(recs[1].hash, "abc123");
    assert!(recs[1].extra.is_none());
    assert_eq!(recs[2].hash, "def456");
    let meta2 = recs[2].extra.as_ref().unwrap();
    assert_eq!(meta2.author, "Bob");
    assert_eq!(meta2.author_mail, "bob@x.com");
}

#[test]
fn metadata_appears_only_on_first_sighting() {
    let recs = parse_blame(THREE_LINES).unwrap();
    let mut seen = Vec::new();
    for r in &recs {
        if r.extra.is_some() {
            assert!(!seen.contains(&r.hash), "duplicate metadata for {}", r.hash);
        } else {
            assert!(seen.contains(&r.hash), "bare sighting before metadata");
        }
        seen.push(r.hash.clone());
    }
}

#[test]
fn malformed_header_reports_line() {
    let err = parse_blame("xyz987 1 1\nauthor A\n\tx\n").unwrap_err();
    assert!(matches!(err, ParseError::MalformedHeader { line: 1 }));
    let err2 = parse_blame("abc123 1 1\nauthor A\nauthor-mail a@x\n\tx\nnonsense here\n")
        .unwrap_err();
    assert!(matches!(err2, ParseError::MalformedHeader { line: 5 }));
}

#[test]
fn unrecognized_metadata_line_is_rejected() {
    let err = parse_blame("abc123 1 1\nauthor A\nco-author B\n\tx\n").unwrap_err();
    assert!(matches!(err, ParseError::MalformedHeader { line: 3 }));
}

#[test]
fn incomplete_metadata_reports_line() {
    let err = parse_blame("abc123 1 1\nauthor Alice\n\tcontent\n").unwrap_err();
    assert!(matches!(err, ParseError::IncompleteMetadata { line: 3 }));
    let err2 = parse_blame("abc123 1 1\nauthor Alice").unwrap_err();
    assert!(matches!(err2, ParseError::IncompleteMetadata { line: 2 }));
}

#[test]
fn build_counts_lines_per_commit() {
    let recs = parse_blame(THREE_LINES).unwrap();
    let commits = build(&recs).unwrap();
    assert_eq!(commits.len(), 2);
    let total: usize = commits.iter().map(|c| c.num_lines).sum();
    assert_eq!(total, 3);
    let abc = commits.iter().find(|c| c.hash == "abc123").unwrap();
    assert_eq!(abc.num_lines, 2);
    assert_eq!(abc.author, "Alice");
    let def = commits.iter().find(|c| c.hash == "def456").unwrap();
    assert_eq!(def.num_lines, 1);
    assert_eq!(def.author, "Bob");
}

#[test]
fn missing_metadata_is_an_error_not_a_panic() {
    let text = "abc123 1 1\n\tcontent\n";
    let err = TrackedFile::from_raw_text("demo.txt".to_string(), text).unwrap_err();
    match err {
        BlameError::Aggregation(AggregationError::MissingMetadata { hash }) => {
            assert_eq!(hash, "abc123");
        }
        _ => panic!("expected a missing-metadata error"),
    }
}

#[test]
fn duplicate_metadata_is_detected_by_the_index() {
    let recs = vec![
        record("abc123", Some(("Alice", "alice@x.com"))),
        record("abc123", Some(("Alice", "alice@x.com"))),
    ];
    let err = build(&recs).unwrap_err();
    match err {
        AggregationError::DuplicateMetadata { hash } => assert_eq!(hash, "abc123"),
        _ => panic!("expected a duplicate-metadata error"),
    }
}

#[test]
fn round_trip_ranks_alice_before_bob() {
    let tf = TrackedFile::from_raw_text("demo.txt".to_string(), THREE_LINES).unwrap();
    assert_eq!(tf.path, "demo.txt");
    let ranked = aggregate(&tf.commits).unwrap();
    assert_eq!(ranked.len(), 2);
    assert_eq!(ranked[0].author.name, "Alice");
    assert_eq!(ranked[0].author.mail, "alice@x.com");
    assert_eq!(ranked[0].total_lines, 2);
    assert_eq!(ranked[0].commits.len(), 1);
    assert_eq!(ranked[1].author.name, "Bob");
    assert_eq!(ranked[1].author.mail, "bob@x.com");
    assert_eq!(ranked[1].total_lines, 1);
    assert_eq!(ranked[1].commits.len(), 1);
}

#[test]
fn aggregation_conserves_line_totals() {
    let commits = vec![
        commit("a1", "Alice", "alice@x.com", 4),
        commit("b2", "Bob", "bob@x.com", 2),
        commit("c3", "Alice", "alice@x.com", 5),
    ];
    let ranked = aggregate(&commits).unwrap();
    let total: usize = ranked.iter().map(|s| s.total_lines).sum();
    assert_eq!(total, 11);
    assert_eq!(ranked[0].author.name, "Alice");
    assert_eq!(ranked[0].total_lines, 9);
    assert_eq!(ranked[0].commits.len(), 2);
    assert_eq!(ranked[1].total_lines, 2);
    assert_eq!(ranked[1].commits.len(), 1);
}

#[test]
fn ties_are_ordered_by_name_then_mail_not_insertion() {
    let commits = vec![
        commit("a1", "zoe", "zoe@x.com", 5),
        commit("b2", "amy", "amy@x.com", 5),
        commit("c3", "amy", "amy@a.com", 5),
    ];
    let ranked = aggregate(&commits).unwrap();
    assert_eq!(ranked.len(), 3);
    assert_eq!(ranked[0].author.name, "amy");
    assert_eq!(ranked[0].author.mail, "amy@a.com");
    assert_eq!(ranked[1].author.name, "amy");
    assert_eq!(ranked[1].author.mail, "amy@x.com");
    assert_eq!(ranked[2].author.name, "zoe");
}

#[test]
fn aggregation_is_deterministic_across_runs() {
    let commits = vec![
        commit("a1", "zoe", "zoe@x.com", 5),
        commit("b2", "amy", "amy@x.com", 5),
        commit("c3", "bea", "bea@x.com", 7),
    ];
    let r1 = aggregate(&commits).unwrap();
    let r2 = aggregate(&commits).unwrap();
    assert_eq!(r1.len(), r2.len());
    for (s1, s2) in r1.iter().zip(r2.iter()) {
        assert_eq!(s1.author.name, s2.author.name);
        assert_eq!(s1.author.mail, s2.author.mail);
        assert_eq!(s1.total_lines, s2.total_lines);
        assert_eq!(s1.commits.len(), s2.commits.len());
    }
}

#[test]
fn same_name_different_mail_are_different_authors() {
    let commits = vec![
        commit("a1", "amy", "amy@x.com", 3),
        commit("b2", "amy", "amy@a.com", 3),
    ];
    let ranked = aggregate(&commits).unwrap();
    assert_eq!(ranked.len(), 2);
}

#[test]
fn boundary_and_previous_fields_are_skipped() {
    let text = "0f3b 1 1 1\nauthor Eve\nauthor-mail eve@x.com\nboundary\nprevious 12ab demo.txt\ncommitter Eve\ncommitter-mail eve@x.com\ncommitter-time 1700000001\ncommitter-tz +0100\n\tonly line\n";
    let tf = TrackedFile::from_raw_text("demo.txt".to_string(), text).unwrap();
    assert_eq!(tf.commits.len(), 1);
    assert_eq!(tf.commits[0].hash, "0f3b");
    assert_eq!(tf.commits[0].author, "Eve");
    assert_eq!(tf.commits[0].num_lines, 1);
}

#[test]
fn ranked_summaries_match_direct_aggregation() {
    let tf = TrackedFile::from_raw_text("demo.txt".to_string(), THREE_LINES).unwrap();
    let ranked = tf.ranked_summaries();
    assert_eq!(ranked.len(), 2);
    assert_eq!(ranked[0].author.name, "Alice");
    assert_eq!(ranked[0].total_lines, 2);
    assert_eq!(ranked[1].author.name, "Bob");
    assert_eq!(ranked[1].total_lines, 1);
}

#[test]
fn empty_text_gives_empty_table() {
    let tf = TrackedFile::from_raw_text("demo.txt".to_string(), "").unwrap();
    assert!(tf.commits.is_empty());
    let ranked = aggregate(&tf.commits).unwrap();
    assert!(ranked.is_empty());
}
