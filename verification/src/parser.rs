//! Parsing raw blame text into line records.
//!
//! The raw format is line-oriented and stateful: every content line of the
//! blamed file is announced by a header line whose first token is the commit
//! identifier; on the first sighting of an identifier the header is followed
//! by a block of metadata fields, and the group is closed by the content
//! line itself (which begins with a tab). Later sightings of the same
//! identifier carry no metadata block.

use vstd::prelude::*;

use crate::lines::{line_views, split_into_lines, split_lines};
use crate::records::{LineRecord, LineRecordView, CommitMetadata, MetadataView, ParseError, record_views};

verus! {

/// A content line: the text of one line of the blamed file, marked by a tab.
pub open spec fn is_content(l: Seq<char>) -> bool {
    l.len() > 0 && l[0] == '\t'
}

/// A lowercase hexadecimal digit, the alphabet of commit identifiers.
pub open spec fn is_hex_char(c: char) -> bool {
    ('0' <= c && c <= '9') || ('a' <= c && c <= 'f')
}

/// The length of the first space-separated token of `l`.
pub open spec fn token_len(l: Seq<char>) -> int
    decreases l.len(),
{
    if l.len() == 0 {
        0
    } else if l[0] == ' ' {
        0
    } else {
        1 + token_len(l.skip(1))
    }
}

proof fn lemma_token_len_at(l: Seq<char>, j: int)
    requires
        0 <= j <= l.len(),
        forall|k: int| 0 <= k < j ==> l[k] != ' ',
        j == l.len() || l[j] == ' ',
    ensures
        token_len(l) == j,
    decreases j,
{
    if j == 0 {
    } else {
        assert(l[0] != ' ');
        let l2 = l.skip(1);
        assert(forall|k: int| 0 <= k < j - 1 ==> l2[k] == l[k + 1] && l2[k] != ' ');
        assert(j - 1 == l2.len() || l2[j - 1] == ' ');
        lemma_token_len_at(l2, j - 1);
    }
}

/// The commit identifier claimed by a header line: its first token.
pub open spec fn header_id(l: Seq<char>) -> Seq<char> {
    l.take(token_len(l))
}

/// A well-shaped commit identifier: non-empty, lowercase hexadecimal.
pub open spec fn is_valid_id(s: Seq<char>) -> bool {
    s.len() > 0 && forall|k: int| 0 <= k < s.len() ==> is_hex_char(s[k])
}

/// `p` is a prefix of `l`.
pub open spec fn is_prefix(p: Seq<char>, l: Seq<char>) -> bool {
    p.len() <= l.len() && l.take(p.len() as int) == p
}

/// A metadata field that the parser recognizes but whose value this core
/// does not use.
pub open spec fn is_skip_line(l: Seq<char>) -> bool {
    ||| is_prefix("author-time "@, l)
    ||| is_prefix("author-tz "@, l)
    ||| is_prefix("committer "@, l)
    ||| is_prefix("committer-mail "@, l)
    ||| is_prefix("committer-time "@, l)
    ||| is_prefix("committer-tz "@, l)
    ||| is_prefix("summary "@, l)
    ||| is_prefix("previous "@, l)
    ||| is_prefix("filename "@, l)
    ||| l == "boundary"@
}

/// Parser state: between groups, inside a first-sighting metadata block, or
/// expecting the content line of an already-seen commit.
pub ghost enum ParserMode {
    AwaitingHeader,
    AwaitingContent,
    InMetadataBlock { hash: Seq<char>, author: Option<Seq<char>>, mail: Option<Seq<char>> },
}

/// Full parser state: the mode plus the identifiers already seen with
/// their metadata.
pub ghost struct ParserState {
    pub mode: ParserMode,
    pub seen: Seq<Seq<char>>,
}

/// An identifier occurs among the seen ones.
pub open spec fn seen_contains(seen: Seq<Seq<char>>, h: Seq<char>) -> bool {
    exists|k: int| 0 <= k < seen.len() && seen[k] == h
}

/// The records that the rest of the input, from line `i` in state `st`,
/// parses to, or the first error. Line numbers in errors are 1-based.
pub open spec fn spec_parse_at(
    lines: Seq<Seq<char>>,
    i: int,
    st: ParserState,
) -> Result<Seq<LineRecordView>, ParseError>
    decreases lines.len() - i,
{
    if i < 0 || i >= lines.len() {
        match st.mode {
            ParserMode::AwaitingHeader => Ok(Seq::empty()),
            ParserMode::AwaitingContent => Err(
                ParseError::IncompleteMetadata { line: lines.len() as usize },
            ),
            ParserMode::InMetadataBlock { .. } => Err(
                ParseError::IncompleteMetadata { line: lines.len() as usize },
            ),
        }
    } else {
        let l = lines[i];
        match st.mode {
            ParserMode::AwaitingHeader => {
                if is_content(l) {
                    Err(ParseError::MalformedHeader { line: (i + 1) as usize })
                } else if !is_valid_id(header_id(l)) {
                    Err(ParseError::MalformedHeader { line: (i + 1) as usize })
                } else if seen_contains(st.seen, header_id(l)) {
                    match spec_parse_at(
                        lines,
                        i + 1,
                        ParserState { mode: ParserMode::AwaitingContent, seen: st.seen },
                    ) {
                        Ok(rest) => Ok(
                            seq![LineRecordView { hash: header_id(l), extra: None }] + rest,
                        ),
                        Err(e) => Err(e),
                    }
                } else {
                    spec_parse_at(
                        lines,
                        i + 1,
                        ParserState {
                            mode: ParserMode::InMetadataBlock {
                                hash: header_id(l),
                                author: None,
                                mail: None,
                            },
                            seen: st.seen,
                        },
                    )
                }
            },
            ParserMode::AwaitingContent => {
                if is_content(l) {
                    spec_parse_at(
                        lines,
                        i + 1,
                        ParserState { mode: ParserMode::AwaitingHeader, seen: st.seen },
                    )
                } else {
                    Err(ParseError::MalformedHeader { line: (i + 1) as usize })
                }
            },
            ParserMode::InMetadataBlock { hash, author, mail } => {
                if is_content(l) {
                    match (author, mail) {
                        (Some(a), Some(m)) => {
                            match spec_parse_at(
                                lines,
                                i + 1,
                                ParserState {
                                    mode: ParserMode::AwaitingHeader,
                                    seen: st.seen.push(hash),
                                },
                            ) {
                                Ok(rest) => Ok(
                                    seq![
                                        LineRecordView {
                                            hash: hash,
                                            extra: Some(
                                                MetadataView { author: a, author_mail: m },
                                            ),
                                        },
                                    ] + rest,
                                ),
                                Err(e) => Err(e),
                            }
                        },
                        (None, None) => {
                            match spec_parse_at(
                                lines,
                                i + 1,
                                ParserState { mode: ParserMode::AwaitingHeader, seen: st.seen },
                            ) {
                                Ok(rest) => Ok(
                                    seq![LineRecordView { hash: hash, extra: None }] + rest,
                                ),
                                Err(e) => Err(e),
                            }
                        },
                        _ => Err(ParseError::IncompleteMetadata { line: (i + 1) as usize }),
                    }
                } else if is_prefix("author "@, l) {
                    spec_parse_at(
                        lines,
                        i + 1,
                        ParserState {
                            mode: ParserMode::InMetadataBlock {
                                hash: hash,
                                author: Some(l.skip("author "@.len() as int)),
                                mail: mail,
                            },
                            seen: st.seen,
                        },
                    )
                } else if is_prefix("author-mail "@, l) {
                    spec_parse_at(
                        lines,
                        i + 1,
                        ParserState {
                            mode: ParserMode::InMetadataBlock {
                                hash: hash,
                                author: author,
                                mail: Some(l.skip("author-mail "@.len() as int)),
                            },
                            seen: st.seen,
                        },
                    )
                } else if is_skip_line(l) {
                    spec_parse_at(
                        lines,
                        i + 1,
                        ParserState {
                            mode: ParserMode::InMetadataBlock { hash: hash, author: author, mail: mail },
                            seen: st.seen,
                        },
                    )
                } else {
                    Err(ParseError::MalformedHeader { line: (i + 1) as usize })
                }
            },
        }
    }
}

/// What a whole raw blame text, already split into lines, parses to.
pub open spec fn spec_parse(lines: Seq<Seq<char>>) -> Result<Seq<LineRecordView>, ParseError> {
    spec_parse_at(
        lines,
        0,
        ParserState { mode: ParserMode::AwaitingHeader, seen: Seq::empty() },
    )
}

/// The number of content lines at or after position `i`.
pub open spec fn count_content_from(lines: Seq<Seq<char>>, i: int) -> int
    decreases lines.len() - i,
{
    if i < 0 || i >= lines.len() {
        0
    } else {
        (if is_content(lines[i]) {
            1int
        } else {
            0int
        }) + count_content_from(lines, i + 1)
    }
}

/// The number of content lines of the input.
pub open spec fn count_content(lines: Seq<Seq<char>>) -> int {
    count_content_from(lines, 0)
}

/// One record is owed for a group whose content line is still pending.
pub open spec fn content_debt(m: ParserMode) -> int {
    match m {
        ParserMode::AwaitingContent => 1,
        _ => 0,
    }
}

proof fn lemma_parse_at_count(lines: Seq<Seq<char>>, i: int, st: ParserState)
    requires
        0 <= i <= lines.len(),
    ensures
        spec_parse_at(lines, i, st) matches Ok(recs) ==> count_content_from(lines, i) == recs.len()
            + content_debt(st.mode),
    decreases lines.len() - i,
{
    if i < lines.len() {
        if let Ok(recs) = spec_parse_at(lines, i, st) {
            let l = lines[i];
            match st.mode {
                ParserMode::AwaitingHeader => {
                    if seen_contains(st.seen, header_id(l)) {
                        lemma_parse_at_count(
                            lines,
                            i + 1,
                            ParserState { mode: ParserMode::AwaitingContent, seen: st.seen },
                        );
                    } else {
                        lemma_parse_at_count(
                            lines,
                            i + 1,
                            ParserState {
                                mode: ParserMode::InMetadataBlock {
                                    hash: header_id(l),
                                    author: None,
                                    mail: None,
                                },
                                seen: st.seen,
                            },
                        );
                    }
                },
                ParserMode::AwaitingContent => {
                    lemma_parse_at_count(
                        lines,
                        i + 1,
                        ParserState { mode: ParserMode::AwaitingHeader, seen: st.seen },
                    );
                },
                ParserMode::InMetadataBlock { hash, author, mail } => {
                    if is_content(l) {
                        lemma_parse_at_count(
                            lines,
                            i + 1,
                            ParserState {
                                mode: ParserMode::AwaitingHeader,
                                seen: st.seen.push(hash),
                            },
                        );
                        lemma_parse_at_count(
                            lines,
                            i + 1,
                            ParserState { mode: ParserMode::AwaitingHeader, seen: st.seen },
                        );
                    } else if is_prefix("author "@, l) {
                        lemma_parse_at_count(
                            lines,
                            i + 1,
                            ParserState {
                                mode: ParserMode::InMetadataBlock {
                                    hash: hash,
                                    author: Some(l.skip("author "@.len() as int)),
                                    mail: mail,
                                },
                                seen: st.seen,
                            },
                        );
                    } else if is_prefix("author-mail "@, l) {
                        lemma_parse_at_count(
                            lines,
                            i + 1,
                            ParserState {
                                mode: ParserMode::InMetadataBlock {
                                    hash: hash,
                                    author: author,
                                    mail: Some(l.skip("author-mail "@.len() as int)),
                                },
                                seen: st.seen,
                            },
                        );
                    } else if is_skip_line(l) {
                        lemma_parse_at_count(
                            lines,
                            i + 1,
                            ParserState {
                                mode: ParserMode::InMetadataBlock {
                                    hash: hash,
                                    author: author,
                                    mail: mail,
                                },
                                seen: st.seen,
                            },
                        );
                    }
                },
            }
        }
    }
}

/// Every successful parse yields exactly one record per content line of
/// the input.
pub proof fn lemma_parse_line_count(lines: Seq<Seq<char>>)
    ensures
        spec_parse(lines) matches Ok(recs) ==> recs.len() == count_content(lines),
{
    lemma_parse_at_count(
        lines,
        0,
        ParserState { mode: ParserMode::AwaitingHeader, seen: Seq::empty() },
    );
}

/// The hash of a metadata block in progress, if any.
pub open spec fn block_hash(m: ParserMode) -> Option<Seq<char>> {
    match m {
        ParserMode::InMetadataBlock { hash, .. } => Some(hash),
        _ => None,
    }
}

proof fn lemma_parse_at_unique_meta(lines: Seq<Seq<char>>, i: int, st: ParserState)
    requires
        0 <= i <= lines.len(),
        block_hash(st.mode) matches Some(h) ==> !seen_contains(st.seen, h),
    ensures
        spec_parse_at(lines, i, st) matches Ok(recs) ==> (forall|k: int|
            0 <= k < recs.len() && recs[k].extra is Some ==> !seen_contains(
                st.seen,
                recs[k].hash,
            )) && (forall|k1: int, k2: int|
            0 <= k1 < k2 < recs.len() && recs[k1].extra is Some && recs[k2].extra is Some
                ==> recs[k1].hash != recs[k2].hash),
    decreases lines.len() - i,
{
    if i < lines.len() {
        if let Ok(recs) = spec_parse_at(lines, i, st) {
            let l = lines[i];
            match st.mode {
                ParserMode::AwaitingHeader => {
                    if seen_contains(st.seen, header_id(l)) {
                        let st2 = ParserState { mode: ParserMode::AwaitingContent, seen: st.seen };
                        lemma_parse_at_unique_meta(lines, i + 1, st2);
                        let rest = spec_parse_at(lines, i + 1, st2)->Ok_0;
                        assert(forall|k: int| 1 <= k < recs.len() ==> recs[k] == rest[k - 1]);
                    } else {
                        lemma_parse_at_unique_meta(
                            lines,
                            i + 1,
                            ParserState {
                                mode: ParserMode::InMetadataBlock {
                                    hash: header_id(l),
                                    author: None,
                                    mail: None,
                                },
                                seen: st.seen,
                            },
                        );
                    }
                },
                ParserMode::AwaitingContent => {
                    lemma_parse_at_unique_meta(
                        lines,
                        i + 1,
                        ParserState { mode: ParserMode::AwaitingHeader, seen: st.seen },
                    );
                },
                ParserMode::InMetadataBlock { hash, author, mail } => {
                    if is_content(l) {
                        if author is Some && mail is Some {
                            let seen2 = st.seen.push(hash);
                            let st2 = ParserState { mode: ParserMode::AwaitingHeader, seen: seen2 };
                            lemma_parse_at_unique_meta(lines, i + 1, st2);
                            let rest = spec_parse_at(lines, i + 1, st2)->Ok_0;
                            assert(forall|k: int| 1 <= k < recs.len() ==> recs[k] == rest[k - 1]);
                            assert(seen2[st.seen.len() as int] == hash);
                            assert forall|k: int|
                                0 <= k < recs.len() && recs[k].extra is Some implies !seen_contains(
                                st.seen,
                                recs[k].hash,
                            ) by {
                                if k > 0 {
                                    if seen_contains(st.seen, recs[k].hash) {
                                        let w = choose|w: int|
                                            0 <= w < st.seen.len() && st.seen[w] == recs[k].hash;
                                        assert(seen2[w] == recs[k].hash);
                                    }
                                }
                            }
                            assert forall|k2: int|
                                1 <= k2 < recs.len() && recs[k2].extra is Some implies recs[k2].hash
                                != hash by {
                                assert(!seen_contains(seen2, rest[k2 - 1].hash));
                            }
                        } else {
                            let st2 = ParserState {
                                mode: ParserMode::AwaitingHeader,
                                seen: st.seen,
                            };
                            lemma_parse_at_unique_meta(lines, i + 1, st2);
                            let rest = spec_parse_at(lines, i + 1, st2)->Ok_0;
                            assert(forall|k: int| 1 <= k < recs.len() ==> recs[k] == rest[k - 1]);
                        }
                    } else if is_prefix("author "@, l) {
                        lemma_parse_at_unique_meta(
                            lines,
                            i + 1,
                            ParserState {
                                mode: ParserMode::InMetadataBlock {
                                    hash: hash,
                                    author: Some(l.skip("author "@.len() as int)),
                                    mail: mail,
                                },
                                seen: st.seen,
                            },
                        );
                    } else if is_prefix("author-mail "@, l) {
                        lemma_parse_at_unique_meta(
                            lines,
                            i + 1,
                            ParserState {
                                mode: ParserMode::InMetadataBlock {
                                    hash: hash,
                                    author: author,
                                    mail: Some(l.skip("author-mail "@.len() as int)),
                                },
                                seen: st.seen,
                            },
                        );
                    } else if is_skip_line(l) {
                        lemma_parse_at_unique_meta(
                            lines,
                            i + 1,
                            ParserState {
                                mode: ParserMode::InMetadataBlock {
                                    hash: hash,
                                    author: author,
                                    mail: mail,
                                },
                                seen: st.seen,
                            },
                        );
                    }
                },
            }
        }
    }
}

/// The parser emits metadata at most once per commit identifier: no two
/// records of a successful parse both carry metadata for the same commit.
pub proof fn lemma_parse_unique_metadata(lines: Seq<Seq<char>>)
    ensures
        spec_parse(lines) matches Ok(recs) ==> forall|k1: int, k2: int|
            0 <= k1 < k2 < recs.len() && recs[k1].extra is Some && recs[k2].extra is Some
                ==> recs[k1].hash != recs[k2].hash,
{
    lemma_parse_at_unique_meta(
        lines,
        0,
        ParserState { mode: ParserMode::AwaitingHeader, seen: Seq::empty() },
    );
}

/// Exec mirror of [`ParserMode`].
enum Mode {
    AwaitingHeader,
    AwaitingContent,
    InMetadataBlock { hash: String, author: Option<String>, mail: Option<String> },
}

impl View for Mode {
    type V = ParserMode;

    closed spec fn view(&self) -> ParserMode {
        match self {
            Mode::AwaitingHeader => ParserMode::AwaitingHeader,
            Mode::AwaitingContent => ParserMode::AwaitingContent,
            Mode::InMetadataBlock { hash, author, mail } => ParserMode::InMetadataBlock {
                hash: hash@,
                author: match author {
                    Some(a) => Some(a@),
                    None => None,
                },
                mail: match mail {
                    Some(m) => Some(m@),
                    None => None,
                },
            },
        }
    }
}

/// Whether `l` is a content line.
fn is_content_line(l: &str) -> (b: bool)
    ensures
        b == is_content(l@),
{
    l.unicode_len() > 0 && l.get_char(0) == '\t'
}

/// Whether `p` is a prefix of `l`.
fn has_prefix(l: &str, p: &str) -> (b: bool)
    ensures
        b == is_prefix(p@, l@),
{
    let pl = p.unicode_len();
    let ll = l.unicode_len();
    if pl > ll {
        return false;
    }
    let mut j: usize = 0;
    while j < pl
        invariant
            j <= pl <= ll,
            pl == p@.len(),
            ll == l@.len(),
            forall|k: int| 0 <= k < j ==> l@[k] == p@[k],
        decreases pl - j,
    {
        if l.get_char(j) != p.get_char(j) {
            proof {
                if is_prefix(p@, l@) {
                    assert(l@.take(pl as int)[j as int] == l@[j as int]);
                }
            }
            return false;
        }
        j = j + 1;
    }
    proof {
        assert(l@.take(pl as int) =~= p@);
    }
    true
}

/// The remainder of `l` after the prefix `p`, as an owned string.
fn strip_prefix(l: &str, p: &str) -> (r: String)
    requires
        is_prefix(p@, l@),
    ensures
        r@ == l@.skip(p@.len() as int),
{
    let pl = p.unicode_len();
    let ll = l.unicode_len();
    proof {
        assert(l@.subrange(pl as int, ll as int) =~= l@.skip(pl as int));
    }
    l.substring_char(pl, ll).to_owned()
}

/// The header's commit identifier, when it is well shaped.
fn read_header_id(l: &str) -> (r: Option<String>)
    ensures
        match r {
            Some(id) => is_valid_id(header_id(l@)) && id@ == header_id(l@),
            None => !is_valid_id(header_id(l@)),
        },
{
    let ll = l.unicode_len();
    let mut j: usize = 0;
    loop
        invariant
            j <= ll,
            ll == l@.len(),
            forall|k: int| 0 <= k < j ==> l@[k] != ' ',
        ensures
            j <= ll,
            forall|k: int| 0 <= k < j ==> l@[k] != ' ',
            j == ll || l@[j as int] == ' ',
        decreases ll - j,
    {
        if j >= ll {
            break;
        }
        if l.get_char(j) == ' ' {
            break;
        }
        j = j + 1;
    }
    proof {
        lemma_token_len_at(l@, j as int);
    }
    if j == 0 {
        return None;
    }
    let mut k: usize = 0;
    while k < j
        invariant
            k <= j <= ll,
            ll == l@.len(),
            token_len(l@) == j,
            forall|m: int| 0 <= m < k ==> is_hex_char(header_id(l@)[m]),
        decreases j - k,
    {
        let c = l.get_char(k);
        let hex = ('0' <= c && c <= '9') || ('a' <= c && c <= 'f');
        proof {
            assert(header_id(l@)[k as int] == l@[k as int]);
        }
        if !hex {
            return None;
        }
        k = k + 1;
    }
    let id = l.substring_char(0, j).to_owned();
    proof {
        assert(id@ =~= header_id(l@));
    }
    Some(id)
}

/// Whether `l` is a recognized-but-ignored metadata field.
fn is_skippable_line(l: &str) -> (b: bool)
    ensures
        b == is_skip_line(l@),
{
    if has_prefix(l, "author-time ") {
        return true;
    }
    if has_prefix(l, "author-tz ") {
        return true;
    }
    if has_prefix(l, "committer ") {
        return true;
    }
    if has_prefix(l, "committer-mail ") {
        return true;
    }
    if has_prefix(l, "committer-time ") {
        return true;
    }
    if has_prefix(l, "committer-tz ") {
        return true;
    }
    if has_prefix(l, "summary ") {
        return true;
    }
    if has_prefix(l, "previous ") {
        return true;
    }
    if has_prefix(l, "filename ") {
        return true;
    }
    str_eq(l, "boundary")
}

/// Whether two string slices hold the same characters.
fn str_eq(l: &str, p: &str) -> (b: bool)
    ensures
        b == (l@ == p@),
{
    let same_len = l.unicode_len() == p.unicode_len();
    if same_len && has_prefix(l, p) {
        proof {
            assert(l@.take(p@.len() as int) =~= l@);
        }
        true
    } else {
        proof {
            if l@ == p@ {
                assert(is_prefix(p@, l@)) by {
                    assert(l@.take(p@.len() as int) =~= p@);
                }
            }
        }
        false
    }
}

/// Whether `h` occurs among the already-seen identifiers.
fn contains_hash(seen: &Vec<String>, h: &String) -> (b: bool)
    ensures
        b == seen_contains(line_views(seen@), h@),
{
    let n = seen.len();
    let mut k: usize = 0;
    while k < n
        invariant
            k <= n,
            n == seen@.len(),
            forall|m: int| 0 <= m < k ==> seen@[m]@ != h@,
        decreases n - k,
    {
        if (&seen[k]).eq(h) {
            proof {
                assert(line_views(seen@)[k as int] == h@);
            }
            return true;
        }
        k = k + 1;
    }
    proof {
        assert(forall|m: int| 0 <= m < seen@.len() ==> line_views(seen@)[m] == seen@[m]@);
    }
    false
}

/// Runs the two-phase blame state machine over the given lines,
/// producing one record per content line or the first error.
pub fn parse_lines(lines: &Vec<String>) -> (r: Result<Vec<LineRecord>, ParseError>)
    ensures
        match r {
            Ok(recs) => spec_parse(line_views(lines@)) == Ok::<
                Seq<LineRecordView>,
                ParseError,
            >(record_views(recs@)),
            Err(e) => spec_parse(line_views(lines@)) == Err::<Seq<LineRecordView>, ParseError>(e),
        },
{
    let ghost ls = line_views(lines@);
    let n = lines.len();
    let mut recs: Vec<LineRecord> = Vec::new();
    let mut seen: Vec<String> = Vec::new();
    let mut mode = Mode::AwaitingHeader;
    let mut i: usize = 0;
    proof {
        assert(record_views(recs@) =~= Seq::<LineRecordView>::empty());
        assert(line_views(seen@) =~= Seq::<Seq<char>>::empty());
    }
    while i < n
        invariant
            i <= n,
            n == lines@.len(),
            ls == line_views(lines@),
            match spec_parse_at(ls, i as int, ParserState { mode: mode@, seen: line_views(seen@) }) {
                Ok(rest) => spec_parse(ls) == Ok::<Seq<LineRecordView>, ParseError>(
                    record_views(recs@) + rest,
                ),
                Err(e) => spec_parse(ls) == Err::<Seq<LineRecordView>, ParseError>(e),
            },
        decreases n - i,
    {
        let l = &lines[i];
        proof {
            assert(ls[i as int] == l@);
        }
        let content = is_content_line(l.as_str());
        mode = match mode {
            Mode::AwaitingHeader => {
                if content {
                    return Err(ParseError::MalformedHeader { line: i + 1 });
                }
                match read_header_id(l.as_str()) {
                    None => {
                        return Err(ParseError::MalformedHeader { line: i + 1 });
                    },
                    Some(id) => {
                        if contains_hash(&seen, &id) {
                            let ghost old_recs = recs@;
                            recs.push(LineRecord { hash: id, extra: None });
                            proof {
                                let rv = LineRecordView { hash: header_id(l@), extra: None };
                                assert(record_views(recs@) =~= record_views(old_recs).push(rv));
                                if let Ok(rest) = spec_parse_at(
                                    ls,
                                    i + 1,
                                    ParserState {
                                        mode: ParserMode::AwaitingContent,
                                        seen: line_views(seen@),
                                    },
                                ) {
                                    assert(record_views(old_recs) + (seq![rv] + rest)
                                        =~= record_views(recs@) + rest);
                                }
                            }
                            Mode::AwaitingContent
                        } else {
                            Mode::InMetadataBlock { hash: id, author: None, mail: None }
                        }
                    },
                }
            },
            Mode::AwaitingContent => {
                if content {
                    Mode::AwaitingHeader
                } else {
                    return Err(ParseError::MalformedHeader { line: i + 1 });
                }
            },
            Mode::InMetadataBlock { hash, author, mail } => {
                if content {
                    match (author, mail) {
                        (Some(a), Some(m)) => {
                            let ghost old_recs = recs@;
                            let ghost old_seen = seen@;
                            let rec_hash = hash.clone();
                            seen.push(hash);
                            recs.push(
                                LineRecord {
                                    hash: rec_hash,
                                    extra: Some(CommitMetadata { author: a, author_mail: m }),
                                },
                            );
                            proof {
                                let hv = old_seen.len() as int;
                                let rv = recs@[recs@.len() - 1]@;
                                assert(record_views(recs@) =~= record_views(old_recs).push(rv));
                                assert(line_views(seen@) =~= line_views(old_seen).push(
                                    seen@[seen@.len() - 1]@,
                                ));
                                if let Ok(rest) = spec_parse_at(
                                    ls,
                                    i + 1,
                                    ParserState {
                                        mode: ParserMode::AwaitingHeader,
                                        seen: line_views(seen@),
                                    },
                                ) {
                                    assert(record_views(old_recs) + (seq![rv] + rest)
                                        =~= record_views(recs@) + rest);
                                }
                            }
                            Mode::AwaitingHeader
                        },
                        (None, None) => {
                            let ghost old_recs = recs@;
                            recs.push(LineRecord { hash: hash, extra: None });
                            proof {
                                let rv = recs@[recs@.len() - 1]@;
                                assert(record_views(recs@) =~= record_views(old_recs).push(rv));
                                if let Ok(rest) = spec_parse_at(
                                    ls,
                                    i + 1,
                                    ParserState {
                                        mode: ParserMode::AwaitingHeader,
                                        seen: line_views(seen@),
                                    },
                                ) {
                                    assert(record_views(old_recs) + (seq![rv] + rest)
                                        =~= record_views(recs@) + rest);
                                }
                            }
                            Mode::AwaitingHeader
                        },
                        _ => {
                            return Err(ParseError::IncompleteMetadata { line: i + 1 });
                        },
                    }
                } else if has_prefix(l.as_str(), "author ") {
                    let v = strip_prefix(l.as_str(), "author ");
                    Mode::InMetadataBlock { hash, author: Some(v), mail }
                } else if has_prefix(l.as_str(), "author-mail ") {
                    let v = strip_prefix(l.as_str(), "author-mail ");
                    Mode::InMetadataBlock { hash, author, mail: Some(v) }
                } else if is_skippable_line(l.as_str()) {
                    Mode::InMetadataBlock { hash, author, mail }
                } else {
                    return Err(ParseError::MalformedHeader { line: i + 1 });
                }
            },
        };
        i = i + 1;
    }
    match mode {
        Mode::AwaitingHeader => {
            proof {
                assert(spec_parse(ls) == Ok::<Seq<LineRecordView>, ParseError>(
                    record_views(recs@) + Seq::<LineRecordView>::empty(),
                ));
                assert(record_views(recs@) + Seq::<LineRecordView>::empty() =~= record_views(
                    recs@,
                ));
            }
            Ok(recs)
        },
        _ => Err(ParseError::IncompleteMetadata { line: n }),
    }
}

/// Parses a whole raw blame text: splits it into lines and runs the
/// state machine over them.
pub fn parse_blame(text: &str) -> (r: Result<Vec<LineRecord>, ParseError>)
    ensures
        match r {
            Ok(recs) => spec_parse(split_lines(text@)) == Ok::<
                Seq<LineRecordView>,
                ParseError,
            >(record_views(recs@)),
            Err(e) => spec_parse(split_lines(text@)) == Err::<Seq<LineRecordView>, ParseError>(e),
        },
{
    let lines = split_into_lines(text);
    parse_lines(&lines)
}

} // verus!
