//! Splitting raw blame text into its lines.

use vstd::prelude::*;

verus! {

/// The lines of `t`, in order, separated by `'\n'`; no line contains a
/// newline, and one trailing newline adds no empty final line.
pub open spec fn split_lines(t: Seq<char>) -> Seq<Seq<char>>
    decreases t.len(),
{
    if t.len() == 0 {
        Seq::empty()
    } else if t[0] == '\n' {
        seq![Seq::<char>::empty()] + split_lines(t.skip(1))
    } else {
        let rest = split_lines(t.skip(1));
        if rest.len() == 0 {
            seq![seq![t[0]]]
        } else {
            seq![seq![t[0]] + rest[0]] + rest.skip(1)
        }
    }
}

/// `p` holds no newline character.
pub open spec fn no_newline(p: Seq<char>) -> bool {
    forall|k: int| 0 <= k < p.len() ==> p[k] != '\n'
}

proof fn lemma_split_lines_whole(p: Seq<char>)
    requires
        no_newline(p),
    ensures
        p.len() == 0 ==> split_lines(p) == Seq::<Seq<char>>::empty(),
        p.len() > 0 ==> split_lines(p) == seq![p],
    decreases p.len(),
{
    if p.len() > 0 {
        lemma_split_lines_whole(p.skip(1));
        if p.len() == 1 {
            assert(split_lines(p) =~= seq![p]) by {
                assert(p.skip(1).len() == 0);
                assert(seq![p[0]] =~= p);
            }
        } else {
            assert(p.skip(1).len() > 0);
            let rest = split_lines(p.skip(1));
            assert(rest == seq![p.skip(1)]);
            assert(seq![p[0]] + p.skip(1) =~= p);
            assert(split_lines(p) =~= seq![p]);
        }
    }
}

proof fn lemma_split_lines_step(p: Seq<char>, t: Seq<char>)
    requires
        no_newline(p),
    ensures
        split_lines(p + seq!['\n'] + t) == seq![p] + split_lines(t),
    decreases p.len(),
{
    let s = p + seq!['\n'] + t;
    if p.len() == 0 {
        assert(p =~= Seq::<char>::empty());
        assert(s =~= seq!['\n'] + t);
        assert(s[0] == '\n');
        assert(s.skip(1) =~= t);
        assert(split_lines(s) =~= seq![p] + split_lines(t));
    } else {
        assert(s[0] == p[0]);
        assert(s[0] != '\n');
        assert(s.skip(1) =~= p.skip(1) + seq!['\n'] + t);
        lemma_split_lines_step(p.skip(1), t);
        let rest = split_lines(s.skip(1));
        assert(rest == seq![p.skip(1)] + split_lines(t));
        assert(rest.len() > 0);
        assert(rest[0] == p.skip(1));
        assert(seq![s[0]] + rest[0] =~= p);
        assert(rest.skip(1) =~= split_lines(t));
        assert(split_lines(s) =~= seq![p] + split_lines(t));
    }
}

/// The views of a sequence of owned lines.
pub open spec fn line_views(s: Seq<String>) -> Seq<Seq<char>> {
    s.map_values(|l: String| l@)
}

/// Splits raw text into lines at `'\n'` separators.
pub fn split_into_lines(text: &str) -> (r: Vec<String>)
    ensures
        line_views(r@) == split_lines(text@),
{
    let n = text.unicode_len();
    let mut done: Vec<String> = Vec::new();
    let mut start: usize = 0;
    let mut i: usize = 0;
    proof {
        assert(text@.skip(0) =~= text@);
        assert(line_views(done@) + split_lines(text@) =~= split_lines(text@));
    }
    while i < n
        invariant
            0 <= start <= i <= n,
            n == text@.len(),
            forall|k: int| start <= k < i ==> text@[k] != '\n',
            split_lines(text@) == line_views(done@) + split_lines(text@.skip(start as int)),
        decreases n - i,
    {
        let c = text.get_char(i);
        if c == '\n' {
            let line = text.substring_char(start, i).to_owned();
            proof {
                let pp = text@.subrange(start as int, i as int);
                assert(no_newline(pp));
                assert(text@.skip(start as int) =~= pp + seq!['\n'] + text@.skip(i + 1));
                lemma_split_lines_step(pp, text@.skip(i + 1));
                assert(line_views(done@.push(line)) =~= line_views(done@) + seq![pp]);
                assert(line_views(done@) + (seq![pp] + split_lines(text@.skip(i + 1)))
                    =~= (line_views(done@) + seq![pp]) + split_lines(text@.skip(i + 1)));
            }
            done.push(line);
            start = i + 1;
        } else {
            proof {
                assert(text@[i as int] != '\n');
            }
        }
        i = i + 1;
    }
    if start < n {
        let line = text.substring_char(start, n).to_owned();
        proof {
            let pp = text@.subrange(start as int, n as int);
            assert(text@.skip(start as int) =~= pp);
            assert(no_newline(pp));
            lemma_split_lines_whole(pp);
            assert(line_views(done@.push(line)) =~= line_views(done@) + seq![pp]);
        }
        done.push(line);
    } else {
        proof {
            assert(text@.skip(start as int) =~= Seq::<char>::empty());
            lemma_split_lines_whole(text@.skip(start as int));
            assert(line_views(done@) + split_lines(text@.skip(start as int)) =~= line_views(
                done@,
            ));
        }
    }
    done
}

} // verus!
