//! Tokenizing input lines: a token is a maximal run of word
//! characters (letters, digits, underscore); all other characters
//! separate tokens. Also the parsing of two-token query lines.

use vstd::prelude::*;

use crate::GraphError;

verus! {

/// Whether `c` is a word character: an ASCII letter, digit or underscore.
pub open spec fn is_word_char(c: char) -> bool {
    ||| 'a' as u32 <= c as u32 && c as u32 <= 'z' as u32
    ||| 'A' as u32 <= c as u32 && c as u32 <= 'Z' as u32
    ||| '0' as u32 <= c as u32 && c as u32 <= '9' as u32
    ||| c == '_'
}

/// The length of the longest word-character prefix of `s`.
pub open spec fn word_prefix_len(s: Seq<char>) -> int
    decreases s.len(),
{
    if s.len() == 0 || !is_word_char(s[0]) {
        0
    } else {
        1 + word_prefix_len(s.drop_first())
    }
}

/// The word prefix spans exactly the leading word characters.
pub proof fn lemma_word_prefix_len_bounds(s: Seq<char>)
    ensures
        0 <= word_prefix_len(s) <= s.len(),
        forall |k: int| 0 <= k < word_prefix_len(s) ==> is_word_char(#[trigger] s[k]),
        word_prefix_len(s) < s.len() ==> !is_word_char(s[word_prefix_len(s)]),
    decreases s.len(),
{
    if s.len() > 0 && is_word_char(s[0]) {
        lemma_word_prefix_len_bounds(s.drop_first());
        assert forall |k: int| 0 <= k < word_prefix_len(s) implies is_word_char(#[trigger] s[k]) by {
            if k > 0 {
                assert(is_word_char(s.drop_first()[k - 1]));
            }
        }
    }
}

/// The word prefix length is determined by the characters alone.
pub proof fn lemma_word_prefix_len_exact(s: Seq<char>, t: int)
    requires
        0 <= t <= s.len(),
        forall |k: int| 0 <= k < t ==> is_word_char(#[trigger] s[k]),
        t == s.len() || !is_word_char(s[t]),
    ensures
        word_prefix_len(s) == t,
    decreases s.len(),
{
    if t == 0 {
    } else {
        assert(is_word_char(s[0]));
        let rest = s.drop_first();
        assert forall |k: int| 0 <= k < t - 1 implies is_word_char(#[trigger] rest[k]) by {
            assert(rest[k] == s[k + 1]);
        }
        if t - 1 < rest.len() {
            assert(rest[t - 1] == s[t]);
        }
        lemma_word_prefix_len_exact(rest, t - 1);
    }
}

/// The tokens of `s`: its maximal runs of word characters, in order.
pub open spec fn tokens_of(s: Seq<char>) -> Seq<Seq<char>>
    decreases s.len(),
    via tokens_of_decreases
{
    if s.len() == 0 {
        Seq::empty()
    } else if !is_word_char(s[0]) {
        tokens_of(s.drop_first())
    } else {
        let t = word_prefix_len(s);
        seq![s.subrange(0, t)] + tokens_of(s.subrange(t, s.len() as int))
    }
}

#[via_fn]
proof fn tokens_of_decreases(s: Seq<char>) {
    if s.len() > 0 && is_word_char(s[0]) {
        lemma_word_prefix_len_bounds(s);
    }
}

/// Whether `c` is a word character.
fn word_char(c: char) -> (r: bool)
    ensures
        r == is_word_char(c),
{
    let u = c as u32;
    ('a' as u32 <= u && u <= 'z' as u32)
        || ('A' as u32 <= u && u <= 'Z' as u32)
        || ('0' as u32 <= u && u <= '9' as u32)
        || u == '_' as u32
}

/// Splits a line into its word tokens.
pub fn tokenize(line: &str) -> (r: Vec<String>)
    ensures
        r.deep_view() == tokens_of(line@),
{
    let n = line.unicode_len();
    let mut toks: Vec<String> = Vec::new();
    let mut i: usize = 0;
    proof {
        assert(line@.subrange(0, n as int) =~= line@);
        assert(toks.deep_view() + tokens_of(line@) =~= tokens_of(line@));
    }
    while i < n
        invariant
            n == line@.len(),
            i <= n,
            toks.deep_view() + tokens_of(line@.subrange(i as int, n as int)) == tokens_of(line@),
            i == 0 || i == n || !is_word_char(line@[i - 1]) || !is_word_char(line@[i as int]),
        decreases n - i,
    {
        let ghost pre = toks.deep_view();
        let ghost suffix = line@.subrange(i as int, n as int);
        let c = line.get_char(i);
        if !word_char(c) {
            i = i + 1;
            proof {
                assert(suffix[0] == c);
                assert(suffix.drop_first() =~= line@.subrange(i as int, n as int));
            }
        } else {
            let start = i;
            i = i + 1;
            while i < n && word_char(line.get_char(i))
                invariant
                    n == line@.len(),
                    start < i <= n,
                    forall |k: int| start <= k < i ==> is_word_char(#[trigger] line@[k]),
                decreases n - i,
            {
                i = i + 1;
            }
            let tok = line.substring_char(start, i).to_owned();
            toks.push(tok);
            proof {
                assert(is_word_char(suffix[0])) by {
                    assert(suffix[0] == line@[start as int]);
                }
                let t = i - start;
                assert forall |k: int| 0 <= k < t implies is_word_char(#[trigger] suffix[k]) by {
                    assert(suffix[k] == line@[start + k]);
                }
                if t < suffix.len() {
                    assert(suffix[t] == line@[i as int]);
                }
                lemma_word_prefix_len_exact(suffix, t);
                assert(suffix.subrange(0, t) =~= line@.subrange(start as int, i as int));
                assert(suffix.subrange(t, suffix.len() as int)
                    =~= line@.subrange(i as int, n as int));
                assert(tokens_of(suffix) == seq![suffix.subrange(0, t)]
                    + tokens_of(line@.subrange(i as int, n as int)));
                assert(toks.deep_view() =~= pre + seq![line@.subrange(start as int, i as int)]);
                assert(toks.deep_view() + tokens_of(line@.subrange(i as int, n as int))
                    =~= pre + tokens_of(suffix));
            }
        }
    }
    proof {
        assert(line@.subrange(i as int, n as int) =~= Seq::<char>::empty());
        assert(toks.deep_view() + tokens_of(line@.subrange(i as int, n as int))
            =~= toks.deep_view());
    }
    toks
}

/// Splits a query line into its two node names; a line with any other
/// token count is a malformed query.
pub fn parse_query(line: &str) -> (r: Result<(String, String), GraphError>)
    ensures
        match r {
            Ok(pair) => {
                &&& tokens_of(line@).len() == 2
                &&& pair.0@ == tokens_of(line@)[0]
                &&& pair.1@ == tokens_of(line@)[1]
            },
            Err(e) => {
                &&& e == GraphError::MalformedQuery
                &&& tokens_of(line@).len() != 2
            },
        },
{
    let mut toks = tokenize(line);
    if toks.len() == 2 {
        let finish = toks.pop().unwrap();
        let start = toks.pop().unwrap();
        proof {
            assert(start@ == tokens_of(line@)[0] && finish@ == tokens_of(line@)[1]);
        }
        Ok((start, finish))
    } else {
        Err(GraphError::MalformedQuery)
    }
}

/// The names joined by single spaces.
pub open spec fn join_spaces(q: Seq<Seq<char>>) -> Seq<char>
    decreases q.len(),
{
    if q.len() == 0 {
        Seq::empty()
    } else if q.len() == 1 {
        q[0]
    } else {
        q[0] + seq![' '] + join_spaces(q.drop_first())
    }
}

/// Appending one more name extends the joined text by a space and the name.
proof fn lemma_join_spaces_push(s: Seq<Seq<char>>, x: Seq<char>)
    ensures
        join_spaces(s.push(x)) == if s.len() == 0 {
            x
        } else {
            join_spaces(s) + seq![' '] + x
        },
    decreases s.len(),
{
    let q = s.push(x);
    if s.len() == 0 {
        assert(q.len() == 1 && q[0] == x);
    } else if s.len() == 1 {
        assert(q.drop_first() =~= seq![x]);
        assert(join_spaces(seq![x]) == x);
        assert(join_spaces(q) == q[0] + seq![' '] + x);
        assert(join_spaces(s) == s[0]);
        assert(q[0] == s[0]);
    } else {
        assert(q.drop_first() =~= s.drop_first().push(x));
        lemma_join_spaces_push(s.drop_first(), x);
        assert(q[0] == s[0]);
        assert(join_spaces(q) == s[0] + seq![' ']
            + (join_spaces(s.drop_first()) + seq![' '] + x));
        assert(s[0] + seq![' '] + (join_spaces(s.drop_first()) + seq![' '] + x)
            =~= (s[0] + seq![' '] + join_spaces(s.drop_first())) + seq![' '] + x);
    }
}

/// Joins node names with single spaces.
fn join_names(p: &Vec<String>) -> (out: String)
    ensures
        out@ == join_spaces(p.deep_view()),
{
    let mut out = String::new();
    let n = p.len();
    let mut i: usize = 0;
    proof {
        reveal_strlit(" ");
        assert(" "@ =~= seq![' ']);
        assert(p.deep_view().subrange(0, 0) =~= Seq::<Seq<char>>::empty());
    }
    while i < n
        invariant
            n == p@.len(),
            i <= n,
            " "@ == seq![' '],
            out@ == join_spaces(p.deep_view().subrange(0, i as int)),
        decreases n - i,
    {
        if i > 0 {
            out.append(" ");
        }
        out.append(p[i].as_str());
        proof {
            let pre = p.deep_view().subrange(0, i as int);
            let post = p.deep_view().subrange(0, i + 1 as int);
            assert(post =~= pre.push(p.deep_view()[i as int]));
            lemma_join_spaces_push(pre, p.deep_view()[i as int]);
            assert(p@[i as int]@ == p.deep_view()[i as int]);
        }
        i = i + 1;
    }
    proof {
        assert(p.deep_view().subrange(0, n as int) =~= p.deep_view());
    }
    out
}

/// Renders a query result as the one line reported for it: the path
/// names space-joined, a fixed message when no path exists, or the
/// error's message.
pub fn format_result(r: &Result<Option<Vec<String>>, GraphError>) -> (out: String)
    ensures
        match r {
            Ok(Some(p)) => out@ == join_spaces(p.deep_view()),
            Ok(None) => out@ == "There is no path between these nodes."@,
            Err(GraphError::UnknownNode) =>
                out@ == "Invalid node choice. At least one node does not exist."@,
            Err(GraphError::MalformedQuery) =>
                out@ == "Invalid number of nodes. Please input 2 nodes."@,
        },
{
    match r {
        Ok(Some(p)) => join_names(p),
        Ok(None) => "There is no path between these nodes.".to_owned(),
        Err(GraphError::UnknownNode) =>
            "Invalid node choice. At least one node does not exist.".to_owned(),
        Err(GraphError::MalformedQuery) =>
            "Invalid number of nodes. Please input 2 nodes.".to_owned(),
    }
}

} // verus!
