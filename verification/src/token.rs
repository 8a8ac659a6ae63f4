//! Splitting a raw input line into tokens.
//!
//! A token is a maximal run of characters containing neither whitespace nor
//! the sequencing character `;`. Whitespace only separates tokens; `;`
//! separates them too, but is itself emitted as a one-character token, so
//! that `ls; echo` and `ls ; echo` tokenize alike. Leading and trailing
//! separators produce no tokens, so an empty or all-whitespace line
//! tokenizes to the empty sequence. Tokenizing cannot fail.

use vstd::prelude::*;

verus! {

/// The whitespace characters; a run of them ends a token.
pub open spec fn is_space(c: char) -> bool {
    c == ' ' || c == '\t' || c == '\r' || c == '\n'
}

/// A character that ends a token: whitespace, or the sequencing character,
/// which moreover stands as a token of its own.
pub open spec fn is_delimiter(c: char) -> bool {
    is_space(c) || c == ';'
}

/// The tokens of a line: its maximal runs of non-delimiter characters, in
/// order, with each `;` as a one-character token of its own.
pub open spec fn spec_tokenize(s: Seq<char>) -> Seq<Seq<char>>
    decreases s.len(),
{
    if s.len() == 0 {
        Seq::empty()
    } else {
        let prefix = spec_tokenize(s.drop_last());
        let c = s.last();
        if is_space(c) {
            prefix
        } else if c == ';' {
            prefix.push(seq![';'])
        } else if s.len() >= 2 && !is_delimiter(s[s.len() - 2]) {
            prefix.update(prefix.len() - 1, prefix.last().push(c))
        } else {
            prefix.push(seq![c])
        }
    }
}

/// A well-formed token: non-empty, and either the sequencing token itself
/// or free of delimiter characters.
pub open spec fn token_wf(t: Seq<char>) -> bool {
    t.len() > 0 && (t == seq![';'] || forall|i: int|
        0 <= i < t.len() ==> !is_delimiter(#[trigger] t[i]))
}

fn is_space_char(c: char) -> (b: bool)
    ensures
        b == is_space(c),
{
    c == ' ' || c == '\t' || c == '\r' || c == '\n'
}

/// Splits a line into its tokens.
pub fn tokenize(line: &str) -> (toks: Vec<String>)
    ensures
        toks.deep_view() == spec_tokenize(line@),
{
    let n = line.unicode_len();
    let mut toks: Vec<String> = Vec::new();
    let mut i: usize = 0;
    let mut start: usize = 0;
    let mut in_tok: bool = false;
    while i < n
        invariant
            n == line@.len(),
            i <= n,
            in_tok ==> start < i,
            in_tok ==> !is_delimiter(line@[i - 1]),
            !in_tok ==> i == 0 || is_delimiter(line@[i - 1]),
            !in_tok ==> toks.deep_view() == spec_tokenize(line@.subrange(0, i as int)),
            in_tok ==> spec_tokenize(line@.subrange(0, i as int)) == toks.deep_view().push(
                line@.subrange(start as int, i as int),
            ),
        decreases n - i,
    {
        let ghost p = line@.subrange(0, i as int);
        let ghost p1 = line@.subrange(0, i + 1 as int);
        proof {
            assert(p1.drop_last() =~= p);
        }
        let c = line.get_char(i);
        if is_space_char(c) {
            if in_tok {
                let t = line.substring_char(start, i);
                let owned = t.to_owned();
                toks.push(owned);
                proof {
                    assert(toks.deep_view() =~= spec_tokenize(p1));
                }
                in_tok = false;
            }
        } else if c == ';' {
            if in_tok {
                let t = line.substring_char(start, i);
                let owned = t.to_owned();
                toks.push(owned);
                in_tok = false;
            }
            let semi = line.substring_char(i, i + 1);
            let owned_semi = semi.to_owned();
            proof {
                assert(owned_semi@ =~= seq![';']);
            }
            toks.push(owned_semi);
            proof {
                assert(toks.deep_view() =~= spec_tokenize(p1));
            }
        } else {
            if !in_tok {
                start = i;
                in_tok = true;
                proof {
                    assert(line@.subrange(start as int, i + 1 as int) =~= seq![line@[i as int]]);
                }
            } else {
                proof {
                    assert(line@.subrange(start as int, i + 1 as int) =~= line@.subrange(
                        start as int,
                        i as int,
                    ).push(line@[i as int]));
                }
            }
        }
        i = i + 1;
    }
    proof {
        assert(line@.subrange(0, n as int) =~= line@);
    }
    if in_tok {
        let t = line.substring_char(start, n);
        let owned = t.to_owned();
        toks.push(owned);
        proof {
            assert(toks.deep_view() =~= spec_tokenize(line@));
        }
    }
    toks
}

/// The tokens joined back into one line, with a single space between
/// neighbours.
pub open spec fn spec_join(ts: Seq<Seq<char>>) -> Seq<char>
    decreases ts.len(),
{
    if ts.len() == 0 {
        Seq::empty()
    } else if ts.len() == 1 {
        ts[0]
    } else {
        spec_join(ts.drop_last()) + seq![' '] + ts.last()
    }
}

/// Appending a whitespace character leaves the tokens unchanged.
pub proof fn lemma_tokenize_push_space(s: Seq<char>, c: char)
    requires
        is_space(c),
    ensures
        spec_tokenize(s.push(c)) == spec_tokenize(s),
{
    assert(s.push(c).drop_last() =~= s);
}

/// Appending a well-formed token to a line that is empty or ends in
/// whitespace appends exactly that token to the token sequence.
pub proof fn lemma_tokenize_append_token(s: Seq<char>, t: Seq<char>)
    requires
        token_wf(t),
        s.len() == 0 || is_space(s.last()),
    ensures
        spec_tokenize(s + t) == spec_tokenize(s).push(t),
    decreases t.len(),
{
    let w = s + t;
    if t.len() == 1 {
        assert(w.drop_last() =~= s);
        if t[0] == ';' {
            assert(seq![';'] =~= t);
        } else {
            assert(!is_delimiter(t[0]));
            assert(seq![t[0]] =~= t);
        }
    } else {
        let t0 = t.drop_last();
        let c = t.last();
        assert(t != seq![';']);
        assert(!is_delimiter(c));
        assert(token_wf(t0)) by {
            assert(forall|i: int| 0 <= i < t0.len() ==> t0[i] == t[i]);
        }
        lemma_tokenize_append_token(s, t0);
        assert(w.drop_last() =~= s + t0);
        assert(w.len() >= 2 && !is_delimiter(w[w.len() - 2])) by {
            assert(w[w.len() - 2] == t[t.len() - 2]);
        }
        let prefix = spec_tokenize(s).push(t0);
        assert(spec_tokenize(w) == prefix.update(prefix.len() - 1, prefix.last().push(c)));
        assert(prefix.last() == t0);
        assert(t0.push(c) =~= t);
        assert(prefix.update(prefix.len() - 1, t) =~= spec_tokenize(s).push(t));
    }
}

/// Joining well-formed tokens with single spaces and tokenizing the result
/// gives back exactly those tokens.
pub proof fn lemma_tokenize_join(ts: Seq<Seq<char>>)
    requires
        forall|i: int| 0 <= i < ts.len() ==> token_wf(#[trigger] ts[i]),
    ensures
        spec_tokenize(spec_join(ts)) == ts,
    decreases ts.len(),
{
    if ts.len() == 0 {
        assert(spec_tokenize(spec_join(ts)) =~= ts);
    } else if ts.len() == 1 {
        assert(Seq::<char>::empty() + ts[0] =~= ts[0]);
        lemma_tokenize_append_token(Seq::empty(), ts[0]);
        assert(spec_tokenize(ts[0]) =~= ts);
    } else {
        let front = ts.drop_last();
        let j = spec_join(front);
        lemma_tokenize_join(front);
        assert(j + seq![' '] =~= j.push(' '));
        lemma_tokenize_push_space(j, ' ');
        lemma_tokenize_append_token(j + seq![' '], ts.last());
        assert((j + seq![' ']) + ts.last() =~= spec_join(ts));
        assert(front.push(ts.last()) =~= ts);
    }
}

/// Tokenizing is idempotent across a single-space re-join: joining a line's
/// tokens with single spaces and tokenizing again reproduces the same token
/// sequence.
pub proof fn lemma_tokenize_idempotent(s: Seq<char>)
    ensures
        spec_tokenize(spec_join(spec_tokenize(s))) == spec_tokenize(s),
{
    lemma_tokenize_wf(s);
    lemma_tokenize_join(spec_tokenize(s));
}

/// Joins tokens back into one line with a single space between neighbours.
pub fn join_tokens(toks: &Vec<String>) -> (s: String)
    ensures
        s@ == spec_join(toks.deep_view()),
{
    let ghost ts = toks.deep_view();
    let mut s = String::new();
    let mut i: usize = 0;
    while i < toks.len()
        invariant
            toks.deep_view() == ts,
            ts.len() == toks.len(),
            i <= toks.len(),
            s@ == spec_join(ts.subrange(0, i as int)),
        decreases toks.len() - i,
    {
        let ghost p = ts.subrange(0, i as int);
        let ghost p1 = ts.subrange(0, i + 1 as int);
        proof {
            assert(p1.drop_last() =~= p);
            reveal_strlit(" ");
        }
        if i > 0 {
            s.append(" ");
        }
        s.append(toks[i].as_str());
        proof {
            assert(s@ =~= spec_join(p1));
        }
        i = i + 1;
    }
    proof {
        assert(ts.subrange(0, toks.len() as int) =~= ts);
    }
    s
}

/// After a character that is not a delimiter, there is at least one token,
/// and the last token is non-empty and ends in that character.
pub proof fn lemma_tokenize_end_nonempty(s: Seq<char>)
    requires
        s.len() > 0,
        !is_delimiter(s.last()),
    ensures
        spec_tokenize(s).len() > 0,
        spec_tokenize(s).last().len() > 0,
        spec_tokenize(s).last().last() == s.last(),
    decreases s.len(),
{
    if s.len() >= 2 && !is_delimiter(s[s.len() - 2]) {
        lemma_tokenize_end_nonempty(s.drop_last());
    }
}

/// Every token produced by tokenizing is well-formed.
pub proof fn lemma_tokenize_wf(s: Seq<char>)
    ensures
        forall|i: int| 0 <= i < spec_tokenize(s).len() ==> token_wf(#[trigger] spec_tokenize(s)[i]),
    decreases s.len(),
{
    if s.len() > 0 {
        let prefix = spec_tokenize(s.drop_last());
        let c = s.last();
        lemma_tokenize_wf(s.drop_last());
        assert forall|i: int| 0 <= i < spec_tokenize(s).len() implies token_wf(
            #[trigger] spec_tokenize(s)[i],
        ) by {
            if !is_delimiter(c) && s.len() >= 2 && !is_delimiter(s[s.len() - 2]) {
                lemma_tokenize_end_nonempty(s.drop_last());
                assert(token_wf(prefix[prefix.len() - 1]));
                if i == prefix.len() - 1 {
                    let t = prefix.last().push(c);
                    assert(prefix.last().last() == s[s.len() - 2]);
                    assert(prefix.last() != seq![';']);
                    assert forall|k: int| 0 <= k < t.len() implies !is_delimiter(
                        #[trigger] t[k],
                    ) by {
                        if k < prefix.last().len() {
                            assert(!is_delimiter(prefix.last()[k]));
                        }
                    }
                } else {
                    assert(token_wf(prefix[i]));
                }
            } else {
                if i < prefix.len() {
                    assert(token_wf(prefix[i]));
                }
            }
        }
    }
}

/// A line of nothing but whitespace has no tokens.
pub proof fn lemma_tokenize_all_space(s: Seq<char>)
    requires
        forall|i: int| 0 <= i < s.len() ==> is_space(#[trigger] s[i]),
    ensures
        spec_tokenize(s) == Seq::<Seq<char>>::empty(),
    decreases s.len(),
{
    if s.len() > 0 {
        lemma_tokenize_all_space(s.drop_last());
    }
}

} // verus!
