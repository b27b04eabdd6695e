//! Splitting raw text into lines and lines into whitespace-delimited tokens.

use vstd::prelude::*;
use crate::classify::{is_space, exec_is_space, spec_display, spec_inherent, normalize_token,
    NormalizedToken};

verus! {

/// Length of the maximal non-whitespace prefix of `s`.
pub open spec fn token_len(s: Seq<char>) -> nat
    decreases s.len(),
{
    if s.len() == 0 || is_space(s[0]) {
        0
    } else {
        1 + token_len(s.drop_first())
    }
}

/// The whitespace-delimited tokens of `s`, in order, empty segments
/// discarded.
pub open spec fn spec_tokenize(s: Seq<char>) -> Seq<Seq<char>>
    decreases s.len(),
    via spec_tokenize_decreases
{
    if s.len() == 0 {
        Seq::empty()
    } else if is_space(s[0]) {
        spec_tokenize(s.drop_first())
    } else {
        seq![s.take(token_len(s) as int)] + spec_tokenize(s.skip(token_len(s) as int))
    }
}

#[via_fn]
proof fn spec_tokenize_decreases(s: Seq<char>) {
    if s.len() > 0 && !is_space(s[0]) {
        assert(token_len(s) >= 1);
        lemma_token_len_bound(s);
    }
}

proof fn lemma_token_len_bound(s: Seq<char>)
    ensures
        token_len(s) <= s.len(),
    decreases s.len(),
{
    if s.len() > 0 && !is_space(s[0]) {
        lemma_token_len_bound(s.drop_first());
    }
}

fn exec_token_len(s: &str, i: usize) -> (r: usize)
    requires
        i <= s@.len(),
    ensures
        r == token_len(s@.skip(i as int)),
        i + r <= s@.len(),
    decreases s@.len() - i,
{
    proof {
        lemma_token_len_bound(s@.skip(i as int));
    }
    let n = s.unicode_len();
    if i == n {
        return 0;
    }
    if exec_is_space(s.get_char(i)) {
        return 0;
    }
    proof {
        assert(s@.skip(i as int).drop_first() =~= s@.skip(i + 1));
    }
    let rest = exec_token_len(s, i + 1);
    1 + rest
}

fn tokenize_from(s: &str, i: usize) -> (r: Vec<String>)
    requires
        i <= s@.len(),
    ensures
        r.deep_view() == spec_tokenize(s@.skip(i as int)),
    decreases s@.len() - i,
{
    let n = s.unicode_len();
    if i == n {
        let r: Vec<String> = Vec::new();
        proof {
            assert(r.deep_view() =~~= spec_tokenize(s@.skip(i as int)));
        }
        return r;
    }
    if exec_is_space(s.get_char(i)) {
        let r = tokenize_from(s, i + 1);
        proof {
            assert(s@.skip(i as int).drop_first() =~= s@.skip(i + 1));
        }
        return r;
    }
    let tl = exec_token_len(s, i);
    let tok = s.substring_char(i, i + tl).to_owned();
    let rest = tokenize_from(s, i + tl);
    let mut r: Vec<String> = Vec::new();
    r.push(tok);
    let mut rest = rest;
    r.append(&mut rest);
    proof {
        assert(s@.skip(i as int).take(token_len(s@.skip(i as int)) as int) =~= s@.subrange(
            i as int,
            i + tl,
        ));
        assert(s@.skip(i as int).skip(token_len(s@.skip(i as int)) as int) =~= s@.skip(i + tl));
        assert(r.deep_view() =~~= spec_tokenize(s@.skip(i as int)));
    }
    r
}

/// Split a line into its whitespace-delimited tokens, in order.
pub fn tokenize(line: &str) -> (r: Vec<String>)
    ensures
        r.deep_view() == spec_tokenize(line@),
{
    let r = tokenize_from(line, 0);
    proof {
        assert(line@.skip(0) =~= line@);
    }
    r
}

/// Split a line into tokens and classify each one.
pub fn tokenize_normalized(line: &str) -> (r: Vec<NormalizedToken>)
    ensures
        r@.len() == spec_tokenize(line@).len(),
        forall|i: int|
            0 <= i < r@.len() ==> (#[trigger] r@[i]).pattern@ == spec_display(
                spec_tokenize(line@)[i],
            ) && r@[i].is_variable == spec_inherent(spec_tokenize(line@)[i]),
{
    let toks = tokenize(line);
    let mut r: Vec<NormalizedToken> = Vec::new();
    let mut i: usize = 0;
    while i < toks.len()
        invariant
            0 <= i <= toks@.len(),
            toks.deep_view() == spec_tokenize(line@),
            r@.len() == i,
            forall|k: int|
                0 <= k < i ==> (#[trigger] r@[k]).pattern@ == spec_display(
                    spec_tokenize(line@)[k],
                ) && r@[k].is_variable == spec_inherent(spec_tokenize(line@)[k]),
        decreases toks@.len() - i,
    {
        let nt = normalize_token(toks[i].as_str());
        proof {
            assert(toks@[i as int]@ == toks.deep_view()[i as int]);
        }
        r.push(nt);
        i += 1;
    }
    r
}

/// Length of the prefix of `s` up to (not including) the first newline.
pub open spec fn line_break(s: Seq<char>) -> nat
    decreases s.len(),
{
    if s.len() == 0 || s[0] == '\n' {
        0
    } else {
        1 + line_break(s.drop_first())
    }
}

/// One line's content: the prefix up to the break, a trailing `\r` removed.
pub open spec fn line_content(p: Seq<char>) -> Seq<char> {
    if p.len() > 0 && p[p.len() - 1] == '\r' {
        p.drop_last()
    } else {
        p
    }
}

/// The lines of `s`: pieces between newline characters, each with a
/// trailing carriage return removed; a final newline ends the last line
/// rather than starting an empty one.
pub open spec fn spec_lines(s: Seq<char>) -> Seq<Seq<char>>
    decreases s.len(),
{
    if s.len() == 0 {
        Seq::empty()
    } else {
        let k = line_break(s) as int;
        let rest = if k < s.len() {
            spec_lines(s.skip(k + 1))
        } else {
            Seq::empty()
        };
        seq![line_content(s.take(k))] + rest
    }
}

proof fn lemma_line_break_bound(s: Seq<char>)
    ensures
        line_break(s) <= s.len(),
        line_break(s) < s.len() ==> s[line_break(s) as int] == '\n',
    decreases s.len(),
{
    if s.len() > 0 && s[0] != '\n' {
        lemma_line_break_bound(s.drop_first());
    }
}

fn exec_line_break(s: &str, i: usize) -> (r: usize)
    requires
        i <= s@.len(),
    ensures
        r == line_break(s@.skip(i as int)),
        i + r <= s@.len(),
    decreases s@.len() - i,
{
    proof {
        lemma_line_break_bound(s@.skip(i as int));
    }
    let n = s.unicode_len();
    if i == n {
        return 0;
    }
    if s.get_char(i) == '\n' {
        return 0;
    }
    proof {
        assert(s@.skip(i as int).drop_first() =~= s@.skip(i + 1));
    }
    let rest = exec_line_break(s, i + 1);
    1 + rest
}

fn split_lines_from(s: &str, i: usize) -> (r: Vec<String>)
    requires
        i <= s@.len(),
    ensures
        r.deep_view() == spec_lines(s@.skip(i as int)),
    decreases s@.len() - i,
{
    let n = s.unicode_len();
    if i == n {
        let r: Vec<String> = Vec::new();
        proof {
            assert(r.deep_view() =~~= spec_lines(s@.skip(i as int)));
        }
        return r;
    }
    let k = exec_line_break(s, i);
    let ghost piece = s@.skip(i as int).take(k as int);
    proof {
        assert(piece =~= s@.subrange(i as int, i + k));
    }
    let end = if k > 0 && s.get_char(i + k - 1) == '\r' {
        proof {
            assert(piece[piece.len() - 1] == s@[i + k - 1]);
            assert(line_content(piece) =~= s@.subrange(i as int, i + k - 1));
        }
        i + k - 1
    } else {
        proof {
            assert(line_content(piece) =~= s@.subrange(i as int, i + k));
        }
        i + k
    };
    let content = s.substring_char(i, end).to_owned();
    let rest = if i + k < n {
        split_lines_from(s, i + k + 1)
    } else {
        Vec::new()
    };
    let mut r: Vec<String> = Vec::new();
    r.push(content);
    let mut rest = rest;
    r.append(&mut rest);
    proof {
        if i + k < n {
            assert(s@.skip(i as int).skip(line_break(s@.skip(i as int)) as int + 1) =~= s@.skip(
                i + k + 1,
            ));
        }
        assert(r.deep_view() =~~= spec_lines(s@.skip(i as int)));
    }
    r
}

/// Split raw text into its lines.
pub fn split_lines(s: &str) -> (r: Vec<String>)
    ensures
        r.deep_view() == spec_lines(s@),
{
    let r = split_lines_from(s, 0);
    proof {
        assert(s@.skip(0) =~= s@);
    }
    r
}

/// Whether two strings hold the same characters.
pub fn str_eq(a: &str, b: &str) -> (r: bool)
    ensures
        r == (a@ == b@),
{
    let na = a.unicode_len();
    let nb = b.unicode_len();
    if na != nb {
        return false;
    }
    let mut i: usize = 0;
    while i < na
        invariant
            0 <= i <= na,
            na == a@.len(),
            na == b@.len(),
            forall|k: int| 0 <= k < i ==> a@[k] == b@[k],
        decreases na - i,
    {
        if a.get_char(i) != b.get_char(i) {
            return false;
        }
        i += 1;
    }
    proof {
        assert(a@ =~= b@);
    }
    true
}

} // verus!
