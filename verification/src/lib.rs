//! Compaction of line-oriented text: recurring lines are collapsed into a
//! single template with a repeat count and bounded sample values for the
//! parts that vary.
//!
//! The pipeline classifies whitespace-delimited tokens by lexical shape,
//! buckets lines by token count, decides per column whether it is
//! structural or variable (by an exact reformulation of a Shannon-entropy
//! threshold), builds one template per line, greedily merges
//! near-duplicate templates, and renders a sorted report.

pub mod bignat;
pub mod classify;
pub mod groups;
pub mod merge;
pub mod render;
pub mod stats;
pub mod tokens;

use vstd::prelude::*;
use crate::groups::{GGroup, bucket_groups, gview, sum_counts, lemma_bucket_groups_sum,
    group_bucket, PatternGroup, spec_hints, compute_hints, wf_groups, lemma_bucket_groups_wf};
use crate::merge::{merge_all, merge_similar_templates};
use crate::render::{GR, RGroup, to_gr, sort_grs, render_report, rview, sort_rgroups,
    render_report_exec, to_rgroup};
use crate::stats::{spec_stats, spec_variable_cols, stats_gview, build_stats, decide_variables,
    ParsedLine, parse_line};
use crate::tokens::{spec_lines, spec_tokenize, split_lines};

verus! {

/// The distinct token counts of the lines, in order of first appearance.
pub open spec fn widths(tls: Seq<Seq<Seq<char>>>) -> Seq<nat>
    decreases tls.len(),
{
    if tls.len() == 0 {
        Seq::empty()
    } else {
        let rest = widths(tls.drop_last());
        if rest.contains(tls.last().len()) {
            rest
        } else {
            rest.push(tls.last().len())
        }
    }
}

/// The lines with exactly `w` tokens, in input order.
pub open spec fn bucket_of(tls: Seq<Seq<Seq<char>>>, w: nat) -> Seq<Seq<Seq<char>>>
    decreases tls.len(),
{
    if tls.len() == 0 {
        Seq::empty()
    } else {
        let rest = bucket_of(tls.drop_last(), w);
        if tls.last().len() == w {
            rest.push(tls.last())
        } else {
            rest
        }
    }
}

/// The pattern groups of the width-`w` bucket: its column statistics
/// decide the variable columns and hints, and its lines fold into groups.
pub open spec fn groups_of_width(tls: Seq<Seq<Seq<char>>>, w: nat) -> Seq<GGroup> {
    let b = bucket_of(tls, w);
    if b.len() == 0 {
        Seq::empty()
    } else {
        let stats = spec_stats(b, w);
        let vars = spec_variable_cols(stats, b.len());
        let hints = spec_hints(stats, vars);
        bucket_groups(b, vars, hints)
    }
}

/// All groups, bucket after bucket in width order.
pub open spec fn all_groups_upto(tls: Seq<Seq<Seq<char>>>, ws: Seq<nat>) -> Seq<GGroup>
    decreases ws.len(),
{
    if ws.len() == 0 {
        Seq::empty()
    } else {
        all_groups_upto(tls, ws.drop_last()) + groups_of_width(tls, ws.last())
    }
}

/// The compacted report of a line sequence: empty for no lines; else the
/// lines are tokenized, bucketed by width, grouped into templates, the
/// groups greedily merged, sorted, and rendered.
pub open spec fn spec_compact(lines: Seq<Seq<char>>) -> Seq<char> {
    if lines.len() == 0 {
        Seq::empty()
    } else {
        let tls = lines.map_values(|l: Seq<char>| spec_tokenize(l));
        let gs = all_groups_upto(tls, widths(tls));
        let merged = merge_all(gs);
        let sorted = sort_grs(merged.map_values(|g: GGroup| to_gr(g)));
        render_report(sorted)
    }
}

/// The compacted report of raw text: its lines, compacted.
pub open spec fn spec_process(input: Seq<char>) -> Seq<char> {
    spec_compact(spec_lines(input))
}

/// How often `w` occurs in `ws`.
pub open spec fn count_eq(ws: Seq<nat>, w: nat) -> nat
    decreases ws.len(),
{
    if ws.len() == 0 {
        0
    } else {
        count_eq(ws.drop_last(), w) + if ws.last() == w {
            1 as nat
        } else {
            0 as nat
        }
    }
}

/// The bucket sizes of the listed widths, added up.
pub open spec fn sum_sizes(tls: Seq<Seq<Seq<char>>>, ws: Seq<nat>) -> nat
    decreases ws.len(),
{
    if ws.len() == 0 {
        0
    } else {
        sum_sizes(tls, ws.drop_last()) + bucket_of(tls, ws.last()).len()
    }
}

/// Bucket invariant: a width-`w` bucket holds only lines of exactly `w`
/// tokens, so two lines with different token counts never share a
/// pre-merge bucket, and (by `lemma_bucket_groups_wf`) never share a
/// pre-merge group.
pub proof fn lemma_bucket_width(tls: Seq<Seq<Seq<char>>>, w: nat, i: int)
    requires
        0 <= i < bucket_of(tls, w).len(),
    ensures
        bucket_of(tls, w)[i].len() == w,
    decreases tls.len(),
{
    if tls.len() > 0 {
        let rest = bucket_of(tls.drop_last(), w);
        if i < rest.len() {
            lemma_bucket_width(tls.drop_last(), w, i);
        }
    }
}

proof fn lemma_widths_distinct(tls: Seq<Seq<Seq<char>>>)
    ensures
        forall|i: int, j: int|
            0 <= i < j < widths(tls).len() ==> widths(tls)[i] != widths(tls)[j],
    decreases tls.len(),
{
    if tls.len() > 0 {
        lemma_widths_distinct(tls.drop_last());
        let rest = widths(tls.drop_last());
        if !rest.contains(tls.last().len()) {
            assert(forall|i: int| 0 <= i < rest.len() ==> rest[i] != tls.last().len());
        }
    }
}

proof fn lemma_widths_cover(tls: Seq<Seq<Seq<char>>>, i: int)
    requires
        0 <= i < tls.len(),
    ensures
        widths(tls).contains(tls[i].len()),
    decreases tls.len(),
{
    let rest = widths(tls.drop_last());
    if i == tls.len() - 1 {
        if !rest.contains(tls.last().len()) {
            assert(widths(tls).last() == tls.last().len());
        }
    } else {
        lemma_widths_cover(tls.drop_last(), i);
        let k = choose|k: int| 0 <= k < rest.len() && rest[k] == tls.drop_last()[i].len();
        assert(widths(tls)[k] == tls[i].len());
    }
}

proof fn lemma_bucket_empty(tls: Seq<Seq<Seq<char>>>, w: nat)
    requires
        !widths(tls).contains(w),
    ensures
        bucket_of(tls, w).len() == 0,
    decreases tls.len(),
{
    if tls.len() > 0 {
        let rest = widths(tls.drop_last());
        lemma_widths_cover(tls, tls.len() - 1);
        assert(tls.last().len() != w);
        assert(!rest.contains(w)) by {
            if rest.contains(w) {
                let k = choose|k: int| 0 <= k < rest.len() && rest[k] == w;
                assert(widths(tls)[k] == w);
            }
        }
        lemma_bucket_empty(tls.drop_last(), w);
    }
}

proof fn lemma_sum_sizes_step(tls: Seq<Seq<Seq<char>>>, l: Seq<Seq<char>>, ws: Seq<nat>)
    ensures
        sum_sizes(tls.push(l), ws) == sum_sizes(tls, ws) + count_eq(ws, l.len()),
    decreases ws.len(),
{
    if ws.len() > 0 {
        lemma_sum_sizes_step(tls, l, ws.drop_last());
        assert(tls.push(l).drop_last() =~= tls);
        assert(tls.push(l).last() == l);
    }
}

proof fn lemma_distinct_count(ws: Seq<nat>, w: nat)
    requires
        forall|i: int, j: int| 0 <= i < j < ws.len() ==> ws[i] != ws[j],
    ensures
        ws.contains(w) ==> count_eq(ws, w) == 1,
        !ws.contains(w) ==> count_eq(ws, w) == 0,
    decreases ws.len(),
{
    if ws.len() > 0 {
        let dl = ws.drop_last();
        assert(forall|i: int, j: int| 0 <= i < j < dl.len() ==> dl[i] != dl[j]);
        lemma_distinct_count(dl, w);
        if ws.last() == w {
            assert(!dl.contains(w)) by {
                if dl.contains(w) {
                    let k = choose|k: int| 0 <= k < dl.len() && dl[k] == w;
                    assert(ws[k] == w && ws[ws.len() - 1] == w);
                }
            }
        } else {
            if dl.contains(w) {
                let k = choose|k: int| 0 <= k < dl.len() && dl[k] == w;
                assert(ws.contains(w)) by {
                    assert(ws[k] == w);
                }
            }
            if ws.contains(w) {
                let k = choose|k: int| 0 <= k < ws.len() && ws[k] == w;
                assert(dl[k] == w);
            }
        }
    }
}

/// The width buckets partition the lines: their sizes add up to the
/// number of lines.
proof fn lemma_partition(tls: Seq<Seq<Seq<char>>>)
    ensures
        sum_sizes(tls, widths(tls)) == tls.len(),
    decreases tls.len(),
{
    if tls.len() > 0 {
        let dl = tls.drop_last();
        let l = tls.last();
        let w0 = l.len();
        lemma_partition(dl);
        lemma_widths_distinct(dl);
        lemma_distinct_count(widths(dl), w0);
        assert(dl.push(l) =~= tls);
        lemma_sum_sizes_step(dl, l, widths(dl));
        if widths(dl).contains(w0) {
            assert(widths(tls) == widths(dl));
            assert(sum_sizes(tls, widths(dl)) == dl.len() + 1);
        } else {
            assert(widths(tls) == widths(dl).push(w0));
            assert(widths(tls).drop_last() =~= widths(dl));
            assert(widths(tls).last() == w0);
            assert(sum_sizes(tls, widths(tls)) == sum_sizes(tls, widths(dl)) + bucket_of(
                tls,
                w0,
            ).len());
            assert(sum_sizes(tls, widths(dl)) == dl.len());
            lemma_bucket_empty(dl, w0);
            assert(bucket_of(tls, w0).len() == 1);
        }
    }
}

proof fn lemma_sum_concat(a: Seq<GGroup>, b: Seq<GGroup>)
    ensures
        sum_counts(a + b) == sum_counts(a) + sum_counts(b),
    decreases a.len(),
{
    if a.len() == 0 {
        assert(a + b =~= b);
    } else {
        lemma_sum_concat(a.drop_first(), b);
        assert((a + b).drop_first() =~= a.drop_first() + b);
        assert(sum_counts(a + b) == (a + b)[0].count + sum_counts((a + b).drop_first()));
    }
}

proof fn lemma_all_groups_sum(tls: Seq<Seq<Seq<char>>>, ws: Seq<nat>)
    ensures
        sum_counts(all_groups_upto(tls, ws)) == sum_sizes(tls, ws),
    decreases ws.len(),
{
    if ws.len() > 0 {
        lemma_all_groups_sum(tls, ws.drop_last());
        lemma_sum_concat(all_groups_upto(tls, ws.drop_last()), groups_of_width(tls, ws.last()));
        let b = bucket_of(tls, ws.last());
        if b.len() > 0 {
            let stats = spec_stats(b, ws.last());
            let vars = spec_variable_cols(stats, b.len());
            lemma_bucket_groups_sum(b, vars, spec_hints(stats, vars));
        }
    }
}

/// The total of the sorted groups' counts.
pub open spec fn sum_gr(s: Seq<GR>) -> nat
    decreases s.len(),
{
    if s.len() == 0 {
        0
    } else {
        s[0].count + sum_gr(s.drop_first())
    }
}

proof fn lemma_sum_gr_map(gs: Seq<GGroup>)
    ensures
        sum_gr(gs.map_values(|g: GGroup| to_gr(g))) == sum_counts(gs),
    decreases gs.len(),
{
    if gs.len() > 0 {
        lemma_sum_gr_map(gs.drop_first());
        assert(gs.map_values(|g: GGroup| to_gr(g)).drop_first() =~= gs.drop_first().map_values(
            |g: GGroup| to_gr(g),
        ));
    }
}

proof fn lemma_sum_gr_last(s: Seq<GR>)
    requires
        s.len() > 0,
    ensures
        sum_gr(s) == sum_gr(s.drop_last()) + s.last().count,
    decreases s.len(),
{
    if s.len() == 1 {
        assert(s.drop_last() =~= Seq::<GR>::empty());
        assert(s.drop_first() =~= Seq::<GR>::empty());
    } else {
        lemma_sum_gr_last(s.drop_first());
        assert(s.drop_last().drop_first() =~= s.drop_first().drop_last());
        assert(sum_gr(s.drop_last()) == s.drop_last()[0].count + sum_gr(
            s.drop_last().drop_first(),
        ));
    }
}

proof fn lemma_ins_sum(s: Seq<GR>, x: GR)
    ensures
        sum_gr(crate::render::ins(s, x)) == sum_gr(s) + x.count,
    decreases s.len(),
{
    let r = crate::render::ins(s, x);
    assert(sum_gr(r) == r[0].count + sum_gr(r.drop_first()));
    if s.len() == 0 {
        assert(r.drop_first() =~= Seq::<GR>::empty());
        assert(sum_gr(Seq::<GR>::empty()) == 0);
    } else if crate::render::key_lt(x, s[0]) {
        assert(r.drop_first() =~= s);
        assert(r[0] == x);
    } else {
        lemma_ins_sum(s.drop_first(), x);
        assert(r.drop_first() =~= crate::render::ins(s.drop_first(), x));
        assert(sum_gr(r) == r[0].count + sum_gr(r.drop_first()));
        assert(sum_gr(s) == s[0].count + sum_gr(s.drop_first()));
    }
}

proof fn lemma_sort_sum(s: Seq<GR>)
    ensures
        sum_gr(sort_grs(s)) == sum_gr(s),
    decreases s.len(),
{
    if s.len() > 0 {
        lemma_sort_sum(s.drop_last());
        lemma_ins_sum(sort_grs(s.drop_last()), s.last());
        lemma_sum_gr_last(s);
    }
}

/// Count conservation: at every stage — the groups as first built, the
/// groups after greedy merging, and the final sorted groups — the group
/// counts add up to the number of input lines.
pub proof fn lemma_count_conservation(lines: Seq<Seq<char>>)
    ensures
        ({
            let tls = lines.map_values(|l: Seq<char>| spec_tokenize(l));
            let gs = all_groups_upto(tls, widths(tls));
            let merged = merge_all(gs);
            let sorted = sort_grs(merged.map_values(|g: GGroup| to_gr(g)));
            sum_counts(gs) == lines.len() && sum_counts(merged) == lines.len() && sum_gr(sorted)
                == lines.len()
        }),
{
    let tls = lines.map_values(|l: Seq<char>| spec_tokenize(l));
    let gs = all_groups_upto(tls, widths(tls));
    let merged = merge_all(gs);
    lemma_all_groups_sum(tls, widths(tls));
    lemma_partition(tls);
    crate::merge::lemma_merge_all_sum(gs);
    lemma_sum_gr_map(merged);
    lemma_sort_sum(merged.map_values(|g: GGroup| to_gr(g)));
}

proof fn lemma_wf_concat(a: Seq<GGroup>, b: Seq<GGroup>)
    requires
        wf_groups(a),
        wf_groups(b),
    ensures
        wf_groups(a + b),
{
    assert forall|i: int| 0 <= i < (a + b).len() implies crate::groups::wf_group(
        #[trigger] (a + b)[i],
    ) by {
        if i < a.len() {
            assert((a + b)[i] == a[i]);
        } else {
            assert((a + b)[i] == b[i - a.len()]);
        }
    }
}

proof fn lemma_all_groups_wf(tls: Seq<Seq<Seq<char>>>, ws: Seq<nat>)
    ensures
        wf_groups(all_groups_upto(tls, ws)),
    decreases ws.len(),
{
    if ws.len() == 0 {
        assert(wf_groups(Seq::<GGroup>::empty()));
    } else {
        lemma_all_groups_wf(tls, ws.drop_last());
        let w = ws.last();
        let b = bucket_of(tls, w);
        if b.len() > 0 {
            let stats = spec_stats(b, w);
            let vars = spec_variable_cols(stats, b.len());
            assert forall|i: int| 0 <= i < b.len() implies (#[trigger] b[i]).len() == w by {
                lemma_bucket_width(tls, w, i);
            }
            lemma_bucket_groups_wf(b, vars, spec_hints(stats, vars), w);
        }
        lemma_wf_concat(all_groups_upto(tls, ws.drop_last()), groups_of_width(tls, w));
    }
}

/// Sample cap: at every stage of the pipeline — the groups as first
/// built and the groups after greedy merging — every group is well
/// formed, so each placeholder's sample list holds at most three
/// entries and no duplicates.
pub proof fn lemma_sample_cap(lines: Seq<Seq<char>>)
    ensures
        ({
            let tls = lines.map_values(|l: Seq<char>| spec_tokenize(l));
            let gs = all_groups_upto(tls, widths(tls));
            wf_groups(gs) && wf_groups(merge_all(gs))
        }),
{
    let tls = lines.map_values(|l: Seq<char>| spec_tokenize(l));
    lemma_all_groups_wf(tls, widths(tls));
    crate::merge::lemma_merge_all_wf(all_groups_upto(tls, widths(tls)));
}

/// Determinism: the compacted report is a function of the input lines
/// alone, so equal inputs yield byte-identical reports.
pub proof fn lemma_compact_deterministic(lines: Seq<Seq<char>>, r1: Seq<char>, r2: Seq<char>)
    requires
        r1 == spec_compact(lines),
        r2 == spec_compact(lines),
    ensures
        r1 == r2,
{
}

fn contains_usize(v: &Vec<usize>, x: usize) -> (r: bool)
    ensures
        r == v@.contains(x),
{
    let n = v.len();
    let mut i: usize = 0;
    while i < n
        invariant
            i <= n,
            n == v@.len(),
            forall|k: int| 0 <= k < i ==> v@[k] != x,
        decreases n - i,
    {
        if v[i] == x {
            return true;
        }
        i += 1;
    }
    false
}

fn clone_parsed(pl: &ParsedLine) -> (r: ParsedLine)
    requires
        pl.wf(),
    ensures
        r.wf(),
        r.view_toks() == pl.view_toks(),
        r.original@.len() == pl.original@.len(),
{
    let n = pl.original.len();
    let mut original: Vec<String> = Vec::new();
    let mut normalized: Vec<crate::classify::NormalizedToken> = Vec::new();
    let mut i: usize = 0;
    while i < n
        invariant
            i <= n,
            n == pl.original@.len(),
            pl.wf(),
            pl.normalized@.len() == n,
            original@.len() == i,
            normalized@.len() == i,
            forall|k: int| 0 <= k < i ==> (#[trigger] original@[k])@ == pl.original@[k]@,
            forall|k: int|
                0 <= k < i ==> (#[trigger] normalized@[k]).pattern@ == pl.normalized@[k].pattern@
                    && normalized@[k].is_variable == pl.normalized@[k].is_variable,
        decreases n - i,
    {
        original.push(pl.original[i].clone());
        let nt = &pl.normalized[i];
        normalized.push(
            crate::classify::NormalizedToken {
                pattern: nt.pattern.clone(),
                is_variable: nt.is_variable,
            },
        );
        i += 1;
    }
    let r = ParsedLine { normalized, original };
    proof {
        assert(r.view_toks() =~~= pl.view_toks());
    }
    r
}

/// Compact a sequence of lines into the report: tokenize and classify,
/// bucket by token count, decide variable columns, build and merge
/// templates, sort and render.
pub fn compact(lines: &Vec<String>) -> (r: String)
    ensures
        r@ == spec_compact(lines.deep_view()),
{
    let ghost lv = lines.deep_view();
    let n = lines.len();
    if n == 0 {
        let r = String::new();
        return r;
    }
    let ghost tls = lv.map_values(|l: Seq<char>| spec_tokenize(l));
    let mut parsed: Vec<ParsedLine> = Vec::new();
    let mut i: usize = 0;
    while i < n
        invariant
            i <= n,
            n == lines@.len(),
            lv == lines.deep_view(),
            tls == lv.map_values(|l: Seq<char>| spec_tokenize(l)),
            tls.len() == n,
            parsed@.len() == i,
            forall|k: int|
                0 <= k < i ==> (#[trigger] parsed@[k]).wf() && parsed@[k].view_toks() == tls[k],
        decreases n - i,
    {
        proof {
            assert(lv[i as int] == lines@[i as int]@);
            assert(tls[i as int] == spec_tokenize(lv[i as int]));
        }
        let pl = parse_line(lines[i].as_str());
        parsed.push(pl);
        i += 1;
    }
    let mut ws: Vec<usize> = Vec::new();
    let mut i: usize = 0;
    proof {
        assert(tls.take(0) =~= Seq::<Seq<Seq<char>>>::empty());
        assert(ws@.map_values(|x: usize| x as nat) =~= widths(tls.take(0)));
    }
    while i < n
        invariant
            i <= n,
            n == parsed@.len(),
            tls.len() == n,
            forall|k: int|
                0 <= k < n ==> (#[trigger] parsed@[k]).wf() && parsed@[k].view_toks() == tls[k],
            ws@.map_values(|x: usize| x as nat) == widths(tls.take(i as int)),
        decreases n - i,
    {
        let w = parsed[i].original.len();
        proof {
            assert(tls.take(i + 1).drop_last() =~= tls.take(i as int));
            assert(tls.take(i + 1).last() == tls[i as int]);
            assert(tls[i as int].len() == w);
        }
        let c = contains_usize(&ws, w);
        proof {
            let wsv0 = ws@.map_values(|x: usize| x as nat);
            if c {
                let k = choose|k: int| 0 <= k < ws@.len() && ws@[k] == w;
                assert(wsv0[k] == w as nat);
                assert(wsv0.contains(w as nat));
            } else {
                if wsv0.contains(w as nat) {
                    let k = choose|k: int| 0 <= k < wsv0.len() && wsv0[k] == w as nat;
                    assert(ws@[k] == w);
                    assert(ws@.contains(w));
                }
            }
        }
        if !c {
            ws.push(w);
        }
        proof {
            assert(ws@.map_values(|x: usize| x as nat) =~= widths(tls.take(i + 1)));
        }
        i += 1;
    }
    proof {
        assert(tls.take(n as int) =~= tls);
    }
    let ghost wsv = ws@.map_values(|x: usize| x as nat);
    let mut all: Vec<PatternGroup> = Vec::new();
    let nw = ws.len();
    let mut k: usize = 0;
    proof {
        assert(wsv.take(0) =~= Seq::<nat>::empty());
        assert(gview(all@) =~~= all_groups_upto(tls, wsv.take(0)));
    }
    while k < nw
        invariant
            k <= nw,
            nw == ws@.len(),
            n == parsed@.len(),
            tls.len() == n,
            wsv == ws@.map_values(|x: usize| x as nat),
            wsv.len() == nw,
            forall|q: int|
                0 <= q < n ==> (#[trigger] parsed@[q]).wf() && parsed@[q].view_toks() == tls[q],
            gview(all@) == all_groups_upto(tls, wsv.take(k as int)),
        decreases nw - k,
    {
        let w = ws[k];
        proof {
            assert(wsv.take(k + 1).drop_last() =~= wsv.take(k as int));
            assert(wsv.take(k + 1).last() == wsv[k as int]);
            assert(wsv[k as int] == w as nat);
        }
        let mut bucket: Vec<ParsedLine> = Vec::new();
        let mut i: usize = 0;
        proof {
            assert(tls.take(0) =~= Seq::<Seq<Seq<char>>>::empty());
            assert(bucket@.map_values(|pl: ParsedLine| pl.view_toks()) =~~= bucket_of(
                tls.take(0),
                w as nat,
            ));
        }
        while i < n
            invariant
                i <= n,
                n == parsed@.len(),
                tls.len() == n,
                forall|q: int|
                    0 <= q < n ==> (#[trigger] parsed@[q]).wf() && parsed@[q].view_toks() == tls[q],
                bucket@.map_values(|pl: ParsedLine| pl.view_toks()) == bucket_of(
                    tls.take(i as int),
                    w as nat,
                ),
                forall|q: int|
                    0 <= q < bucket@.len() ==> (#[trigger] bucket@[q]).wf()
                        && bucket@[q].view_toks().len() == w,
            decreases n - i,
        {
            proof {
                assert(tls.take(i + 1).drop_last() =~= tls.take(i as int));
                assert(tls.take(i + 1).last() == tls[i as int]);
            }
            if parsed[i].original.len() == w {
                let pl = clone_parsed(&parsed[i]);
                bucket.push(pl);
            }
            proof {
                assert(bucket@.map_values(|pl: ParsedLine| pl.view_toks()) =~~= bucket_of(
                    tls.take(i + 1),
                    w as nat,
                ));
            }
            i += 1;
        }
        proof {
            assert(tls.take(n as int) =~= tls);
        }
        let ghost b = bucket_of(tls, w as nat);
        if bucket.len() > 0 {
            let nb = bucket.len();
            let stats = build_stats(&bucket, w);
            proof {
                assert(stats_gview(stats@) =~~= spec_stats(b, w as nat));
            }
            let vars = decide_variables(&stats, nb);
            let hints = compute_hints(&stats, &vars);
            proof {
                assert(stats@.len() == w as nat);
                assert(vars@.len() == w as nat);
                assert(hints.deep_view().len() == hints@.len());
                assert(hints@.len() == w as nat);
            }
            let mut gs = group_bucket(&bucket, &vars, &hints);
            proof {
                assert(gview(gs@) == groups_of_width(tls, w as nat));
            }
            let ghost all_before = gview(all@);
            all.append(&mut gs);
            proof {
                assert(gview(all@) =~~= all_before + groups_of_width(tls, w as nat));
                assert(gview(all@) =~~= all_groups_upto(tls, wsv.take(k + 1)));
            }
        } else {
            proof {
                assert(groups_of_width(tls, w as nat) =~= Seq::<GGroup>::empty());
                assert(gview(all@) =~~= all_groups_upto(tls, wsv.take(k + 1)));
            }
        }
        k += 1;
    }
    proof {
        assert(wsv.take(nw as int) =~= wsv);
        lemma_all_groups_sum(tls, wsv);
        lemma_partition(tls);
        assert(sum_counts(gview(all@)) == tls.len());
    }
    merge_similar_templates(&mut all);
    let mut rgs: Vec<RGroup> = Vec::new();
    let m = all.len();
    let mut k: usize = 0;
    proof {
        assert(gview(all@).map_values(|g: GGroup| to_gr(g)).take(0) =~= Seq::<GR>::empty());
        assert(rview(rgs@) =~~= gview(all@).map_values(|g: GGroup| to_gr(g)).take(0));
    }
    while k < m
        invariant
            k <= m,
            m == all@.len(),
            rgs@.len() == k,
            rview(rgs@) == gview(all@).map_values(|g: GGroup| to_gr(g)).take(k as int),
        decreases m - k,
    {
        let rg = to_rgroup(&all[k]);
        rgs.push(rg);
        proof {
            assert(gview(all@)[k as int] == all@[k as int].view_g());
            assert(rview(rgs@) =~~= gview(all@).map_values(|g: GGroup| to_gr(g)).take(k + 1));
        }
        k += 1;
    }
    proof {
        assert(gview(all@).map_values(|g: GGroup| to_gr(g)).take(m as int) =~= gview(
            all@,
        ).map_values(|g: GGroup| to_gr(g)));
    }
    let sorted = sort_rgroups(&rgs);
    let out = render_report_exec(&sorted);
    proof {
        assert(out@ == spec_compact(lv));
    }
    out
}

/// Compact raw text: split it into lines and compact them; empty input
/// yields the empty report.
pub fn process(input: &str) -> (r: String)
    ensures
        r@ == spec_process(input@),
{
    let lines = split_lines(input);
    compact(&lines)
}

} // verus!
