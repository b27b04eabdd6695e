//! Greedy merging of near-duplicate templates.
//!
//! Two groups qualify when their templates have the same token count and
//! the Jaccard similarity of their literal-token sets is at least six
//! tenths (placeholders are ignored; two empty literal sets count as
//! fully similar).  The scan visits group pairs in index order, merges the
//! first qualifying pair, and restarts until no pair qualifies.  Merging
//! keeps positions where the templates agree, turns every differing
//! position into a fresh placeholder, unions the sample lists under the
//! three-entry cap with duplicates suppressed, and adds the counts.

use vstd::prelude::*;
use crate::groups::{GGroup, GTok, PatternGroup, TTok, gview, push_sample, sum_counts, tt_eq,
    lemma_two_counts_le_sum, numvars_toks, wf_samples, wf_group, wf_groups, lemma_push_sample_wf};

verus! {

/// The distinct literal tokens of a template, in order of first
/// appearance.
pub open spec fn dlits(toks: Seq<GTok>) -> Seq<Seq<char>>
    decreases toks.len(),
{
    if toks.len() == 0 {
        Seq::empty()
    } else {
        let rest = dlits(toks.drop_last());
        match toks.last() {
            GTok::Lit(s) => if rest.contains(s) {
                rest
            } else {
                rest.push(s)
            },
            GTok::Var(_) => rest,
        }
    }
}

/// How many entries of `a` also occur in `b`.
pub open spec fn count_in(a: Seq<Seq<char>>, b: Seq<Seq<char>>) -> nat
    decreases a.len(),
{
    if a.len() == 0 {
        0
    } else {
        count_in(a.drop_last(), b) + if b.contains(a.last()) {
            1 as nat
        } else {
            0 as nat
        }
    }
}

proof fn lemma_count_in_le(a: Seq<Seq<char>>, b: Seq<Seq<char>>)
    ensures
        count_in(a, b) <= a.len(),
    decreases a.len(),
{
    if a.len() > 0 {
        lemma_count_in_le(a.drop_last(), b);
    }
}

/// Whether the Jaccard similarity of two distinct-literal lists reaches
/// six tenths; two empty lists are fully similar.
pub open spec fn jaccard_ok(la: Seq<Seq<char>>, lb: Seq<Seq<char>>) -> bool {
    if la.len() == 0 && lb.len() == 0 {
        true
    } else {
        let inter = count_in(la, lb);
        let uni = la.len() + lb.len() - inter;
        5 * inter >= 3 * uni
    }
}

/// Whether two groups may merge: equally wide templates whose literal
/// sets are similar enough.
pub open spec fn mergeable(g1: GGroup, g2: GGroup) -> bool {
    g1.toks.len() == g2.toks.len() && jaccard_ok(dlits(g1.toks), dlits(g2.toks))
}

/// The first qualifying pair of group indices at or after `(i, j)` in
/// lexicographic order, scanning `j` over `i + 1 .. len`.
pub open spec fn find_from(groups: Seq<GGroup>, i: int, j: int) -> Option<(int, int)>
    decreases groups.len() + 1 - i, groups.len() + 2 - j,
    when 0 <= i && i < j && j <= groups.len() + 1
{
    if i >= groups.len() {
        None
    } else if j >= groups.len() {
        find_from(groups, i + 1, i + 2)
    } else if mergeable(groups[i], groups[j]) {
        Some((i, j))
    } else {
        find_from(groups, i, j + 1)
    }
}

/// The state of a pairwise merge after some positions: the merged tokens
/// so far, their sample lists and hints, and how many placeholders of
/// each side were consumed.
pub ghost struct MSt {
    /// The merged template so far.
    pub toks: Seq<GTok>,
    /// The merged sample lists so far.
    pub samples: Seq<Seq<Seq<char>>>,
    /// The merged hints so far.
    pub hints: Seq<Seq<char>>,
    /// Placeholders of the first group consumed.
    pub vi: nat,
    /// Placeholders of the second group consumed.
    pub vj: nat,
}

/// Append the entries of `add` one by one under the cap and duplicate
/// rules.
pub open spec fn cap_append(base: Seq<Seq<char>>, add: Seq<Seq<char>>) -> Seq<Seq<char>>
    decreases add.len(),
{
    if add.len() == 0 {
        base
    } else {
        push_sample(cap_append(base, add.drop_last()), add.last())
    }
}

/// A group's sample list for placeholder `v`, if it has one.
pub open spec fn samples_at(g: GGroup, v: nat) -> Seq<Seq<char>> {
    if v < g.samples.len() {
        g.samples[v as int]
    } else {
        Seq::empty()
    }
}

/// The hint of a group's placeholder `v`, if it has one.
pub open spec fn hint_at(g: GGroup, v: nat) -> Seq<char> {
    if v < g.hints.len() {
        g.hints[v as int]
    } else {
        Seq::empty()
    }
}

/// Merge one template position into the state.
pub open spec fn merge_step(st: MSt, g1: GGroup, g2: GGroup, p: int) -> MSt {
    let t1 = g1.toks[p];
    let t2 = g2.toks[p];
    if t1 == t2 {
        if t1 is Var {
            MSt {
                toks: st.toks.push(GTok::Var(st.samples.len() as nat)),
                samples: st.samples.push(cap_append(samples_at(g1, st.vi), samples_at(g2, st.vj))),
                hints: st.hints.push(hint_at(g1, st.vi)),
                vi: st.vi + 1,
                vj: st.vj + 1,
            }
        } else {
            MSt {
                toks: st.toks.push(t1),
                samples: st.samples,
                hints: st.hints,
                vi: st.vi,
                vj: st.vj,
            }
        }
    } else {
        let seed = if t1 is Var {
            samples_at(g1, st.vi)
        } else {
            seq![t1->Lit_0]
        };
        let merged = if t2 is Var {
            cap_append(seed, samples_at(g2, st.vj))
        } else {
            push_sample(seed, t2->Lit_0)
        };
        MSt {
            toks: st.toks.push(GTok::Var(st.samples.len() as nat)),
            samples: st.samples.push(merged),
            hints: st.hints.push(Seq::empty()),
            vi: st.vi + if t1 is Var {
                1 as nat
            } else {
                0 as nat
            },
            vj: st.vj + if t2 is Var {
                1 as nat
            } else {
                0 as nat
            },
        }
    }
}

/// The merge state after the first `p` positions.
pub open spec fn merge_upto(g1: GGroup, g2: GGroup, p: int) -> MSt
    decreases p,
{
    if p <= 0 {
        MSt {
            toks: Seq::empty(),
            samples: Seq::empty(),
            hints: Seq::empty(),
            vi: 0,
            vj: 0,
        }
    } else {
        merge_step(merge_upto(g1, g2, p - 1), g1, g2, p - 1)
    }
}

/// The merge of two equally wide groups: the merged template, the merged
/// samples and hints, and the summed count.
pub open spec fn merge_pair(g1: GGroup, g2: GGroup) -> GGroup {
    let st = merge_upto(g1, g2, g1.toks.len() as int);
    GGroup { toks: st.toks, count: g1.count + g2.count, samples: st.samples, hints: st.hints }
}

/// Merge the pair `(i, j)`: group `i` is replaced by the merged group,
/// group `j` is removed.
pub open spec fn do_merge(groups: Seq<GGroup>, i: int, j: int) -> Seq<GGroup> {
    groups.update(i, merge_pair(groups[i], groups[j])).remove(j)
}

proof fn lemma_find_from_valid(groups: Seq<GGroup>, i: int, j: int)
    requires
        0 <= i < j <= groups.len() + 1,
    ensures
        find_from(groups, i, j) is Some ==> {
            let (a, b) = find_from(groups, i, j)->Some_0;
            0 <= a < b < groups.len() && mergeable(groups[a], groups[b])
        },
    decreases groups.len() + 1 - i, groups.len() + 2 - j,
{
    if i >= groups.len() {
    } else if j >= groups.len() {
        lemma_find_from_valid(groups, i + 1, i + 2);
    } else if mergeable(groups[i], groups[j]) {
    } else {
        lemma_find_from_valid(groups, i, j + 1);
    }
}

/// The greedy fixed point: merge the first qualifying pair and restart,
/// until no pair qualifies.
pub open spec fn merge_all(groups: Seq<GGroup>) -> Seq<GGroup>
    decreases groups.len(),
    via merge_all_decreases
{
    match find_from(groups, 0, 1) {
        Some((i, j)) => merge_all(do_merge(groups, i, j)),
        None => groups,
    }
}

#[via_fn]
proof fn merge_all_decreases(groups: Seq<GGroup>) {
    lemma_find_from_valid(groups, 0, 1);
}

/// Merging preserves the total count: the merged pair carries the sum of
/// its two groups.
pub proof fn lemma_do_merge_sum(groups: Seq<GGroup>, i: int, j: int)
    requires
        0 <= i < j < groups.len(),
    ensures
        sum_counts(do_merge(groups, i, j)) == sum_counts(groups),
{
    let upd = groups.update(i, merge_pair(groups[i], groups[j]));
    lemma_sum_update(groups, i, merge_pair(groups[i], groups[j]));
    lemma_sum_remove(upd, j);
    assert(upd[j] == groups[j]);
}

proof fn lemma_sum_update(groups: Seq<GGroup>, i: int, g: GGroup)
    requires
        0 <= i < groups.len(),
    ensures
        sum_counts(groups.update(i, g)) + groups[i].count == sum_counts(groups) + g.count,
    decreases groups.len(),
{
    let u = groups.update(i, g);
    assert(sum_counts(u) == u[0].count + sum_counts(u.drop_first()));
    assert(sum_counts(groups) == groups[0].count + sum_counts(groups.drop_first()));
    if i == 0 {
        assert(u.drop_first() =~= groups.drop_first());
    } else {
        lemma_sum_update(groups.drop_first(), i - 1, g);
        assert(u.drop_first() =~= groups.drop_first().update(i - 1, g));
    }
}

proof fn lemma_sum_remove(groups: Seq<GGroup>, j: int)
    requires
        0 <= j < groups.len(),
    ensures
        sum_counts(groups.remove(j)) + groups[j].count == sum_counts(groups),
    decreases groups.len(),
{
    let u = groups.remove(j);
    assert(sum_counts(groups) == groups[0].count + sum_counts(groups.drop_first()));
    if j == 0 {
        assert(u =~= groups.drop_first());
    } else {
        lemma_sum_remove(groups.drop_first(), j - 1);
        assert(u.drop_first() =~= groups.drop_first().remove(j - 1));
        assert(sum_counts(u) == u[0].count + sum_counts(u.drop_first()));
    }
}

/// The whole greedy merge preserves the total count.
pub proof fn lemma_merge_all_sum(groups: Seq<GGroup>)
    ensures
        sum_counts(merge_all(groups)) == sum_counts(groups),
    decreases groups.len(),
{
    lemma_find_from_valid(groups, 0, 1);
    match find_from(groups, 0, 1) {
        Some((i, j)) => {
            lemma_do_merge_sum(groups, i, j);
            lemma_merge_all_sum(do_merge(groups, i, j));
        },
        None => {},
    }
}

/// The distinct literal tokens of a template, as strings.
fn dlits_exec(template: &Vec<TTok>) -> (r: Vec<String>)
    ensures
        r.deep_view() == dlits(template@.map_values(|t: TTok| t.view_t())),
{
    let ghost tv = template@.map_values(|t: TTok| t.view_t());
    let n = template.len();
    let mut r: Vec<String> = Vec::new();
    let mut p: usize = 0;
    proof {
        assert(tv.take(0) =~= Seq::<GTok>::empty());
        assert(r.deep_view() =~~= dlits(tv.take(0)));
    }
    while p < n
        invariant
            p <= n,
            n == template@.len(),
            tv == template@.map_values(|t: TTok| t.view_t()),
            tv.len() == n,
            r.deep_view() == dlits(tv.take(p as int)),
        decreases n - p,
    {
        proof {
            assert(tv.take(p + 1).drop_last() =~= tv.take(p as int));
            assert(tv.take(p + 1).last() == tv[p as int]);
        }
        match &template[p] {
            TTok::Lit(s) => {
                if !crate::groups::vec_contains_str(&r, s) {
                    r.push(s.clone());
                    proof {
                        assert(r.deep_view() =~~= dlits(tv.take(p + 1)));
                    }
                } else {
                    proof {
                        assert(r.deep_view() =~~= dlits(tv.take(p + 1)));
                    }
                }
            },
            TTok::Var(_) => {
                proof {
                    assert(r.deep_view() =~~= dlits(tv.take(p + 1)));
                }
            },
        }
        p += 1;
    }
    proof {
        assert(tv.take(n as int) =~= tv);
    }
    r
}

fn count_in_exec(a: &Vec<String>, b: &Vec<String>) -> (r: usize)
    ensures
        r == count_in(a.deep_view(), b.deep_view()),
{
    let ghost av = a.deep_view();
    let n = a.len();
    let mut r: usize = 0;
    let mut p: usize = 0;
    proof {
        assert(av.take(0) =~= Seq::<Seq<char>>::empty());
        lemma_count_in_le(av, b.deep_view());
    }
    while p < n
        invariant
            p <= n,
            n == a@.len(),
            av == a.deep_view(),
            av.len() == n,
            r == count_in(av.take(p as int), b.deep_view()),
            r <= p,
        decreases n - p,
    {
        proof {
            assert(av.take(p + 1).drop_last() =~= av.take(p as int));
            assert(av.take(p + 1).last() == av[p as int]);
        }
        if crate::groups::vec_contains_str(b, &a[p]) {
            r += 1;
        }
        p += 1;
    }
    proof {
        assert(av.take(n as int) =~= av);
    }
    r
}

/// Whether two groups' templates are equally wide and similar enough to
/// merge.
pub fn mergeable_exec(g1: &PatternGroup, g2: &PatternGroup) -> (r: bool)
    ensures
        r == mergeable(g1.view_g(), g2.view_g()),
{
    if g1.template.len() != g2.template.len() {
        proof {
            assert(g1.view_g().toks.len() == g1.template@.len());
            assert(g2.view_g().toks.len() == g2.template@.len());
        }
        return false;
    }
    let la = dlits_exec(&g1.template);
    let lb = dlits_exec(&g2.template);
    if la.len() == 0 && lb.len() == 0 {
        return true;
    }
    let inter = count_in_exec(&la, &lb);
    proof {
        lemma_count_in_le(la.deep_view(), lb.deep_view());
    }
    let uni = (la.len() as u128) + (lb.len() as u128) - (inter as u128);
    let ok = 5 * (inter as u128) >= 3 * uni;
    proof {
        assert(la.deep_view().len() == la@.len());
        assert(lb.deep_view().len() == lb@.len());
    }
    ok
}

/// The first qualifying pair of group indices, in lexicographic order.
pub fn find_pair_exec(groups: &Vec<PatternGroup>) -> (r: Option<(usize, usize)>)
    ensures
        match r {
            Some((a, b)) => find_from(gview(groups@), 0, 1) == Some((a as int, b as int)),
            None => find_from(gview(groups@), 0, 1) is None,
        },
{
    let ghost gv = gview(groups@);
    let n = groups.len();
    let mut i: usize = 0;
    while i < n
        invariant
            i <= n,
            n == groups@.len(),
            gv == gview(groups@),
            gv.len() == n,
            find_from(gv, 0, 1) == find_from(gv, i as int, i as int + 1),
        decreases n - i,
    {
        let mut j: usize = i + 1;
        while j < n
            invariant
                i < j <= n + 1,
                j >= i + 1,
                i < n == groups@.len(),
                gv == gview(groups@),
                gv.len() == n,
                find_from(gv, 0, 1) == find_from(gv, i as int, j as int),
            decreases n - j,
        {
            proof {
                assert(gv[i as int] == groups@[i as int].view_g());
                assert(gv[j as int] == groups@[j as int].view_g());
            }
            if mergeable_exec(&groups[i], &groups[j]) {
                return Some((i, j));
            }
            j += 1;
        }
        i += 1;
    }
    None
}


fn samples_at_exec(g: &PatternGroup, v: usize) -> (r: Vec<String>)
    ensures
        r.deep_view() == samples_at(g.view_g(), v as nat),
{
    let mut r: Vec<String> = Vec::new();
    if v < g.samples.len() {
        let src = &g.samples[v];
        let n = src.len();
        let mut i: usize = 0;
        while i < n
            invariant
                i <= n,
                n == src@.len(),
                r@.len() == i,
                forall|k: int| 0 <= k < i ==> (#[trigger] r@[k])@ == src@[k]@,
            decreases n - i,
        {
            r.push(src[i].clone());
            i += 1;
        }
        proof {
            assert(r.deep_view() =~~= g.view_g().samples[v as int]);
        }
    } else {
        proof {
            assert(g.view_g().samples.len() == g.samples@.len());
            assert(r.deep_view() =~~= Seq::<Seq<char>>::empty());
        }
    }
    r
}

fn hint_at_exec(g: &PatternGroup, v: usize) -> (r: String)
    ensures
        r@ == hint_at(g.view_g(), v as nat),
{
    if v < g.var_types.len() {
        proof {
            assert(g.view_g().hints[v as int] == g.var_types@[v as int]@);
        }
        g.var_types[v].clone()
    } else {
        proof {
            assert(g.view_g().hints.len() == g.var_types@.len());
        }
        String::new()
    }
}

fn cap_append_exec(base: &Vec<String>, add: &Vec<String>) -> (r: Vec<String>)
    ensures
        r.deep_view() == cap_append(base.deep_view(), add.deep_view()),
{
    let mut r: Vec<String> = Vec::new();
    let nb = base.len();
    let mut i: usize = 0;
    while i < nb
        invariant
            i <= nb,
            nb == base@.len(),
            r@.len() == i,
            forall|k: int| 0 <= k < i ==> (#[trigger] r@[k])@ == base@[k]@,
        decreases nb - i,
    {
        r.push(base[i].clone());
        i += 1;
    }
    proof {
        assert(r.deep_view() =~~= base.deep_view());
    }
    let ghost av = add.deep_view();
    let na = add.len();
    let mut j: usize = 0;
    proof {
        assert(av.take(0) =~= Seq::<Seq<char>>::empty());
        assert(cap_append(base.deep_view(), av.take(0)) == base.deep_view());
    }
    while j < na
        invariant
            j <= na,
            na == add@.len(),
            av == add.deep_view(),
            av.len() == na,
            r.deep_view() == cap_append(base.deep_view(), av.take(j as int)),
        decreases na - j,
    {
        proof {
            assert(av.take(j + 1).drop_last() =~= av.take(j as int));
            assert(av.take(j + 1).last() == av[j as int]);
            assert(av[j as int] == add@[j as int]@);
        }
        if r.len() < 3 && !crate::groups::vec_contains_str(&r, &add[j]) {
            r.push(add[j].clone());
            proof {
                assert(r.deep_view() =~~= cap_append(base.deep_view(), av.take(j + 1)));
            }
        } else {
            proof {
                assert(r.deep_view() =~~= cap_append(base.deep_view(), av.take(j + 1)));
            }
        }
        j += 1;
    }
    proof {
        assert(av.take(na as int) =~= av);
    }
    r
}

/// Merge two equally wide groups into one.
fn merge_pair_exec(g1: &PatternGroup, g2: &PatternGroup) -> (r: PatternGroup)
    requires
        g1.template@.len() == g2.template@.len(),
        g1.count + g2.count <= usize::MAX,
    ensures
        r.view_g() == merge_pair(g1.view_g(), g2.view_g()),
{
    let ghost gv1 = g1.view_g();
    let ghost gv2 = g2.view_g();
    let n = g1.template.len();
    let mut toks: Vec<TTok> = Vec::new();
    let mut samples: Vec<Vec<String>> = Vec::new();
    let mut hints: Vec<String> = Vec::new();
    let mut vi: usize = 0;
    let mut vj: usize = 0;
    let mut p: usize = 0;
    while p < n
        invariant
            p <= n,
            n == g1.template@.len() == g2.template@.len(),
            gv1 == g1.view_g(),
            gv2 == g2.view_g(),
            gv1.toks.len() == n,
            gv2.toks.len() == n,
            vi <= p,
            vj <= p,
            toks@.map_values(|t: TTok| t.view_t()) == merge_upto(gv1, gv2, p as int).toks,
            samples.deep_view() == merge_upto(gv1, gv2, p as int).samples,
            hints.deep_view() == merge_upto(gv1, gv2, p as int).hints,
            vi as nat == merge_upto(gv1, gv2, p as int).vi,
            vj as nat == merge_upto(gv1, gv2, p as int).vj,
            samples@.len() == merge_upto(gv1, gv2, p as int).samples.len(),
        decreases n - p,
    {
        let ghost st = merge_upto(gv1, gv2, p as int);
        proof {
            assert(gv1.toks[p as int] == g1.template@[p as int].view_t());
            assert(gv2.toks[p as int] == g2.template@[p as int].view_t());
        }
        let t1 = &g1.template[p];
        let t2 = &g2.template[p];
        if tt_eq(t1, t2) {
            match t1 {
                TTok::Var(_) => {
                    toks.push(TTok::Var(samples.len()));
                    let s1 = samples_at_exec(g1, vi);
                    let s2 = samples_at_exec(g2, vj);
                    let merged = cap_append_exec(&s1, &s2);
                    samples.push(merged);
                    hints.push(hint_at_exec(g1, vi));
                    vi += 1;
                    vj += 1;
                },
                TTok::Lit(s) => {
                    toks.push(TTok::Lit(s.clone()));
                },
            }
        } else {
            toks.push(TTok::Var(samples.len()));
            let mut seed: Vec<String>;
            match &g1.template[p] {
                TTok::Var(_) => {
                    seed = samples_at_exec(g1, vi);
                    vi += 1;
                },
                TTok::Lit(s) => {
                    seed = Vec::new();
                    seed.push(s.clone());
                    proof {
                        assert(seed.deep_view() =~~= seq![gv1.toks[p as int]->Lit_0]);
                    }
                },
            }
            let merged: Vec<String>;
            match &g2.template[p] {
                TTok::Var(_) => {
                    let s2 = samples_at_exec(g2, vj);
                    merged = cap_append_exec(&seed, &s2);
                    vj += 1;
                },
                TTok::Lit(s2) => {
                    let ghost seed0 = seed.deep_view();
                    if seed.len() < 3 && !crate::groups::vec_contains_str(&seed, s2) {
                        seed.push(s2.clone());
                        proof {
                            assert(seed.deep_view() =~~= push_sample(seed0, gv2.toks[p as int]->Lit_0));
                        }
                    }
                    merged = seed;
                },
            }
            samples.push(merged);
            hints.push(String::new());
        }
        proof {
            let st2 = merge_upto(gv1, gv2, p as int + 1);
            assert(st2 == merge_step(st, gv1, gv2, p as int));
            assert(toks@.map_values(|t: TTok| t.view_t()) =~~= st2.toks);
            assert(samples.deep_view() =~~= st2.samples);
            assert(hints.deep_view() =~~= st2.hints);
        }
        p += 1;
    }
    let r = PatternGroup {
        template: toks,
        count: g1.count + g2.count,
        samples,
        var_types: hints,
    };
    proof {
        let st = merge_upto(gv1, gv2, n as int);
        assert(r.view_g().toks == st.toks);
        assert(r.view_g().samples == st.samples);
        assert(r.view_g().hints == st.hints);
        assert(r.view_g() == merge_pair(gv1, gv2));
    }
    r
}

/// Repeatedly merge the first qualifying pair of groups, restarting the
/// scan after every merge, until no pair qualifies.
pub fn merge_similar_templates(groups: &mut Vec<PatternGroup>)
    requires
        sum_counts(gview(old(groups)@)) <= usize::MAX,
    ensures
        gview(final(groups)@) == merge_all(gview(old(groups)@)),
        sum_counts(gview(final(groups)@)) == sum_counts(gview(old(groups)@)),
{
    let ghost orig = gview(groups@);
    let ghost target = merge_all(orig);
    proof {
        lemma_merge_all_sum(orig);
    }
    let mut done = false;
    while !done
        invariant
            merge_all(gview(groups@)) == target,
            sum_counts(gview(groups@)) == sum_counts(orig),
            sum_counts(orig) <= usize::MAX,
            done ==> find_from(gview(groups@), 0, 1) is None,
        decreases (if done { 0int } else { 1int }), groups@.len(),
    {
        let ghost prev = gview(groups@);
        let found = find_pair_exec(groups);
        match found {
            None => {
                done = true;
            },
            Some((i, j)) => {
                proof {
                    lemma_find_from_valid(prev, 0, 1);
                    assert(0 <= i < j < prev.len());
                    assert(mergeable(prev[i as int], prev[j as int]));
                    lemma_two_counts_le_sum(prev, i as int, j as int);
                    assert(prev[i as int] == groups@[i as int].view_g());
                    assert(prev[j as int] == groups@[j as int].view_g());
                    assert(groups@[i as int].template@.len() == prev[i as int].toks.len());
                    assert(groups@[j as int].template@.len() == prev[j as int].toks.len());
                }
                let merged = merge_pair_exec(&groups[i], &groups[j]);
                let ghost mgg = merged;
                let ghost pv = groups@;
                let _ = groups.remove(i);
                groups.insert(i, merged);
                let _ = groups.remove(j);
                proof {
                    assert(groups@ =~= pv.update(i as int, mgg).remove(j as int));
                    assert(mgg.view_g() == merge_pair(prev[i as int], prev[j as int]));
                    assert(gview(groups@) =~~= do_merge(prev, i as int, j as int));
                    assert(merge_all(prev) == merge_all(do_merge(prev, i as int, j as int)));
                    lemma_do_merge_sum(prev, i as int, j as int);
                }
            },
        }
    }
}


proof fn lemma_numvars_toks_step(toks: Seq<GTok>, p: int)
    requires
        0 <= p < toks.len(),
    ensures
        numvars_toks(toks.take(p + 1)) == numvars_toks(toks.take(p)) + (if toks[p] is Var {
            1 as nat
        } else {
            0 as nat
        }),
{
    assert(toks.take(p + 1).drop_last() =~= toks.take(p));
    assert(toks.take(p + 1).last() == toks[p]);
}

proof fn lemma_numvars_toks_mono(toks: Seq<GTok>, q: int)
    requires
        0 <= q <= toks.len(),
    ensures
        numvars_toks(toks.take(q)) <= numvars_toks(toks),
    decreases toks.len(),
{
    if q == toks.len() {
        assert(toks.take(q) =~= toks);
    } else {
        assert(toks.drop_last().take(q) =~= toks.take(q));
        lemma_numvars_toks_mono(toks.drop_last(), q);
    }
}

proof fn lemma_cap_append_wf(base: Seq<Seq<char>>, add: Seq<Seq<char>>)
    requires
        wf_samples(base),
    ensures
        wf_samples(cap_append(base, add)),
        cap_append(base, add).len() >= base.len(),
    decreases add.len(),
{
    if add.len() > 0 {
        lemma_cap_append_wf(base, add.drop_last());
        lemma_push_sample_wf(cap_append(base, add.drop_last()), add.last());
    }
}

proof fn lemma_merge_upto_wf(g1: GGroup, g2: GGroup, p: int)
    requires
        wf_group(g1),
        wf_group(g2),
        g1.toks.len() == g2.toks.len(),
        0 <= p <= g1.toks.len(),
    ensures
        ({
            let st = merge_upto(g1, g2, p);
            &&& st.toks.len() == p
            &&& st.samples.len() == numvars_toks(st.toks)
            &&& st.hints.len() == numvars_toks(st.toks)
            &&& forall|q: int|
                0 <= q < p ==> ((#[trigger] st.toks[q]) is Var ==> st.toks[q]->Var_0
                    == numvars_toks(st.toks.take(q)))
            &&& forall|i: int| 0 <= i < st.samples.len() ==> wf_samples(#[trigger] st.samples[i])
            &&& st.vi == numvars_toks(g1.toks.take(p))
            &&& st.vj == numvars_toks(g2.toks.take(p))
        }),
    decreases p,
{
    if p == 0 {
        let st = merge_upto(g1, g2, 0);
        assert(g1.toks.take(0) =~= Seq::<GTok>::empty());
        assert(g2.toks.take(0) =~= Seq::<GTok>::empty());
        assert(numvars_toks(st.toks) == 0);
    } else {
        lemma_merge_upto_wf(g1, g2, p - 1);
        let st = merge_upto(g1, g2, p - 1);
        let st2 = merge_upto(g1, g2, p);
        assert(st2 == merge_step(st, g1, g2, p - 1));
        lemma_numvars_toks_step(g1.toks, p - 1);
        lemma_numvars_toks_step(g2.toks, p - 1);
        let t1 = g1.toks[p - 1];
        let t2 = g2.toks[p - 1];
        if t1 is Var {
            lemma_numvars_toks_mono(g1.toks, p);
            assert(st.vi < g1.samples.len());
            assert(wf_samples(g1.samples[st.vi as int]));
        }
        if t2 is Var {
            lemma_numvars_toks_mono(g2.toks, p);
            assert(st.vj < g2.samples.len());
            assert(wf_samples(g2.samples[st.vj as int]));
        }
        assert(st.toks.take(st.toks.len() as int) =~= st.toks);
        if t1 == t2 {
            if t1 is Var {
                lemma_cap_append_wf(samples_at(g1, st.vi), samples_at(g2, st.vj));
                assert(st2.toks.drop_last() =~= st.toks);
                assert(forall|q: int| 0 <= q < p - 1 ==> st2.toks.take(q) =~= st.toks.take(q));
                assert(st2.toks.take(p - 1) =~= st.toks);
            } else {
                assert(st2.toks.drop_last() =~= st.toks);
                assert(forall|q: int| 0 <= q < p - 1 ==> st2.toks.take(q) =~= st.toks.take(q));
            }
        } else {
            let seed = if t1 is Var {
                samples_at(g1, st.vi)
            } else {
                seq![t1->Lit_0]
            };
            assert(wf_samples(seed));
            if t2 is Var {
                lemma_cap_append_wf(seed, samples_at(g2, st.vj));
            } else {
                lemma_push_sample_wf(seed, t2->Lit_0);
            }
            assert(st2.toks.drop_last() =~= st.toks);
            assert(forall|q: int| 0 <= q < p - 1 ==> st2.toks.take(q) =~= st.toks.take(q));
            assert(st2.toks.take(p - 1) =~= st.toks);
        }
    }
}

proof fn lemma_merge_pair_wf(g1: GGroup, g2: GGroup)
    requires
        wf_group(g1),
        wf_group(g2),
        g1.toks.len() == g2.toks.len(),
    ensures
        wf_group(merge_pair(g1, g2)),
{
    lemma_merge_upto_wf(g1, g2, g1.toks.len() as int);
}

/// Every group stays well formed through the whole greedy merge: in
/// particular each placeholder keeps a sample list of at most three
/// distinct values.
pub proof fn lemma_merge_all_wf(groups: Seq<GGroup>)
    requires
        wf_groups(groups),
    ensures
        wf_groups(merge_all(groups)),
    decreases groups.len(),
{
    lemma_find_from_valid(groups, 0, 1);
    match find_from(groups, 0, 1) {
        Some((i, j)) => {
            lemma_merge_pair_wf(groups[i], groups[j]);
            let d = do_merge(groups, i, j);
            assert forall|k: int| 0 <= k < d.len() implies wf_group(#[trigger] d[k]) by {
                let u = groups.update(i, merge_pair(groups[i], groups[j]));
                assert(d[k] == u.remove(j)[k]);
                if k < j {
                    assert(u.remove(j)[k] == u[k]);
                } else {
                    assert(u.remove(j)[k] == u[k + 1]);
                }
            }
            lemma_merge_all_wf(d);
        },
        None => {},
    }
}

} // verus!
