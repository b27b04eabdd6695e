//! Templates and pattern groups.
//!
//! Within a bucket, each line becomes a template: variable columns are
//! replaced by positional placeholders, structural columns keep their
//! verbatim token.  Lines with equal templates are grouped; a group keeps
//! a repeat count and, per placeholder, up to three distinct sample values
//! in order of first appearance.

use vstd::prelude::*;
use crate::stats::{GCol, ColumnStats, ParsedLine, stats_gview};
use crate::tokens::str_eq;

verus! {

/// One token of a template: a literal token or a positional placeholder.
pub enum TTok {
    /// A structural token, kept verbatim.
    Lit(String),
    /// The placeholder with this position number.
    Var(usize),
}

/// The mathematical reading of a template token.
pub ghost enum GTok {
    /// A structural token.
    Lit(Seq<char>),
    /// A placeholder position.
    Var(nat),
}

impl TTok {
    /// The mathematical reading of this token.
    pub open spec fn view_t(&self) -> GTok {
        match self {
            TTok::Lit(s) => GTok::Lit(s@),
            TTok::Var(k) => GTok::Var(*k as nat),
        }
    }
}

/// Whether two template tokens are equal.
pub fn tt_eq(a: &TTok, b: &TTok) -> (r: bool)
    ensures
        r == (a.view_t() == b.view_t()),
{
    match (a, b) {
        (TTok::Lit(x), TTok::Lit(y)) => *x == *y,
        (TTok::Var(p), TTok::Var(q)) => *p == *q,
        _ => false,
    }
}

/// A group of lines sharing one template.
pub struct PatternGroup {
    /// The template's tokens.
    pub template: Vec<TTok>,
    /// How many lines the group covers.
    pub count: usize,
    /// Per placeholder, up to three distinct sample values, in order of
    /// first appearance.
    pub samples: Vec<Vec<String>>,
    /// Per placeholder, a type hint (`hex`, `num`, `time`, or empty).
    pub var_types: Vec<String>,
}

/// The mathematical reading of a pattern group.
pub ghost struct GGroup {
    /// The template's tokens.
    pub toks: Seq<GTok>,
    /// How many lines the group covers.
    pub count: nat,
    /// Per placeholder, the sample values.
    pub samples: Seq<Seq<Seq<char>>>,
    /// Per placeholder, a type hint.
    pub hints: Seq<Seq<char>>,
}

impl PatternGroup {
    /// The mathematical reading of this group.
    pub open spec fn view_g(&self) -> GGroup {
        GGroup {
            toks: self.template@.map_values(|t: TTok| t.view_t()),
            count: self.count as nat,
            samples: self.samples.deep_view(),
            hints: self.var_types.deep_view(),
        }
    }
}

/// The mathematical reading of a vector of groups.
pub open spec fn gview(s: Seq<PatternGroup>) -> Seq<GGroup> {
    s.map_values(|g: PatternGroup| g.view_g())
}

/// How many of the flags are set.
pub open spec fn numvars(var: Seq<bool>) -> nat
    decreases var.len(),
{
    if var.len() == 0 {
        0
    } else {
        numvars(var.drop_last()) + if var.last() {
            1 as nat
        } else {
            0 as nat
        }
    }
}

/// How many template tokens are placeholders.
pub open spec fn numvars_toks(toks: Seq<GTok>) -> nat
    decreases toks.len(),
{
    if toks.len() == 0 {
        0
    } else {
        numvars_toks(toks.drop_last()) + if toks.last() is Var {
            1 as nat
        } else {
            0 as nat
        }
    }
}

/// The template of one line: variable columns become placeholders
/// numbered from zero in column order, other columns keep their token.
pub open spec fn line_template(toks: Seq<Seq<char>>, var: Seq<bool>) -> Seq<GTok> {
    Seq::new(
        toks.len(),
        |c: int|
            if c < var.len() && var[c] {
                GTok::Var(numvars(var.take(c)))
            } else {
                GTok::Lit(toks[c])
            },
    )
}

/// The verbatim tokens of one line at its variable columns, in order.
pub open spec fn line_vals(toks: Seq<Seq<char>>, var: Seq<bool>) -> Seq<Seq<char>>
    decreases toks.len(),
{
    if toks.len() == 0 || var.len() < toks.len() {
        Seq::empty()
    } else {
        let rest = line_vals(toks.drop_last(), var.take(toks.len() - 1));
        if var[toks.len() - 1] {
            rest + seq![toks.last()]
        } else {
            rest
        }
    }
}

/// The hints of the variable columns, in order.
pub open spec fn line_hints(hints: Seq<Seq<char>>, var: Seq<bool>) -> Seq<Seq<char>>
    decreases hints.len(),
{
    if hints.len() == 0 || var.len() < hints.len() {
        Seq::empty()
    } else {
        let rest = line_hints(hints.drop_last(), var.take(hints.len() - 1));
        if var[hints.len() - 1] {
            rest + seq![hints.last()]
        } else {
            rest
        }
    }
}

/// Append a sample value unless the list is full (three entries) or
/// already holds it.
pub open spec fn push_sample(s: Seq<Seq<char>>, v: Seq<char>) -> Seq<Seq<char>> {
    if s.len() < 3 && !s.contains(v) {
        s.push(v)
    } else {
        s
    }
}

/// A fresh group for a first-seen template: count one, one singleton
/// sample list per placeholder.
pub open spec fn new_group(t: Seq<GTok>, vals: Seq<Seq<char>>, hints: Seq<Seq<char>>) -> GGroup {
    GGroup {
        toks: t,
        count: 1,
        samples: vals.map_values(|v: Seq<char>| seq![v]),
        hints: hints,
    }
}

/// One more line for an existing group: bump the count and offer each
/// placeholder value to its sample list.
pub open spec fn upd_group(g: GGroup, vals: Seq<Seq<char>>) -> GGroup {
    GGroup {
        toks: g.toks,
        count: g.count + 1,
        samples: Seq::new(
            g.samples.len(),
            |i: int|
                if i < vals.len() {
                    push_sample(g.samples[i], vals[i])
                } else {
                    g.samples[i]
                },
        ),
        hints: g.hints,
    }
}

/// Fold one line into the group list: the first group with this template
/// takes it; otherwise a fresh group is appended.
pub open spec fn add_line(
    groups: Seq<GGroup>,
    t: Seq<GTok>,
    vals: Seq<Seq<char>>,
    hints: Seq<Seq<char>>,
) -> Seq<GGroup>
    decreases groups.len(),
{
    if groups.len() == 0 {
        seq![new_group(t, vals, hints)]
    } else if groups[0].toks == t {
        seq![upd_group(groups[0], vals)] + groups.drop_first()
    } else {
        seq![groups[0]] + add_line(groups.drop_first(), t, vals, hints)
    }
}

/// The groups of one width-`w` bucket, folded line by line.
pub open spec fn bucket_groups(
    b: Seq<Seq<Seq<char>>>,
    var: Seq<bool>,
    hints: Seq<Seq<char>>,
) -> Seq<GGroup>
    decreases b.len(),
{
    if b.len() == 0 {
        Seq::empty()
    } else {
        add_line(
            bucket_groups(b.drop_last(), var, hints),
            line_template(b.last(), var),
            line_vals(b.last(), var),
            line_hints(hints, var),
        )
    }
}

/// The total of the group counts.
pub open spec fn sum_counts(groups: Seq<GGroup>) -> nat
    decreases groups.len(),
{
    if groups.len() == 0 {
        0
    } else {
        groups[0].count + sum_counts(groups.drop_first())
    }
}

/// Folding a line into the groups raises the total count by one.
pub proof fn lemma_add_line_sum(
    groups: Seq<GGroup>,
    t: Seq<GTok>,
    vals: Seq<Seq<char>>,
    hints: Seq<Seq<char>>,
)
    ensures
        sum_counts(add_line(groups, t, vals, hints)) == sum_counts(groups) + 1,
    decreases groups.len(),
{
    let r = add_line(groups, t, vals, hints);
    assert(sum_counts(r) == r[0].count + sum_counts(r.drop_first()));
    if groups.len() == 0 {
        assert(r.drop_first() =~= Seq::<GGroup>::empty());
        assert(sum_counts(Seq::<GGroup>::empty()) == 0);
        assert(r[0].count == 1);
    } else if groups[0].toks == t {
        assert(r.drop_first() =~= groups.drop_first());
        assert(r[0] == upd_group(groups[0], vals));
        assert(sum_counts(groups) == groups[0].count + sum_counts(groups.drop_first()));
    } else {
        lemma_add_line_sum(groups.drop_first(), t, vals, hints);
        assert(r.drop_first() =~= add_line(groups.drop_first(), t, vals, hints));
        assert(r[0] == groups[0]);
        assert(sum_counts(groups) == groups[0].count + sum_counts(groups.drop_first()));
    }
}

/// The groups of a bucket cover exactly its lines.
pub proof fn lemma_bucket_groups_sum(b: Seq<Seq<Seq<char>>>, var: Seq<bool>, hints: Seq<Seq<char>>)
    ensures
        sum_counts(bucket_groups(b, var, hints)) == b.len(),
    decreases b.len(),
{
    if b.len() > 0 {
        lemma_bucket_groups_sum(b.drop_last(), var, hints);
        lemma_add_line_sum(
            bucket_groups(b.drop_last(), var, hints),
            line_template(b.last(), var),
            line_vals(b.last(), var),
            line_hints(hints, var),
        );
    }
}

/// Each count in a group list is at most the total.
proof fn lemma_count_le_sum(groups: Seq<GGroup>, i: int)
    requires
        0 <= i < groups.len(),
    ensures
        groups[i].count <= sum_counts(groups),
    decreases groups.len(),
{
    if i > 0 {
        lemma_count_le_sum(groups.drop_first(), i - 1);
    }
}

/// Two distinct counts together are at most the total.
pub proof fn lemma_two_counts_le_sum(groups: Seq<GGroup>, i: int, j: int)
    requires
        0 <= i < j < groups.len(),
    ensures
        groups[i].count + groups[j].count <= sum_counts(groups),
    decreases groups.len(),
{
    if i == 0 {
        lemma_count_le_sum(groups.drop_first(), j - 1);
    } else {
        lemma_two_counts_le_sum(groups.drop_first(), i - 1, j - 1);
    }
}

/// Well-formed sample lists: sizes capped at three, values distinct, at
/// least one value present.
pub open spec fn wf_samples(s: Seq<Seq<char>>) -> bool {
    &&& 1 <= s.len() <= 3
    &&& forall|i: int, j: int| 0 <= i < j < s.len() ==> s[i] != s[j]
}

/// A well-formed group: placeholders are numbered consecutively from
/// zero, one sample list and one hint per placeholder, all sample lists
/// well formed, and at least one line covered.
pub open spec fn wf_group(g: GGroup) -> bool {
    &&& g.samples.len() == numvars_toks(g.toks)
    &&& g.hints.len() == numvars_toks(g.toks)
    &&& forall|p: int|
        0 <= p < g.toks.len() ==> ((#[trigger] g.toks[p]) is Var ==> g.toks[p]->Var_0
            == numvars_toks(g.toks.take(p)))
    &&& forall|i: int| 0 <= i < g.samples.len() ==> wf_samples(#[trigger] g.samples[i])
    &&& g.count >= 1
}

/// All groups of a list are well formed.
pub open spec fn wf_groups(groups: Seq<GGroup>) -> bool {
    forall|i: int| 0 <= i < groups.len() ==> wf_group(#[trigger] groups[i])
}

/// The placeholder numbering of a line's template agrees with counting
/// variable columns.
proof fn lemma_lt_numvars(toks: Seq<Seq<char>>, var: Seq<bool>, c: int)
    requires
        toks.len() == var.len(),
        0 <= c <= toks.len(),
    ensures
        numvars_toks(line_template(toks, var).take(c)) == numvars(var.take(c)),
    decreases c,
{
    let lt = line_template(toks, var);
    if c == 0 {
        assert(lt.take(0) =~= Seq::<GTok>::empty());
        assert(var.take(0) =~= Seq::<bool>::empty());
    } else {
        lemma_lt_numvars(toks, var, c - 1);
        assert(lt.take(c).drop_last() =~= lt.take(c - 1));
        assert(var.take(c).drop_last() =~= var.take(c - 1));
        assert(lt.take(c).last() == lt[c - 1]);
        assert(var.take(c).last() == var[c - 1]);
    }
}

proof fn lemma_line_vals_len(toks: Seq<Seq<char>>, var: Seq<bool>)
    requires
        toks.len() == var.len(),
    ensures
        line_vals(toks, var).len() == numvars(var),
    decreases toks.len(),
{
    if toks.len() > 0 {
        assert(var.take(toks.len() - 1) =~= var.drop_last());
        lemma_line_vals_len(toks.drop_last(), var.drop_last());
    } else {
        assert(var =~= Seq::<bool>::empty());
    }
}

proof fn lemma_line_hints_len(hints: Seq<Seq<char>>, var: Seq<bool>)
    requires
        hints.len() == var.len(),
    ensures
        line_hints(hints, var).len() == numvars(var),
    decreases hints.len(),
{
    if hints.len() > 0 {
        assert(var.take(hints.len() - 1) =~= var.drop_last());
        lemma_line_hints_len(hints.drop_last(), var.drop_last());
    } else {
        assert(var =~= Seq::<bool>::empty());
    }
}

/// A line's template, sample values and hints fit together: one value and
/// one hint per placeholder, placeholders numbered from zero in order.
pub open spec fn wf_line_args(t: Seq<GTok>, vals: Seq<Seq<char>>, hints: Seq<Seq<char>>) -> bool {
    &&& vals.len() == numvars_toks(t)
    &&& hints.len() == numvars_toks(t)
    &&& forall|p: int|
        0 <= p < t.len() ==> ((#[trigger] t[p]) is Var ==> t[p]->Var_0 == numvars_toks(t.take(p)))
}

/// The template, values and hints built for any line of a bucket fit
/// together.
pub proof fn lemma_line_args_wf(toks: Seq<Seq<char>>, var: Seq<bool>, hints: Seq<Seq<char>>)
    requires
        toks.len() == var.len(),
        hints.len() == var.len(),
    ensures
        wf_line_args(
            line_template(toks, var),
            line_vals(toks, var),
            line_hints(hints, var),
        ),
{
    let lt = line_template(toks, var);
    lemma_line_vals_len(toks, var);
    lemma_line_hints_len(hints, var);
    lemma_lt_numvars(toks, var, toks.len() as int);
    assert(lt.take(lt.len() as int) =~= lt);
    assert(var.take(var.len() as int) =~= var);
    assert forall|p: int| 0 <= p < lt.len() && (#[trigger] lt[p]) is Var implies lt[p]->Var_0
        == numvars_toks(lt.take(p)) by {
        lemma_lt_numvars(toks, var, p);
    }
}

/// Offering a value to a well-formed sample list keeps it well formed.
pub proof fn lemma_push_sample_wf(s: Seq<Seq<char>>, v: Seq<char>)
    requires
        wf_samples(s),
    ensures
        wf_samples(push_sample(s, v)),
{
    if s.len() < 3 && !s.contains(v) {
        assert(forall|i: int| 0 <= i < s.len() ==> s[i] != v);
    }
}

/// Folding a line with fitting arguments into well-formed groups keeps
/// every group well formed.
pub proof fn lemma_add_line_wf(
    groups: Seq<GGroup>,
    t: Seq<GTok>,
    vals: Seq<Seq<char>>,
    hints: Seq<Seq<char>>,
)
    requires
        wf_groups(groups),
        wf_line_args(t, vals, hints),
    ensures
        wf_groups(add_line(groups, t, vals, hints)),
    decreases groups.len(),
{
    let r = add_line(groups, t, vals, hints);
    if groups.len() == 0 {
        let g = new_group(t, vals, hints);
        assert(wf_group(g));
    } else if groups[0].toks == t {
        let g = upd_group(groups[0], vals);
        assert forall|i: int| 0 <= i < g.samples.len() implies wf_samples(#[trigger] g.samples[i])
            by {
            assert(wf_group(groups[0]));
            if i < vals.len() {
                lemma_push_sample_wf(groups[0].samples[i], vals[i]);
            }
        }
        assert(wf_group(g));
        assert(forall|i: int| 0 <= i < r.len() ==> r[i] == (if i == 0 {
            g
        } else {
            groups[i]
        }));
    } else {
        lemma_add_line_wf(groups.drop_first(), t, vals, hints);
        assert(forall|i: int|
            1 <= i < r.len() ==> r[i] == add_line(groups.drop_first(), t, vals, hints)[i - 1]);
    }
}

/// Every group a bucket yields is well formed, and its template is as
/// wide as the bucket's lines: lines of different token counts never
/// share a group.
pub proof fn lemma_bucket_groups_wf(
    b: Seq<Seq<Seq<char>>>,
    var: Seq<bool>,
    hints: Seq<Seq<char>>,
    w: nat,
)
    requires
        forall|i: int| 0 <= i < b.len() ==> (#[trigger] b[i]).len() == w,
        var.len() == w,
        hints.len() == w,
    ensures
        wf_groups(bucket_groups(b, var, hints)),
        forall|i: int|
            0 <= i < bucket_groups(b, var, hints).len() ==> (#[trigger] bucket_groups(
                b,
                var,
                hints,
            )[i]).toks.len() == w,
    decreases b.len(),
{
    if b.len() > 0 {
        lemma_bucket_groups_wf(b.drop_last(), var, hints, w);
        lemma_line_args_wf(b.last(), var, hints);
        let gs = bucket_groups(b.drop_last(), var, hints);
        let t = line_template(b.last(), var);
        lemma_add_line_wf(gs, t, line_vals(b.last(), var), line_hints(hints, var));
        lemma_add_line_width(gs, t, line_vals(b.last(), var), line_hints(hints, var), w);
    }
}

proof fn lemma_add_line_width(
    groups: Seq<GGroup>,
    t: Seq<GTok>,
    vals: Seq<Seq<char>>,
    hints: Seq<Seq<char>>,
    w: nat,
)
    requires
        forall|i: int| 0 <= i < groups.len() ==> (#[trigger] groups[i]).toks.len() == w,
        t.len() == w,
    ensures
        forall|i: int|
            0 <= i < add_line(groups, t, vals, hints).len() ==> (#[trigger] add_line(
                groups,
                t,
                vals,
                hints,
            )[i]).toks.len() == w,
    decreases groups.len(),
{
    let r = add_line(groups, t, vals, hints);
    if groups.len() == 0 {
    } else if groups[0].toks == t {
        assert(forall|i: int| 1 <= i < r.len() ==> r[i] == groups[i]);
    } else {
        lemma_add_line_width(groups.drop_first(), t, vals, hints, w);
        assert(forall|i: int|
            1 <= i < r.len() ==> r[i] == add_line(groups.drop_first(), t, vals, hints)[i - 1]);
    }
}


/// The type hint of one column: a fixed name when every observed display
/// form is one placeholder kind, empty otherwise or for structural
/// columns.
pub open spec fn hint_of(g: GCol, variable: bool) -> Seq<char> {
    if !variable {
        Seq::empty()
    } else if g.counts.len() == 1 {
        let key = g.counts[0].0;
        if key == "<hex>"@ || key == "[<hex>]"@ {
            "hex"@
        } else if key == "<num>"@ {
            "num"@
        } else if key == "<time>"@ {
            "time"@
        } else {
            Seq::empty()
        }
    } else {
        Seq::empty()
    }
}

/// The type hints of all columns of a bucket.
pub open spec fn spec_hints(stats: Seq<GCol>, vars: Seq<bool>) -> Seq<Seq<char>> {
    Seq::new(stats.len(), |c: int| hint_of(stats[c], 0 <= c < vars.len() && vars[c]))
}

/// Compute the per-column type hints.
pub fn compute_hints(stats: &Vec<ColumnStats>, vars: &Vec<bool>) -> (r: Vec<String>)
    requires
        vars@.len() == stats@.len(),
    ensures
        r.deep_view() == spec_hints(stats_gview(stats@), vars@),
{
    let w = stats.len();
    let mut r: Vec<String> = Vec::new();
    let mut c: usize = 0;
    while c < w
        invariant
            c <= w,
            w == stats@.len() == vars@.len(),
            r@.len() == c,
            forall|k: int|
                0 <= k < c ==> (#[trigger] r@[k])@ == hint_of(stats@[k].view_col(), vars@[k]),
        decreases w - c,
    {
        let h: String;
        if !vars[c] {
            h = String::new();
        } else if stats[c].counts.len() == 1 {
            let key = &stats[c].counts[0].0;
            if str_eq(key.as_str(), "<hex>") || str_eq(key.as_str(), "[<hex>]") {
                h = String::from_str("hex");
            } else if str_eq(key.as_str(), "<num>") {
                h = String::from_str("num");
            } else if str_eq(key.as_str(), "<time>") {
                h = String::from_str("time");
            } else {
                h = String::new();
            }
        } else {
            h = String::new();
        }
        proof {
            assert(stats@[c as int].view_col().counts.len() == stats@[c as int].counts@.len());
            if vars@[c as int] && stats@[c as int].counts@.len() == 1 {
                assert(stats@[c as int].view_col().counts[0].0 == stats@[c as int].counts@[0].0@);
            }
            assert(h@ == hint_of(stats@[c as int].view_col(), vars@[c as int]));
        }
        r.push(h);
        c += 1;
    }
    proof {
        assert forall|k: int| 0 <= k < w implies stats_gview(stats@)[k] == stats@[k].view_col()
            by {}
        assert(r.deep_view() =~~= spec_hints(stats_gview(stats@), vars@));
    }
    r
}

/// Keep only the entries at variable columns.
pub fn filter_hints(hints: &Vec<String>, vars: &Vec<bool>) -> (r: Vec<String>)
    requires
        vars@.len() == hints@.len(),
    ensures
        r.deep_view() == line_hints(hints.deep_view(), vars@),
{
    let w = hints.len();
    let mut r: Vec<String> = Vec::new();
    let mut c: usize = 0;
    proof {
        assert(hints.deep_view().take(0) =~= Seq::<Seq<char>>::empty());
        assert(r.deep_view() =~~= line_hints(hints.deep_view().take(0), vars@.take(0)));
    }
    while c < w
        invariant
            c <= w,
            w == hints@.len() == vars@.len(),
            hints.deep_view().len() == w,
            r.deep_view() == line_hints(hints.deep_view().take(c as int), vars@.take(c as int)),
        decreases w - c,
    {
        let ghost hv = hints.deep_view();
        proof {
            assert(hv.take(c + 1).drop_last() =~= hv.take(c as int));
            assert(hv.take(c + 1).last() == hv[c as int]);
            assert(vars@.take(c + 1).take(c as int) =~= vars@.take(c as int));
        }
        if vars[c] {
            r.push(hints[c].clone());
        }
        proof {
            assert(r.deep_view() =~~= line_hints(hv.take(c + 1), vars@.take(c + 1)));
        }
        c += 1;
    }
    proof {
        assert(hints.deep_view().take(w as int) =~= hints.deep_view());
        assert(vars@.take(w as int) =~= vars@);
    }
    r
}

/// Build one line's template and the values of its variable columns.
pub fn build_line(line: &ParsedLine, vars: &Vec<bool>) -> (r: (Vec<TTok>, Vec<String>))
    requires
        vars@.len() == line.view_toks().len(),
    ensures
        r.0@.map_values(|t: TTok| t.view_t()) == line_template(line.view_toks(), vars@),
        r.1.deep_view() == line_vals(line.view_toks(), vars@),
{
    let ghost lv = line.view_toks();
    let w = line.original.len();
    let mut tt: Vec<TTok> = Vec::new();
    let mut vals: Vec<String> = Vec::new();
    let mut vc: usize = 0;
    proof {
        assert(lv.take(0) =~= Seq::<Seq<char>>::empty());
        assert(vals.deep_view() =~~= line_vals(lv.take(0), vars@.take(0)));
        assert(numvars(vars@.take(0)) == 0);
    }
    let mut c: usize = 0;
    while c < w
        invariant
            c <= w,
            w == line.original@.len(),
            lv == line.view_toks(),
            lv.len() == w,
            vars@.len() == w,
            tt@.len() == c,
            vc == numvars(vars@.take(c as int)),
            vc <= c,
            forall|j: int| 0 <= j < c ==> (#[trigger] tt@[j]).view_t() == line_template(lv, vars@)[j],
            vals.deep_view() == line_vals(lv.take(c as int), vars@.take(c as int)),
        decreases w - c,
    {
        proof {
            assert(lv.take(c + 1).drop_last() =~= lv.take(c as int));
            assert(lv.take(c + 1).last() == lv[c as int]);
            assert(vars@.take(c + 1).take(c as int) =~= vars@.take(c as int));
            assert(vars@.take(c + 1).drop_last() =~= vars@.take(c as int));
            assert(lv[c as int] == line.original@[c as int]@);
        }
        if vars[c] {
            tt.push(TTok::Var(vc));
            vals.push(line.original[c].clone());
            vc = vc + 1;
        } else {
            tt.push(TTok::Lit(line.original[c].clone()));
        }
        proof {
            assert(vals.deep_view() =~~= line_vals(lv.take(c + 1), vars@.take(c + 1)));
            assert(numvars(vars@.take(c + 1)) == numvars(vars@.take(c as int)) + (
            if vars@[c as int] {
                1 as nat
            } else {
                0 as nat
            }));
        }
        c += 1;
    }
    proof {
        assert(lv.take(w as int) =~= lv);
        assert(vars@.take(w as int) =~= vars@);
        assert(tt@.map_values(|t: TTok| t.view_t()) =~= line_template(lv, vars@));
    }
    (tt, vals)
}

/// Whether two template token vectors read equal.
fn tvec_eq(a: &Vec<TTok>, b: &Vec<TTok>) -> (r: bool)
    ensures
        r == (a@.map_values(|t: TTok| t.view_t()) == b@.map_values(|t: TTok| t.view_t())),
{
    let na = a.len();
    let nb = b.len();
    if na != nb {
        proof {
            assert(a@.map_values(|t: TTok| t.view_t()).len() == na);
            assert(b@.map_values(|t: TTok| t.view_t()).len() == nb);
        }
        return false;
    }
    let mut i: usize = 0;
    while i < na
        invariant
            i <= na,
            na == a@.len() == b@.len(),
            forall|k: int| 0 <= k < i ==> a@[k].view_t() == b@[k].view_t(),
        decreases na - i,
    {
        if !tt_eq(&a[i], &b[i]) {
            proof {
                assert(a@.map_values(|t: TTok| t.view_t())[i as int] != b@.map_values(
                    |t: TTok| t.view_t(),
                )[i as int]);
            }
            return false;
        }
        i += 1;
    }
    proof {
        assert(a@.map_values(|t: TTok| t.view_t()) =~= b@.map_values(|t: TTok| t.view_t()));
    }
    true
}

/// Whether the list already holds this value.
pub fn vec_contains_str(s: &Vec<String>, v: &String) -> (r: bool)
    ensures
        r == s.deep_view().contains(v@),
{
    let n = s.len();
    let mut i: usize = 0;
    while i < n
        invariant
            i <= n,
            n == s@.len(),
            forall|k: int| 0 <= k < i ==> s@[k]@ != v@,
        decreases n - i,
    {
        if str_eq(s[i].as_str(), v.as_str()) {
            proof {
                assert(s.deep_view()[i as int] == v@);
            }
            return true;
        }
        i += 1;
    }
    proof {
        assert(forall|k: int| 0 <= k < n ==> s.deep_view()[k] != v@);
    }
    false
}

/// Offer one sample value to a list: append it unless the list is full
/// or already holds it.
fn push_sample_exec(s: &Vec<String>, v: &String) -> (r: Vec<String>)
    ensures
        r.deep_view() == push_sample(s.deep_view(), v@),
{
    let n = s.len();
    let mut r: Vec<String> = Vec::new();
    let mut i: usize = 0;
    while i < n
        invariant
            i <= n,
            n == s@.len(),
            r@.len() == i,
            forall|k: int| 0 <= k < i ==> (#[trigger] r@[k])@ == s@[k]@,
        decreases n - i,
    {
        r.push(s[i].clone());
        i += 1;
    }
    proof {
        assert(r.deep_view() =~~= s.deep_view());
    }
    if r.len() < 3 && !vec_contains_str(&r, v) {
        r.push(v.clone());
        proof {
            assert(r.deep_view() =~~= push_sample(s.deep_view(), v@));
        }
    }
    r
}

proof fn lemma_add_line_found(
    groups: Seq<GGroup>,
    t: Seq<GTok>,
    vals: Seq<Seq<char>>,
    hints: Seq<Seq<char>>,
    j: int,
)
    requires
        0 <= j < groups.len(),
        groups[j].toks == t,
        forall|i: int| 0 <= i < j ==> (#[trigger] groups[i]).toks != t,
    ensures
        add_line(groups, t, vals, hints) == groups.update(j, upd_group(groups[j], vals)),
    decreases groups.len(),
{
    if j == 0 {
        assert(add_line(groups, t, vals, hints) =~= groups.update(0, upd_group(groups[0], vals)));
    } else {
        assert(forall|i: int|
            0 <= i < j - 1 ==> (#[trigger] groups.drop_first()[i]).toks == groups[i + 1].toks);
        lemma_add_line_found(groups.drop_first(), t, vals, hints, j - 1);
        assert(add_line(groups, t, vals, hints) =~= groups.update(j, upd_group(groups[j], vals)));
    }
}

proof fn lemma_add_line_absent(
    groups: Seq<GGroup>,
    t: Seq<GTok>,
    vals: Seq<Seq<char>>,
    hints: Seq<Seq<char>>,
)
    requires
        forall|i: int| 0 <= i < groups.len() ==> (#[trigger] groups[i]).toks != t,
    ensures
        add_line(groups, t, vals, hints) == groups + seq![new_group(t, vals, hints)],
    decreases groups.len(),
{
    if groups.len() == 0 {
        assert(add_line(groups, t, vals, hints) =~= groups + seq![new_group(t, vals, hints)]);
    } else {
        lemma_add_line_absent(groups.drop_first(), t, vals, hints);
        assert(add_line(groups, t, vals, hints) =~= groups + seq![new_group(t, vals, hints)]);
    }
}

/// Fold one line's template, values and hints into the group list.
fn add_line_exec(
    groups: &mut Vec<PatternGroup>,
    t: Vec<TTok>,
    vals: Vec<String>,
    hints: Vec<String>,
    Ghost(m): Ghost<nat>,
)
    requires
        forall|i: int| 0 <= i < old(groups)@.len() ==> (#[trigger] old(groups)@[i]).count <= m,
        m < usize::MAX,
    ensures
        gview(final(groups)@) == add_line(
            gview(old(groups)@),
            t@.map_values(|x: TTok| x.view_t()),
            vals.deep_view(),
            hints.deep_view(),
        ),
        forall|i: int| 0 <= i < final(groups)@.len() ==> (#[trigger] final(groups)@[i]).count <= m + 1,
{
    let ghost gt = t@.map_values(|x: TTok| x.view_t());
    let ghost gvals = vals.deep_view();
    let ghost ghints = hints.deep_view();
    let ghost orig = groups@;
    let n = groups.len();
    let mut j: usize = 0;
    let mut found = false;
    while j < n && !found
        invariant
            j <= n,
            n == groups@.len(),
            groups@ == orig,
            gt == t@.map_values(|x: TTok| x.view_t()),
            !found ==> forall|i: int|
                0 <= i < j ==> (#[trigger] gview(orig)[i]).toks != gt,
            found ==> j < n && gview(orig)[j as int].toks == gt && forall|i: int|
                0 <= i < j ==> (#[trigger] gview(orig)[i]).toks != gt,
        decreases (if found { 0int } else { 1int }), n - j,
    {
        if tvec_eq(&groups[j].template, &t) {
            found = true;
            proof {
                assert(gview(orig)[j as int].toks == orig[j as int].view_g().toks);
            }
        } else {
            proof {
                assert(gview(orig)[j as int].toks == orig[j as int].view_g().toks);
            }
            j += 1;
        }
    }
    if found {
        proof {
            assert(orig[j as int].count <= m);
        }
        let mut g = groups.remove(j);
        g.count = g.count + 1;
        let nvals = vals.len();
        let mut si: usize = 0;
        let ghost old_samples = g.samples@;
        while si < g.samples.len()
            invariant
                si <= g.samples@.len(),
                g.samples@.len() == old_samples.len(),
                g.count == orig[j as int].count + 1,
                g.template@ == orig[j as int].template@,
                g.var_types@ == orig[j as int].var_types@,
                j < orig.len(),
                orig[j as int].count <= m,
                m < usize::MAX,
                nvals == vals@.len(),
                gvals == vals.deep_view(),
                forall|k: int|
                    si <= k < old_samples.len() ==> (#[trigger] g.samples@[k]) == old_samples[k],
                forall|k: int|
                    0 <= k < si ==> (#[trigger] g.samples@[k]).deep_view() == (
                    if k < gvals.len() {
                        push_sample(old_samples[k].deep_view(), gvals[k])
                    } else {
                        old_samples[k].deep_view()
                    }),
            decreases g.samples@.len() - si,
        {
            if si < nvals {
                let ghost before = g.samples@;
                let cur = g.samples.remove(si);
                let upd = push_sample_exec(&cur, &vals[si]);
                g.samples.insert(si, upd);
                proof {
                    assert(g.samples@ =~= before.update(si as int, g.samples@[si as int]));
                    assert(gvals[si as int] == vals@[si as int]@);
                }
            }
            si += 1;
        }
        let ghost gg = g;
        groups.insert(j, g);
        proof {
            lemma_add_line_found(gview(orig), gt, gvals, ghints, j as int);
            assert(groups@ =~= orig.update(j as int, gg));
            assert(gview(orig)[j as int] == orig[j as int].view_g());
            assert(gg.template@ == orig[j as int].template@);
            assert(gg.view_g().samples =~~= upd_group(gview(orig)[j as int], gvals).samples);
            assert(gg.view_g().toks == upd_group(gview(orig)[j as int], gvals).toks);
            assert(gg.view_g().count == upd_group(gview(orig)[j as int], gvals).count);
            assert(gg.view_g().hints == upd_group(gview(orig)[j as int], gvals).hints);
            assert(gg.view_g() == upd_group(gview(orig)[j as int], gvals));
            assert(gview(groups@) =~~= add_line(gview(orig), gt, gvals, ghints));
        }
    } else {
        let mut samples: Vec<Vec<String>> = Vec::new();
        let nvals = vals.len();
        let mut si: usize = 0;
        while si < nvals
            invariant
                si <= nvals,
                nvals == vals@.len(),
                gvals == vals.deep_view(),
                samples@.len() == si,
                forall|k: int|
                    0 <= k < si ==> (#[trigger] samples@[k]).deep_view() == seq![gvals[k]],
            decreases nvals - si,
        {
            let mut one: Vec<String> = Vec::new();
            one.push(vals[si].clone());
            proof {
                assert(one.deep_view() =~~= seq![gvals[si as int]]);
            }
            samples.push(one);
            si += 1;
        }
        let g = PatternGroup { template: t, count: 1, samples, var_types: hints };
        let ghost gg = g;
        groups.push(g);
        proof {
            lemma_add_line_absent(gview(orig), gt, gvals, ghints);
            assert(groups@ =~= orig + seq![gg]);
            assert(gg.view_g().samples =~~= new_group(gt, gvals, ghints).samples);
            assert(gg.view_g() == new_group(gt, gvals, ghints));
            assert(gview(groups@) =~~= add_line(gview(orig), gt, gvals, ghints));
        }
    }
}

/// Group the lines of one bucket by their template.
pub fn group_bucket(
    bucket: &Vec<ParsedLine>,
    vars: &Vec<bool>,
    hints: &Vec<String>,
) -> (r: Vec<PatternGroup>)
    requires
        forall|i: int|
            0 <= i < bucket@.len() ==> (#[trigger] bucket@[i]).view_toks().len() == vars@.len(),
        hints@.len() == vars@.len(),
    ensures
        gview(r@) == bucket_groups(
            bucket@.map_values(|pl: ParsedLine| pl.view_toks()),
            vars@,
            hints.deep_view(),
        ),
        forall|i: int| 0 <= i < r@.len() ==> (#[trigger] r@[i]).count <= bucket@.len(),
{
    let ghost bv = bucket@.map_values(|pl: ParsedLine| pl.view_toks());
    let lh = filter_hints(hints, vars);
    let mut groups: Vec<PatternGroup> = Vec::new();
    let n = bucket.len();
    let mut i: usize = 0;
    proof {
        assert(bv.take(0) =~= Seq::<Seq<Seq<char>>>::empty());
        assert(gview(groups@) =~~= bucket_groups(bv.take(0), vars@, hints.deep_view()));
    }
    while i < n
        invariant
            i <= n,
            n == bucket@.len(),
            bv == bucket@.map_values(|pl: ParsedLine| pl.view_toks()),
            forall|k: int|
                0 <= k < bucket@.len() ==> (#[trigger] bucket@[k]).view_toks().len() == vars@.len(),
            hints@.len() == vars@.len(),
            lh.deep_view() == line_hints(hints.deep_view(), vars@),
            gview(groups@) == bucket_groups(bv.take(i as int), vars@, hints.deep_view()),
            forall|k: int| 0 <= k < groups@.len() ==> (#[trigger] groups@[k]).count <= i,
        decreases n - i,
    {
        let (t, vals) = build_line(&bucket[i], vars);
        let mut lh2: Vec<String> = Vec::new();
        let mut hc: usize = 0;
        while hc < lh.len()
            invariant
                hc <= lh@.len(),
                lh2@.len() == hc,
                forall|k: int| 0 <= k < hc ==> (#[trigger] lh2@[k])@ == lh@[k]@,
            decreases lh@.len() - hc,
        {
            lh2.push(lh[hc].clone());
            hc += 1;
        }
        proof {
            assert(lh2.deep_view() =~~= lh.deep_view());
            assert(bv.take(i + 1).drop_last() =~= bv.take(i as int));
            assert(bv.take(i + 1).last() == bv[i as int]);
            assert(bv[i as int] == bucket@[i as int].view_toks());
        }
        add_line_exec(&mut groups, t, vals, lh2, Ghost(i as nat));
        i += 1;
    }
    proof {
        assert(bv.take(n as int) =~= bv);
    }
    groups
}

} // verus!
