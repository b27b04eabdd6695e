//! Per-column value statistics within one length bucket, and the adaptive
//! decision of which columns are variable.
//!
//! A column is declared variable when any observed token there was
//! inherently variable, or when its Shannon entropy exceeds an adaptive
//! cutoff derived from the bucket: the upper median of the column
//! entropies, raised to nine tenths of the minimum entropy among
//! high-uniqueness columns when such columns exist, and to a floor of two
//! bits otherwise.  With `n` lines in the bucket, a column whose distinct
//! display values occur `c_1 … c_d` times has entropy
//! `H = log2(n) - log2(c_1^c_1 * … * c_d^c_d) / n`, so every comparison of
//! entropies against each other or against the cutoff is decided exactly
//! over the integer products `p = c_1^c_1 * … * c_d^c_d`:
//! `H > H'` is `p < p'`, `H > 0.9 * H_m` is `n^n * p_m^9 > p^10`, and
//! `H > 2` is `n^n > 4^n * p`.

use vstd::prelude::*;
use crate::bignat::{BigNat, npow, lemma_npow_zero, lemma_npow_succ, lemma_npow_one_exp};
use crate::classify::{spec_display, spec_inherent, NormalizedToken};
use crate::tokens::{spec_tokenize, tokenize, tokenize_normalized};

verus! {

/// A line split into tokens, each token also classified.
pub struct ParsedLine {
    /// The classified form of each token.
    pub normalized: Vec<NormalizedToken>,
    /// The verbatim tokens.
    pub original: Vec<String>,
}

impl ParsedLine {
    /// The verbatim tokens, as sequences of characters.
    pub open spec fn view_toks(&self) -> Seq<Seq<char>> {
        self.original.deep_view()
    }

    /// The classified forms agree with classifying the verbatim tokens.
    pub open spec fn wf(&self) -> bool {
        &&& self.normalized@.len() == self.original@.len()
        &&& forall|i: int|
            0 <= i < self.normalized@.len() ==> (#[trigger] self.normalized@[i]).pattern@
                == spec_display(self.view_toks()[i]) && self.normalized@[i].is_variable
                == spec_inherent(self.view_toks()[i])
    }
}

/// Split and classify one raw line.
pub fn parse_line(line: &str) -> (r: ParsedLine)
    ensures
        r.wf(),
        r.view_toks() == spec_tokenize(line@),
{
    let normalized = tokenize_normalized(line);
    let original = tokenize(line);
    ParsedLine { normalized, original }
}

/// The statistics of one column of a bucket: how often each display form
/// occurs, and whether any token there was inherently variable.
pub ghost struct GCol {
    /// Occurrence count per display form, keyed in order of first
    /// appearance; keys are distinct.
    pub counts: Seq<(Seq<char>, nat)>,
    /// Whether some observed token was inherently variable.
    pub inherent: bool,
}

/// Record one more observation of display form `v`: bump its count, or
/// append it with count one.
pub open spec fn bump(cs: Seq<(Seq<char>, nat)>, v: Seq<char>) -> Seq<(Seq<char>, nat)>
    decreases cs.len(),
{
    if cs.len() == 0 {
        seq![(v, 1 as nat)]
    } else if cs[0].0 == v {
        seq![(cs[0].0, (cs[0].1 + 1) as nat)] + cs.drop_first()
    } else {
        seq![cs[0]] + bump(cs.drop_first(), v)
    }
}

/// The display-form counts of column `c` over the lines of a bucket.
pub open spec fn col_counts(b: Seq<Seq<Seq<char>>>, c: int) -> Seq<(Seq<char>, nat)>
    decreases b.len(),
{
    if b.len() == 0 {
        Seq::empty()
    } else {
        bump(col_counts(b.drop_last(), c), spec_display(b.last()[c]))
    }
}

/// Whether any token of column `c` is inherently variable.
pub open spec fn col_inherent(b: Seq<Seq<Seq<char>>>, c: int) -> bool
    decreases b.len(),
{
    if b.len() == 0 {
        false
    } else {
        col_inherent(b.drop_last(), c) || spec_inherent(b.last()[c])
    }
}

/// The statistics of every column of a width-`w` bucket.
pub open spec fn spec_stats(b: Seq<Seq<Seq<char>>>, w: nat) -> Seq<GCol> {
    Seq::new(w, |c: int| GCol { counts: col_counts(b, c), inherent: col_inherent(b, c) })
}

/// The product of `count^(count*k)` over a column's distinct display
/// forms; with `k == 1` this is the entropy weight `p` of the column.
pub open spec fn col_prod_k(cs: Seq<(Seq<char>, nat)>, k: nat) -> nat
    decreases cs.len(),
{
    if cs.len() == 0 {
        1
    } else {
        col_prod_k(cs.drop_last(), k) * npow(npow(cs.last().1, cs.last().1), k)
    }
}

/// The entropy weight of a column; entropy decreases strictly as this
/// weight grows.
pub open spec fn col_p(g: GCol) -> nat {
    col_prod_k(g.counts, 1)
}

/// How many entries of `ps` exceed `v`.
pub open spec fn count_gt(ps: Seq<nat>, v: nat) -> nat
    decreases ps.len(),
{
    if ps.len() == 0 {
        0
    } else {
        count_gt(ps.drop_last(), v) + if ps.last() > v {
            1 as nat
        } else {
            0 as nat
        }
    }
}

/// How many entries of `ps` reach `v`.
pub open spec fn count_ge(ps: Seq<nat>, v: nat) -> nat
    decreases ps.len(),
{
    if ps.len() == 0 {
        0
    } else {
        count_ge(ps.drop_last(), v) + if ps.last() >= v {
            1 as nat
        } else {
            0 as nat
        }
    }
}

/// The entry of rank `k` in descending order (0 is the largest), found by
/// counting; 0 if no entry has that rank.
pub open spec fn kth_desc(ps: Seq<nat>, k: nat, i: nat) -> nat
    decreases ps.len() - i,
{
    if i >= ps.len() {
        0
    } else if count_gt(ps, ps[i as int]) <= k && count_ge(ps, ps[i as int]) > k {
        ps[i as int]
    } else {
        kth_desc(ps, k, i + 1)
    }
}

/// The entropy weights of all columns.
pub open spec fn ps_of(stats: Seq<GCol>) -> Seq<nat> {
    Seq::new(stats.len(), |c: int| col_p(stats[c]))
}

/// The weight whose entropy is the upper median of the column entropies:
/// entropy ascending at index `len/2` is weight descending at that index.
pub open spec fn med_p(stats: Seq<GCol>) -> nat {
    kth_desc(ps_of(stats), (stats.len() / 2) as nat, 0)
}

/// A high-uniqueness column: more than half of its observations are
/// distinct display forms.
pub open spec fn high_uniq(g: GCol, n: nat) -> bool {
    2 * g.counts.len() > n
}

/// Whether the bucket has a high-uniqueness column among its first `w`.
pub open spec fn any_high(stats: Seq<GCol>, n: nat, w: int) -> bool
    decreases w,
{
    if w <= 0 {
        false
    } else {
        any_high(stats, n, w - 1) || high_uniq(stats[w - 1], n)
    }
}

/// The largest entropy weight among the first `w` high-uniqueness columns,
/// i.e. the weight of the least-entropy such column; 0 if there is none.
pub open spec fn maxp_high(stats: Seq<GCol>, n: nat, w: int) -> nat
    decreases w,
{
    if w <= 0 {
        0
    } else {
        let r = maxp_high(stats, n, w - 1);
        if high_uniq(stats[w - 1], n) && col_p(stats[w - 1]) > r {
            col_p(stats[w - 1])
        } else {
            r
        }
    }
}

/// Whether column `c`'s entropy exceeds the adaptive cutoff.  The cutoff
/// is the larger of the median entropy and either nine tenths of the
/// minimum entropy among high-uniqueness columns, or two bits when no such
/// column exists; each comparison is decided exactly over entropy weights.
pub open spec fn entropy_exceeds(stats: Seq<GCol>, n: nat, c: int) -> bool {
    let pc = col_p(stats[c]);
    pc < med_p(stats) && if any_high(stats, n, stats.len() as int) {
        npow(n, n) * npow(maxp_high(stats, n, stats.len() as int), 9) > npow(pc, 10)
    } else {
        npow(n, n) > npow(4, n) * pc
    }
}

/// Whether column `c` is declared variable.
pub open spec fn col_variable(stats: Seq<GCol>, n: nat, c: int) -> bool {
    stats[c].inherent || entropy_exceeds(stats, n, c)
}

/// The per-column variable flags of a bucket's statistics.
pub open spec fn spec_variable_cols(stats: Seq<GCol>, n: nat) -> Seq<bool> {
    Seq::new(stats.len(), |c: int| col_variable(stats, n, c))
}

/// The counts of one column, as an association vector.
pub struct ColumnStats {
    /// Occurrence count per display form, in order of first appearance.
    pub counts: Vec<(String, usize)>,
    /// Whether some observed token was inherently variable.
    pub inherent: bool,
}

/// The mathematical reading of an association vector of counts.
pub open spec fn cs_view(v: Seq<(String, usize)>) -> Seq<(Seq<char>, nat)> {
    Seq::new(v.len(), |i: int| (v[i].0@, v[i].1 as nat))
}

impl ColumnStats {
    /// The mathematical reading of these statistics.
    pub open spec fn view_col(&self) -> GCol {
        GCol { counts: cs_view(self.counts@), inherent: self.inherent }
    }
}

proof fn lemma_bump_found(cs: Seq<(Seq<char>, nat)>, v: Seq<char>, j: int)
    requires
        0 <= j < cs.len(),
        cs[j].0 == v,
        forall|i: int| 0 <= i < j ==> (#[trigger] cs[i]).0 != v,
    ensures
        bump(cs, v) == cs.update(j, (v, (cs[j].1 + 1) as nat)),
    decreases cs.len(),
{
    if j == 0 {
        assert(bump(cs, v) =~= cs.update(0, (v, (cs[0].1 + 1) as nat)));
    } else {
        lemma_bump_found(cs.drop_first(), v, j - 1);
        assert(forall|i: int|
            0 <= i < j - 1 ==> (#[trigger] cs.drop_first()[i]).0 == cs[i + 1].0);
        assert(bump(cs, v) =~= cs.update(j, (v, (cs[j].1 + 1) as nat)));
    }
}

proof fn lemma_bump_absent(cs: Seq<(Seq<char>, nat)>, v: Seq<char>)
    requires
        forall|i: int| 0 <= i < cs.len() ==> (#[trigger] cs[i]).0 != v,
    ensures
        bump(cs, v) == cs + seq![(v, 1 as nat)],
    decreases cs.len(),
{
    if cs.len() == 0 {
        assert(bump(cs, v) =~= cs + seq![(v, 1 as nat)]);
    } else {
        lemma_bump_absent(cs.drop_first(), v);
        assert(bump(cs, v) =~= cs + seq![(v, 1 as nat)]);
    }
}

/// Record one observation of display form `v` in the association vector.
fn bump_exec(cs: &Vec<(String, usize)>, v: &String, Ghost(m): Ghost<nat>) -> (r: Vec<(String, usize)>)
    requires
        forall|i: int| 0 <= i < cs@.len() ==> (#[trigger] cs@[i]).1 <= m,
        m < usize::MAX,
    ensures
        cs_view(r@) == bump(cs_view(cs@), v@),
        forall|i: int| 0 <= i < r@.len() ==> (#[trigger] r@[i]).1 <= m + 1,
{
    let n = cs.len();
    let mut j: usize = 0;
    let mut found = false;
    while j < n && !found
        invariant
            j <= n,
            n == cs@.len(),
            !found ==> forall|i: int| 0 <= i < j ==> (#[trigger] cs@[i]).0@ != v@,
            found ==> j < n && cs@[j as int].0@ == v@ && forall|i: int|
                0 <= i < j ==> (#[trigger] cs@[i]).0@ != v@,
        decreases (if found { 0int } else { 1int }), n - j,
    {
        if cs[j].0 == *v {
            found = true;
        } else {
            j += 1;
        }
    }
    let mut r: Vec<(String, usize)> = Vec::new();
    let mut i: usize = 0;
    while i < n
        invariant
            i <= n,
            n == cs@.len(),
            forall|k: int| 0 <= k < cs@.len() ==> (#[trigger] cs@[k]).1 <= m,
            m < usize::MAX,
            found ==> j < n && cs@[j as int].0@ == v@,
            r@.len() == i,
            forall|k: int|
                0 <= k < i ==> (#[trigger] r@[k]).0@ == cs@[k].0@ && r@[k].1 == (
                if found && k == j {
                    cs@[k].1 + 1
                } else {
                    cs@[k].1 as int
                }),
        decreases n - i,
    {
        let key = cs[i].0.clone();
        if found && i == j {
            r.push((key, cs[i].1 + 1));
        } else {
            r.push((key, cs[i].1));
        }
        i += 1;
    }
    if found {
        proof {
            lemma_bump_found(cs_view(cs@), v@, j as int);
            assert(cs_view(r@) =~~= cs_view(cs@).update(j as int, (v@, (cs@[j as int].1 + 1) as nat)));
        }
    } else {
        r.push((v.clone(), 1));
        proof {
            assert(forall|i2: int|
                0 <= i2 < cs_view(cs@).len() ==> (#[trigger] cs_view(cs@)[i2]).0 != v@);
            lemma_bump_absent(cs_view(cs@), v@);
            assert(cs_view(r@) =~~= cs_view(cs@) + seq![(v@, 1 as nat)]);
        }
    }
    r
}

/// Build the per-column statistics of a width-`w` bucket of parsed lines.
pub fn build_stats(bucket: &Vec<ParsedLine>, w: usize) -> (r: Vec<ColumnStats>)
    requires
        forall|i: int|
            0 <= i < bucket@.len() ==> (#[trigger] bucket@[i]).wf() && bucket@[i].view_toks().len()
                == w,
    ensures
        r@.len() == w,
        forall|c: int|
            0 <= c < w ==> (#[trigger] r@[c]).view_col() == spec_stats(
                bucket@.map_values(|pl: ParsedLine| pl.view_toks()),
                w as nat,
            )[c],
        forall|c: int, i: int|
            0 <= c < w && 0 <= i < r@[c].counts@.len() ==> (#[trigger] r@[c].counts@[i]).1
                <= bucket@.len(),
{
    let ghost bv = bucket@.map_values(|pl: ParsedLine| pl.view_toks());
    let mut r: Vec<ColumnStats> = Vec::new();
    let mut c: usize = 0;
    while c < w
        invariant
            c <= w,
            r@.len() == c,
            forall|k: int|
                0 <= k < c ==> (#[trigger] r@[k]).counts@.len() == 0 && !r@[k].inherent,
        decreases w - c,
    {
        r.push(ColumnStats { counts: Vec::new(), inherent: false });
        c += 1;
    }
    proof {
        assert(bv.take(0) =~= Seq::<Seq<Seq<char>>>::empty());
        assert forall|k: int| 0 <= k < w implies cs_view((#[trigger] r@[k]).counts@) =~= col_counts(
            bv.take(0),
            k,
        ) by {}
    }
    let n = bucket.len();
    let mut i: usize = 0;
    while i < n
        invariant
            i <= n,
            n == bucket@.len(),
            r@.len() == w,
            bv == bucket@.map_values(|pl: ParsedLine| pl.view_toks()),
            forall|k: int|
                0 <= k < bucket@.len() ==> (#[trigger] bucket@[k]).wf()
                    && bucket@[k].view_toks().len() == w,
            forall|k: int|
                0 <= k < w ==> cs_view((#[trigger] r@[k]).counts@) == col_counts(
                    bv.take(i as int),
                    k,
                ) && r@[k].inherent == col_inherent(bv.take(i as int), k),
            forall|k: int, e: int|
                0 <= k < w && 0 <= e < r@[k].counts@.len() ==> (#[trigger] r@[k].counts@[e]).1 <= i,
        decreases n - i,
    {
        let mut c: usize = 0;
        while c < w
            invariant
                c <= w,
                i < n == bucket@.len(),
                r@.len() == w,
                bv == bucket@.map_values(|pl: ParsedLine| pl.view_toks()),
                forall|k: int|
                    0 <= k < bucket@.len() ==> (#[trigger] bucket@[k]).wf()
                        && bucket@[k].view_toks().len() == w,
                forall|k: int|
                    0 <= k < c ==> cs_view((#[trigger] r@[k]).counts@) == col_counts(
                        bv.take(i + 1),
                        k,
                    ) && r@[k].inherent == col_inherent(bv.take(i + 1), k),
                forall|k: int|
                    c <= k < w ==> cs_view((#[trigger] r@[k]).counts@) == col_counts(
                        bv.take(i as int),
                        k,
                    ) && r@[k].inherent == col_inherent(bv.take(i as int), k),
                forall|k: int, e: int|
                    0 <= k < c && 0 <= e < r@[k].counts@.len() ==> (#[trigger] r@[k].counts@[e]).1
                        <= i + 1,
                forall|k: int, e: int|
                    c <= k < w && 0 <= e < r@[k].counts@.len() ==> (#[trigger] r@[k].counts@[e]).1
                        <= i,
            decreases w - c,
        {
            proof {
                assert(bucket@[i as int].wf());
                assert(bv[i as int] == bucket@[i as int].view_toks());
                assert(bv.take(i + 1).drop_last() =~= bv.take(i as int));
                assert(bv.take(i + 1).last() == bv[i as int]);
            }
            let nt = &bucket[i].normalized[c];
            let ghost r_prev = r@;
            let mut col = r.remove(c);
            proof {
                assert(nt.pattern@ == spec_display(bv.take(i + 1).last()[c as int]));
            }
            let new_counts = bump_exec(&col.counts, &nt.pattern, Ghost(i as nat));
            let inh = col.inherent || nt.is_variable;
            let col2 = ColumnStats { counts: new_counts, inherent: inh };
            r.insert(c, col2);
            proof {
                assert(r@ =~= r_prev.update(c as int, col2));
                assert(cs_view(r@[c as int].counts@) == bump(
                    col_counts(bv.take(i as int), c as int),
                    spec_display(bv.take(i + 1).last()[c as int]),
                ));
                assert(cs_view(r@[c as int].counts@) == col_counts(bv.take(i + 1), c as int));
                assert(r@[c as int].inherent == col_inherent(bv.take(i + 1), c as int));
            }
            c += 1;
        }
        i += 1;
    }
    proof {
        assert(bv.take(n as int) =~= bv);
        assert forall|c: int| 0 <= c < w implies (#[trigger] r@[c]).view_col() == spec_stats(
            bv,
            w as nat,
        )[c] by {}
    }
    r
}


/// The mathematical reading of a vector of column statistics.
pub open spec fn stats_gview(s: Seq<ColumnStats>) -> Seq<GCol> {
    Seq::new(s.len(), |c: int| s[c].view_col())
}

proof fn lemma_npow_one(k: nat)
    ensures
        npow(1, k) == 1,
    decreases k,
{
    if k > 0 {
        lemma_npow_one((k - 1) as nat);
        lemma_npow_succ(1, k);
    } else {
        lemma_npow_zero(1);
    }
}

proof fn lemma_npow_mul(x: nat, y: nat, k: nat)
    ensures
        npow(x * y, k) == npow(x, k) * npow(y, k),
    decreases k,
{
    if k > 0 {
        lemma_npow_mul(x, y, (k - 1) as nat);
        lemma_npow_succ(x * y, k);
        lemma_npow_succ(x, k);
        lemma_npow_succ(y, k);
        assert((x * y) * (npow(x, (k - 1) as nat) * npow(y, (k - 1) as nat)) == (x * npow(
            x,
            (k - 1) as nat,
        )) * (y * npow(y, (k - 1) as nat))) by (nonlinear_arith);
    } else {
        lemma_npow_zero(x * y);
        lemma_npow_zero(x);
        lemma_npow_zero(y);
    }
}

proof fn lemma_col_prod_pow(cs: Seq<(Seq<char>, nat)>, k: nat)
    ensures
        col_prod_k(cs, k) == npow(col_prod_k(cs, 1), k),
    decreases cs.len(),
{
    if cs.len() == 0 {
        lemma_npow_one(k);
    } else {
        let q = cs.last().1;
        lemma_col_prod_pow(cs.drop_last(), k);
        lemma_npow_one_exp(npow(q, q));
        lemma_npow_mul(col_prod_k(cs.drop_last(), 1), npow(q, q), k);
        assert(col_prod_k(cs, k) == col_prod_k(cs.drop_last(), k) * npow(npow(q, q), k));
        assert(col_prod_k(cs, 1) == col_prod_k(cs.drop_last(), 1) * npow(npow(q, q), 1));
        assert(npow(npow(q, q), 1) == npow(q, q));
        assert(col_prod_k(cs, 1) == col_prod_k(cs.drop_last(), 1) * npow(q, q));
        assert(npow(col_prod_k(cs, 1), k) == npow(col_prod_k(cs.drop_last(), 1), k) * npow(
            npow(q, q),
            k,
        ));
    }
}

/// Multiply `acc` by the product of `count^(count*k)` over the column's
/// distinct display forms.
fn mul_col_weight(acc: &mut BigNat, cs: &Vec<(String, usize)>, k: usize)
    ensures
        final(acc).value() == old(acc).value() * col_prod_k(cs_view(cs@), k as nat),
{
    let ghost csv = cs_view(cs@);
    let ghost start = acc.value();
    let n = cs.len();
    let mut e: usize = 0;
    proof {
        assert(csv.take(0) =~= Seq::<(Seq<char>, nat)>::empty());
        assert(col_prod_k(csv.take(0), k as nat) == 1);
        lemma_npow_zero(0);
    }
    while e < n
        invariant
            e <= n,
            n == cs@.len(),
            csv == cs_view(cs@),
            acc.value() == start * col_prod_k(csv.take(e as int), k as nat),
        decreases n - e,
    {
        let cnt = cs[e].1;
        let ghost base = acc.value();
        let ghost q = cnt as nat;
        proof {
            lemma_npow_one_exp(npow(q, q));
            lemma_npow_zero(npow(q, q));
        }
        let mut t: usize = 0;
        while t < k
            invariant
                t <= k,
                e < n == cs@.len(),
                csv == cs_view(cs@),
                cnt == cs@[e as int].1,
                q == cnt as nat,
                acc.value() == base * npow(npow(q, q), t as nat),
            decreases k - t,
        {
            acc.mul_pow(cnt as u64, cnt);
            proof {
                assert((cnt as u64) as nat == q);
                lemma_npow_succ(npow(q, q), t as nat + 1);
                assert(npow(npow(q, q), t as nat + 1) == npow(q, q) * npow(npow(q, q), t as nat));
                assert((base * npow(npow(q, q), t as nat)) * npow(q, q) == base * npow(
                    npow(q, q),
                    t as nat + 1,
                )) by (nonlinear_arith)
                    requires
                        npow(npow(q, q), t as nat + 1) == npow(q, q) * npow(npow(q, q), t as nat),
                ;
            }
            t += 1;
        }
        proof {
            assert(csv.take(e + 1).drop_last() =~= csv.take(e as int));
            assert(csv.take(e + 1).last() == csv[e as int]);
            assert(csv[e as int].1 == q);
            assert(col_prod_k(csv.take(e + 1), k as nat) == col_prod_k(csv.take(e as int), k as nat)
                * npow(npow(q, q), k as nat));
            assert((start * col_prod_k(csv.take(e as int), k as nat)) * npow(npow(q, q), k as nat)
                == start * col_prod_k(csv.take(e + 1), k as nat)) by (nonlinear_arith)
                requires
                    col_prod_k(csv.take(e + 1), k as nat) == col_prod_k(
                        csv.take(e as int),
                        k as nat,
                    ) * npow(npow(q, q), k as nat),
            ;
        }
        e += 1;
    }
    proof {
        assert(csv.take(n as int) =~= csv);
    }
}

/// The entropy weight of one column, raised to the power `k`.
fn col_weight(cs: &Vec<(String, usize)>, k: usize) -> (r: BigNat)
    ensures
        r.value() == npow(col_prod_k(cs_view(cs@), 1), k as nat),
{
    let mut acc = BigNat::one();
    mul_col_weight(&mut acc, cs, k);
    proof {
        assert(acc.value() == 1 * col_prod_k(cs_view(cs@), k as nat));
        assert(acc.value() == col_prod_k(cs_view(cs@), k as nat));
        lemma_col_prod_pow(cs_view(cs@), k as nat);
    }
    acc
}

/// Decide, for each column of a bucket of `n` lines, whether it is
/// variable: inherently variable columns always are, and otherwise a
/// column is variable exactly when its entropy exceeds the adaptive
/// cutoff.
pub fn decide_variables(stats: &Vec<ColumnStats>, n: usize) -> (r: Vec<bool>)
    requires
        n >= 1,
    ensures
        r@.len() == stats@.len(),
        r@ == spec_variable_cols(stats_gview(stats@), n as nat),
{
    let w = stats.len();
    let ghost gv = stats_gview(stats@);
    let ghost psv = ps_of(gv);
    let mut ps: Vec<BigNat> = Vec::new();
    let mut c: usize = 0;
    while c < w
        invariant
            c <= w,
            w == stats@.len(),
            gv == stats_gview(stats@),
            psv == ps_of(gv),
            gv.len() == w,
            psv.len() == w,
            ps@.len() == c,
            forall|i: int| 0 <= i < c ==> (#[trigger] ps@[i]).value() == psv[i],
        decreases w - c,
    {
        let p = col_weight(&stats[c].counts, 1);
        proof {
            let pc = col_prod_k(cs_view(stats@[c as int].counts@), 1);
            lemma_npow_one_exp(pc);
            assert(gv[c as int] == stats@[c as int].view_col());
            assert(psv[c as int] == col_p(gv[c as int]));
        }
        ps.push(p);
        c += 1;
    }
    let mut has_high = false;
    let mut m_idx: usize = 0;
    let mut c: usize = 0;
    while c < w
        invariant
            c <= w,
            w == stats@.len(),
            gv == stats_gview(stats@),
            psv == ps_of(gv),
            gv.len() == w,
            psv.len() == w,
            ps@.len() == w,
            forall|i: int| 0 <= i < w ==> (#[trigger] ps@[i]).value() == psv[i],
            has_high == any_high(gv, n as nat, c as int),
            has_high ==> m_idx < c && col_p(gv[m_idx as int]) == maxp_high(gv, n as nat, c as int),
            !has_high ==> maxp_high(gv, n as nat, c as int) == 0,
        decreases w - c,
    {
        let d = stats[c].counts.len();
        let high = 2 * (d as u128) > (n as u128);
        proof {
            assert(gv[c as int].counts.len() == cs_view(stats@[c as int].counts@).len());
            assert(high == high_uniq(gv[c as int], n as nat));
        }
        if high {
            if !has_high {
                has_high = true;
                m_idx = c;
            } else if crate::bignat::big_lt(&ps[m_idx], &ps[c]) {
                m_idx = c;
            }
        }
        proof {
            assert(psv[c as int] == col_p(gv[c as int]));
        }
        c += 1;
    }
    let k = w / 2;
    let ghost med = med_p(gv);
    let mut med_idx: usize = 0;
    let mut med_found = false;
    let mut i: usize = 0;
    while i < w && !med_found
        invariant
            i <= w,
            w == stats@.len(),
            gv == stats_gview(stats@),
            psv == ps_of(gv),
            gv.len() == w,
            psv.len() == w,
            ps@.len() == w,
            k == w / 2,
            forall|j: int| 0 <= j < w ==> (#[trigger] ps@[j]).value() == psv[j],
            med == kth_desc(psv, k as nat, 0),
            !med_found ==> med == kth_desc(psv, k as nat, i as nat),
            med_found ==> i < w && med == psv[i as int] && med_idx == i,
        decreases (if med_found { 0int } else { 1int }), w - i,
    {
        let mut cgt: usize = 0;
        let mut cge: usize = 0;
        let mut j: usize = 0;
        while j < w
            invariant
                j <= w,
                i < w == stats@.len(),
                psv == ps_of(gv),
                gv.len() == w,
                psv.len() == w,
                ps@.len() == w,
                forall|q: int| 0 <= q < w ==> (#[trigger] ps@[q]).value() == psv[q],
                cgt == count_gt(psv.take(j as int), psv[i as int]),
                cge == count_ge(psv.take(j as int), psv[i as int]),
                cgt <= j && cge <= j,
            decreases w - j,
        {
            proof {
                assert(psv.take(j + 1).drop_last() =~= psv.take(j as int));
                assert(psv.take(j + 1).last() == psv[j as int]);
            }
            if crate::bignat::big_lt(&ps[i], &ps[j]) {
                cgt += 1;
            }
            if !crate::bignat::big_lt(&ps[j], &ps[i]) {
                cge += 1;
            }
            j += 1;
        }
        proof {
            assert(psv.take(w as int) =~= psv);
        }
        if cgt <= k && cge > k {
            med_found = true;
            med_idx = i;
            proof {
                assert(kth_desc(psv, k as nat, i as nat) == psv[i as int]);
            }
        } else {
            proof {
                assert(kth_desc(psv, k as nat, i as nat) == kth_desc(psv, k as nat, i as nat + 1));
            }
            i += 1;
        }
    }
    proof {
        if !med_found {
            assert(med == kth_desc(psv, k as nat, w as nat));
            assert(med == 0);
        }
    }
    let mut r: Vec<bool> = Vec::new();
    let mut c: usize = 0;
    while c < w
        invariant
            c <= w,
            w == stats@.len(),
            gv == stats_gview(stats@),
            psv == ps_of(gv),
            gv.len() == w,
            psv.len() == w,
            ps@.len() == w,
            n >= 1,
            forall|j: int| 0 <= j < w ==> (#[trigger] ps@[j]).value() == psv[j],
            has_high == any_high(gv, n as nat, w as int),
            has_high ==> m_idx < w && col_p(gv[m_idx as int]) == maxp_high(gv, n as nat, w as int),
            med == med_p(gv),
            med_found ==> med_idx < w && med == psv[med_idx as int],
            !med_found ==> med == 0,
            r@.len() == c,
            forall|j: int| 0 <= j < c ==> r@[j] == col_variable(gv, n as nat, j),
        decreases w - c,
    {
        proof {
            assert(gv[c as int] == stats@[c as int].view_col());
            assert(psv[c as int] == col_p(gv[c as int]));
        }
        let v: bool;
        if stats[c].inherent {
            v = true;
        } else {
            let below_med = if med_found {
                crate::bignat::big_lt(&ps[c], &ps[med_idx])
            } else {
                false
            };
            if !below_med {
                v = false;
            } else if has_high {
                let mut lhs = BigNat::one();
                lhs.mul_pow(n as u64, n);
                mul_col_weight(&mut lhs, &stats[m_idx].counts, 9);
                let rhs = col_weight(&stats[c].counts, 10);
                v = crate::bignat::big_lt(&rhs, &lhs);
                proof {
                    let cm = cs_view(stats@[m_idx as int].counts@);
                    let cc = cs_view(stats@[c as int].counts@);
                    assert(lhs.value() == 1 * npow((n as u64) as nat, n as nat) * col_prod_k(
                        cm,
                        9 as nat,
                    ));
                    assert((n as u64) as nat == n as nat);
                    assert(lhs.value() == npow(n as nat, n as nat) * col_prod_k(cm, 9));
                    lemma_col_prod_pow(cm, 9);
                    assert(gv[m_idx as int] == stats@[m_idx as int].view_col());
                    assert(col_prod_k(cm, 1) == col_p(gv[m_idx as int]));
                    assert(lhs.value() == npow(n as nat, n as nat) * npow(
                        maxp_high(gv, n as nat, w as int),
                        9,
                    ));
                    assert(gv[c as int] == stats@[c as int].view_col());
                    assert(col_prod_k(cc, 1) == col_p(gv[c as int]));
                    assert(rhs.value() == npow(col_prod_k(cc, 1), 10 as nat));
                    assert(rhs.value() == npow(col_p(gv[c as int]), 10));
                }
            } else {
                let mut rhs = col_weight(&stats[c].counts, 1);
                rhs.mul_pow(4, n);
                let mut lhs = BigNat::one();
                lhs.mul_pow(n as u64, n);
                v = crate::bignat::big_lt(&rhs, &lhs);
                proof {
                    let cc = cs_view(stats@[c as int].counts@);
                    assert((n as u64) as nat == n as nat);
                    assert(gv[c as int] == stats@[c as int].view_col());
                    assert(col_prod_k(cc, 1) == col_p(gv[c as int]));
                    assert(rhs.value() == npow(col_prod_k(cc, 1), 1 as nat) * npow(
                        (4u64) as nat,
                        n as nat,
                    ));
                    lemma_npow_one_exp(col_prod_k(cc, 1));
                    assert(npow(col_prod_k(cc, 1), 1 as nat) == col_p(gv[c as int]));
                    assert((4u64) as nat == 4);
                    assert(npow((4u64) as nat, n as nat) == npow(4, n as nat));
                    assert(rhs.value() == col_p(gv[c as int]) * npow(4, n as nat));
                    assert(rhs.value() == npow(4, n as nat) * col_p(gv[c as int]));
                    assert(lhs.value() == 1 * npow((n as u64) as nat, n as nat));
                    assert(lhs.value() == npow(n as nat, n as nat));
                }
            }
        }
        proof {
            assert(v == col_variable(gv, n as nat, c as int));
        }
        r.push(v);
        c += 1;
    }
    proof {
        assert(r@ =~= spec_variable_cols(gv, n as nat));
    }
    r
}

} // verus!
