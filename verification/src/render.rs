//! Rendering the compacted report.
//!
//! Final groups are sorted by count descending, ties broken by ascending
//! lexical order of the template string, so equal inputs always render
//! the same report.  A group with count above one gets a `[Nx] ` prefix;
//! a sample line follows when a placeholder has samples, showing at most
//! one value per placeholder for counts above one hundred, two above
//! ten, three otherwise.

use vstd::prelude::*;
use crate::groups::{GGroup, GTok, PatternGroup, TTok};

verus! {

/// The decimal digit character of `d`.
pub open spec fn digit(d: nat) -> char {
    ((48 + d) as u8) as char
}

/// The decimal rendering of a number, most significant digit first.
pub open spec fn dec_seq(n: nat) -> Seq<char>
    decreases n,
{
    if n < 10 {
        seq![digit(n)]
    } else {
        dec_seq(n / 10).push(digit(n % 10))
    }
}

/// The rendering of one template token: the literal itself, or `<k>`.
pub open spec fn render_tok(t: GTok) -> Seq<char> {
    match t {
        GTok::Lit(s) => s,
        GTok::Var(k) => seq!['<'] + dec_seq(k) + seq!['>'],
    }
}

/// The template string: its tokens joined by single spaces.
pub open spec fn render_template(toks: Seq<GTok>) -> Seq<char>
    decreases toks.len(),
{
    if toks.len() == 0 {
        Seq::empty()
    } else if toks.len() == 1 {
        render_tok(toks[0])
    } else {
        render_template(toks.drop_last()) + seq![' '] + render_tok(toks.last())
    }
}

/// A group ready for the report: its rendered template, count and
/// samples.
pub ghost struct GR {
    /// The rendered template string.
    pub tmpl: Seq<char>,
    /// How many lines the group covers.
    pub count: nat,
    /// Per placeholder, the sample values.
    pub samples: Seq<Seq<Seq<char>>>,
}

/// A group rendered for the report.
pub struct RGroup {
    /// The rendered template string.
    pub line: String,
    /// How many lines the group covers.
    pub count: usize,
    /// Per placeholder, the sample values.
    pub samples: Vec<Vec<String>>,
}

impl RGroup {
    /// The mathematical reading of this rendered group.
    pub open spec fn view_r(&self) -> GR {
        GR { tmpl: self.line@, count: self.count as nat, samples: self.samples.deep_view() }
    }
}

/// The mathematical reading of a vector of rendered groups.
pub open spec fn rview(s: Seq<RGroup>) -> Seq<GR> {
    s.map_values(|g: RGroup| g.view_r())
}

/// A merged group, rendered.
pub open spec fn to_gr(g: GGroup) -> GR {
    GR { tmpl: render_template(g.toks), count: g.count, samples: g.samples }
}

/// Strict lexicographic order on character sequences, by code point; a
/// proper prefix comes first.
pub open spec fn lex_lt(a: Seq<char>, b: Seq<char>) -> bool
    decreases a.len(),
{
    if b.len() == 0 {
        false
    } else if a.len() == 0 {
        true
    } else if a[0] != b[0] {
        (a[0] as u32) < (b[0] as u32)
    } else {
        lex_lt(a.drop_first(), b.drop_first())
    }
}

/// The report order: larger counts first, ties broken by ascending
/// lexical order of the template string.
pub open spec fn key_lt(x: GR, y: GR) -> bool {
    x.count > y.count || (x.count == y.count && lex_lt(x.tmpl, y.tmpl))
}

/// Insert into a sorted list: after every entry it does not precede.
pub open spec fn ins(sorted: Seq<GR>, x: GR) -> Seq<GR>
    decreases sorted.len(),
{
    if sorted.len() == 0 {
        seq![x]
    } else if key_lt(x, sorted[0]) {
        seq![x] + sorted
    } else {
        seq![sorted[0]] + ins(sorted.drop_first(), x)
    }
}

/// Stable insertion sort by the report order.
pub open spec fn sort_grs(s: Seq<GR>) -> Seq<GR>
    decreases s.len(),
{
    if s.len() == 0 {
        Seq::empty()
    } else {
        ins(sort_grs(s.drop_last()), s.last())
    }
}

/// How many sample values the report shows for a group of this count.
pub open spec fn max_samples(count: nat) -> nat {
    if count > 100 {
        1
    } else if count > 10 {
        2
    } else {
        3
    }
}

/// Sample values joined by `, `.
pub open spec fn join_commas(vs: Seq<Seq<char>>) -> Seq<char>
    decreases vs.len(),
{
    if vs.len() == 0 {
        Seq::empty()
    } else if vs.len() == 1 {
        vs[0]
    } else {
        join_commas(vs.drop_last()) + seq![',', ' '] + vs.last()
    }
}

/// The entry for placeholder `i`: `<i>: ` and its shown samples.
pub open spec fn sample_entry(i: nat, s: Seq<Seq<char>>, maxs: nat) -> Seq<char> {
    let shown = if (maxs as int) < s.len() {
        s.take(maxs as int)
    } else {
        s
    };
    seq!['<'] + dec_seq(i) + seq!['>', ':', ' '] + join_commas(shown)
}

/// The entries of all placeholders with at least one sample.
pub open spec fn sample_parts(samples: Seq<Seq<Seq<char>>>, maxs: nat) -> Seq<Seq<char>>
    decreases samples.len(),
{
    if samples.len() == 0 {
        Seq::empty()
    } else {
        let rest = sample_parts(samples.drop_last(), maxs);
        if samples.last().len() > 0 {
            rest.push(sample_entry((samples.len() - 1) as nat, samples.last(), maxs))
        } else {
            rest
        }
    }
}

/// Entries joined by ` | `.
pub open spec fn join_bars(parts: Seq<Seq<char>>) -> Seq<char>
    decreases parts.len(),
{
    if parts.len() == 0 {
        Seq::empty()
    } else if parts.len() == 1 {
        parts[0]
    } else {
        join_bars(parts.drop_last()) + seq![' ', '|', ' '] + parts.last()
    }
}

/// The report block of one group: a header line with the count when it
/// is above one, and an indented sample line when a placeholder has
/// samples.
pub open spec fn render_block(g: GR) -> Seq<char> {
    let header = if g.count > 1 {
        seq!['['] + dec_seq(g.count) + seq!['x', ']', ' '] + g.tmpl
    } else {
        g.tmpl
    };
    let parts = sample_parts(g.samples, max_samples(g.count));
    if parts.len() > 0 {
        header + seq!['\n', ' ', ' ', ' ', ' ', ' '] + join_bars(parts)
    } else {
        header
    }
}

/// The whole report: group blocks joined by newlines, no trailing
/// newline.
pub open spec fn render_report(sorted: Seq<GR>) -> Seq<char>
    decreases sorted.len(),
{
    if sorted.len() == 0 {
        Seq::empty()
    } else if sorted.len() == 1 {
        render_block(sorted[0])
    } else {
        render_report(sorted.drop_last()) + seq!['\n'] + render_block(sorted.last())
    }
}

fn digit_str(d: usize) -> (r: &'static str)
    requires
        d < 10,
    ensures
        r@ == seq![digit(d as nat)],
{
    let r: &'static str = match d {
        0 => "0",
        1 => "1",
        2 => "2",
        3 => "3",
        4 => "4",
        5 => "5",
        6 => "6",
        7 => "7",
        8 => "8",
        _ => "9",
    };
    proof {
        reveal_strlit("0");
        reveal_strlit("1");
        reveal_strlit("2");
        reveal_strlit("3");
        reveal_strlit("4");
        reveal_strlit("5");
        reveal_strlit("6");
        reveal_strlit("7");
        reveal_strlit("8");
        reveal_strlit("9");
        assert(r@ =~= seq![digit(d as nat)]);
    }
    r
}

/// Append the decimal rendering of `n`.
fn push_dec(out: &mut String, n: usize)
    ensures
        final(out)@ == old(out)@ + dec_seq(n as nat),
    decreases n,
{
    if n < 10 {
        out.append(digit_str(n));
        proof {
            assert(out@ =~= old(out)@ + dec_seq(n as nat));
        }
    } else {
        push_dec(out, n / 10);
        out.append(digit_str(n % 10));
        proof {
            assert(out@ =~= old(out)@ + dec_seq(n as nat));
        }
    }
}

/// Render a template's tokens as one space-joined string.
pub fn render_template_exec(template: &Vec<TTok>) -> (r: String)
    ensures
        r@ == render_template(template@.map_values(|t: TTok| t.view_t())),
{
    let ghost tv = template@.map_values(|t: TTok| t.view_t());
    let n = template.len();
    let mut out = String::new();
    let mut p: usize = 0;
    while p < n
        invariant
            p <= n,
            n == template@.len(),
            tv == template@.map_values(|t: TTok| t.view_t()),
            tv.len() == n,
            out@ == render_template(tv.take(p as int)),
        decreases n - p,
    {
        proof {
            assert(tv.take(p + 1).drop_last() =~= tv.take(p as int));
            assert(tv.take(p + 1).last() == tv[p as int]);
        }
        if p > 0 {
            out.append(" ");
            proof {
                reveal_strlit(" ");
                assert(" "@ =~= seq![' ']);
            }
        }
        match &template[p] {
            TTok::Lit(s) => {
                out.append(s.as_str());
            },
            TTok::Var(k) => {
                out.append("<");
                push_dec(&mut out, *k);
                out.append(">");
                proof {
                    reveal_strlit("<");
                    reveal_strlit(">");
                    assert("<"@ =~= seq!['<']);
                    assert(">"@ =~= seq!['>']);
                }
            },
        }
        proof {
            assert(out@ =~= render_template(tv.take(p + 1)));
        }
        p += 1;
    }
    proof {
        assert(tv.take(n as int) =~= tv);
    }
    out
}


fn lex_lt_from(a: &str, b: &str, i: usize) -> (r: bool)
    requires
        i <= a@.len(),
        i <= b@.len(),
    ensures
        r == lex_lt(a@.skip(i as int), b@.skip(i as int)),
    decreases a@.len() - i,
{
    let na = a.unicode_len();
    let nb = b.unicode_len();
    if i == nb {
        return false;
    }
    if i == na {
        return true;
    }
    let ca = a.get_char(i);
    let cb = b.get_char(i);
    if ca != cb {
        proof {
            assert(a@.skip(i as int)[0] == ca);
            assert(b@.skip(i as int)[0] == cb);
        }
        (ca as u32) < (cb as u32)
    } else {
        let r = lex_lt_from(a, b, i + 1);
        proof {
            assert(a@.skip(i as int).drop_first() =~= a@.skip(i + 1));
            assert(b@.skip(i as int).drop_first() =~= b@.skip(i + 1));
        }
        r
    }
}

/// Whether `x` comes before `y` in the report order.
fn key_lt_exec(x: &RGroup, y: &RGroup) -> (r: bool)
    ensures
        r == key_lt(x.view_r(), y.view_r()),
{
    if x.count > y.count {
        true
    } else if x.count == y.count {
        let r = lex_lt_from(x.line.as_str(), y.line.as_str(), 0);
        proof {
            assert(x.line@.skip(0) =~= x.line@);
            assert(y.line@.skip(0) =~= y.line@);
        }
        r
    } else {
        false
    }
}

proof fn lemma_ins_at(s: Seq<GR>, x: GR, j: int)
    requires
        0 <= j <= s.len(),
        forall|k: int| 0 <= k < j ==> !key_lt(x, #[trigger] s[k]),
        j < s.len() ==> key_lt(x, s[j]),
    ensures
        ins(s, x) == s.insert(j, x),
    decreases j,
{
    if j == 0 {
        if s.len() == 0 {
            assert(ins(s, x) =~= s.insert(0, x));
        } else {
            assert(ins(s, x) =~= s.insert(0, x));
        }
    } else {
        assert(forall|k: int| 0 <= k < j - 1 ==> s.drop_first()[k] == s[k + 1]);
        lemma_ins_at(s.drop_first(), x, j - 1);
        assert(ins(s, x) =~= s.insert(j, x));
    }
}

fn clone_strings(v: &Vec<String>) -> (r: Vec<String>)
    ensures
        r.deep_view() == v.deep_view(),
{
    let n = v.len();
    let mut r: Vec<String> = Vec::new();
    let mut i: usize = 0;
    while i < n
        invariant
            i <= n,
            n == v@.len(),
            r@.len() == i,
            forall|k: int| 0 <= k < i ==> (#[trigger] r@[k])@ == v@[k]@,
        decreases n - i,
    {
        r.push(v[i].clone());
        i += 1;
    }
    proof {
        assert(r.deep_view() =~~= v.deep_view());
    }
    r
}

fn clone_rgroup(g: &RGroup) -> (r: RGroup)
    ensures
        r.view_r() == g.view_r(),
{
    let n = g.samples.len();
    let mut samples: Vec<Vec<String>> = Vec::new();
    let mut i: usize = 0;
    while i < n
        invariant
            i <= n,
            n == g.samples@.len(),
            samples@.len() == i,
            forall|k: int|
                0 <= k < i ==> (#[trigger] samples@[k]).deep_view() == g.samples@[k].deep_view(),
        decreases n - i,
    {
        samples.push(clone_strings(&g.samples[i]));
        i += 1;
    }
    let r = RGroup { line: g.line.clone(), count: g.count, samples };
    proof {
        assert(r.view_r().samples =~~= g.view_r().samples);
    }
    r
}

/// Sort rendered groups into report order: count descending, ties by
/// ascending template string, stably.
pub fn sort_rgroups(input: &Vec<RGroup>) -> (r: Vec<RGroup>)
    ensures
        rview(r@) == sort_grs(rview(input@)),
{
    let ghost iv = rview(input@);
    let n = input.len();
    let mut out: Vec<RGroup> = Vec::new();
    let mut i: usize = 0;
    proof {
        assert(iv.take(0) =~= Seq::<GR>::empty());
        assert(rview(out@) =~~= sort_grs(iv.take(0)));
    }
    while i < n
        invariant
            i <= n,
            n == input@.len(),
            iv == rview(input@),
            iv.len() == n,
            rview(out@) == sort_grs(iv.take(i as int)),
        decreases n - i,
    {
        let x = clone_rgroup(&input[i]);
        let ghost gx = x.view_r();
        proof {
            assert(gx == iv[i as int]);
        }
        let m = out.len();
        let mut j: usize = 0;
        let mut found = false;
        while j < m && !found
            invariant
                j <= m,
                m == out@.len(),
                gx == x.view_r(),
                !found ==> forall|k: int| 0 <= k < j ==> !key_lt(gx, #[trigger] rview(out@)[k]),
                found ==> j < m && key_lt(gx, rview(out@)[j as int]) && forall|k: int|
                    0 <= k < j ==> !key_lt(gx, #[trigger] rview(out@)[k]),
                out@ == out@,
            decreases (if found { 0int } else { 1int }), m - j,
        {
            if key_lt_exec(&x, &out[j]) {
                found = true;
                proof {
                    assert(rview(out@)[j as int] == out@[j as int].view_r());
                }
            } else {
                proof {
                    assert(rview(out@)[j as int] == out@[j as int].view_r());
                }
                j += 1;
            }
        }
        let ghost before = rview(out@);
        out.insert(j, x);
        proof {
            lemma_ins_at(before, gx, j as int);
            assert(rview(out@) =~~= before.insert(j as int, gx));
            assert(iv.take(i + 1).drop_last() =~= iv.take(i as int));
            assert(iv.take(i + 1).last() == iv[i as int]);
        }
        i += 1;
    }
    proof {
        assert(iv.take(n as int) =~= iv);
    }
    out
}

/// Render one group's report block.
fn render_block_exec(g: &RGroup) -> (r: String)
    ensures
        r@ == render_block(g.view_r()),
{
    let mut out = String::new();
    if g.count > 1 {
        out.append("[");
        push_dec(&mut out, g.count);
        out.append("x] ");
        proof {
            reveal_strlit("[");
            reveal_strlit("x] ");
            assert("["@ =~= seq!['[']);
            assert("x] "@ =~= seq!['x', ']', ' ']);
        }
    }
    out.append(g.line.as_str());
    let ghost header = out@;
    proof {
        if g.view_r().count > 1 {
            assert(header =~= seq!['['] + dec_seq(g.view_r().count) + seq!['x', ']', ' ']
                + g.view_r().tmpl);
        } else {
            assert(header =~= g.view_r().tmpl);
        }
    }
    let maxs: usize = if g.count > 100 {
        1
    } else if g.count > 10 {
        2
    } else {
        3
    };
    let ghost sv = g.samples.deep_view();
    let n = g.samples.len();
    let mut parts: Vec<String> = Vec::new();
    let mut i: usize = 0;
    proof {
        assert(sv.take(0) =~= Seq::<Seq<Seq<char>>>::empty());
        assert(parts.deep_view() =~~= sample_parts(sv.take(0), maxs as nat));
    }
    while i < n
        invariant
            i <= n,
            n == g.samples@.len(),
            sv == g.samples.deep_view(),
            sv.len() == n,
            maxs as nat == max_samples(g.view_r().count),
            parts.deep_view() == sample_parts(sv.take(i as int), maxs as nat),
        decreases n - i,
    {
        proof {
            assert(sv.take(i + 1).drop_last() =~= sv.take(i as int));
            assert(sv.take(i + 1).last() == sv[i as int]);
            assert(sv[i as int] == g.samples@[i as int].deep_view());
        }
        let slist = &g.samples[i];
        if slist.len() > 0 {
            let mut e = String::new();
            e.append("<");
            push_dec(&mut e, i);
            e.append(">: ");
            proof {
                reveal_strlit("<");
                reveal_strlit(">: ");
                assert("<"@ =~= seq!['<']);
                assert(">: "@ =~= seq!['>', ':', ' ']);
            }
            let shown_n = if maxs < slist.len() {
                maxs
            } else {
                slist.len()
            };
            let ghost slv = slist.deep_view();
            let ghost shown = if (maxs as int) < slv.len() {
                slv.take(maxs as int)
            } else {
                slv
            };
            let ghost e0 = e@;
            let mut j: usize = 0;
            proof {
                assert(shown.take(0) =~= Seq::<Seq<char>>::empty());
                assert(shown.len() == shown_n);
            }
            while j < shown_n
                invariant
                    j <= shown_n,
                    shown_n <= slist@.len(),
                    slv == slist.deep_view(),
                    slv.len() == slist@.len(),
                    shown == (if (maxs as int) < slv.len() {
                        slv.take(maxs as int)
                    } else {
                        slv
                    }),
                    shown.len() == shown_n,
                    e@ == e0 + join_commas(shown.take(j as int)),
                decreases shown_n - j,
            {
                proof {
                    assert(shown.take(j + 1).drop_last() =~= shown.take(j as int));
                    assert(shown.take(j + 1).last() == shown[j as int]);
                    assert(shown[j as int] == slv[j as int]);
                    assert(slv[j as int] == slist@[j as int]@);
                }
                if j > 0 {
                    e.append(", ");
                    proof {
                        reveal_strlit(", ");
                        assert(", "@ =~= seq![',', ' ']);
                    }
                }
                e.append(slist[j].as_str());
                proof {
                    assert(e@ =~= e0 + join_commas(shown.take(j + 1)));
                }
                j += 1;
            }
            proof {
                assert(shown.take(shown_n as int) =~= shown);
                assert(e@ =~= sample_entry(i as nat, sv[i as int], maxs as nat));
            }
            parts.push(e);
        }
        proof {
            assert(parts.deep_view() =~~= sample_parts(sv.take(i + 1), maxs as nat));
        }
        i += 1;
    }
    proof {
        assert(sv.take(n as int) =~= sv);
    }
    if parts.len() > 0 {
        out.append("\n     ");
        proof {
            reveal_strlit("\n     ");
            assert("\n     "@ =~= seq!['\n', ' ', ' ', ' ', ' ', ' ']);
        }
        let ghost pv = parts.deep_view();
        let m = parts.len();
        let ghost base = out@;
        let mut k: usize = 0;
        proof {
            assert(pv.take(0) =~= Seq::<Seq<char>>::empty());
        }
        while k < m
            invariant
                k <= m,
                m == parts@.len(),
                pv == parts.deep_view(),
                pv.len() == m,
                out@ == base + join_bars(pv.take(k as int)),
            decreases m - k,
        {
            proof {
                assert(pv.take(k + 1).drop_last() =~= pv.take(k as int));
                assert(pv.take(k + 1).last() == pv[k as int]);
                assert(pv[k as int] == parts@[k as int]@);
            }
            if k > 0 {
                out.append(" | ");
                proof {
                    reveal_strlit(" | ");
                    assert(" | "@ =~= seq![' ', '|', ' ']);
                }
            }
            out.append(parts[k].as_str());
            proof {
                assert(out@ =~= base + join_bars(pv.take(k + 1)));
            }
            k += 1;
        }
        proof {
            assert(pv.take(m as int) =~= pv);
            assert(out@ =~= render_block(g.view_r()));
        }
    } else {
        proof {
            assert(out@ =~= render_block(g.view_r()));
        }
    }
    out
}

/// Render one merged group for the report: its template string, count
/// and samples.
pub fn to_rgroup(g: &PatternGroup) -> (r: RGroup)
    ensures
        r.view_r() == to_gr(g.view_g()),
{
    let line = render_template_exec(&g.template);
    let n = g.samples.len();
    let mut samples: Vec<Vec<String>> = Vec::new();
    let mut i: usize = 0;
    while i < n
        invariant
            i <= n,
            n == g.samples@.len(),
            samples@.len() == i,
            forall|k: int|
                0 <= k < i ==> (#[trigger] samples@[k]).deep_view() == g.samples@[k].deep_view(),
        decreases n - i,
    {
        samples.push(clone_strings(&g.samples[i]));
        i += 1;
    }
    let r = RGroup { line, count: g.count, samples };
    proof {
        assert(r.view_r().samples =~~= g.view_g().samples);
        assert(r.view_r().tmpl == render_template(g.view_g().toks));
    }
    r
}

/// Render the whole report: blocks in order, joined by newlines.
pub fn render_report_exec(sorted: &Vec<RGroup>) -> (r: String)
    ensures
        r@ == render_report(rview(sorted@)),
{
    let ghost rv = rview(sorted@);
    let n = sorted.len();
    let mut out = String::new();
    let mut i: usize = 0;
    proof {
        assert(rv.take(0) =~= Seq::<GR>::empty());
    }
    while i < n
        invariant
            i <= n,
            n == sorted@.len(),
            rv == rview(sorted@),
            rv.len() == n,
            out@ == render_report(rv.take(i as int)),
        decreases n - i,
    {
        proof {
            assert(rv.take(i + 1).drop_last() =~= rv.take(i as int));
            assert(rv.take(i + 1).last() == rv[i as int]);
            assert(rv[i as int] == sorted@[i as int].view_r());
        }
        if i > 0 {
            out.append("\n");
            proof {
                reveal_strlit("\n");
                assert("\n"@ =~= seq!['\n']);
            }
        }
        let b = render_block_exec(&sorted[i]);
        out.append(b.as_str());
        proof {
            assert(out@ =~= render_report(rv.take(i + 1)));
        }
        i += 1;
    }
    proof {
        assert(rv.take(n as int) =~= rv);
    }
    out
}

} // verus!
