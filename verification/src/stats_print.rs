//! The reports that multivariate tests print.
use crate::double::{Real, num};
use crate::report_text::{
    extend_left, extend_listed, extend_number, extend_right, extend_whole32, left, listed, right, signed_decimal, whole32,
};
use crate::stats_design::Printer;
use crate::stats_report::{Approx, Statistics, Verdict, manova_verdict, verdict};
use crate::text::{chars_of, decimal, extend_decimal, extend_str, string_of};
use vstd::prelude::*;

verus! {

/// The outcome of a Hotelling test.
#[derive(Clone, Copy, Debug)]
pub struct Outcome {
    pub t2: Real,
    pub f: Real,
    pub df1: Real,
    pub df2: Real,
    pub p: Real,
}

/// The line with the statistic. Numbers are written by `nums`, probabilities by
/// `probs`.
pub open spec fn outcome_text<P: Fn(Real) -> String, Q: Fn(Real) -> String>(
    out: Seq<char>,
    nums: &Printer<P>,
    probs: &Printer<Q>,
    o: Outcome,
) -> Seq<char> {
    out + "T² = "@ + nums.text(o.t2) + ", F = "@ + nums.text(o.f) + ", df1 = "@ + signed_decimal(whole32(o.df1))
        + ", df2 = "@ + signed_decimal(whole32(o.df2)) + ", p-value = "@ + probs.text(o.p) + "\n"@
}

fn extend_outcome<P: Fn(Real) -> String, Q: Fn(Real) -> String>(
    out: &mut Vec<char>,
    nums: &Printer<P>,
    probs: &Printer<Q>,
    o: Outcome,
)
    requires
        nums.wf(),
        probs.wf(),
    ensures
        final(out)@ == outcome_text(old(out)@, nums, probs, o),
{
    extend_str(out, "T² = ");
    extend_number(out, nums, o.t2);
    extend_str(out, ", F = ");
    extend_number(out, nums, o.f);
    extend_str(out, ", df1 = ");
    extend_whole32(out, o.df1);
    extend_str(out, ", df2 = ");
    extend_whole32(out, o.df2);
    extend_str(out, ", p-value = ");
    extend_number(out, probs, o.p);
    extend_str(out, "\n");
}

/// The report of a one-sample test.
pub fn one_sample_report<P: Fn(Real) -> String, Q: Fn(Real) -> String>(
    nums: &Printer<P>,
    probs: &Printer<Q>,
    n: usize,
    p: usize,
    o: Outcome,
    means: &Vec<Real>,
) -> (r: String)
    requires
        nums.wf(),
        probs.wf(),
    ensures
        r@ == listed(
            outcome_text(
                Seq::<char>::empty() + "\n  Hotelling's one-sample T² test\n\ndata:  n = "@ + decimal(n as nat)
                    + ", p = "@ + decimal(p as nat) + "\n"@,
                nums,
                probs,
                o,
            ) + "alternative hypothesis: true mean vector is not equal to mu\nsample means: "@,
            nums,
            means@,
            means@.len(),
        ) + "\n"@,
{
    let mut out: Vec<char> = Vec::new();
    extend_str(&mut out, "\n  Hotelling's one-sample T² test\n\ndata:  n = ");
    extend_decimal(&mut out, n as u64);
    extend_str(&mut out, ", p = ");
    extend_decimal(&mut out, p as u64);
    extend_str(&mut out, "\n");
    extend_outcome(&mut out, nums, probs, o);
    extend_str(&mut out, "alternative hypothesis: true mean vector is not equal to mu\nsample means: ");
    extend_listed(&mut out, nums, means);
    extend_str(&mut out, "\n");
    string_of(&out)
}

/// The report of a two-sample test.
pub fn two_sample_report<P: Fn(Real) -> String, Q: Fn(Real) -> String>(
    nums: &Printer<P>,
    probs: &Printer<Q>,
    n1: usize,
    n2: usize,
    p: usize,
    o: Outcome,
) -> (r: String)
    requires
        nums.wf(),
        probs.wf(),
    ensures
        r@ == outcome_text(
            Seq::<char>::empty() + "\n  Hotelling's two-sample T² test\n\ndata:  n1 = "@ + decimal(n1 as nat) + ", n2 = "@
                + decimal(n2 as nat) + ", p = "@ + decimal(p as nat) + "\n"@,
            nums,
            probs,
            o,
        ) + "alternative hypothesis: true mean vectors of groups 1 and 2 differ\n"@,
{
    let mut out: Vec<char> = Vec::new();
    extend_str(&mut out, "\n  Hotelling's two-sample T² test\n\ndata:  n1 = ");
    extend_decimal(&mut out, n1 as u64);
    extend_str(&mut out, ", n2 = ");
    extend_decimal(&mut out, n2 as u64);
    extend_str(&mut out, ", p = ");
    extend_decimal(&mut out, p as u64);
    extend_str(&mut out, "\n");
    extend_outcome(&mut out, nums, probs, o);
    extend_str(&mut out, "alternative hypothesis: true mean vectors of groups 1 and 2 differ\n");
    string_of(&out)
}

/// The report of a paired test.
pub fn paired_report<P: Fn(Real) -> String, Q: Fn(Real) -> String>(
    nums: &Printer<P>,
    probs: &Printer<Q>,
    n: usize,
    p: usize,
    o: Outcome,
    means: &Vec<Real>,
) -> (r: String)
    requires
        nums.wf(),
        probs.wf(),
    ensures
        r@ == listed(
            outcome_text(
                Seq::<char>::empty() + "\n  Hotelling's paired T² test (multivariate)\n\ndata:  n = "@ + decimal(n as nat)
                    + " subjects, p = "@ + decimal(p as nat) + " measurements per subject\n"@,
                nums,
                probs,
                o,
            ) + "alternative hypothesis: true mean difference vector is not equal to 0\nmean difference vector: "@,
            nums,
            means@,
            means@.len(),
        ) + "\n"@,
{
    let mut out: Vec<char> = Vec::new();
    extend_str(&mut out, "\n  Hotelling's paired T² test (multivariate)\n\ndata:  n = ");
    extend_decimal(&mut out, n as u64);
    extend_str(&mut out, " subjects, p = ");
    extend_decimal(&mut out, p as u64);
    extend_str(&mut out, " measurements per subject\n");
    extend_outcome(&mut out, nums, probs, o);
    extend_str(&mut out, "alternative hypothesis: true mean difference vector is not equal to 0\nmean difference vector: ");
    extend_listed(&mut out, nums, means);
    extend_str(&mut out, "\n");
    string_of(&out)
}

// ── Analysis of variance ─────────────────────────────────────────────────

/// One line of the table: a statistic with its approximation. `stars` marks
/// how significant a probability is.
pub open spec fn row_text<P: Fn(Real) -> String, Q: Fn(Real) -> String, S: Fn(Real) -> String>(
    out: Seq<char>,
    nums: &Printer<P>,
    probs: &Printer<Q>,
    stars: &Printer<S>,
    name: Seq<char>,
    value: Real,
    a: Approx,
) -> Seq<char> {
    out + left(name, 18) + " "@ + right(nums.text(value), 10) + " "@ + right(nums.text(a.f), 10) + " "@ + right(
        signed_decimal(whole32(a.df1)),
        5,
    ) + " "@ + right(signed_decimal(whole32(a.df2)), 6) + " "@ + right(probs.text(a.p), 10) + " "@ + stars.text(a.p)
        + "\n"@
}

fn number_field<P: Fn(Real) -> String>(out: &mut Vec<char>, nums: &Printer<P>, x: Real)
    requires
        nums.wf(),
    ensures
        final(out)@ == old(out)@ + right(nums.text(x), 10),
{
    let s: String = nums.print(x);
    let t: Vec<char> = chars_of(s.as_str());
    extend_right(out, &t, 10);
}

fn whole_field(out: &mut Vec<char>, x: Real, w: usize)
    ensures
        final(out)@ == old(out)@ + right(signed_decimal(whole32(x)), w as int),
{
    let mut t: Vec<char> = Vec::new();
    extend_whole32(&mut t, x);
    assert(t@ =~= signed_decimal(whole32(x)));
    extend_right(out, &t, w);
}

fn extend_row<P: Fn(Real) -> String, Q: Fn(Real) -> String, S: Fn(Real) -> String>(
    out: &mut Vec<char>,
    nums: &Printer<P>,
    probs: &Printer<Q>,
    stars: &Printer<S>,
    name: &str,
    value: Real,
    a: Approx,
)
    requires
        nums.wf(),
        probs.wf(),
        stars.wf(),
    ensures
        final(out)@ == row_text(old(out)@, nums, probs, stars, name@, value, a),
{
    let head: Vec<char> = chars_of(name);
    extend_left(out, &head, 18);
    extend_str(out, " ");
    number_field(out, nums, value);
    extend_str(out, " ");
    number_field(out, nums, a.f);
    extend_str(out, " ");
    whole_field(out, a.df1, 5);
    extend_str(out, " ");
    whole_field(out, a.df2, 6);
    extend_str(out, " ");
    number_field(out, probs, a.p);
    extend_str(out, " ");
    extend_number(out, stars, a.p);
    extend_str(out, "\n");
}

/// What the statistics say together.
pub open spec fn verdict_text(v: Verdict) -> Seq<char> {
    match v {
        Verdict::Disagree => "  CAUTION: the four statistics disagree on significance at α=0.05.\n           Heteroscedasticity or non-MV-normality likely. Trust Pillai.\n"@,
        Verdict::HighlySignificant => "  All four statistics agree: highly significant multivariate effect.\n"@,
        Verdict::Significant => "  All four statistics agree: significant multivariate effect.\n"@,
        Verdict::NotSignificant => "  All four statistics agree: no significant multivariate effect detected.\n"@,
    }
}

/// The four lines of the table.
pub open spec fn table_text<P: Fn(Real) -> String, Q: Fn(Real) -> String, S: Fn(Real) -> String>(
    out: Seq<char>,
    nums: &Printer<P>,
    probs: &Printer<Q>,
    stars: &Printer<S>,
    t: Statistics,
) -> Seq<char> {
    let a = row_text(out, nums, probs, stars, "Pillai's trace"@, t.pillai, t.f_pillai);
    let b = row_text(a, nums, probs, stars, "Wilks' Lambda"@, t.wilks, t.f_wilks);
    let c = row_text(b, nums, probs, stars, "Hotelling-Lawley"@, t.trace, t.f_trace);
    row_text(c, nums, probs, stars, "Roy's largest root"@, t.roy, t.f_roy)
}

/// The report of a multivariate analysis of variance: the table, the sizes, the
/// eigenvalues, and the statistic that `preferred` suggests.
pub fn manova_report<P: Fn(Real) -> String, Q: Fn(Real) -> String, S: Fn(Real) -> String>(
    nums: &Printer<P>,
    probs: &Printer<Q>,
    stars: &Printer<S>,
    t: &Statistics,
    n: usize,
    groups: usize,
    p: usize,
    error_df: Real,
    lam: &Vec<Real>,
    preferred: &str,
) -> (r: String)
    requires
        nums.wf(),
        probs.wf(),
        stars.wf(),
    ensures
        r@ == listed(
            table_text(
                Seq::<char>::empty()
                    + "\nMANOVA test summary\n\nStatistic               value   approx F   num    den     Pr(>F)\n"@,
                nums,
                probs,
                stars,
                *t,
            ) + "Signif. codes:  0 '***' 0.001 '**' 0.01 '*' 0.05 '.' 0.1 ' ' 1\n\nn = "@ + decimal(n as nat)
                + ", groups = "@ + decimal(groups as nat) + ", p = "@ + decimal(p as nat) + ", error df = "@
                + signed_decimal(whole32(error_df)) + "\neigenvalues of E⁻¹H: "@,
            nums,
            lam@,
            lam@.len(),
        ) + "\n\nInterpretation:\n  Suggested primary statistic: "@ + preferred@ + ".\n"@ + verdict_text(
            verdict(t.f_pillai.p, t.f_wilks.p, t.f_trace.p),
        ),
{
    let mut out: Vec<char> = Vec::new();
    extend_str(
        &mut out,
        "\nMANOVA test summary\n\nStatistic               value   approx F   num    den     Pr(>F)\n",
    );
    extend_row(&mut out, nums, probs, stars, "Pillai's trace", t.pillai, t.f_pillai);
    extend_row(&mut out, nums, probs, stars, "Wilks' Lambda", t.wilks, t.f_wilks);
    extend_row(&mut out, nums, probs, stars, "Hotelling-Lawley", t.trace, t.f_trace);
    extend_row(&mut out, nums, probs, stars, "Roy's largest root", t.roy, t.f_roy);
    extend_str(&mut out, "Signif. codes:  0 '***' 0.001 '**' 0.01 '*' 0.05 '.' 0.1 ' ' 1\n\nn = ");
    extend_decimal(&mut out, n as u64);
    extend_str(&mut out, ", groups = ");
    extend_decimal(&mut out, groups as u64);
    extend_str(&mut out, ", p = ");
    extend_decimal(&mut out, p as u64);
    extend_str(&mut out, ", error df = ");
    extend_whole32(&mut out, error_df);
    extend_str(&mut out, "\neigenvalues of E⁻¹H: ");
    extend_listed(&mut out, nums, lam);
    extend_str(&mut out, "\n\nInterpretation:\n  Suggested primary statistic: ");
    extend_str(&mut out, preferred);
    extend_str(&mut out, ".\n");
    match manova_verdict(t.f_pillai.p, t.f_wilks.p, t.f_trace.p) {
        Verdict::Disagree => extend_str(
            &mut out,
            "  CAUTION: the four statistics disagree on significance at α=0.05.\n           Heteroscedasticity or non-MV-normality likely. Trust Pillai.\n",
        ),
        Verdict::HighlySignificant => extend_str(
            &mut out,
            "  All four statistics agree: highly significant multivariate effect.\n",
        ),
        Verdict::Significant => extend_str(
            &mut out,
            "  All four statistics agree: significant multivariate effect.\n",
        ),
        Verdict::NotSignificant => extend_str(
            &mut out,
            "  All four statistics agree: no significant multivariate effect detected.\n",
        ),
    }
    string_of(&out)
}

} // verus!
