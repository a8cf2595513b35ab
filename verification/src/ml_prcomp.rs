//! Principal components.
use crate::double::{FloatOp, Fpu, ONE_BITS, Real, nat_real, num, one, zero};
use crate::grid::{list_of, sum_of, table, table_of, total};
use crate::linalg::LinalgError;
use crate::ml_kmeans::{column_means, frame_small, grid_mean, grid_of, numeric_grid, read_grid};
use crate::stats_matrix::{SIZE_LIMIT, failed, sound, sound_args};
use crate::text::{decimal, extend_str, numbered, string_of, texts};
use crate::value::{
    ErrKind, EvalArg, Grid, Matrix, R2Err, RVal, Val, arg_named, instance, lemma_cell, logicals, named, nth,
    nth_arg, nums_val, put, rnums,
};
use vstd::prelude::*;

verus! {

/// 1e-15
pub const FLAT_BITS: u64 = 0x3cd2_03af_9ee7_5616;

/// 1e-10
pub const ROUND_OFF_BITS: u64 = 0x3ddb_7cdf_d9d7_bdbb;

/// A switch: true where its first entry is true; the default where it is not
/// given or is no logical.
pub open spec fn switch(v: Option<Val>, default: bool) -> bool {
    match v {
        None => default,
        Some(x) => match logicals(x) {
            None => default,
            Some(s) => s[0] == Some(true),
        },
    }
}

/// The switch has a first entry.
pub open spec fn switch_ready(v: Option<Val>) -> bool {
    v is Some && logicals(v->0) is Some ==> logicals(v->0)->0.len() > 0
}

fn switch_of(v: Option<&RVal>, default: bool) -> (r: bool)
    requires
        v is Some ==> switch_ready(Some((v->0).deep())),
    ensures
        r == match v {
            Some(x) => switch(Some(x.deep()), default),
            None => default,
        },
{
    match v {
        None => default,
        Some(x) => match x.as_logicals() {
            Err(_) => default,
            Ok(s) => match s[0] {
                Some(b) => b,
                None => false,
            },
        },
    }
}

/// Whether the columns are scaled, under either name.
pub open spec fn scale_given(a: Seq<EvalArg>) -> Option<Val> {
    if named(a, "scale."@) is Some {
        named(a, "scale."@)
    } else {
        named(a, "scale"@)
    }
}

/// The standard deviation of column `j`; one for a flat column.
pub open spec fn column_sd<F: Fn(FloatOp, Real, Real, Real) -> Real>(fpu: &Fpu<F>, g: Grid, j: int) -> Real {
    let mean = grid_mean(fpu, g, j);
    let sd = fpu.sqrt(
        fpu.over(
            total(fpu, Seq::new(g.nrow, |i: int| fpu.square_diff(g.at(i, j), mean))),
            nat_real((g.nrow - 1) as nat),
        ),
    );
    if sd.below(num(FLAT_BITS)) {
        one()
    } else {
        sd
    }
}

/// The deviations that the columns are divided by.
pub open spec fn scales<F: Fn(FloatOp, Real, Real, Real) -> Real>(fpu: &Fpu<F>, g: Grid, scale: bool) -> Seq<Real> {
    Seq::new(
        g.ncol,
        |j: int|
            if scale {
                column_sd(fpu, g, j)
            } else {
                one()
            },
    )
}

/// A cell after centring, and after scaling where columns are centred.
pub open spec fn prepared_cell<F: Fn(FloatOp, Real, Real, Real) -> Real>(
    fpu: &Fpu<F>,
    g: Grid,
    center: bool,
    scale: bool,
    i: int,
    j: int,
) -> Real {
    if !center {
        g.at(i, j)
    } else {
        let d = fpu.minus(g.at(i, j), grid_mean(fpu, g, j));
        if scale {
            fpu.over(d, column_sd(fpu, g, j))
        } else {
            d
        }
    }
}

/// The columns that are decomposed.
pub open spec fn prepared<F: Fn(FloatOp, Real, Real, Real) -> Real>(fpu: &Fpu<F>, g: Grid, center: bool, scale: bool) -> Seq<
    Real,
> {
    table(g.nrow, g.ncol, |i: int, j: int| prepared_cell(fpu, g, center, scale, i, j))
}

/// A compensated sum of the products of two columns over the first `n` rows:
/// the sum and what rounding has lost.
pub open spec fn compensated<F: Fn(FloatOp, Real, Real, Real) -> Real>(
    fpu: &Fpu<F>,
    x: Seq<Real>,
    m: int,
    i: int,
    j: int,
    n: nat,
) -> (Real, Real)
    decreases n,
{
    if n == 0 {
        (zero(), zero())
    } else {
        let s = compensated(fpu, x, m, i, j, (n - 1) as nat);
        let y = fpu.minus(fpu.times(x[i * m + n - 1], x[j * m + n - 1]), s.1);
        let t = fpu.plus(s.0, y);
        (t, fpu.minus(fpu.minus(t, s.0), y))
    }
}

/// The covariance of two columns; the later column is the first factor.
pub open spec fn kahan_cov<F: Fn(FloatOp, Real, Real, Real) -> Real>(
    fpu: &Fpu<F>,
    x: Seq<Real>,
    m: nat,
    i: int,
    j: int,
) -> Real {
    let (late, early) = if i >= j {
        (i, j)
    } else {
        (j, i)
    };
    fpu.over(compensated(fpu, x, m as int, late, early, m).0, nat_real((m - 1) as nat))
}

/// The covariance matrix.
pub open spec fn kahan_covs<F: Fn(FloatOp, Real, Real, Real) -> Real>(fpu: &Fpu<F>, x: Seq<Real>, m: nat, n: nat) -> Seq<Real> {
    table(n, n, |i: int, j: int| kahan_cov(fpu, x, m, i, j))
}

/// An eigenvalue without the small negative part that rounding leaves.
pub open spec fn cleaned(v: Real) -> Real {
    if v.below(zero()) && v.absolute().below(num(ROUND_OFF_BITS)) {
        zero()
    } else {
        v
    }
}

pub open spec fn all_cleaned(s: Seq<Real>) -> Seq<Real> {
    Seq::new(s.len(), |i: int| cleaned(s[i]))
}

/// The positive ones, in order.
pub open spec fn positive_ones(s: Seq<Real>) -> Seq<Real>
    decreases s.len(),
{
    if s.len() == 0 {
        Seq::empty()
    } else if zero().below(s.last()) {
        positive_ones(s.drop_last()).push(s.last())
    } else {
        positive_ones(s.drop_last())
    }
}

/// The share of the variance of an eigenvalue.
pub open spec fn share<F: Fn(FloatOp, Real, Real, Real) -> Real>(fpu: &Fpu<F>, all: Real, v: Real) -> Real {
    if zero().below(all) {
        fpu.over(v.greatest(zero()), all)
    } else {
        zero()
    }
}

/// The report for given eigenvalues and eigenvectors.
pub open spec fn pca_report<F: Fn(FloatOp, Real, Real, Real) -> Real>(
    fpu: &Fpu<F>,
    g: Grid,
    scale: bool,
    values: Seq<Real>,
    vectors: Seq<Real>,
) -> Val {
    let e = all_cleaned(values);
    let all = total(fpu, positive_ones(e));
    let fields = seq![
        ("sdev"@, nums_val(Seq::new(e.len(), |i: int| fpu.sqrt(e[i].greatest(zero()))))),
        ("eigenvalues"@, nums_val(e)),
        ("prop.variance"@, nums_val(Seq::new(e.len(), |i: int| share(fpu, all, e[i])))),
        ("center"@, nums_val(Seq::new(g.ncol, |j: int| grid_mean(fpu, g, j)))),
        (
            "rotation"@,
            Val::Matrix(
                Grid {
                    data: vectors,
                    nrow: g.ncol,
                    ncol: g.ncol,
                    col_names: Some(Seq::new(g.ncol, |i: int| "PC"@ + decimal((i + 1) as nat))),
                },
            ),
        ),
    ];
    Val::Instance(
        "prcomp"@,
        if scale {
            fields.push(("scale"@, nums_val(scales(fpu, g, scale))))
        } else {
            fields
        },
    )
}

pub open spec fn pca_message(e: LinalgError) -> Seq<char> {
    "PCA failed: "@ + e.text()
}

/// `e` gives eigenvalues and eigenvectors of square matrices.
pub open spec fn decomposes<E: Fn(usize, &[Real]) -> Result<(Vec<Real>, Vec<Real>), LinalgError>>(e: E) -> bool {
    forall|n: usize, s: &[Real]| s@.len() == n * n ==> #[trigger] call_requires(e, (n, s))
}

/// `r` is the report for what `eigen` finds in the covariance matrix.
pub open spec fn reports_pca<
    F: Fn(FloatOp, Real, Real, Real) -> Real,
    E: Fn(usize, &[Real]) -> Result<(Vec<Real>, Vec<Real>), LinalgError>,
>(fpu: &Fpu<F>, eigen: E, g: Grid, center: bool, scale: bool, r: Result<RVal, R2Err>) -> bool {
    exists|s: &[Real], out: Result<(Vec<Real>, Vec<Real>), LinalgError>|
        s@ == kahan_covs(fpu, prepared(fpu, g, center, scale), g.nrow, g.ncol) && #[trigger] call_ensures(
            eigen,
            (g.ncol as usize, s),
            out,
        ) && match out {
            Err(e) => failed(r, (ErrKind::Runtime, pca_message(e))),
            Ok(v) => r is Ok && r->Ok_0.deep() == pca_report(fpu, g, scale, v.0@, v.1@),
        }
}

fn sd_of<F: Fn(FloatOp, Real, Real, Real) -> Real>(fpu: &Fpu<F>, m: &Matrix, mean: Real, j: usize) -> (r: Real)
    requires
        fpu.wf(),
        m.deep().wf(),
        0 < m.nrow < SIZE_LIMIT,
        j < m.ncol,
        mean == grid_mean(fpu, m.deep(), j as int),
    ensures
        r == column_sd(fpu, m.deep(), j as int),
{
    let nrow: usize = m.nrow;
    let n: usize = m.ncol;
    let md: &Vec<Real> = &m.data;
    let len: usize = md.len();
    let f = |i: usize| -> (x: Real)
        requires
            fpu.wf(),
            i < nrow,
            j < n,
            md@.len() == nrow * n,
            len == md@.len(),
        ensures
            x == fpu.square_diff(md@[j * nrow + i], mean),
        {
            proof {
                lemma_cell(i as int, j as int, nrow as int, n as int);
            }
            let d: Real = fpu.diff(md[j * nrow + i], mean);
            fpu.prod(d, d)
        };
    let ghost g = m.deep();
    let ss: Real = sum_of(
        fpu,
        nrow,
        &f,
        Ghost(Seq::new(g.nrow, |i: int| fpu.square_diff(g.at(i, j as int), mean))),
    );
    let sd: Real = fpu.root(fpu.quot(ss, Real::from_count((nrow - 1) as u64)));
    if sd.lt(&Real { bits: FLAT_BITS }) {
        Real { bits: ONE_BITS }
    } else {
        sd
    }
}

fn scales_of<F: Fn(FloatOp, Real, Real, Real) -> Real>(fpu: &Fpu<F>, m: &Matrix, means: &Vec<Real>, scale: bool) -> (r: Vec<Real>)
    requires
        fpu.wf(),
        m.deep().wf(),
        m.ncol > 0 ==> 0 < m.nrow,
        m.nrow < SIZE_LIMIT,
        means@ == Seq::new(m.ncol as nat, |j: int| grid_mean(fpu, m.deep(), j)),
    ensures
        r@ == scales(fpu, m.deep(), scale),
{
    let ghost want = scales(fpu, m.deep(), scale);
    let mut out: Vec<Real> = Vec::new();
    let mut j: usize = 0;
    while j < m.ncol
        invariant
            fpu.wf(),
            m.deep().wf(),
            m.ncol > 0 ==> 0 < m.nrow,
            m.nrow < SIZE_LIMIT,
            means@ == Seq::new(m.ncol as nat, |j: int| grid_mean(fpu, m.deep(), j)),
            j <= m.ncol,
            want == scales(fpu, m.deep(), scale),
            out@ == want.take(j as int),
        decreases m.ncol - j,
    {
        let v: Real = if scale { sd_of(fpu, m, means[j], j) } else { Real { bits: ONE_BITS } };
        out.push(v);
        assert(out@ =~= want.take(j + 1));
        j += 1;
    }
    assert(out@ =~= want);
    out
}

fn prepare<F: Fn(FloatOp, Real, Real, Real) -> Real>(
    fpu: &Fpu<F>,
    m: &Matrix,
    means: &Vec<Real>,
    sds: &Vec<Real>,
    center: bool,
    scale: bool,
) -> (r: Vec<Real>)
    requires
        fpu.wf(),
        m.deep().wf(),
        means@ == Seq::new(m.ncol as nat, |j: int| grid_mean(fpu, m.deep(), j)),
        sds@ == scales(fpu, m.deep(), scale),
    ensures
        r@ == prepared(fpu, m.deep(), center, scale),
        r@.len() == m.nrow * m.ncol,
{
    let nrow: usize = m.nrow;
    let n: usize = m.ncol;
    let md: &Vec<Real> = &m.data;
    let len: usize = md.len();
    let ghost g = m.deep();
    let ghost f = |i: int, j: int| prepared_cell(fpu, g, center, scale, i, j);
    let h = |i: usize, j: usize| -> (x: Real)
        requires
            fpu.wf(),
            i < nrow,
            j < n,
            nrow == m.nrow,
            n == m.ncol,
            md@ == m.data@,
            md@.len() == nrow * n,
            len == md@.len(),
            means@ == Seq::new(n as nat, |j: int| grid_mean(fpu, grid_of(m), j)),
            sds@ == scales(fpu, grid_of(m), scale),
        ensures
            x == prepared_cell(fpu, grid_of(m), center, scale, i as int, j as int),
        {
            proof {
                lemma_cell(i as int, j as int, nrow as int, n as int);
            }
            let v: Real = md[j * nrow + i];
            if !center {
                v
            } else {
                let d: Real = fpu.diff(v, means[j]);
                if scale {
                    fpu.quot(d, sds[j])
                } else {
                    d
                }
            }
        };
    table_of(nrow, n, &h, Ghost(f))
}

fn cov_of<F: Fn(FloatOp, Real, Real, Real) -> Real>(fpu: &Fpu<F>, x: &Vec<Real>, m: usize, n: usize, i: usize, j: usize) -> (r:
    Real)
    requires
        fpu.wf(),
        x@.len() == m * n,
        0 < m < SIZE_LIMIT,
        i < n,
        j < n,
    ensures
        r == kahan_cov(fpu, x@, m as nat, i as int, j as int),
{
    let len: usize = x.len();
    let late: usize = if i >= j { i } else { j };
    let early: usize = if i >= j { j } else { i };
    let mut acc: Real = Real { bits: 0 };
    let mut lost: Real = Real { bits: 0 };
    let mut k: usize = 0;
    while k < m
        invariant
            fpu.wf(),
            x@.len() == m * n,
            len == x@.len(),
            late < n,
            early < n,
            k <= m,
            (acc, lost) == compensated(fpu, x@, m as int, late as int, early as int, k as nat),
        decreases m - k,
    {
        proof {
            lemma_cell(k as int, late as int, m as int, n as int);
            lemma_cell(k as int, early as int, m as int, n as int);
        }
        let y: Real = fpu.diff(fpu.prod(x[late * m + k], x[early * m + k]), lost);
        let t: Real = fpu.sum(acc, y);
        lost = fpu.diff(fpu.diff(t, acc), y);
        acc = t;
        k += 1;
    }
    fpu.quot(acc, Real::from_count((m - 1) as u64))
}

fn covs_of<F: Fn(FloatOp, Real, Real, Real) -> Real>(fpu: &Fpu<F>, x: &Vec<Real>, m: usize, n: usize) -> (r: Vec<Real>)
    requires
        fpu.wf(),
        x@.len() == m * n,
        n > 0 ==> 0 < m,
        m < SIZE_LIMIT,
        n * n <= usize::MAX,
    ensures
        r@ == kahan_covs(fpu, x@, m as nat, n as nat),
        r@.len() == n * n,
{
    let ghost f = |i: int, j: int| kahan_cov(fpu, x@, m as nat, i, j);
    let h = |i: usize, j: usize| -> (v: Real)
        requires
            fpu.wf(),
            x@.len() == m * n,
            n > 0 ==> 0 < m,
            m < SIZE_LIMIT,
            i < n,
            j < n,
        ensures
            v == kahan_cov(fpu, x@, m as nat, i as int, j as int),
        { cov_of(fpu, x, m, n, i, j) };
    table_of(n, n, &h, Ghost(f))
}

fn clean(v: Real) -> (r: Real)
    ensures
        r == cleaned(v),
{
    let zip = Real { bits: 0 };
    if v.lt(&zip) && v.abs().lt(&Real { bits: ROUND_OFF_BITS }) {
        zip
    } else {
        v
    }
}

fn clean_all(s: &Vec<Real>) -> (r: Vec<Real>)
    ensures
        r@ == all_cleaned(s@),
{
    let f = |i: usize| -> (x: Real)
        requires
            i < s@.len(),
        ensures
            x == cleaned(s@[i as int]),
        { clean(s[i]) };
    list_of(s.len(), &f, Ghost(all_cleaned(s@)))
}

fn positives(s: &Vec<Real>) -> (r: Vec<Real>)
    ensures
        r@ == positive_ones(s@),
{
    let zip = Real { bits: 0 };
    let mut out: Vec<Real> = Vec::new();
    let mut i: usize = 0;
    assert(s@.take(0) =~= Seq::<Real>::empty());
    while i < s.len()
        invariant
            zip == zero(),
            i <= s.len(),
            out@ == positive_ones(s@.take(i as int)),
        decreases s.len() - i,
    {
        assert(s@.take(i + 1).drop_last() =~= s@.take(i as int));
        if zip.lt(&s[i]) {
            out.push(s[i]);
        }
        i += 1;
    }
    assert(s@.take(s@.len() as int) =~= s@);
    out
}

fn component_names(n: usize) -> (r: Vec<String>)
    requires
        n < SIZE_LIMIT,
    ensures
        texts(r@) == Seq::new(n as nat, |i: int| "PC"@ + decimal((i + 1) as nat)),
{
    let mut out: Vec<String> = Vec::new();
    let mut i: usize = 0;
    while i < n
        invariant
            n < SIZE_LIMIT,
            i <= n,
            out@.len() == i,
            forall|k: int| 0 <= k < i ==> (#[trigger] out@[k])@ == "PC"@ + decimal((k + 1) as nat),
        decreases n - i,
    {
        out.push(numbered("PC", i as u64 + 1));
        i += 1;
    }
    assert(texts(out@) =~= Seq::new(n as nat, |i: int| "PC"@ + decimal((i + 1) as nat)));
    out
}

fn report_pca<F: Fn(FloatOp, Real, Real, Real) -> Real>(
    fpu: &Fpu<F>,
    m: &Matrix,
    means: &Vec<Real>,
    sds: &Vec<Real>,
    scale: bool,
    values: &Vec<Real>,
    vectors: Vec<Real>,
) -> (r: RVal)
    requires
        fpu.wf(),
        m.ncol < SIZE_LIMIT,
        means@ == Seq::new(m.ncol as nat, |j: int| grid_mean(fpu, m.deep(), j)),
        sds@ == scales(fpu, m.deep(), scale),
    ensures
        r.deep() == pca_report(fpu, m.deep(), scale, values@, vectors@),
{
    let zip = Real { bits: 0 };
    let e: Vec<Real> = clean_all(values);
    let some: Vec<Real> = positives(&e);
    let all: Real = crate::grid::sum_reals(fpu, some.as_slice());
    let f = |i: usize| -> (x: Real)
        requires
            fpu.wf(),
            i < e@.len(),
            zip == zero(),
        ensures
            x == fpu.sqrt(e@[i as int].greatest(zero())),
        { fpu.root(e[i].max_value(zip)) };
    let sdev: Vec<Real> = list_of(
        e.len(),
        &f,
        Ghost(Seq::new(e@.len(), |i: int| fpu.sqrt(e@[i].greatest(zero())))),
    );
    let h = |i: usize| -> (x: Real)
        requires
            fpu.wf(),
            i < e@.len(),
            zip == zero(),
        ensures
            x == share(fpu, all, e@[i as int]),
        {
            if zip.lt(&all) {
                fpu.quot(e[i].max_value(zip), all)
            } else {
                zip
            }
        };
    let prop: Vec<Real> = list_of(e.len(), &h, Ghost(Seq::new(e@.len(), |i: int| share(fpu, all, e@[i]))));
    let rotation = Matrix { data: vectors, nrow: m.ncol, ncol: m.ncol, col_names: Some(component_names(m.ncol)) };
    let mut fields: Vec<(String, RVal)> = Vec::new();
    put(&mut fields, "sdev", rnums(&sdev));
    put(&mut fields, "eigenvalues", rnums(&e));
    put(&mut fields, "prop.variance", rnums(&prop));
    put(&mut fields, "center", rnums(means));
    put(&mut fields, "rotation", RVal::Matrix(rotation));
    if scale {
        put(&mut fields, "scale", rnums(sds));
    }
    let r: RVal = instance("prcomp", fields);
    proof {
        reveal_with_fuel(RVal::deep, 2);
        let want = pca_report(fpu, m.deep(), scale, values@, vectors@);
        assert(r.deep()->Instance_1 =~= want->Instance_1);
    }
    r
}

/// Principal components of the columns of a matrix or a data frame.
pub fn bi_prcomp<
    F: Fn(FloatOp, Real, Real, Real) -> Real,
    E: Fn(usize, &[Real]) -> Result<(Vec<Real>, Vec<Real>), LinalgError>,
>(fpu: &Fpu<F>, eigen: &E, a: &[EvalArg]) -> (r: Result<RVal, R2Err>)
    requires
        fpu.wf(),
        decomposes(*eigen),
        sound_args(a@),
        frame_small(nth(a@, 0)),
        numeric_grid(nth(a@, 0)) is Some ==> ({
            let g = numeric_grid(nth(a@, 0))->0;
            &&& switch_ready(named(a@, "center"@))
            &&& switch_ready(scale_given(a@))
            &&& g.ncol > 0 ==> g.nrow > 0
            &&& g.ncol * g.ncol <= usize::MAX
        }),
    ensures
        match numeric_grid(nth(a@, 0)) {
            None => failed(r, (ErrKind::Runtime, "prcomp() needs a matrix or data.frame"@)),
            Some(g) => reports_pca(
                fpu,
                *eigen,
                g,
                switch(named(a@, "center"@), true),
                switch(scale_given(a@), false),
                r,
            ),
        },
{
    let first: RVal = nth_arg(a, 0);
    proof {
        if a@.len() > 0 {
            assert(sound(a@[0].value.deep()));
        }
    }
    let m: Matrix = match read_grid(&first, "prcomp() needs a matrix or data.frame") {
        Ok(m) => m,
        Err(e) => {
            return Err(e);
        },
    };
    let center: bool = switch_of(arg_named(a, "center"), true);
    let given: Option<&RVal> = match arg_named(a, "scale.") {
        Some(v) => Some(v),
        None => arg_named(a, "scale"),
    };
    let scale: bool = switch_of(given, false);
    let means: Vec<Real> = column_means(fpu, &m);
    let sds: Vec<Real> = scales_of(fpu, &m, &means, scale);
    let x: Vec<Real> = prepare(fpu, &m, &means, &sds, center, scale);
    let cov: Vec<Real> = covs_of(fpu, &x, m.nrow, m.ncol);
    let s: &[Real] = cov.as_slice();
    let out: Result<(Vec<Real>, Vec<Real>), LinalgError> = eigen(m.ncol, s);
    assert(call_ensures(*eigen, (m.ncol, s), out));
    let ghost g = m.deep();
    assert(s@ == kahan_covs(fpu, prepared(fpu, g, center, scale), g.nrow, g.ncol));
    let ghost o = out;
    let r: Result<RVal, R2Err> = match out {
        Err(e) => {
            let mut t: Vec<char> = Vec::new();
            let why: String = e.message();
            extend_str(&mut t, "PCA failed: ");
            extend_str(&mut t, why.as_str());
            let msg: String = string_of(&t);
            assert(msg@ =~= pca_message(e));
            Err(R2Err { msg, kind: ErrKind::Runtime })
        },
        Ok((values, vectors)) => Ok(report_pca(fpu, &m, &means, &sds, scale, &values, vectors)),
    };
    proof {
        assert(center == switch(named(a@, "center"@), true));
        assert(scale == switch(scale_given(a@), false));
        assert(call_ensures(*eigen, (g.ncol as usize, s), o));
        assert(reports_pca(fpu, *eigen, g, center, scale, r));
    }
    r
}

} // verus!
