//! What the scalar functions hand on and give back.

use vstd::prelude::*;
use crate::json;
use crate::scalar;
use crate::scalar::{
    ols_from_json, CoxTrainFn, KmTrainFn, OlsFit, OlsFn, OlsReport, Smote, SmoteFn, TrainModelFn, VotingFn, VotingMode,
};
use crate::text;

verus! {

/// The texts are the first arguments, all of them given.
pub open spec fn are_arguments(v: Seq<String>, args: Seq<Option<String>>, wanted: nat) -> bool {
    v.len() == wanted && forall|i: int|
        #![trigger v[i]]
        0 <= i < wanted ==> args[i] is Some && v[i]@ == args[i]->0@
}

/// One of the first arguments is missing.
pub open spec fn one_is_missing(args: Seq<Option<String>>, wanted: nat) -> bool {
    exists|i: int| 0 <= i < wanted && (#[trigger] args[i]) is None
}

/// The arguments were handed on, with this answer.
pub open spec fn handed_on<R: Fn(&Vec<String>) -> Result<(), String>>(
    register: R,
    args: Seq<Option<String>>,
    wanted: nat,
    answer: Result<(), String>,
) -> bool {
    exists|v: &Vec<String>| #[trigger] call_ensures(register, (v,), answer) && are_arguments(v@, args, wanted)
}

/// What training owes: the arguments as they stand are registered, and the name, the
/// first of them, is given back for each row; a problem is given back as it is; and
/// a missing argument is refused.
pub open spec fn trains<R: Fn(&Vec<String>) -> Result<(), String>>(
    register: R,
    args: Seq<Option<String>>,
    wanted: nat,
    n: nat,
    r: Result<Vec<String>, String>,
) -> bool {
    &&& one_is_missing(args, wanted) ==> r is Err
    &&& !one_is_missing(args, wanted) ==> match r {
        Ok(names) => handed_on(register, args, wanted, Ok(())) && names@.len() == n && forall|i: int|
            0 <= i < n ==> (#[trigger] names@[i])@ == args[0]->0@,
        Err(e) => handed_on(register, args, wanted, Err(e)),
    }
}

proof fn lemma_handed_on<R: Fn(&Vec<String>) -> Result<(), String>>(
    register: R,
    args: Seq<Option<String>>,
    wanted: nat,
    answer: Result<(), String>,
)
    requires
        scalar::registers(register, scalar::given_texts(args, wanted), answer),
        scalar::all_given(args, wanted),
    ensures
        handed_on(register, args, wanted, answer),
{
    let given = scalar::given_texts(args, wanted);
    let v = choose|v: &Vec<String>| text::texts(v@) == given && #[trigger] call_ensures(register, (v,), answer);
    assert(text::texts(v@).len() == given.len());
    assert forall|i: int| #![trigger v@[i]] 0 <= i < wanted implies args[i] is Some && v@[i]@ == args[i]->0@ by {
        assert(text::texts(v@)[i] == given[i]);
    }
}

proof fn lemma_trains<R: Fn(&Vec<String>) -> Result<(), String>>(
    register: R,
    args: Seq<Option<String>>,
    wanted: nat,
    n: nat,
    r: Result<Vec<String>, String>,
)
    requires
        scalar::train_outcome(register, args, wanted, n, r),
    ensures
        trains(register, args, wanted, n, r),
{
    if scalar::all_given(args, wanted) {
        match r {
            Ok(names) => {
                lemma_handed_on(register, args, wanted, Ok(()));
                assert(text::texts(names@).len() == n);
                assert forall|i: int| 0 <= i < n implies (#[trigger] names@[i])@ == args[0]->0@ by {
                    assert(text::texts(names@)[i] == scalar::repeated(scalar::given_text(args, 0), n)[i]);
                }
            },
            Err(e) => {
                lemma_handed_on(register, args, wanted, Err(e));
            },
        }
    }
}

/// A model is trained with the five arguments as they stand.
pub proof fn law_training_hands_arguments_on<R: Fn(&Vec<String>) -> Result<(), String>>(
    n: usize,
    args: &Vec<Option<String>>,
    register: &R,
    r: Result<Vec<String>, String>,
)
    requires
        call_ensures(TrainModelFn::invoke::<R>, (n, args, register), r),
    ensures
        trains(*register, args@, 5, n as nat, r),
{
    lemma_trains(*register, args@, 5, n as nat, r);
}

/// A survival curve is trained with the three arguments as they stand.
pub proof fn law_curve_training_hands_arguments_on<R: Fn(&Vec<String>) -> Result<(), String>>(
    n: usize,
    args: &Vec<Option<String>>,
    register: &R,
    r: Result<Vec<String>, String>,
)
    requires
        call_ensures(KmTrainFn::invoke::<R>, (n, args, register), r),
    ensures
        trains(*register, args@, 3, n as nat, r),
{
    lemma_trains(*register, args@, 3, n as nat, r);
}

/// A model of hazards is trained with the five arguments as they stand.
pub proof fn law_hazard_training_hands_arguments_on<R: Fn(&Vec<String>) -> Result<(), String>>(
    n: usize,
    args: &Vec<Option<String>>,
    register: &R,
    r: Result<Vec<String>, String>,
)
    requires
        call_ensures(CoxTrainFn::invoke::<R>, (n, args, register), r),
    ensures
        trains(*register, args@, 5, n as nat, r),
{
    lemma_trains(*register, args@, 5, n as nat, r);
}

/// The texts are arrays of these numbers.
pub open spec fn are_columns(args: Seq<Seq<char>>, cols: Seq<Seq<u64>>) -> bool {
    args.len() == cols.len() && forall|i: int|
        #![trigger args[i]]
        #![trigger cols[i]]
        0 <= i < args.len() ==> json::numbers_read(args[i]) == Ok::<Seq<u64>, Seq<char>>(cols[i])
}

/// A row holds the number of each column but the first at position `r`.
pub open spec fn is_sample(row: Seq<u64>, cols: Seq<Seq<u64>>, r: int) -> bool {
    row.len() == cols.len() - 1 && forall|c: int| 0 <= c < row.len() ==> #[trigger] row[c] == cols[c + 1][r]
}

/// There is a sample for each position of the columns.
pub open spec fn are_samples(a: Seq<Vec<u64>>, cols: Seq<Seq<u64>>) -> bool {
    a.len() == cols[0].len() && forall|r: int| 0 <= r < a.len() ==> is_sample((#[trigger] a[r])@, cols, r)
}

/// The report is that of a fit of the first column by the others.
pub open spec fn is_report<F: Fn(&Vec<Vec<u64>>, &Vec<u64>) -> Result<OlsFit, String>>(
    fit: F,
    cols: Seq<Seq<u64>>,
    report: OlsReport,
    a: &Vec<Vec<u64>>,
    b: &Vec<u64>,
    f: OlsFit,
) -> bool {
    &&& call_ensures(fit, (a, b), Ok(f))
    &&& b@ == cols[0]
    &&& are_samples(a@, cols)
    &&& report.intercept == f.intercept
    &&& report.r_squared == f.r_squared
    &&& report.mse == f.mse
    &&& report.n_samples == f.num_samples
    &&& report.n_features == cols.len() - 1
    &&& report.coefficients@.len() == f.coefficients@.len() - 1
    &&& forall|i: int| 0 <= i < report.coefficients@.len() ==> #[trigger] report.coefficients@[i] == f.coefficients@[i]
}

/// See [`is_report`].
pub open spec fn is_reported<F: Fn(&Vec<Vec<u64>>, &Vec<u64>) -> Result<OlsFit, String>>(
    fit: F,
    cols: Seq<Seq<u64>>,
    report: OlsReport,
) -> bool {
    exists|a: &Vec<Vec<u64>>, b: &Vec<u64>, f: OlsFit| #[trigger] is_report(fit, cols, report, a, b, f)
}

proof fn lemma_columns(args: Seq<Seq<char>>, cols: Seq<Seq<u64>>, n: nat, m: nat)
    requires
        are_columns(args, cols),
        m < args.len(),
        scalar::columns(args, n, m) is Ok,
    ensures
        scalar::columns(args, n, m)->Ok_0 == cols.subrange(1, m as int + 1),
        forall|i: int| 1 <= i <= m ==> (#[trigger] cols[i]).len() == n,
    decreases m,
{
    if m == 0 {
        assert(cols.subrange(1, 1) =~= Seq::empty());
    } else {
        lemma_columns(args, cols, n, (m - 1) as nat);
        assert(json::numbers_read(args[m as int]) == Ok::<Seq<u64>, Seq<char>>(cols[m as int]));
        assert(cols.subrange(1, m as int).push(cols[m as int]) =~= cols.subrange(1, m as int + 1));
    }
}

proof fn lemma_reported<F: Fn(&Vec<Vec<u64>>, &Vec<u64>) -> Result<OlsFit, String>>(
    fit: F,
    args: Seq<Seq<char>>,
    cols: Seq<Seq<u64>>,
    report: OlsReport,
)
    requires
        scalar::ols_outcome(fit, args, Ok(report)),
        are_columns(args, cols),
        forall|a: &Vec<Vec<u64>>, b: &Vec<u64>, f: OlsFit| #[trigger]
            call_ensures(fit, (a, b), Ok(f)) ==> f.coefficients@.len() > 0,
    ensures
        cols.len() >= 2,
        cols[0].len() > 0,
        forall|i: int| 0 <= i < cols.len() ==> (#[trigger] cols[i]).len() == cols[0].len(),
        is_reported(fit, cols, report),
{
    let data = scalar::ols_data(args)->Ok_0;
    assert(json::numbers_read(args[0]) == Ok::<Seq<u64>, Seq<char>>(cols[0]));
    let n = cols[0].len();
    let m = (args.len() - 1) as nat;
    lemma_columns(args, cols, n, m);
    let others = cols.subrange(1, m as int + 1);
    let f = choose|f: OlsFit| #[trigger]
        scalar::fits(fit, data.1, data.0, Ok(f)) && scalar::reports(f, m, report);
    let (a, b) = choose|a: &Vec<Vec<u64>>, b: &Vec<u64>|
        json::rows_of(a@) == data.1 && b@ == data.0 && #[trigger] call_ensures(fit, (a, b), Ok(f));
    assert(json::rows_of(a@).len() == n);
    assert forall|r: int| 0 <= r < a@.len() implies is_sample((#[trigger] a@[r])@, cols, r) by {
        assert(json::rows_of(a@)[r] == scalar::transposed(others, n)[r]);
        let row = scalar::table_row(others, r);
        assert(a@[r]@ == row);
        assert forall|c: int| 0 <= c < row.len() implies #[trigger] row[c] == cols[c + 1][r] by {
            assert(others[c] == cols[c + 1]);
        }
    }
    assert(a@.len() == n) by {
        assert(json::rows_of(a@).len() == a@.len());
    }
    assert(are_samples(a@, cols));
    assert(report.coefficients@ == f.coefficients@.drop_last());
    assert(f.coefficients@.len() > 0);
    assert(is_report(fit, cols, report, a, b, f));
}

/// A fit has the first column as targets and a sample for each position of the
/// other ones. Columns that are empty or of different lengths are not fitted. The
/// last coefficient of the fit is the intercept, which is reported by itself.
pub proof fn law_columns_are_fitted<F: Fn(&Vec<Vec<u64>>, &Vec<u64>) -> Result<OlsFit, String>>(
    args: &Vec<String>,
    fit: &F,
    cols: Seq<Seq<u64>>,
    report: OlsReport,
)
    requires
        call_ensures(ols_from_json::<F>, (args, fit), Ok(report)),
        are_columns(Seq::new(args@.len(), |i: int| args@[i]@), cols),
        forall|a: &Vec<Vec<u64>>, b: &Vec<u64>, f: OlsFit| #[trigger]
            call_ensures(*fit, (a, b), Ok(f)) ==> f.coefficients@.len() > 0,
    ensures
        cols.len() >= 2,
        cols[0].len() > 0,
        forall|i: int| 0 <= i < cols.len() ==> (#[trigger] cols[i]).len() == cols[0].len(),
        is_reported(*fit, cols, report),
{
    assert(Seq::new(args@.len(), |i: int| args@[i]@) =~= text::texts(args@));
    lemma_reported(*fit, text::texts(args@), cols, report);
}

/// The function of rows fits the columns once and gives the same text for each row.
pub proof fn law_fit_is_the_same_for_each_row<
    F: Fn(&Vec<Vec<u64>>, &Vec<u64>) -> Result<OlsFit, String>,
    W: Fn(u64) -> String,
>(n: usize, args: &Vec<Option<String>>, fit: &F, write: &W, rows: Vec<String>, cols: Seq<Seq<u64>>) -> (report: OlsReport)
    requires
        call_ensures(OlsFn::invoke::<F, W>, (n, args, fit, write), Ok(rows)),
        are_columns(Seq::new(args@.len(), |i: int| args@[i]->0@), cols),
        forall|a: &Vec<Vec<u64>>, b: &Vec<u64>, f: OlsFit| #[trigger]
            call_ensures(*fit, (a, b), Ok(f)) ==> f.coefficients@.len() > 0,
    ensures
        forall|i: int| 0 <= i < args@.len() ==> (#[trigger] args@[i]) is Some,
        rows@.len() == n,
        forall|i: int, j: int| #![trigger rows@[i], rows@[j]] 0 <= i < n && 0 <= j < n ==> rows@[i]@ == rows@[j]@,
        is_reported(*fit, cols, report),
{
    let given = scalar::given_texts(args@, args@.len());
    assert(given =~= Seq::new(args@.len(), |i: int| args@[i]->0@));
    let texts = text::texts(rows@);
    let (report, out) = choose|report: OlsReport, out: Seq<char>| #[trigger]
        scalar::ols_outcome(*fit, given, Ok(report)) && #[trigger] scalar::report_json(*write, report, out) && texts
            == scalar::repeated(out, texts.len());
    assert forall|i: int, j: int| #![trigger rows@[i], rows@[j]] 0 <= i < n && 0 <= j < n implies rows@[i]@
        == rows@[j]@ by {
        assert(texts[i] == scalar::repeated(out, texts.len())[i]);
        assert(texts[j] == scalar::repeated(out, texts.len())[j]);
    }
    lemma_reported(*fit, given, cols, report);
    report
}

/// The samples were made of these rows and labels.
pub open spec fn sampled<F: Fn(&Vec<Vec<u64>>, &Vec<u64>) -> Smote>(
    sample: F,
    x: Seq<Seq<u64>>,
    y: Seq<u64>,
    a: &Vec<Vec<u64>>,
    b: &Vec<u64>,
    s: Smote,
) -> bool {
    &&& call_ensures(sample, (a, b), s)
    &&& a@.len() == x.len()
    &&& forall|i: int| 0 <= i < x.len() ==> (#[trigger] a@[i])@ == x[i]
    &&& b@ == y
}

/// New samples are made of the rows in the first argument and the labels in the
/// second one, once for all rows.
pub proof fn law_samples_are_made_of_the_arguments<F: Fn(&Vec<Vec<u64>>, &Vec<u64>) -> Smote, W: Fn(u64) -> String>(
    n: usize,
    args: &Vec<Option<String>>,
    sample: &F,
    write: &W,
    r: Result<Vec<String>, String>,
    x: Seq<Seq<u64>>,
    y: Seq<u64>,
)
    requires
        call_ensures(SmoteFn::invoke::<F, W>, (n, args, sample, write), r),
        args@.len() >= 2,
        args@[0] matches Some(s) && json::table_read(s@) == Ok::<Seq<Seq<u64>>, Seq<char>>(x),
        args@[1] matches Some(s) && json::numbers_read(s@) == Ok::<Seq<u64>, Seq<char>>(y),
    ensures
        r is Ok,
        r->Ok_0@.len() == n,
        exists|a: &Vec<Vec<u64>>, b: &Vec<u64>, s: Smote| #[trigger] sampled(*sample, x, y, a, b, s),
{
    assert(scalar::all_given(args@, 2));
    let rows = text::texts(r->Ok_0@);
    let (a, b, s, out) = choose|a: &Vec<Vec<u64>>, b: &Vec<u64>, s: Smote, out: Seq<char>|
        json::rows_of(a@) == x && b@ == y && #[trigger] call_ensures(*sample, (a, b), s) && #[trigger] scalar::smote_json(
            *write,
            s,
            out,
        ) && rows == scalar::repeated(out, rows.len());
    assert forall|i: int| 0 <= i < x.len() implies (#[trigger] a@[i])@ == x[i] by {
        assert(json::rows_of(a@)[i] == x[i]);
    }
    assert(sampled(*sample, x, y, a, b, s));
}

/// The texts are these names.
pub open spec fn are_names(v: Seq<String>, names: Seq<Seq<char>>) -> bool {
    v.len() == names.len() && forall|i: int| 0 <= i < names.len() ==> (#[trigger] v[i])@ == names[i]
}

/// The models were asked and the vote was taken.
pub open spec fn voted<
    P: Fn(&Vec<String>, &Vec<u64>) -> Result<Vec<u64>, String>,
    V: Fn(&Vec<String>, &Vec<u64>, VotingMode) -> Result<u64, String>,
>(
    poll: P,
    vote: V,
    names: Seq<Seq<char>>,
    x: Seq<u64>,
    mode: VotingMode,
    a: &Vec<String>,
    b: &Vec<u64>,
    c: &Vec<String>,
    d: &Vec<u64>,
    members: Vec<u64>,
    result: u64,
) -> bool {
    &&& call_ensures(poll, (a, b), Ok(members))
    &&& call_ensures(vote, (c, d, mode), Ok(result))
    &&& are_names(a@, names)
    &&& are_names(c@, names)
    &&& b@ == x
    &&& d@ == x
}

/// The models named in the first argument are asked about the features in the second
/// one, and the vote is taken in the mode that the third one names: a majority or a
/// mean. Any other mode is refused.
pub proof fn law_vote_is_of_the_arguments<
    P: Fn(&Vec<String>, &Vec<u64>) -> Result<Vec<u64>, String>,
    V: Fn(&Vec<String>, &Vec<u64>, VotingMode) -> Result<u64, String>,
    W: Fn(u64) -> String,
>(
    n: usize,
    args: &Vec<Option<String>>,
    poll: &P,
    vote: &V,
    write: &W,
    r: Result<Vec<String>, String>,
    names: Seq<Seq<char>>,
    x: Seq<u64>,
)
    requires
        call_ensures(VotingFn::invoke::<P, V, W>, (n, args, poll, vote, write), r),
        args@.len() >= 3,
        args@[0] matches Some(s) && json::strings_read(s@) == Ok::<Seq<Seq<char>>, Seq<char>>(names),
        args@[1] matches Some(s) && json::numbers_read(s@) == Ok::<Seq<u64>, Seq<char>>(x),
        args@[2] is Some,
    ensures
        r is Ok ==> args@[2]->0@ == "hard"@ || args@[2]->0@ == "mean"@,
        r is Ok ==> r->Ok_0@.len() == n,
        r is Ok && args@[2]->0@ == "hard"@ ==> exists|
            a: &Vec<String>,
            b: &Vec<u64>,
            c: &Vec<String>,
            d: &Vec<u64>,
            members: Vec<u64>,
            result: u64,
        | #[trigger] voted(*poll, *vote, names, x, VotingMode::Hard, a, b, c, d, members, result),
        r is Ok && args@[2]->0@ == "mean"@ ==> exists|
            a: &Vec<String>,
            b: &Vec<u64>,
            c: &Vec<String>,
            d: &Vec<u64>,
            members: Vec<u64>,
            result: u64,
        | #[trigger] voted(*poll, *vote, names, x, VotingMode::Mean, a, b, c, d, members, result),
{
    assert(scalar::all_given(args@, 3));
    reveal_strlit("hard");
    reveal_strlit("mean");
    assert("hard"@[0] == 'h' && "mean"@[0] == 'm');
    if r is Ok {
        let asked = scalar::vote_data(args@[0]->0@, args@[1]->0@, args@[2]->0@)->Ok_0;
        let rows = text::texts(r->Ok_0@);
        let mode = args@[2]->0@;
        let (members, result, shown, listed) = choose|members: Vec<u64>, result: u64, shown: Seq<char>, listed: Seq<char>| #[trigger]
            scalar::polls(*poll, asked, Ok(members)) && #[trigger] scalar::votes(*vote, asked, Ok(result))
                && #[trigger] scalar::writes(*write, result, shown) && #[trigger] scalar::numbers_json(
                *write,
                members@,
                listed,
            ) && rows == scalar::repeated(scalar::vote_text(mode, shown, listed), rows.len());
        let (a, b) = choose|a: &Vec<String>, b: &Vec<u64>|
            text::texts(a@) == asked.names && b@ == asked.x && #[trigger] call_ensures(*poll, (a, b), Ok(members));
        let (c, d) = choose|c: &Vec<String>, d: &Vec<u64>|
            text::texts(c@) == asked.names && d@ == asked.x && #[trigger] call_ensures(
                *vote,
                (c, d, asked.mode),
                Ok(result),
            );
        assert(text::texts(a@).len() == names.len());
        assert(text::texts(c@).len() == names.len());
        assert forall|i: int| 0 <= i < names.len() implies (#[trigger] a@[i])@ == names[i] by {
            assert(text::texts(a@)[i] == names[i]);
        }
        assert forall|i: int| 0 <= i < names.len() implies (#[trigger] c@[i])@ == names[i] by {
            assert(text::texts(c@)[i] == names[i]);
        }
        assert(voted(*poll, *vote, names, x, asked.mode, a, b, c, d, members, result));
    }
}

} // verus!
