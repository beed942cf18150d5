//! Validation of a value network on positions that it was not trained on.
//!
//! Numbers of the network are of a type `L` that is carried but never computed with: the loss of a
//! validation run is given as the formula that it is worked out by.
use vstd::prelude::*;

use crate::exact::{in_unit_interval, is_sigmoid};
use crate::shogi::{PackedSfenValue, PSV_RECORD_SIZE};
use crate::text::decimal;

verus! {

// ---------------------------------------------------------------------------------------------
// Parameters
// ---------------------------------------------------------------------------------------------

/// The win-rate model that turns a teacher's score into a target.
#[derive(Clone, Copy, Debug, PartialEq)]
pub struct WrmTargetParams<L> {
    pub scaling: L,
    pub offset: L,
}

/// The win-rate model that turns a network's output into a prediction.
#[derive(Clone, Copy, Debug, PartialEq)]
pub struct WrmOutputParams<L> {
    pub in_scaling: L,
    pub out_scaling: L,
    pub offset: L,
}

/// How a network is validated.
#[derive(Clone, Copy, Debug)]
pub struct ValidationParams<L> {
    /// The weight of the game's result against the teacher's score.
    pub blend: L,
    pub eval_scale: L,
    pub wrm_target: Option<WrmTargetParams<L>>,
    pub wrm_output: Option<WrmOutputParams<L>>,
    /// Positions whose score is at least this large, either way, are left out.
    pub score_drop_abs: Option<u16>,
}

/// Where a number of the network lies.
#[derive(Clone, Copy, Debug, PartialEq, Eq, Structural)]
pub enum OutputClass {
    /// Not a number, or infinite.
    NonFinite,
    /// Finite and below zero.
    Negative,
    /// Finite and at least zero.
    NonNegative,
}

/// One output of the network, and where it lies.
#[derive(Clone, Copy, Debug)]
pub struct ModelOutput<L> {
    pub value: L,
    pub class: OutputClass,
}

// ---------------------------------------------------------------------------------------------
// The loss
// ---------------------------------------------------------------------------------------------

/// How a game ended for the side to move.
#[derive(Clone, Copy, Debug, PartialEq, Eq, Structural)]
pub enum GameResult {
    /// Counts 0.
    Loss,
    /// Counts one half.
    Draw,
    /// Counts 1.
    Win,
}

/// A number between 0 and 1, see [`exact_score`]. `sigmoid(x)` is `1 / (1 + exp(-x))`, and `win_rate(s, k, o)` is
/// `(1 + sigmoid((s - o) / k) - sigmoid((-s - o) / k)) / 2`.
#[derive(Clone, Copy, Debug, PartialEq)]
pub enum ScoreFormula<L> {
    /// `sigmoid(score / eval_scale)`.
    Sigmoid { score: i16, eval_scale: L },
    /// `win_rate(score, scaling, offset)`.
    WinRate { score: i16, scaling: L, offset: L },
}

/// A number between 0 and 1, in terms of the functions of [`ScoreFormula`], see
/// [`exact_prediction`].
#[derive(Clone, Copy, Debug, PartialEq)]
pub enum PredictionFormula<L> {
    /// `sigmoid(output)`.
    Sigmoid { output: L },
    /// `win_rate(output * out_scaling, in_scaling, offset)`.
    WinRate { output: L, out_scaling: L, in_scaling: L, offset: L },
}

/// The error of one position: its prediction less `blend * result + (1 - blend) * score`, see
/// [`exact_error`].
#[derive(Clone, Copy, Debug, PartialEq)]
pub struct LossTerm<L> {
    pub blend: L,
    pub result: GameResult,
    pub score: ScoreFormula<L>,
    pub prediction: PredictionFormula<L>,
}

/// The mean of the squares of the terms, which are added up in order, see [`exact_loss`].
#[derive(Clone, Debug, PartialEq)]
pub struct MeanLoss<L> {
    pub terms: Vec<LossTerm<L>>,
}

/// What a result counts in exact arithmetic.
pub open spec fn exact_result(result: GameResult) -> real {
    match result {
        GameResult::Loss => 0 as real,
        GameResult::Draw => (1 as real) / (2 as real),
        GameResult::Win => 1 as real,
    }
}

/// The win rate of a score in exact arithmetic, over the function `sigmoid`.
pub open spec fn exact_win_rate(
    sigmoid: spec_fn(real) -> real,
    score: real,
    scaling: real,
    offset: real,
) -> real {
    (1 as real + sigmoid((score - offset) / scaling) - sigmoid((-score - offset) / scaling)) / (
    2 as real)
}

/// What the score of a position counts in exact arithmetic, over the function `sigmoid`.
pub open spec fn exact_score(sigmoid: spec_fn(real) -> real, f: ScoreFormula<real>) -> real {
    match f {
        ScoreFormula::Sigmoid { score, eval_scale } => sigmoid(score as real / eval_scale),
        ScoreFormula::WinRate { score, scaling, offset } => exact_win_rate(
            sigmoid,
            score as real,
            scaling,
            offset,
        ),
    }
}

/// What the network predicts in exact arithmetic, over the function `sigmoid`.
pub open spec fn exact_prediction(
    sigmoid: spec_fn(real) -> real,
    f: PredictionFormula<real>,
) -> real {
    match f {
        PredictionFormula::Sigmoid { output } => sigmoid(output),
        PredictionFormula::WinRate { output, out_scaling, in_scaling, offset } => exact_win_rate(
            sigmoid,
            output * out_scaling,
            in_scaling,
            offset,
        ),
    }
}

/// What the network should predict in exact arithmetic, over the function `sigmoid`.
pub open spec fn exact_target(sigmoid: spec_fn(real) -> real, t: LossTerm<real>) -> real {
    t.blend * exact_result(t.result) + (1 as real - t.blend) * exact_score(sigmoid, t.score)
}

/// The error of a position in exact arithmetic, over the function `sigmoid`.
pub open spec fn exact_error(sigmoid: spec_fn(real) -> real, t: LossTerm<real>) -> real {
    exact_prediction(sigmoid, t.prediction) - exact_target(sigmoid, t)
}

/// The squares of the errors of the first `n` terms, added up.
pub open spec fn exact_squares(
    sigmoid: spec_fn(real) -> real,
    terms: Seq<LossTerm<real>>,
    n: nat,
) -> real
    decreases n,
{
    if n == 0 {
        0 as real
    } else {
        exact_squares(sigmoid, terms, (n - 1) as nat) + exact_error(sigmoid, terms[n - 1])
            * exact_error(sigmoid, terms[n - 1])
    }
}

/// The loss in exact arithmetic, over the function `sigmoid`.
pub open spec fn exact_loss(sigmoid: spec_fn(real) -> real, terms: Seq<LossTerm<real>>) -> real {
    exact_squares(sigmoid, terms, terms.len()) / (terms.len() as real)
}

/// The win rates of a score and of its opposite make up one, whatever function `sigmoid` is.
pub proof fn law_win_rates_make_up_one(
    sigmoid: spec_fn(real) -> real,
    score: real,
    scaling: real,
    offset: real,
)
    ensures
        exact_win_rate(sigmoid, score, scaling, offset) + exact_win_rate(
            sigmoid,
            -score,
            scaling,
            offset,
        ) == 1 as real,
{
    assert(-(-score) == score);
}

/// A win rate lies between 0 and 1.
pub proof fn law_win_rate_stays_in_unit_interval(
    sigmoid: spec_fn(real) -> real,
    score: real,
    scaling: real,
    offset: real,
)
    requires
        is_sigmoid(sigmoid),
    ensures
        in_unit_interval(exact_win_rate(sigmoid, score, scaling, offset)),
{
}

/// The win rate of the score zero is one half, whatever function `sigmoid` is.
pub proof fn law_win_rate_of_zero_is_half(
    sigmoid: spec_fn(real) -> real,
    scaling: real,
    offset: real,
)
    ensures
        exact_win_rate(sigmoid, 0 as real, scaling, offset) == (1 as real) / (2 as real),
{
    let zero = 0 as real;
    assert(-zero - offset == zero - offset);
}

/// Without an offset the win rate is the sigmoid of the scaled score.
pub proof fn law_win_rate_without_offset(
    sigmoid: spec_fn(real) -> real,
    score: real,
    scaling: real,
)
    requires
        is_sigmoid(sigmoid),
        scaling != 0 as real,
    ensures
        exact_win_rate(sigmoid, score, scaling, 0 as real) == sigmoid(score / scaling),
{
    let zero = 0 as real;
    let (x, y) = ((score - zero) / scaling, (-score - zero) / scaling);
    assert(x + y == zero) by (nonlinear_arith)
        requires
            x == (score - zero) / scaling,
            y == (-score - zero) / scaling,
            zero == 0 as real,
            scaling != 0 as real,
    ;
    assert(sigmoid(x) + sigmoid(y) == 1 as real);
    assert(x == score / scaling);
}

/// A higher score never has a lower win rate.
pub proof fn law_win_rate_never_falls(
    sigmoid: spec_fn(real) -> real,
    lower: real,
    higher: real,
    scaling: real,
    offset: real,
)
    requires
        is_sigmoid(sigmoid),
        scaling > 0 as real,
        lower <= higher,
    ensures
        exact_win_rate(sigmoid, lower, scaling, offset) <= exact_win_rate(
            sigmoid,
            higher,
            scaling,
            offset,
        ),
{
    let (a, b) = ((lower - offset) / scaling, (higher - offset) / scaling);
    let (c, d) = ((-lower - offset) / scaling, (-higher - offset) / scaling);
    assert(a <= b && d <= c) by (nonlinear_arith)
        requires
            a == (lower - offset) / scaling,
            b == (higher - offset) / scaling,
            c == (-lower - offset) / scaling,
            d == (-higher - offset) / scaling,
            lower <= higher,
            scaling > 0 as real,
    ;
    assert(sigmoid(a) <= sigmoid(b));
    assert(sigmoid(d) <= sigmoid(c));
}

/// A blend of one makes the game's result the target, and a blend of zero the teacher's score.
pub proof fn law_blend_weighs_the_result(sigmoid: spec_fn(real) -> real, t: LossTerm<real>)
    ensures
        t.blend == 1 as real ==> exact_target(sigmoid, t) == exact_result(t.result),
        t.blend == 0 as real ==> exact_target(sigmoid, t) == exact_score(sigmoid, t.score),
{
    let (r, s) = (exact_result(t.result), exact_score(sigmoid, t.score));
    assert(1 as real * r + 0 as real * s == r && 0 as real * r + 1 as real * s == s)
        by (nonlinear_arith);
}

/// A network that says what the teacher says makes no error where only the teacher counts: its
/// output is the score divided by the scale, in either model.
pub proof fn law_agreement_has_no_error(sigmoid: spec_fn(real) -> real, t: LossTerm<real>)
    requires
        t.blend == 0 as real,
        match (t.score, t.prediction) {
            (
                ScoreFormula::Sigmoid { score, eval_scale },
                PredictionFormula::Sigmoid { output },
            ) => output == score as real / eval_scale,
            (
                ScoreFormula::WinRate { score, scaling, offset: o },
                PredictionFormula::WinRate { output, out_scaling, in_scaling, offset },
            ) => output * out_scaling == score as real && in_scaling == scaling && offset == o,
            _ => false,
        },
    ensures
        exact_error(sigmoid, t) == 0 as real,
{
    law_blend_weighs_the_result(sigmoid, t);
}

/// With a `sigmoid` between 0 and 1 and a blend between them, so is every target and every
/// prediction.
pub proof fn law_targets_stay_in_unit_interval(sigmoid: spec_fn(real) -> real, t: LossTerm<real>)
    requires
        forall|x: real| in_unit_interval(#[trigger] sigmoid(x)),
        in_unit_interval(t.blend),
    ensures
        in_unit_interval(exact_target(sigmoid, t)),
        in_unit_interval(exact_prediction(sigmoid, t.prediction)),
{
    let (b, r, s) = (t.blend, exact_result(t.result), exact_score(sigmoid, t.score));
    assert(in_unit_interval(r));
    assert(in_unit_interval(s));
    let one = 1 as real;
    let zero = 0 as real;
    assert(zero <= b * r + (one - b) * s && b * r + (one - b) * s <= one) by (nonlinear_arith)
        requires
            zero <= b,
            b <= one,
            zero <= r,
            r <= one,
            zero <= s,
            s <= one,
            zero == 0 as real,
            one == 1 as real,
    ;
}

proof fn lemma_squares_bounded(
    sigmoid: spec_fn(real) -> real,
    terms: Seq<LossTerm<real>>,
    n: nat,
)
    requires
        n <= terms.len(),
        forall|x: real| in_unit_interval(#[trigger] sigmoid(x)),
        forall|i: int| 0 <= i < n ==> in_unit_interval((#[trigger] terms[i]).blend),
    ensures
        0 as real <= exact_squares(sigmoid, terms, n),
        exact_squares(sigmoid, terms, n) <= n as real,
    decreases n,
{
    if n > 0 {
        lemma_squares_bounded(sigmoid, terms, (n - 1) as nat);
        law_targets_stay_in_unit_interval(sigmoid, terms[n - 1]);
        let e = exact_error(sigmoid, terms[n - 1]);
        assert(0 as real <= e * e && e * e <= 1 as real) by (nonlinear_arith)
            requires
                -(1 as real) <= e,
                e <= 1 as real,
        ;
    }
}

/// With a `sigmoid` between 0 and 1 and blends between them, so is the loss.
pub proof fn law_loss_stays_in_unit_interval(
    sigmoid: spec_fn(real) -> real,
    terms: Seq<LossTerm<real>>,
)
    requires
        terms.len() > 0,
        forall|x: real| in_unit_interval(#[trigger] sigmoid(x)),
        forall|i: int| 0 <= i < terms.len() ==> in_unit_interval((#[trigger] terms[i]).blend),
    ensures
        in_unit_interval(exact_loss(sigmoid, terms)),
{
    lemma_squares_bounded(sigmoid, terms, terms.len());
    let (sum, n) = (exact_squares(sigmoid, terms, terms.len()), terms.len() as real);
    assert(0 as real <= sum / n && sum / n <= 1 as real) by (nonlinear_arith)
        requires
            0 as real <= sum,
            sum <= n,
            (0 as real) < n,
    ;
}

proof fn lemma_squares_append(
    sigmoid: spec_fn(real) -> real,
    a: Seq<LossTerm<real>>,
    b: Seq<LossTerm<real>>,
    k: nat,
)
    requires
        k <= a.len() + b.len(),
    ensures
        exact_squares(sigmoid, a + b, k) == (if k <= a.len() {
            exact_squares(sigmoid, a, k)
        } else {
            exact_squares(sigmoid, a, a.len()) + exact_squares(sigmoid, b, (k - a.len()) as nat)
        }),
    decreases k,
{
    if k > 0 {
        lemma_squares_append(sigmoid, a, b, (k - 1) as nat);
        if k == a.len() + 1 {
            assert(exact_squares(sigmoid, b, 0) == 0 as real);
        }
    }
}

/// The loss over two sets of terms is the mean of their losses, weighed by how many terms each has.
pub proof fn law_losses_average(
    sigmoid: spec_fn(real) -> real,
    a: Seq<LossTerm<real>>,
    b: Seq<LossTerm<real>>,
)
    requires
        a.len() > 0,
        b.len() > 0,
    ensures
        exact_loss(sigmoid, a + b) * ((a.len() + b.len()) as real) == exact_loss(sigmoid, a) * (
        a.len() as real) + exact_loss(sigmoid, b) * (b.len() as real),
{
    lemma_squares_append(sigmoid, a, b, a.len() + b.len());
    let (x, y) = (exact_squares(sigmoid, a, a.len()), exact_squares(sigmoid, b, b.len()));
    let (m, n) = (a.len() as real, b.len() as real);
    assert(((x + y) / (m + n)) * (m + n) == x + y && (x / m) * m == x && (y / n) * n == y)
        by (nonlinear_arith)
        requires
            (0 as real) < m,
            (0 as real) < n,
    ;
}

/// What came of a validation run.
#[derive(Clone, Debug, PartialEq)]
pub struct AccuracyReport<L> {
    /// Decisive games that were compared.
    pub compared: usize,
    /// Of these, those whose winner the network's sign tells.
    pub sign_matches: usize,
    pub drawn_games: usize,
    pub filtered_by_score_cap: usize,
    /// Outputs that are not finite, among the positions not left out.
    pub non_finite: usize,
    /// Positions that the loss is averaged over.
    pub loss_sampled: usize,
    pub test_loss: Option<MeanLoss<L>>,
}

impl<L> Default for AccuracyReport<L> {
    /// A report on no position.
    fn default() -> (report: AccuracyReport<L>)
        ensures
            report.compared == 0,
            report.sign_matches == 0,
            report.drawn_games == 0,
            report.filtered_by_score_cap == 0,
            report.non_finite == 0,
            report.loss_sampled == 0,
            report.test_loss is None,
    {
        AccuracyReport {
            compared: 0,
            sign_matches: 0,
            drawn_games: 0,
            filtered_by_score_cap: 0,
            non_finite: 0,
            loss_sampled: 0,
            test_loss: None,
        }
    }
}

/// A fraction of two counts.
#[derive(Clone, Copy, Debug, PartialEq, Eq, Structural)]
pub struct Ratio {
    pub numerator: usize,
    pub denominator: usize,
}

impl<L> AccuracyReport<L> {
    /// The share of decisive games that the network's sign tells, or `None` where there is none to
    /// compare.
    pub fn accuracy(&self) -> (ratio: Option<Ratio>)
        ensures
            ratio == (if self.compared == 0 {
                None
            } else {
                Some(Ratio { numerator: self.sign_matches, denominator: self.compared })
            }),
    {
        if self.compared == 0 {
            None
        } else {
            Some(Ratio { numerator: self.sign_matches, denominator: self.compared })
        }
    }
}

/// The size of a number.
pub open spec fn abs(x: int) -> int {
    if x < 0 {
        -x
    } else {
        x
    }
}

/// The positions of a validation run and the way it is done.
pub ghost struct Trial<L> {
    pub outputs: Seq<ModelOutput<L>>,
    pub scores: Seq<i16>,
    pub results: Seq<i8>,
    pub params: ValidationParams<L>,
}

impl<L> Trial<L> {
    /// Position `i` is left out because of its score.
    pub open spec fn dropped(self, i: int) -> bool {
        self.params.score_drop_abs matches Some(cap) && abs(self.scores[i] as int) >= cap
    }

    /// Position `i` takes part, and the network gave a finite number for it.
    pub open spec fn sampled(self, i: int) -> bool {
        !self.dropped(i) && self.outputs[i].class != OutputClass::NonFinite
    }

    /// Position `i` takes part, and the network gave no finite number for it.
    pub open spec fn broken(self, i: int) -> bool {
        !self.dropped(i) && self.outputs[i].class == OutputClass::NonFinite
    }

    /// Position `i` takes part and is of a drawn game.
    pub open spec fn drawn(self, i: int) -> bool {
        !self.dropped(i) && self.results[i] == 0
    }

    /// Position `i` takes part and is of a decisive game.
    pub open spec fn decisive(self, i: int) -> bool {
        !self.dropped(i) && self.results[i] != 0
    }

    /// Position `i` is of a decisive game whose winner the network's sign tells; zero tells a win.
    pub open spec fn matched(self, i: int) -> bool {
        self.decisive(i) && match self.outputs[i].class {
            OutputClass::NonFinite => false,
            OutputClass::NonNegative => self.results[i] > 0,
            OutputClass::Negative => self.results[i] < 0,
        }
    }

    /// The error of position `i`.
    pub open spec fn term(self, i: int) -> LossTerm<L> {
        LossTerm {
            blend: self.params.blend,
            result: if self.results[i] > 0 {
                GameResult::Win
            } else if self.results[i] < 0 {
                GameResult::Loss
            } else {
                GameResult::Draw
            },
            score: match self.params.wrm_target {
                Some(wrm) => ScoreFormula::WinRate {
                    score: self.scores[i],
                    scaling: wrm.scaling,
                    offset: wrm.offset,
                },
                None => ScoreFormula::Sigmoid {
                    score: self.scores[i],
                    eval_scale: self.params.eval_scale,
                },
            },
            prediction: match self.params.wrm_output {
                Some(wrm) => PredictionFormula::WinRate {
                    output: self.outputs[i].value,
                    out_scaling: wrm.out_scaling,
                    in_scaling: wrm.in_scaling,
                    offset: wrm.offset,
                },
                None => PredictionFormula::Sigmoid { output: self.outputs[i].value },
            },
        }
    }

    /// The errors of the sampled positions among the first `n`, in order.
    pub open spec fn terms(self, n: nat) -> Seq<LossTerm<L>>
        decreases n,
    {
        if n == 0 {
            Seq::empty()
        } else if self.sampled(n - 1) {
            self.terms((n - 1) as nat).push(self.term(n - 1))
        } else {
            self.terms((n - 1) as nat)
        }
    }

    /// The positions of this trial and then those of `other`, under the parameters of this one.
    pub open spec fn followed_by(self, other: Trial<L>) -> Trial<L> {
        Trial {
            outputs: self.outputs + other.outputs,
            scores: self.scores + other.scores,
            results: self.results + other.results,
            params: self.params,
        }
    }

    /// The positions, each with its output, score and result.
    pub open spec fn positions(self) -> Seq<(ModelOutput<L>, i16, i8)> {
        Seq::new(
            self.outputs.len(),
            |i: int| (self.outputs[i], self.scores[i], self.results[i]),
        )
    }

    /// There are `n` outputs, scores and results.
    pub open spec fn has_len(self, n: nat) -> bool {
        self.outputs.len() == n && self.scores.len() == n && self.results.len() == n
    }

    /// `report` is the report on the first `n` positions.
    pub open spec fn is_report(self, n: nat, report: AccuracyReport<L>) -> bool {
        &&& report.compared == crate::counting::count_upto(n, |i: int| self.decisive(i))
        &&& report.sign_matches == crate::counting::count_upto(n, |i: int| self.matched(i))
        &&& report.drawn_games == crate::counting::count_upto(n, |i: int| self.drawn(i))
        &&& report.filtered_by_score_cap == crate::counting::count_upto(
            n,
            |i: int| self.dropped(i),
        )
        &&& report.non_finite == crate::counting::count_upto(n, |i: int| self.broken(i))
        &&& report.loss_sampled == crate::counting::count_upto(n, |i: int| self.sampled(i))
        &&& match report.test_loss {
            Some(loss) => report.loss_sampled > 0 && loss.terms@ == self.terms(n),
            None => report.loss_sampled == 0,
        }
    }
}

/// Whether a score is at least as large as the cap, either way.
fn over_cap(score: i16, cap: Option<u16>) -> (b: bool)
    ensures
        b == (cap matches Some(c) && abs(score as int) >= c),
{
    match cap {
        Some(c) => {
            let size: i32 = if score < 0 {
                -(score as i32)
            } else {
                score as i32
            };
            size >= c as i32
        },
        None => false,
    }
}

/// The error of one position.
fn loss_term<L: Copy>(
    output: ModelOutput<L>,
    score: i16,
    result: i8,
    params: &ValidationParams<L>,
) -> (term: LossTerm<L>)
    ensures
        forall|t: Trial<L>, i: int|
            t.params == *params && t.outputs[i] == output && t.scores[i] == score && t.results[i]
                == result ==> #[trigger] t.term(i) == term,
{
    let game = if result > 0 {
        GameResult::Win
    } else if result < 0 {
        GameResult::Loss
    } else {
        GameResult::Draw
    };
    let score_formula = match params.wrm_target {
        Some(wrm) => ScoreFormula::WinRate { score, scaling: wrm.scaling, offset: wrm.offset },
        None => ScoreFormula::Sigmoid { score, eval_scale: params.eval_scale },
    };
    let prediction = match params.wrm_output {
        Some(wrm) => PredictionFormula::WinRate {
            output: output.value,
            out_scaling: wrm.out_scaling,
            in_scaling: wrm.in_scaling,
            offset: wrm.offset,
        },
        None => PredictionFormula::Sigmoid { output: output.value },
    };
    LossTerm { blend: params.blend, result: game, score: score_formula, prediction }
}

/// Works out how often the network's sign tells the winner of a decisive game, and what its loss
/// is averaged over.
///
/// Draws do not count towards the accuracy, but they do towards the loss. An output that is not
/// finite counts as a wrong one and is left out of the loss. Positions over the score cap count
/// towards neither.
pub fn compute_test_metrics<L: Copy>(
    model_outputs: &[ModelOutput<L>],
    teacher_scores: &[i16],
    teacher_results: &[i8],
    params: ValidationParams<L>,
) -> (report: AccuracyReport<L>)
    requires
        model_outputs@.len() == teacher_scores@.len(),
        model_outputs@.len() == teacher_results@.len(),
    ensures
        (Trial {
            outputs: model_outputs@,
            scores: teacher_scores@,
            results: teacher_results@,
            params,
        }).is_report(model_outputs@.len(), report),
{
    let ghost t = Trial {
        outputs: model_outputs@,
        scores: teacher_scores@,
        results: teacher_results@,
        params,
    };
    let mut compared: usize = 0;
    let mut sign_matches: usize = 0;
    let mut drawn_games: usize = 0;
    let mut filtered: usize = 0;
    let mut non_finite: usize = 0;
    let mut loss_sampled: usize = 0;
    let mut terms: Vec<LossTerm<L>> = Vec::new();
    let mut i: usize = 0;
    while i < model_outputs.len()
        invariant
            i <= model_outputs@.len(),
            model_outputs@.len() == teacher_scores@.len(),
            model_outputs@.len() == teacher_results@.len(),
            t.outputs == model_outputs@,
            t.scores == teacher_scores@,
            t.results == teacher_results@,
            t.params == params,
            compared <= i,
            sign_matches <= i,
            drawn_games <= i,
            filtered <= i,
            non_finite <= i,
            loss_sampled <= i,
            compared == crate::counting::count_upto(i as nat, |k: int| t.decisive(k)),
            sign_matches == crate::counting::count_upto(i as nat, |k: int| t.matched(k)),
            drawn_games == crate::counting::count_upto(i as nat, |k: int| t.drawn(k)),
            filtered == crate::counting::count_upto(i as nat, |k: int| t.dropped(k)),
            non_finite == crate::counting::count_upto(i as nat, |k: int| t.broken(k)),
            loss_sampled == crate::counting::count_upto(i as nat, |k: int| t.sampled(k)),
            terms@ == t.terms(i as nat),
        decreases model_outputs@.len() - i,
    {
        let output = model_outputs[i];
        let score: i16 = teacher_scores[i];
        let result: i8 = teacher_results[i];
        i += 1;
        if over_cap(score, params.score_drop_abs) {
            filtered += 1;
            continue;
        }
        let output_finite = output.class != OutputClass::NonFinite;
        if !output_finite {
            non_finite += 1;
        }
        if result == 0 {
            drawn_games += 1;
        } else {
            compared += 1;
            if output_finite && (output.class == OutputClass::NonNegative) == (result > 0) {
                sign_matches += 1;
            }
        }
        if !output_finite {
            continue;
        }
        terms.push(loss_term(output, score, result, &params));
        loss_sampled += 1;
    }
    let test_loss = if loss_sampled > 0 {
        Some(MeanLoss { terms })
    } else {
        None
    };
    AccuracyReport {
        compared,
        sign_matches,
        drawn_games,
        filtered_by_score_cap: filtered,
        non_finite,
        loss_sampled,
        test_loss,
    }
}

proof fn lemma_terms_len<L>(t: Trial<L>, n: nat)
    ensures
        t.terms(n).len() == crate::counting::count_upto(n, |i: int| t.sampled(i)),
    decreases n,
{
    if n > 0 {
        lemma_terms_len(t, (n - 1) as nat);
    }
}

/// A report accounts for every position: each one is left out by its score, of a drawn game or
/// compared; and each one is left out, broken or sampled. The loss has one term for each sampled
/// position, and there are no more matches than comparisons.
pub proof fn law_report_accounts_for_every_position<L>(
    t: Trial<L>,
    n: nat,
    report: AccuracyReport<L>,
)
    requires
        t.is_report(n, report),
    ensures
        report.filtered_by_score_cap + report.drawn_games + report.compared == n,
        report.filtered_by_score_cap + report.non_finite + report.loss_sampled == n,
        report.sign_matches <= report.compared,
        report.test_loss matches Some(loss) ==> loss.terms@.len() == report.loss_sampled,
{
    let kept = |i: int| !t.dropped(i);
    let all = |i: int| true;
    crate::counting::lemma_count_of_all(n, all);
    crate::counting::lemma_count_splits(n, all, |i: int| t.dropped(i), kept);
    crate::counting::lemma_count_splits(n, kept, |i: int| t.drawn(i), |i: int| t.decisive(i));
    crate::counting::lemma_count_splits(n, kept, |i: int| t.broken(i), |i: int| t.sampled(i));
    crate::counting::lemma_count_is_monotone(n, |i: int| t.matched(i), |i: int| t.decisive(i));
    lemma_terms_len(t, n);
}

/// An output that is not finite never counts as a match: matches and broken outputs of decisive
/// games together are no more than the comparisons.
pub proof fn law_broken_outputs_never_match<L>(t: Trial<L>, n: nat, report: AccuracyReport<L>)
    requires
        t.is_report(n, report),
    ensures
        report.sign_matches + crate::counting::count_upto(
            n,
            |i: int| t.broken(i) && t.decisive(i),
        ) <= report.compared,
{
    let either = |i: int| t.matched(i) || (t.broken(i) && t.decisive(i));
    crate::counting::lemma_count_splits(
        n,
        either,
        |i: int| t.matched(i),
        |i: int| t.broken(i) && t.decisive(i),
    );
    crate::counting::lemma_count_is_monotone(n, either, |i: int| t.decisive(i));
}

/// The score cap takes positions out of every count alike: with a trial in which each position is
/// over the cap, nothing is compared, drawn, broken or sampled.
pub proof fn law_score_cap_excludes_from_both_metrics<L>(
    t: Trial<L>,
    n: nat,
    report: AccuracyReport<L>,
)
    requires
        t.is_report(n, report),
        forall|i: int| 0 <= i < n ==> #[trigger] t.dropped(i),
    ensures
        report.filtered_by_score_cap == n,
        report.compared == 0,
        report.drawn_games == 0,
        report.non_finite == 0,
        report.loss_sampled == 0,
        report.test_loss is None,
{
    crate::counting::lemma_count_of_all(n, |i: int| t.dropped(i));
    law_report_accounts_for_every_position(t, n, report);
}

proof fn lemma_terms_append<L>(a: Trial<L>, m: nat, b: Trial<L>, n: nat, k: nat)
    requires
        a.has_len(m),
        b.has_len(n),
        a.params == b.params,
        k <= m + n,
    ensures
        k <= m ==> a.followed_by(b).terms(k) == a.terms(k),
        k > m ==> a.followed_by(b).terms(k) == a.terms(m) + b.terms((k - m) as nat),
    decreases k,
{
    let t = a.followed_by(b);
    if k > 0 {
        lemma_terms_append(a, m, b, n, (k - 1) as nat);
        if k <= m {
            assert(t.sampled(k - 1) == a.sampled(k - 1) && t.term(k - 1) == a.term(k - 1));
        } else {
            let i = k - 1 - m;
            assert(t.sampled(k - 1) == b.sampled(i) && t.term(k - 1) == b.term(i));
            assert(t.terms((k - 1) as nat) =~= a.terms(m) + b.terms(i as nat)) by {
                assert(b.terms(0) =~= Seq::empty());
            }
            assert(t.terms(k) =~= a.terms(m) + b.terms((k - m) as nat));
        }
    }
}

/// The six counts of a report, said of the positions themselves. A position takes part unless there
/// is a cap and its score reaches it in either direction. Those that take part are drawn or
/// decisive by their result, and broken or sampled by their output; and a decisive one is matched
/// where a finite output has the sign of the result, with zero as the sign of a win. Each count is
/// the size of the set of those positions.
pub proof fn law_report_counts_positions<L>(
    t: Trial<L>,
    n: nat,
    report: AccuracyReport<L>,
    kept: Set<int>,
    drawn: Set<int>,
    matched: Set<int>,
    broken: Set<int>,
)
    requires
        t.is_report(n, report),
        forall|i: int|
            #![trigger kept.contains(i)]
            kept.contains(i) <==> 0 <= i < n && match t.params.score_drop_abs {
                Some(cap) => t.scores[i] < cap && -(t.scores[i] as int) < cap,
                None => true,
            },
        forall|i: int|
            #![trigger drawn.contains(i)]
            drawn.contains(i) <==> kept.contains(i) && t.results[i] == 0,
        forall|i: int|
            #![trigger matched.contains(i)]
            matched.contains(i) <==> kept.contains(i) && (t.outputs[i].class is NonNegative
                && t.results[i] > 0 || t.outputs[i].class is Negative && t.results[i] < 0),
        forall|i: int|
            #![trigger broken.contains(i)]
            broken.contains(i) <==> kept.contains(i) && t.outputs[i].class is NonFinite,
    ensures
        report.filtered_by_score_cap + kept.len() == n,
        report.drawn_games == drawn.len(),
        report.compared + drawn.len() == kept.len(),
        report.sign_matches == matched.len(),
        report.non_finite == broken.len(),
        report.loss_sampled + broken.len() == kept.len(),
        report.test_loss is Some <==> report.loss_sampled > 0,
{
    let stays = |i: int| !t.dropped(i);
    lemma_count_is_set(n, stays, kept);
    lemma_count_is_set(n, |i: int| t.drawn(i), drawn);
    lemma_count_is_set(n, |i: int| t.matched(i), matched);
    lemma_count_is_set(n, |i: int| t.broken(i), broken);
    let all = |i: int| true;
    crate::counting::lemma_count_of_all(n, all);
    crate::counting::lemma_count_splits(n, all, |i: int| t.dropped(i), stays);
    crate::counting::lemma_count_splits(n, stays, |i: int| t.drawn(i), |i: int| t.decisive(i));
    crate::counting::lemma_count_splits(n, stays, |i: int| t.broken(i), |i: int| t.sampled(i));
}

proof fn lemma_count_is_set(n: nat, p: spec_fn(int) -> bool, counted: Set<int>)
    requires
        forall|i: int|
            #![trigger counted.contains(i)]
            #![trigger p(i)]
            counted.contains(i) <==> 0 <= i < n && p(i),
    ensures
        crate::counting::count_upto(n, p) == counted.len(),
{
    crate::counting::law_count_is_the_size_of_the_set(n, p);
    assert(counted =~= Set::new(|i: int| 0 <= i < n && p(i)));
}

proof fn lemma_term_place<L>(t: Trial<L>, n: nat, i: int)
    requires
        0 <= i < n,
        t.sampled(i),
    ensures
        crate::counting::count_upto(i as nat, |k: int| t.sampled(k)) < t.terms(n).len(),
        t.terms(n)[crate::counting::count_upto(i as nat, |k: int| t.sampled(k)) as int] == t.term(i),
    decreases n,
{
    lemma_terms_len(t, (n - 1) as nat);
    if i < n - 1 {
        lemma_term_place(t, (n - 1) as nat, i);
    }
}

/// The loss of a report has a term for each position that takes part with a finite output, in the
/// order of the positions: the term of position `i` stands behind those of the positions before it.
/// Whatever the models are, it is of a win exactly where the result is positive, of a loss where it
/// is negative and of a draw where it is zero. It takes the score and the output as they are, each
/// by its win-rate model where there is one, and blend and scales from the parameters.
pub proof fn law_report_has_a_term_for_each_position<L>(
    t: Trial<L>,
    n: nat,
    report: AccuracyReport<L>,
    i: int,
    before: Set<int>,
)
    requires
        t.is_report(n, report),
        0 <= i < n,
        t.params.score_drop_abs matches Some(cap) ==> t.scores[i] < cap && -(t.scores[i] as int)
            < cap,
        !(t.outputs[i].class is NonFinite),
        forall|k: int|
            #![trigger before.contains(k)]
            before.contains(k) <==> 0 <= k < i && !(t.outputs[k].class is NonFinite) && match
                t.params.score_drop_abs {
                Some(cap) => t.scores[k] < cap && -(t.scores[k] as int) < cap,
                None => true,
            },
    ensures
        report.test_loss is Some,
        report.test_loss matches Some(loss) ==> {
            let term = loss.terms@[before.len() as int];
            &&& before.len() < loss.terms@.len()
            &&& loss.terms@.len() == report.loss_sampled
            &&& term.blend == t.params.blend
            &&& term.result is Win <==> t.results[i] > 0
            &&& term.result is Loss <==> t.results[i] < 0
            &&& term.result is Draw <==> t.results[i] == 0
            &&& match t.params.wrm_target {
                Some(wrm) => {
                    &&& term.score matches ScoreFormula::WinRate { score, scaling, offset }
                    &&& score == t.scores[i]
                    &&& scaling == wrm.scaling
                    &&& offset == wrm.offset
                },
                None => {
                    &&& term.score matches ScoreFormula::Sigmoid { score, eval_scale }
                    &&& score == t.scores[i]
                    &&& eval_scale == t.params.eval_scale
                },
            }
            &&& match t.params.wrm_output {
                Some(wrm) => {
                    &&& term.prediction matches PredictionFormula::WinRate {
                        output,
                        out_scaling,
                        in_scaling,
                        offset,
                    }
                    &&& output == t.outputs[i].value
                    &&& out_scaling == wrm.out_scaling
                    &&& in_scaling == wrm.in_scaling
                    &&& offset == wrm.offset
                },
                None => {
                    &&& term.prediction matches PredictionFormula::Sigmoid { output }
                    &&& output == t.outputs[i].value
                },
            }
        },
{
    assert(t.sampled(i));
    lemma_term_place(t, n, i);
    lemma_terms_len(t, n);
    lemma_count_is_set(i as nat, |k: int| t.sampled(k), before);
}

/// With a blend of one, the exact target of a position's term is 1, 0 or one half by the sign of its
/// result, with a win-rate model or without.
pub proof fn law_full_blend_targets_the_result(
    sigmoid: spec_fn(real) -> real,
    t: Trial<real>,
    i: int,
)
    requires
        t.params.blend == 1 as real,
    ensures
        t.results[i] > 0 ==> exact_target(sigmoid, t.term(i)) == 1 as real,
        t.results[i] < 0 ==> exact_target(sigmoid, t.term(i)) == 0 as real,
        t.results[i] == 0 ==> exact_target(sigmoid, t.term(i)) == (1 as real) / (2 as real),
{
    law_blend_weighs_the_result(sigmoid, t.term(i));
}

/// Reports add up: each count of a report on two sets of positions, one after the other, is the sum
/// of the counts of their own reports, and its loss is averaged over the terms of the first and
/// then those of the second.
pub proof fn law_reports_add_up<L>(
    a: Trial<L>,
    m: nat,
    of_a: AccuracyReport<L>,
    b: Trial<L>,
    n: nat,
    of_b: AccuracyReport<L>,
    both: AccuracyReport<L>,
)
    requires
        a.has_len(m),
        b.has_len(n),
        a.params == b.params,
        a.is_report(m, of_a),
        b.is_report(n, of_b),
        a.followed_by(b).is_report(m + n, both),
    ensures
        both.compared == of_a.compared + of_b.compared,
        both.sign_matches == of_a.sign_matches + of_b.sign_matches,
        both.drawn_games == of_a.drawn_games + of_b.drawn_games,
        both.filtered_by_score_cap == of_a.filtered_by_score_cap + of_b.filtered_by_score_cap,
        both.non_finite == of_a.non_finite + of_b.non_finite,
        both.loss_sampled == of_a.loss_sampled + of_b.loss_sampled,
        both.test_loss is Some <==> of_a.test_loss is Some || of_b.test_loss is Some,
        both.test_loss matches Some(loss) ==> loss.terms@ == (match of_a.test_loss {
            Some(first) => first.terms@,
            None => Seq::empty(),
        }) + (match of_b.test_loss {
            Some(second) => second.terms@,
            None => Seq::empty(),
        }),
{
    let t = a.followed_by(b);
    crate::counting::lemma_count_appends(
        m,
        n,
        |i: int| t.decisive(i),
        |i: int| a.decisive(i),
        |i: int| b.decisive(i),
    );
    crate::counting::lemma_count_appends(
        m,
        n,
        |i: int| t.matched(i),
        |i: int| a.matched(i),
        |i: int| b.matched(i),
    );
    crate::counting::lemma_count_appends(
        m,
        n,
        |i: int| t.drawn(i),
        |i: int| a.drawn(i),
        |i: int| b.drawn(i),
    );
    crate::counting::lemma_count_appends(
        m,
        n,
        |i: int| t.dropped(i),
        |i: int| a.dropped(i),
        |i: int| b.dropped(i),
    );
    crate::counting::lemma_count_appends(
        m,
        n,
        |i: int| t.broken(i),
        |i: int| a.broken(i),
        |i: int| b.broken(i),
    );
    crate::counting::lemma_count_appends(
        m,
        n,
        |i: int| t.sampled(i),
        |i: int| a.sampled(i),
        |i: int| b.sampled(i),
    );
    lemma_terms_append(a, m, b, n, m + n);
    lemma_terms_len(a, m);
    lemma_terms_len(b, n);
    assert(a.terms(m) + b.terms(0) =~= a.terms(m));
    assert(of_a.test_loss is None ==> a.terms(m) =~= Seq::empty());
    assert(of_b.test_loss is None ==> b.terms(n) =~= Seq::empty());
}

proof fn lemma_reordering_keeps_report<L>(
    a: Trial<L>,
    b: Trial<L>,
    n: nat,
    of_position: spec_fn((ModelOutput<L>, i16, i8)) -> bool,
    of_a: spec_fn(int) -> bool,
    of_b: spec_fn(int) -> bool,
)
    requires
        a.has_len(n),
        b.has_len(n),
        a.positions().to_multiset() == b.positions().to_multiset(),
        forall|i: int| 0 <= i < n ==> #[trigger] of_a(i) == of_position(a.positions()[i]),
        forall|i: int| 0 <= i < n ==> #[trigger] of_b(i) == of_position(b.positions()[i]),
    ensures
        crate::counting::count_upto(n, of_a) == crate::counting::count_upto(n, of_b),
{
    crate::counting::lemma_count_in_seq(a.positions(), of_position);
    crate::counting::lemma_count_in_seq(b.positions(), of_position);
    crate::counting::lemma_count_congruence(n, of_a, |i: int| of_position(a.positions()[i]));
    crate::counting::lemma_count_congruence(n, of_b, |i: int| of_position(b.positions()[i]));
}

/// The order of the positions plays no part in the counts: two trials with the same positions, each
/// as often, have reports with the same six counts.
pub proof fn law_reordering_keeps_the_counts<L>(
    a: Trial<L>,
    of_a: AccuracyReport<L>,
    b: Trial<L>,
    of_b: AccuracyReport<L>,
    n: nat,
)
    requires
        a.has_len(n),
        b.has_len(n),
        a.params == b.params,
        a.positions().to_multiset() == b.positions().to_multiset(),
        a.is_report(n, of_a),
        b.is_report(n, of_b),
    ensures
        of_a.compared == of_b.compared,
        of_a.sign_matches == of_b.sign_matches,
        of_a.drawn_games == of_b.drawn_games,
        of_a.filtered_by_score_cap == of_b.filtered_by_score_cap,
        of_a.non_finite == of_b.non_finite,
        of_a.loss_sampled == of_b.loss_sampled,
        of_a.test_loss is Some <==> of_b.test_loss is Some,
{
    let alone = |x: (ModelOutput<L>, i16, i8)|
        Trial { outputs: seq![x.0], scores: seq![x.1], results: seq![x.2], params: a.params };
    lemma_reordering_keeps_report(
        a,
        b,
        n,
        |x: (ModelOutput<L>, i16, i8)| alone(x).decisive(0),
        |i: int| a.decisive(i),
        |i: int| b.decisive(i),
    );
    lemma_reordering_keeps_report(
        a,
        b,
        n,
        |x: (ModelOutput<L>, i16, i8)| alone(x).matched(0),
        |i: int| a.matched(i),
        |i: int| b.matched(i),
    );
    lemma_reordering_keeps_report(
        a,
        b,
        n,
        |x: (ModelOutput<L>, i16, i8)| alone(x).drawn(0),
        |i: int| a.drawn(i),
        |i: int| b.drawn(i),
    );
    lemma_reordering_keeps_report(
        a,
        b,
        n,
        |x: (ModelOutput<L>, i16, i8)| alone(x).dropped(0),
        |i: int| a.dropped(i),
        |i: int| b.dropped(i),
    );
    lemma_reordering_keeps_report(
        a,
        b,
        n,
        |x: (ModelOutput<L>, i16, i8)| alone(x).broken(0),
        |i: int| a.broken(i),
        |i: int| b.broken(i),
    );
    lemma_reordering_keeps_report(
        a,
        b,
        n,
        |x: (ModelOutput<L>, i16, i8)| alone(x).sampled(0),
        |i: int| a.sampled(i),
        |i: int| b.sampled(i),
    );
}

// ---------------------------------------------------------------------------------------------
// Reading positions
// ---------------------------------------------------------------------------------------------

/// Why a file cannot be read as packed positions.
#[derive(Clone, Copy, Debug, PartialEq, Eq, Structural)]
pub enum PsvError {
    /// The file does not consist of whole records.
    PartialRecord { file_size: usize },
}

impl PsvError {
    /// The text shown for a file at `path`.
    pub open spec fn message_spec(self, path: Seq<char>) -> Seq<char> {
        match self {
            PsvError::PartialRecord { file_size } => path + ": size "@
                + crate::text::decimal_digits(file_size as nat) + " is not a multiple of "@
                + crate::text::decimal_digits(PSV_RECORD_SIZE as nat),
        }
    }

    pub fn message(&self, path: &str) -> (text: String)
        ensures
            text@ == self.message_spec(path@),
    {
        match self {
            PsvError::PartialRecord { file_size } => {
                let mut text = path.to_owned();
                text.append(": size ");
                text.append(decimal(*file_size).as_str());
                text.append(" is not a multiple of ");
                text.append(decimal(PSV_RECORD_SIZE).as_str());
                text
            },
        }
    }
}

/// How many records to read of a file that holds `available`: at most `limit`, where a limit of
/// zero means no limit.
pub open spec fn records_to_read(available: int, limit: int) -> int {
    if limit == 0 || available < limit {
        available
    } else {
        limit
    }
}

/// All records are read where there is no limit, and otherwise as many as there are and the limit
/// allows.
pub proof fn law_limit_is_kept(available: int, limit: int)
    requires
        available >= 0,
        limit >= 0,
    ensures
        limit == 0 ==> records_to_read(available, limit) == available,
        limit > 0 ==> {
            let n = records_to_read(available, limit);
            n <= available && n <= limit && (n == available || n == limit)
        },
{
}

/// The message names the file, its size in bytes and the size of a record.
pub proof fn law_message_names_file_and_sizes(e: PsvError, path: Seq<char>)
    ensures
        PSV_RECORD_SIZE == 40,
        e matches PsvError::PartialRecord { file_size } ==> e.message_spec(path) == path
            + ": size "@ + crate::text::decimal_digits(file_size as nat)
            + " is not a multiple of "@ + crate::text::decimal_digits(40),
{
}

/// Decides how many records to read of a file of `file_size` bytes.
pub fn plan_psv_read(file_size: usize, limit: usize) -> (count: Result<usize, PsvError>)
    ensures
        match count {
            Err(e) => file_size % PSV_RECORD_SIZE != 0 && e == (PsvError::PartialRecord {
                file_size,
            }),
            Ok(n) => {
                &&& file_size % PSV_RECORD_SIZE == 0
                &&& n == records_to_read(file_size as int / PSV_RECORD_SIZE as int, limit as int)
                &&& n * PSV_RECORD_SIZE <= file_size
            },
        },
{
    if file_size % PSV_RECORD_SIZE != 0 {
        return Err(PsvError::PartialRecord { file_size });
    }
    let available: usize = file_size / PSV_RECORD_SIZE;
    if limit == 0 || available < limit {
        Ok(available)
    } else {
        Ok(limit)
    }
}

/// Record `index` of `data`.
fn psv_at(data: &[u8], index: usize) -> (psv: PackedSfenValue)
    requires
        PSV_RECORD_SIZE * (index + 1) <= data@.len(),
    ensures
        psv.bytes@ == data@.subrange(
            PSV_RECORD_SIZE * index,
            PSV_RECORD_SIZE * index + PSV_RECORD_SIZE,
        ),
{
    let mut bytes: [u8; 40] = [0u8; 40];
    let total: usize = data.len();
    let base: usize = PSV_RECORD_SIZE * index;
    let mut k: usize = 0;
    while k < PSV_RECORD_SIZE
        invariant
            k <= PSV_RECORD_SIZE,
            base == PSV_RECORD_SIZE * index,
            base + PSV_RECORD_SIZE <= total,
            total == data@.len(),
            forall|j: int| 0 <= j < k ==> #[trigger] bytes@[j] == data@[base + j],
        decreases PSV_RECORD_SIZE - k,
    {
        bytes[k] = data[base + k];
        k += 1;
    }
    assert(bytes@ =~= data@.subrange(base as int, base + PSV_RECORD_SIZE));
    PackedSfenValue { bytes }
}

/// Reads at most `limit` records of a file with the contents `data`, in file order. A limit of
/// zero reads them all.
pub fn read_psv_positions(data: &[u8], limit: usize) -> (positions: Result<
    Vec<PackedSfenValue>,
    PsvError,
>)
    ensures
        match positions {
            Err(e) => data@.len() % PSV_RECORD_SIZE as nat != 0 && e == (PsvError::PartialRecord {
                file_size: data@.len() as usize,
            }),
            Ok(v) => {
                &&& data@.len() % PSV_RECORD_SIZE as nat == 0
                &&& v@.len() == records_to_read(
                    data@.len() as int / PSV_RECORD_SIZE as int,
                    limit as int,
                )
                &&& forall|i: int|
                    #![trigger v@[i]]
                    0 <= i < v@.len() ==> v@[i].bytes@ == data@.subrange(
                        PSV_RECORD_SIZE * i,
                        PSV_RECORD_SIZE * i + PSV_RECORD_SIZE,
                    )
            },
        },
{
    let count: usize = match plan_psv_read(data.len(), limit) {
        Ok(n) => n,
        Err(e) => {
            return Err(e);
        },
    };
    let mut positions: Vec<PackedSfenValue> = Vec::new();
    let mut i: usize = 0;
    while i < count
        invariant
            i <= count,
            count * PSV_RECORD_SIZE <= data@.len(),
            positions@.len() == i,
            forall|j: int|
                #![trigger positions@[j]]
                0 <= j < i ==> positions@[j].bytes@ == data@.subrange(
                    PSV_RECORD_SIZE * j,
                    PSV_RECORD_SIZE * j + PSV_RECORD_SIZE,
                ),
        decreases count - i,
    {
        positions.push(psv_at(data, i));
        i += 1;
    }
    Ok(positions)
}

/// Reading the first `n` bytes of a file, where `n` is what the plan asks for, gives the same
/// positions as reading it whole.
pub proof fn law_limited_read_needs_no_more(data: Seq<u8>, limit: int, i: int)
    requires
        limit >= 0,
        data.len() % PSV_RECORD_SIZE as nat == 0,
        0 <= i < records_to_read(data.len() as int / PSV_RECORD_SIZE as int, limit),
    ensures
        ({
            let count = records_to_read(data.len() as int / PSV_RECORD_SIZE as int, limit);
            let head = data.take(PSV_RECORD_SIZE * count);
            &&& PSV_RECORD_SIZE * count <= data.len()
            &&& records_to_read(head.len() as int / PSV_RECORD_SIZE as int, 0) == count
            &&& head.subrange(PSV_RECORD_SIZE * i, PSV_RECORD_SIZE * i + PSV_RECORD_SIZE)
                == data.subrange(PSV_RECORD_SIZE * i, PSV_RECORD_SIZE * i + PSV_RECORD_SIZE)
        }),
{
    let count = records_to_read(data.len() as int / PSV_RECORD_SIZE as int, limit);
    let head = data.take(PSV_RECORD_SIZE * count);
    assert(head.subrange(PSV_RECORD_SIZE * i, PSV_RECORD_SIZE * i + PSV_RECORD_SIZE)
        =~= data.subrange(PSV_RECORD_SIZE * i, PSV_RECORD_SIZE * i + PSV_RECORD_SIZE));
}

} // verus!
