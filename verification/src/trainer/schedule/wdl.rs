//! Schedules of the WDL lambda, the weight that a game's result has against its evaluation.
//!
//! A lambda is of a number type `L` that the schedules carry but never compute with: what a
//! schedule gives for a batch is a [`Blend`], the formula that the number is worked out by.
use vstd::prelude::*;

use crate::exact::in_unit_interval;

verus! {

// ---------------------------------------------------------------------------------------------
// Blends
// ---------------------------------------------------------------------------------------------

/// The formula of a lambda.
#[derive(Debug)]
pub enum Blend<L> {
    /// This number.
    Value(L),
    /// `start + ((end - start) / span) * step`.
    Lerp { start: L, end: L, step: usize, span: usize },
    /// The inner lambda, divided by `divisor`.
    Divided { base: Box<Blend<L>>, divisor: usize },
}

impl<L> Blend<L> {
    /// No division by zero, and an interpolation stays between its ends.
    pub open spec fn wf(self) -> bool
        decreases self,
    {
        match self {
            Blend::Value(_) => true,
            Blend::Lerp { start, end, step, span } => 0 < span && step <= span,
            Blend::Divided { base, divisor } => divisor > 0 && base.wf(),
        }
    }

    /// Every number in the formula satisfies `p`.
    pub open spec fn all(self, p: spec_fn(L) -> bool) -> bool
        decreases self,
    {
        match self {
            Blend::Value(v) => p(v),
            Blend::Lerp { start, end, step, span } => p(start) && p(end),
            Blend::Divided { base, divisor } => base.all(p),
        }
    }
}

/// What the formula comes to in exact arithmetic.
pub open spec fn exact_value(b: Blend<real>) -> real
    decreases b,
{
    match b {
        Blend::Value(v) => v,
        Blend::Lerp { start, end, step, span } => start + ((end - start) / (span as real)) * (
        step as real),
        Blend::Divided { base, divisor } => exact_value(*base) / (divisor as real),
    }
}

proof fn lemma_lerp_between(start: real, end: real, step: real, span: real)
    requires
        in_unit_interval(start),
        in_unit_interval(end),
        0 as real <= step,
        step <= span,
        (0 as real) < span,
    ensures
        in_unit_interval(start + ((end - start) / span) * step),
{
    let t = step / span;
    assert(0 as real <= t && t <= 1 as real) by (nonlinear_arith)
        requires
            t == step / span,
            0 as real <= step,
            step <= span,
            (0 as real) < span,
    ;
    assert(((end - start) / span) * step == (end - start) * t) by (nonlinear_arith)
        requires
            t == step / span,
            (0 as real) < span,
    ;
    let one = 1 as real;
    let zero = 0 as real;
    assert(start + (end - start) * t == start * (one - t) + end * t) by (nonlinear_arith)
        requires
            one == 1 as real,
    ;
    assert(zero <= start * (one - t) + end * t && start * (one - t) + end * t <= one)
        by (nonlinear_arith)
        requires
            zero <= start,
            start <= one,
            zero <= end,
            end <= one,
            zero <= t,
            t <= one,
            zero == 0 as real,
            one == 1 as real,
    ;
}

/// A formula whose numbers all lie in the unit interval comes to a number in the unit interval.
pub proof fn law_blend_stays_in_unit_interval(b: Blend<real>)
    requires
        b.wf(),
        b.all(|v: real| in_unit_interval(v)),
    ensures
        in_unit_interval(exact_value(b)),
    decreases b,
{
    match b {
        Blend::Value(v) => {},
        Blend::Lerp { start, end, step, span } => {
            lemma_lerp_between(start, end, step as real, span as real);
        },
        Blend::Divided { base, divisor } => {
            law_blend_stays_in_unit_interval(*base);
            let v = exact_value(*base);
            let d = divisor as real;
            assert(in_unit_interval(v / d)) by (nonlinear_arith)
                requires
                    0 as real <= v,
                    v <= 1 as real,
                    d >= 1 as real,
            ;
        },
    }
}

// ---------------------------------------------------------------------------------------------
// Descriptions
// ---------------------------------------------------------------------------------------------

/// A piece of a schedule's description.
#[derive(Debug)]
pub enum Span<L> {
    /// Plain text.
    Text(&'static str),
    /// A number of the schedule, in the terminal colour `colour`.
    Lambda { lambda: L, colour: u8 },
    /// A count, in the terminal colour `colour`.
    Count { count: usize, colour: u8 },
}

/// What a [`Span`] shows.
pub ghost enum SpanView<L> {
    Text(Seq<char>),
    Lambda { lambda: L, colour: u8 },
    Count { count: usize, colour: u8 },
}

impl<L> View for Span<L> {
    type V = SpanView<L>;

    open spec fn view(&self) -> SpanView<L> {
        match *self {
            Span::Text(text) => SpanView::Text(text@),
            Span::Lambda { lambda, colour } => SpanView::Lambda { lambda, colour },
            Span::Count { count, colour } => SpanView::Count { count, colour },
        }
    }
}

/// What a list of spans shows.
pub open spec fn shown<L>(spans: Seq<Span<L>>) -> Seq<SpanView<L>> {
    Seq::new(spans.len(), |i: int| spans[i]@)
}

// ---------------------------------------------------------------------------------------------
// Schedules
// ---------------------------------------------------------------------------------------------

/// A schedule: it gives a lambda for each point of training, by batch and superbatch.
///
/// Batches are fetched ahead, so `blend` may be asked for a superbatch after `max`, the last one
/// of the run. A schedule then stays at its last value.
pub trait WdlScheduler<L>: Clone + Send + Sync + 'static {
    /// The lambda at a point of training.
    spec fn blend_spec(&self, batch: usize, superbatch: usize, max: usize) -> Blend<L>;

    /// The schedule's description.
    spec fn colourful_spec(&self) -> Seq<SpanView<L>>;

    fn blend(&self, batch: usize, superbatch: usize, max: usize) -> (b: Blend<L>)
        ensures
            b == self.blend_spec(batch, superbatch, max),
    ;

    fn colourful(&self) -> (spans: Vec<Span<L>>)
        ensures
            shown(spans@) == self.colourful_spec(),
    ;
}

/// Past the end of a run of at least one superbatch the schedule no longer changes.
pub open spec fn saturates<L, S: WdlScheduler<L>>(s: S) -> bool {
    forall|batch: usize, a: usize, b: usize, max: usize|
        1 <= max < a && max < b ==> #[trigger] s.blend_spec(batch, a, max)
            == #[trigger] s.blend_spec(batch, b, max)
}

/// Every lambda that the schedule gives is well formed, and built from numbers that satisfy `p`.
pub open spec fn draws_from<L, S: WdlScheduler<L>>(s: S, p: spec_fn(L) -> bool) -> bool {
    forall|batch: usize, superbatch: usize, max: usize|
        (#[trigger] s.blend_spec(batch, superbatch, max)).wf() && s.blend_spec(
            batch,
            superbatch,
            max,
        ).all(p)
}

/// A lambda that stays the same throughout training.
#[derive(Clone, Debug)]
pub struct ConstantWDL<L> {
    pub value: L,
}

impl<L: Copy + Send + Sync + 'static> WdlScheduler<L> for ConstantWDL<L> {
    open spec fn blend_spec(&self, batch: usize, superbatch: usize, max: usize) -> Blend<L> {
        Blend::Value(self.value)
    }

    open spec fn colourful_spec(&self) -> Seq<SpanView<L>> {
        seq![
            SpanView::Text("constant "@),
            SpanView::Lambda { lambda: self.value, colour: 31 },
        ]
    }

    fn blend(&self, _batch: usize, _superbatch: usize, _max: usize) -> (b: Blend<L>) {
        Blend::Value(self.value)
    }

    fn colourful(&self) -> (spans: Vec<Span<L>>) {
        let spans = vec![Span::Text("constant "), Span::Lambda { lambda: self.value, colour: 31 }];
        assert(shown(spans@) =~= self.colourful_spec());
        spans
    }
}

/// A lambda that goes from `start` to `end` over training.
#[derive(Clone, Debug)]
pub struct LinearWDL<L> {
    pub start: L,
    pub end: L,
}

impl<L: Copy + Send + Sync + 'static> WdlScheduler<L> for LinearWDL<L> {
    /// Superbatch 1 has `start` and superbatch `max` has `end`, with equal steps between. Before
    /// and after them the schedule stays where it is. A run of a single superbatch has `start` in
    /// it and `end` after it.
    open spec fn blend_spec(&self, batch: usize, superbatch: usize, max: usize) -> Blend<L> {
        if superbatch >= max && superbatch >= 2 {
            Blend::Value(self.end)
        } else if superbatch <= 1 {
            Blend::Value(self.start)
        } else {
            Blend::Lerp {
                start: self.start,
                end: self.end,
                step: (superbatch - 1) as usize,
                span: (max - 1) as usize,
            }
        }
    }

    open spec fn colourful_spec(&self) -> Seq<SpanView<L>> {
        seq![
            SpanView::Text("linear taper start "@),
            SpanView::Lambda { lambda: self.start, colour: 31 },
            SpanView::Text(" end "@),
            SpanView::Lambda { lambda: self.end, colour: 31 },
        ]
    }

    fn blend(&self, _batch: usize, superbatch: usize, max: usize) -> (b: Blend<L>) {
        let last: usize = if max < 2 {
            2
        } else {
            max
        };
        // Overshoot comes first, so that a run of one superbatch still ends at `end`.
        if superbatch >= last {
            return Blend::Value(self.end);
        }
        if superbatch <= 1 {
            return Blend::Value(self.start);
        }
        Blend::Lerp { start: self.start, end: self.end, step: superbatch - 1, span: max - 1 }
    }

    fn colourful(&self) -> (spans: Vec<Span<L>>) {
        let spans = vec![
            Span::Text("linear taper start "),
            Span::Lambda { lambda: self.start, colour: 31 },
            Span::Text(" end "),
            Span::Lambda { lambda: self.end, colour: 31 },
        ];
        assert(shown(spans@) =~= self.colourful_spec());
        spans
    }
}

/// Warms up to a schedule over the first `warmup_batches` batches.
#[derive(Clone, Debug)]
pub struct Warmup<WDL> {
    pub inner: WDL,
    pub warmup_batches: usize,
}

impl<L, WDL: WdlScheduler<L>> WdlScheduler<L> for Warmup<WDL> {
    /// In superbatch 1 the lambda is divided by the number of warmup batches that are left. Batches
    /// are counted afresh in each superbatch, so the others are not warmed up.
    open spec fn blend_spec(&self, batch: usize, superbatch: usize, max: usize) -> Blend<L> {
        let base = self.inner.blend_spec(batch, superbatch, max);
        if superbatch == 1 && batch < self.warmup_batches {
            Blend::Divided { base: Box::new(base), divisor: (self.warmup_batches - batch) as usize }
        } else {
            base
        }
    }

    open spec fn colourful_spec(&self) -> Seq<SpanView<L>> {
        self.inner.colourful_spec() + seq![
            SpanView::Text(", warmup over "@),
            SpanView::Count { count: self.warmup_batches, colour: 31 },
            SpanView::Text(" batches"@),
        ]
    }

    fn blend(&self, batch: usize, superbatch: usize, max: usize) -> (b: Blend<L>) {
        let base = self.inner.blend(batch, superbatch, max);
        if superbatch == 1 && batch < self.warmup_batches {
            Blend::Divided { base: Box::new(base), divisor: self.warmup_batches - batch }
        } else {
            base
        }
    }

    fn colourful(&self) -> (spans: Vec<Span<L>>) {
        let mut spans = self.inner.colourful();
        spans.push(Span::Text(", warmup over "));
        spans.push(Span::Count { count: self.warmup_batches, colour: 31 });
        spans.push(Span::Text(" batches"));
        assert(shown(spans@) =~= self.colourful_spec());
        spans
    }
}

/// Runs one schedule up to superbatch `first_scheduler_final_superbatch`, and another from there.
#[derive(Clone, Debug)]
pub struct Sequence<First, Second> {
    pub first: First,
    pub second: Second,
    pub first_scheduler_final_superbatch: usize,
}

/// The smaller of two numbers.
pub open spec fn min_usize(a: usize, b: usize) -> usize {
    if a < b {
        a
    } else {
        b
    }
}

impl<L, First: WdlScheduler<L>, Second: WdlScheduler<L>> WdlScheduler<L> for Sequence<
    First,
    Second,
> {
    /// Both the superbatch and the point where the schedules change over are cut off at the end of
    /// the run. The first schedule sees the change-over as its end. The second one counts its
    /// superbatches from there.
    open spec fn blend_spec(&self, batch: usize, superbatch: usize, max: usize) -> Blend<L> {
        let midpoint = min_usize(self.first_scheduler_final_superbatch, max);
        let clamped = min_usize(superbatch, max);
        if clamped <= midpoint {
            self.first.blend_spec(batch, clamped, midpoint)
        } else {
            self.second.blend_spec(batch, (clamped - midpoint) as usize, (max - midpoint) as usize)
        }
    }

    open spec fn colourful_spec(&self) -> Seq<SpanView<L>> {
        self.first.colourful_spec() + seq![
            SpanView::Text(", then after "@),
            SpanView::Count { count: self.first_scheduler_final_superbatch, colour: 32 },
            SpanView::Text(" superbatches, "@),
        ] + self.second.colourful_spec()
    }

    fn blend(&self, batch: usize, superbatch: usize, max: usize) -> (b: Blend<L>) {
        let midpoint: usize = if self.first_scheduler_final_superbatch < max {
            self.first_scheduler_final_superbatch
        } else {
            max
        };
        let clamped: usize = if superbatch < max {
            superbatch
        } else {
            max
        };
        if clamped <= midpoint {
            self.first.blend(batch, clamped, midpoint)
        } else {
            self.second.blend(batch, clamped - midpoint, max - midpoint)
        }
    }

    fn colourful(&self) -> (spans: Vec<Span<L>>) {
        let mut spans = self.first.colourful();
        spans.push(Span::Text(", then after "));
        spans.push(Span::Count { count: self.first_scheduler_final_superbatch, colour: 32 });
        spans.push(Span::Text(" superbatches, "));
        let mut rest = self.second.colourful();
        let ghost head = spans@;
        let ghost tail = rest@;
        spans.append(&mut rest);
        proof {
            assert(spans@ =~= head + tail);
            assert(shown(spans@) =~= shown(head) + shown(tail));
            assert(shown(head) + shown(tail) =~= self.colourful_spec());
        }
        spans
    }
}

/// A schedule that is chosen at run time.
#[derive(Clone, Debug)]
pub enum WdlSchedulerEnum<L> {
    Constant(ConstantWDL<L>),
    Linear(LinearWDL<L>),
}

impl<L> WdlSchedulerEnum<L> {
    /// A schedule that stays at `value`.
    pub fn constant(value: L) -> (s: Self)
        ensures
            s == WdlSchedulerEnum::Constant(ConstantWDL { value }),
    {
        WdlSchedulerEnum::Constant(ConstantWDL { value })
    }

    /// A schedule that goes from `start` to `end`.
    pub fn linear(start: L, end: L) -> (s: Self)
        ensures
            s == WdlSchedulerEnum::Linear(LinearWDL { start, end }),
    {
        WdlSchedulerEnum::Linear(LinearWDL { start, end })
    }
}

impl<L: Copy + Send + Sync + 'static> WdlScheduler<L> for WdlSchedulerEnum<L> {
    open spec fn blend_spec(&self, batch: usize, superbatch: usize, max: usize) -> Blend<L> {
        match self {
            WdlSchedulerEnum::Constant(s) => s.blend_spec(batch, superbatch, max),
            WdlSchedulerEnum::Linear(s) => s.blend_spec(batch, superbatch, max),
        }
    }

    open spec fn colourful_spec(&self) -> Seq<SpanView<L>> {
        match self {
            WdlSchedulerEnum::Constant(s) => s.colourful_spec(),
            WdlSchedulerEnum::Linear(s) => s.colourful_spec(),
        }
    }

    fn blend(&self, batch: usize, superbatch: usize, max: usize) -> (b: Blend<L>) {
        match self {
            WdlSchedulerEnum::Constant(s) => s.blend(batch, superbatch, max),
            WdlSchedulerEnum::Linear(s) => s.blend(batch, superbatch, max),
        }
    }

    fn colourful(&self) -> (spans: Vec<Span<L>>) {
        match self {
            WdlSchedulerEnum::Constant(s) => s.colourful(),
            WdlSchedulerEnum::Linear(s) => s.colourful(),
        }
    }
}

// ---------------------------------------------------------------------------------------------
// Laws
// ---------------------------------------------------------------------------------------------

/// A constant schedule stays put past the end of the run.
pub proof fn law_constant_saturates<L: Copy + Send + Sync + 'static>(s: ConstantWDL<L>)
    ensures
        saturates::<L, ConstantWDL<L>>(s),
{
}

/// A linear schedule stays at `end` past the end of any run of at least one superbatch, and
/// before superbatch 1 it stays at `start`.
pub proof fn law_linear_saturates<L: Copy + Send + Sync + 'static>(s: LinearWDL<L>)
    ensures
        saturates::<L, LinearWDL<L>>(s),
        forall|batch: usize, superbatch: usize, max: usize|
            1 <= max < superbatch ==> #[trigger] s.blend_spec(batch, superbatch, max)
                == Blend::Value(s.end),
        forall|batch: usize, max: usize|
            #![trigger s.blend_spec(batch, 0, max)]
            s.blend_spec(batch, 0, max) == Blend::Value(s.start),
{
}

/// A schedule chosen at run time stays put past the end of the run.
pub proof fn law_enum_saturates<L: Copy + Send + Sync + 'static>(s: WdlSchedulerEnum<L>)
    ensures
        saturates::<L, WdlSchedulerEnum<L>>(s),
{
}

/// Warming up touches no superbatch but the first, so it stays put past the end of the run where
/// the schedule below does.
pub proof fn law_warmup_saturates<L, WDL: WdlScheduler<L>>(s: Warmup<WDL>)
    requires
        saturates::<L, WDL>(s.inner),
    ensures
        saturates::<L, Warmup<WDL>>(s),
        forall|batch: usize, superbatch: usize, max: usize|
            superbatch != 1 ==> #[trigger] s.blend_spec(batch, superbatch, max)
                == s.inner.blend_spec(batch, superbatch, max),
{
    assert forall|batch: usize, a: usize, b: usize, max: usize|
        1 <= max < a && max < b implies #[trigger] s.blend_spec(batch, a, max)
        == #[trigger] s.blend_spec(batch, b, max) by {
        assert(s.inner.blend_spec(batch, a, max) == s.inner.blend_spec(batch, b, max));
    }
}

/// A sequence stays, past the end of the run, at the value that it has in the last superbatch,
/// whatever its parts do there and however short the run is.
pub proof fn law_sequence_saturates<L, First: WdlScheduler<L>, Second: WdlScheduler<L>>(
    s: Sequence<First, Second>,
)
    ensures
        saturates::<L, Sequence<First, Second>>(s),
        forall|batch: usize, superbatch: usize, max: usize|
            max <= superbatch ==> #[trigger] s.blend_spec(batch, superbatch, max) == s.blend_spec(
                batch,
                max,
                max,
            ),
{
    assert forall|batch: usize, a: usize, b: usize, max: usize|
        1 <= max < a && max < b implies #[trigger] s.blend_spec(batch, a, max)
        == #[trigger] s.blend_spec(batch, b, max) by {
        assert(s.blend_spec(batch, a, max) == s.blend_spec(batch, max, max));
    }
}

/// With both the superbatch and the change-over cut off at the end of the run: up to the change-over
/// a sequence is its first schedule, over a run that ends there. After it, it is its second
/// schedule, at the superbatch counted from there, in a budget of at least one superbatch that is
/// never overrun.
pub proof fn law_sequence_budgets<L, First: WdlScheduler<L>, Second: WdlScheduler<L>>(
    s: Sequence<First, Second>,
    batch: usize,
    superbatch: usize,
    max: usize,
)
    ensures
        ({
            let midpoint = min_usize(s.first_scheduler_final_superbatch, max);
            let clamped = min_usize(superbatch, max);
            &&& clamped <= midpoint ==> s.blend_spec(batch, superbatch, max) == s.first.blend_spec(
                batch,
                clamped,
                midpoint,
            )
            &&& clamped > midpoint ==> 1 <= clamped - midpoint <= max - midpoint && s.blend_spec(
                batch,
                superbatch,
                max,
            ) == s.second.blend_spec(
                batch,
                (clamped - midpoint) as usize,
                (max - midpoint) as usize,
            )
            &&& clamped > midpoint <==> superbatch > s.first_scheduler_final_superbatch && max
                > s.first_scheduler_final_superbatch
        }),
{
}

/// A constant schedule has no other number than its value.
pub proof fn law_constant_draws_from_value<L: Copy + Send + Sync + 'static>(
    s: ConstantWDL<L>,
    p: spec_fn(L) -> bool,
)
    requires
        p(s.value),
    ensures
        draws_from::<L, ConstantWDL<L>>(s, p),
{
}

/// A linear schedule has no other numbers than its ends, and it interpolates between them.
pub proof fn law_linear_draws_from_ends<L: Copy + Send + Sync + 'static>(
    s: LinearWDL<L>,
    p: spec_fn(L) -> bool,
)
    requires
        p(s.start),
        p(s.end),
    ensures
        draws_from::<L, LinearWDL<L>>(s, p),
{
}

/// A schedule chosen at run time has no other numbers than those of the schedule chosen.
pub proof fn law_enum_draws_from_chosen<L: Copy + Send + Sync + 'static>(
    s: WdlSchedulerEnum<L>,
    p: spec_fn(L) -> bool,
)
    requires
        match s {
            WdlSchedulerEnum::Constant(c) => p(c.value),
            WdlSchedulerEnum::Linear(l) => p(l.start) && p(l.end),
        },
    ensures
        draws_from::<L, WdlSchedulerEnum<L>>(s, p),
{
}

/// Warming up brings in no number, and divides by none that is zero.
pub proof fn law_warmup_draws_from_inner<L, WDL: WdlScheduler<L>>(
    s: Warmup<WDL>,
    p: spec_fn(L) -> bool,
)
    requires
        draws_from::<L, WDL>(s.inner, p),
    ensures
        draws_from::<L, Warmup<WDL>>(s, p),
{
    assert forall|batch: usize, superbatch: usize, max: usize|
        (#[trigger] s.blend_spec(batch, superbatch, max)).wf() && s.blend_spec(
            batch,
            superbatch,
            max,
        ).all(p) by {
        assert(s.inner.blend_spec(batch, superbatch, max).wf());
    }
}

/// A sequence brings in no number that its parts do not have.
pub proof fn law_sequence_draws_from_parts<L, First: WdlScheduler<L>, Second: WdlScheduler<L>>(
    s: Sequence<First, Second>,
    p: spec_fn(L) -> bool,
)
    requires
        draws_from::<L, First>(s.first, p),
        draws_from::<L, Second>(s.second, p),
    ensures
        draws_from::<L, Sequence<First, Second>>(s, p),
{
}

/// In exact arithmetic a schedule whose numbers lie in the unit interval gives no lambda outside
/// it, at any point of training and past its end.
pub proof fn law_schedule_stays_in_unit_interval<S: WdlScheduler<real>>(
    s: S,
    batch: usize,
    superbatch: usize,
    max: usize,
)
    requires
        draws_from::<real, S>(s, |v: real| in_unit_interval(v)),
    ensures
        in_unit_interval(exact_value(s.blend_spec(batch, superbatch, max))),
{
    law_blend_stays_in_unit_interval(s.blend_spec(batch, superbatch, max));
}

/// In exact arithmetic a linear schedule between ends in the unit interval, warmed up or not, gives
/// no lambda outside it.
pub proof fn law_linear_stays_in_unit_interval(
    s: Warmup<LinearWDL<real>>,
    batch: usize,
    superbatch: usize,
    max: usize,
)
    requires
        in_unit_interval(s.inner.start),
        in_unit_interval(s.inner.end),
    ensures
        in_unit_interval(exact_value(s.inner.blend_spec(batch, superbatch, max))),
        in_unit_interval(exact_value(s.blend_spec(batch, superbatch, max))),
{
    let p = |v: real| in_unit_interval(v);
    law_linear_draws_from_ends(s.inner, p);
    law_warmup_draws_from_inner(s, p);
    law_schedule_stays_in_unit_interval(s.inner, batch, superbatch, max);
    law_schedule_stays_in_unit_interval(s, batch, superbatch, max);
}

/// In exact arithmetic a schedule chosen at run time, whose numbers lie in the unit interval, gives
/// no lambda outside it.
pub proof fn law_enum_stays_in_unit_interval(
    s: WdlSchedulerEnum<real>,
    batch: usize,
    superbatch: usize,
    max: usize,
)
    requires
        match s {
            WdlSchedulerEnum::Constant(c) => in_unit_interval(c.value),
            WdlSchedulerEnum::Linear(l) => in_unit_interval(l.start) && in_unit_interval(l.end),
        },
    ensures
        in_unit_interval(exact_value(s.blend_spec(batch, superbatch, max))),
{
    law_enum_draws_from_chosen(s, |v: real| in_unit_interval(v));
    law_schedule_stays_in_unit_interval(s, batch, superbatch, max);
}

proof fn lemma_lerp_is_monotone(start: real, end: real, a: real, b: real, span: real)
    requires
        start <= end,
        0 as real <= a,
        a <= b,
        b <= span,
        (0 as real) < span,
    ensures
        start <= start + ((end - start) / span) * a,
        start + ((end - start) / span) * a <= start + ((end - start) / span) * b,
        start + ((end - start) / span) * b <= end,
{
    let grad = (end - start) / span;
    assert(grad * span == end - start) by (nonlinear_arith)
        requires
            grad == (end - start) / span,
            (0 as real) < span,
    ;
    assert(0 as real <= grad) by (nonlinear_arith)
        requires
            grad * span == end - start,
            start <= end,
            (0 as real) < span,
    ;
    assert(0 as real <= grad * a && grad * a <= grad * b && grad * b <= grad * span)
        by (nonlinear_arith)
        requires
            0 as real <= grad,
            0 as real <= a,
            a <= b,
            b <= span,
    ;
}

/// In exact arithmetic a linear schedule runs one way only, at every length of the run and past its
/// end: from a start that is no higher than the end it never falls, and from one that is no lower
/// it never rises. The batch plays no part in it.
pub proof fn law_linear_is_monotone(
    s: LinearWDL<real>,
    batch: usize,
    earlier: usize,
    later_batch: usize,
    later: usize,
    max: usize,
)
    requires
        earlier <= later,
    ensures
        s.start <= s.end ==> exact_value(s.blend_spec(batch, earlier, max)) <= exact_value(
            s.blend_spec(later_batch, later, max),
        ),
        s.start >= s.end ==> exact_value(s.blend_spec(batch, earlier, max)) >= exact_value(
            s.blend_spec(later_batch, later, max),
        ),
{
    if earlier >= 2 && earlier < max || later >= 2 && later < max {
        let span = (max - 1) as real;
        let a = if earlier <= 1 {
            0 as real
        } else if earlier >= max {
            span
        } else {
            (earlier - 1) as real
        };
        let b = if later <= 1 {
            0 as real
        } else if later >= max {
            span
        } else {
            (later - 1) as real
        };
        if s.start <= s.end {
            lemma_lerp_is_monotone(s.start, s.end, a, b, span);
        }
        if s.start >= s.end {
            let zero = 0 as real;
            lemma_lerp_is_monotone(zero - s.start, zero - s.end, a, b, span);
            let up = ((zero - s.end) - (zero - s.start)) / span;
            let down = (s.end - s.start) / span;
            assert(up * a == zero - down * a && up * b == zero - down * b) by (nonlinear_arith)
                requires
                    up == ((zero - s.end) - (zero - s.start)) / span,
                    down == (s.end - s.start) / span,
                    zero == 0 as real,
                    (0 as real) < span,
            ;
        }
    }
}

/// In exact arithmetic a warm-up never falls as the batch grows, over an inner lambda that is the
/// same for both batches and not negative.
pub proof fn law_warmup_never_falls<WDL: WdlScheduler<real>>(
    s: Warmup<WDL>,
    earlier: usize,
    later: usize,
    superbatch: usize,
    max: usize,
)
    requires
        earlier <= later,
        exact_value(s.inner.blend_spec(earlier, superbatch, max)) == exact_value(
            s.inner.blend_spec(later, superbatch, max),
        ),
        0 as real <= exact_value(s.inner.blend_spec(earlier, superbatch, max)),
    ensures
        exact_value(s.blend_spec(earlier, superbatch, max)) <= exact_value(
            s.blend_spec(later, superbatch, max),
        ),
        exact_value(s.blend_spec(later, superbatch, max)) <= exact_value(
            s.inner.blend_spec(later, superbatch, max),
        ),
{
    let v = exact_value(s.inner.blend_spec(earlier, superbatch, max));
    if superbatch == 1 && earlier < s.warmup_batches {
        let d = ((s.warmup_batches - earlier) as usize) as real;
        let e = if later < s.warmup_batches {
            ((s.warmup_batches - later) as usize) as real
        } else {
            1 as real
        };
        assert(v / (1 as real) == v);
        assert(v / d <= v / e && v / e <= v) by (nonlinear_arith)
            requires
                0 as real <= v,
                e <= d,
                1 as real <= e,
        ;
    }
}

/// A formula comes to what its parts say: a number to itself; an interpolation to the point that
/// divides the way from `start` to `end` as `step` divides `span`; and a divided lambda to the one
/// that the divisor takes back to the inner lambda.
pub proof fn law_formula_comes_to_what_it_says(b: Blend<real>)
    requires
        b.wf(),
    ensures
        b matches Blend::Value(v) ==> exact_value(b) == v,
        b matches Blend::Lerp { start, end, step, span } ==> (exact_value(b) - start) * (
        span as real) == (end - start) * (step as real),
        b matches Blend::Divided { base, divisor } ==> exact_value(b) * (divisor as real)
            == exact_value(*base),
{
    match b {
        Blend::Value(_) => {},
        Blend::Lerp { start, end, step, span } => {
            let (w, k, n) = (end - start, step as real, span as real);
            assert(((w / n) * k) * n == w * k) by (nonlinear_arith)
                requires
                    n > 0 as real,
            ;
        },
        Blend::Divided { base, divisor } => {
            let (v, d) = (exact_value(*base), divisor as real);
            assert((v / d) * d == v) by (nonlinear_arith)
                requires
                    d > 0 as real,
            ;
        },
    }
}

/// A constant schedule gives its value at every point of training.
pub proof fn law_constant_gives_its_value<L: Copy + Send + Sync + 'static>(
    s: ConstantWDL<L>,
    batch: usize,
    superbatch: usize,
    max: usize,
)
    ensures
        s.blend_spec(batch, superbatch, max) == Blend::Value(s.value),
{
}

/// Between the first and the last superbatch a linear schedule is as many steps along as there are
/// superbatches behind it, of as many as the run has in all. It is at `start` before, and at `end`
/// from the last superbatch on, of which a run has no earlier one than the second.
pub proof fn law_linear_interpolates<L: Copy + Send + Sync + 'static>(
    s: LinearWDL<L>,
    batch: usize,
    superbatch: usize,
    max: usize,
)
    ensures
        superbatch <= 1 ==> s.blend_spec(batch, superbatch, max) == Blend::Value(s.start),
        superbatch >= 2 && superbatch >= max ==> s.blend_spec(batch, superbatch, max)
            == Blend::Value(s.end),
        1 < superbatch < max ==> {
            &&& s.blend_spec(batch, superbatch, max) matches Blend::Lerp { start, end, step, span }
            &&& start == s.start
            &&& end == s.end
            &&& step + 1 == superbatch
            &&& span + 1 == max
        },
{
}

/// In exact arithmetic a linear schedule over a run of at least two superbatches goes by equal
/// steps from `start` in the first superbatch to `end` in the last: each step is the whole way
/// divided by one less than the number of superbatches.
pub proof fn law_linear_goes_by_equal_steps(
    s: LinearWDL<real>,
    batch: usize,
    next_batch: usize,
    superbatch: usize,
    next: usize,
    max: usize,
)
    requires
        2 <= max,
        1 <= superbatch < max,
        next == superbatch + 1,
    ensures
        exact_value(s.blend_spec(batch, 1, max)) == s.start,
        exact_value(s.blend_spec(batch, max, max)) == s.end,
        exact_value(s.blend_spec(next_batch, next, max)) - exact_value(
            s.blend_spec(batch, superbatch, max),
        ) == (s.end - s.start) / ((max - 1) as real),
{
    let grad = (s.end - s.start) / ((max - 1) as real);
    let (n, k) = ((max - 1) as real, (superbatch - 1) as real);
    let one = 1 as real;
    assert(grad * n == s.end - s.start) by (nonlinear_arith)
        requires
            grad == (s.end - s.start) / n,
            n > 0 as real,
    ;
    assert(grad * (k + one) == grad * k + grad && grad * (0 as real) == 0 as real)
        by (nonlinear_arith)
        requires
            one == 1 as real,
    ;
    assert((superbatch as usize) as real == k + one);
    assert(exact_value(s.blend_spec(batch, superbatch, max)) == s.start + grad * k);
    assert(exact_value(s.blend_spec(next_batch, next, max)) == s.start + grad * (k + one)) by {
        if next == max {
            assert(k + one == n);
        }
    }
}

/// In the first superbatch a warm-up gives the inner lambda divided by how many of the warm-up
/// batches are still to come, this one counted. From the last of them on, and in every other
/// superbatch, it gives the inner lambda.
pub proof fn law_warmup_divides_by_what_is_left<L, WDL: WdlScheduler<L>>(
    s: Warmup<WDL>,
    batch: usize,
    superbatch: usize,
    max: usize,
)
    ensures
        ({
            let inner = s.inner.blend_spec(batch, superbatch, max);
            &&& superbatch != 1 ==> s.blend_spec(batch, superbatch, max) == inner
            &&& batch >= s.warmup_batches ==> s.blend_spec(batch, superbatch, max) == inner
            &&& superbatch == 1 && batch < s.warmup_batches ==> {
                &&& s.blend_spec(batch, superbatch, max) matches Blend::Divided { base, divisor }
                &&& *base == inner
                &&& divisor + batch == s.warmup_batches
            }
        }),
{
}

/// In exact arithmetic, what a warm-up gives in the first superbatch is taken back to the inner
/// lambda by the number of warm-up batches to come.
pub proof fn law_warmup_is_a_share<WDL: WdlScheduler<real>>(
    s: Warmup<WDL>,
    batch: usize,
    max: usize,
)
    requires
        batch < s.warmup_batches,
    ensures
        exact_value(s.blend_spec(batch, 1, max)) * ((s.warmup_batches - batch) as real)
            == exact_value(s.inner.blend_spec(batch, 1, max)),
{
    let v = exact_value(s.inner.blend_spec(batch, 1, max));
    let d = (s.warmup_batches - batch) as real;
    assert((v / d) * d == v) by (nonlinear_arith)
        requires
            d > 0 as real,
    ;
}

/// A sequence is its first schedule up to the change-over, over a run that ends there, and then its
/// second, over the rest of the run and counted from there. Past the end of the run it stays as it
/// is in the last superbatch. A run that ends before the change-over is the first schedule's alone.
pub proof fn law_sequence_changes_over<L, First: WdlScheduler<L>, Second: WdlScheduler<L>>(
    s: Sequence<First, Second>,
    batch: usize,
    superbatch: usize,
    max: usize,
)
    ensures
        ({
            let change = s.first_scheduler_final_superbatch;
            let given = s.blend_spec(batch, superbatch, max);
            &&& superbatch <= change && change <= max ==> given == s.first.blend_spec(
                batch,
                superbatch,
                change,
            )
            &&& change < superbatch && superbatch <= max ==> given == s.second.blend_spec(
                batch,
                (superbatch - change) as usize,
                (max - change) as usize,
            )
            &&& change < max && max < superbatch ==> given == s.second.blend_spec(
                batch,
                (max - change) as usize,
                (max - change) as usize,
            )
            &&& max <= change && superbatch <= max ==> given == s.first.blend_spec(
                batch,
                superbatch,
                max,
            )
            &&& max <= change && max < superbatch ==> given == s.first.blend_spec(batch, max, max)
        }),
{
}

/// A schedule chosen at run time gives and shows what the chosen one does.
pub proof fn law_enum_is_the_chosen_schedule<L: Copy + Send + Sync + 'static>(
    s: WdlSchedulerEnum<L>,
    batch: usize,
    superbatch: usize,
    max: usize,
)
    ensures
        s matches WdlSchedulerEnum::Constant(c) ==> s.blend_spec(batch, superbatch, max)
            == c.blend_spec(batch, superbatch, max) && s.colourful_spec() == c.colourful_spec(),
        s matches WdlSchedulerEnum::Linear(l) ==> s.blend_spec(batch, superbatch, max)
            == l.blend_spec(batch, superbatch, max) && s.colourful_spec() == l.colourful_spec(),
{
}

/// What a list of spans shows is what its spans show, one by one.
pub proof fn law_spans_show_what_they_hold<L>(spans: Seq<Span<L>>, i: int)
    requires
        0 <= i < spans.len(),
    ensures
        shown(spans).len() == spans.len(),
        spans[i] matches Span::Text(text) ==> shown(spans)[i] == SpanView::<L>::Text(text@),
        spans[i] matches Span::Lambda { lambda, colour } ==> shown(spans)[i] == (SpanView::Lambda {
            lambda,
            colour,
        }),
        spans[i] matches Span::Count { count, colour } ==> shown(spans)[i] == (SpanView::<
            L,
        >::Count { count, colour }),
{
}

/// A schedule shows each of its numbers behind the words that say what the number is.
pub proof fn law_simple_schedules_show_their_numbers<L: Copy + Send + Sync + 'static>(
    c: ConstantWDL<L>,
    l: LinearWDL<L>,
)
    ensures
        c.colourful_spec().len() == 2,
        c.colourful_spec()[0] == SpanView::<L>::Text("constant "@),
        c.colourful_spec()[1] == (SpanView::Lambda { lambda: c.value, colour: 31 }),
        l.colourful_spec().len() == 4,
        l.colourful_spec()[0] == SpanView::<L>::Text("linear taper start "@),
        l.colourful_spec()[1] == (SpanView::Lambda { lambda: l.start, colour: 31 }),
        l.colourful_spec()[2] == SpanView::<L>::Text(" end "@),
        l.colourful_spec()[3] == (SpanView::Lambda { lambda: l.end, colour: 31 }),
{
}

/// A warm-up shows its inner schedule and then its number of batches. A sequence shows its first
/// schedule, then the change-over, then its second.
pub proof fn law_built_schedules_show_their_parts<
    L,
    First: WdlScheduler<L>,
    Second: WdlScheduler<L>,
>(w: Warmup<First>, s: Sequence<First, Second>)
    ensures
        WdlScheduler::<L>::colourful_spec(&w) == w.inner.colourful_spec() + seq![
            SpanView::<L>::Text(", warmup over "@),
            SpanView::Count { count: w.warmup_batches, colour: 31 },
            SpanView::Text(" batches"@),
        ],
        WdlScheduler::<L>::colourful_spec(&s) == s.first.colourful_spec() + (seq![
            SpanView::<L>::Text(", then after "@),
            SpanView::Count { count: s.first_scheduler_final_superbatch, colour: 32 },
            SpanView::Text(" superbatches, "@),
        ] + s.second.colourful_spec()),
{
    assert(WdlScheduler::<L>::colourful_spec(&s) =~= s.first.colourful_spec() + (seq![
        SpanView::<L>::Text(", then after "@),
        SpanView::Count { count: s.first_scheduler_final_superbatch, colour: 32 },
        SpanView::Text(" superbatches, "@),
    ] + s.second.colourful_spec()));
}

} // verus!
