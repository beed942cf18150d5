use bullet_shogi::trainer::schedule::wdl::{
    Blend, ConstantWDL, LinearWDL, Sequence, Span, Warmup, WdlScheduler, WdlSchedulerEnum,
};

fn evaluate(blend: &Blend<f32>) -> f32 {
    match blend {
        Blend::Value(v) => *v,
        Blend::Lerp { start, end, step, span } => {
            let grad = (end - start) / *span as f32;
            start + grad * *step as f32
        }
        Blend::Divided { base, divisor } => evaluate(base) / *divisor as f32,
    }
}

fn lambda<S: WdlScheduler<f32>>(s: &S, batch: usize, superbatch: usize, max: usize) -> f32 {
    evaluate(&s.blend(batch, superbatch, max))
}

fn approx_eq(a: f32, b: f32) {
    assert!((a - b).abs() < 1e-6, "expected {b}, got {a}");
}

fn text(spans: &[Span<f32>]) -> String {
    let mut out = String::new();
    for span in spans {
        match span {
            Span::Text(t) => out.push_str(t),
            Span::Lambda { lambda, colour } => out.push_str(&format!("<{lambda}:{colour}>")),
            Span::Count { count, colour } => out.push_str(&format!("<{count}:{colour}>")),
        }
    }
    out
}

#[test]
fn linear_wdl_endpoints() {
    let s = LinearWDL { start: 0.2, end: 0.8 };
    approx_eq(lambda(&s, 0, 1, 3), 0.2);
    approx_eq(lambda(&s, 0, 2, 3), 0.5);
    approx_eq(lambda(&s, 0, 3, 3), 0.8);
}

#[test]
fn linear_wdl_saturates_when_superbatch_exceeds_max() {
    let s = LinearWDL { start: 0.0, end: 1.0 };
    approx_eq(lambda(&s, 0, 4, 3), 1.0);
    approx_eq(lambda(&s, 0, 100, 3), 1.0);
}

#[test]
fn linear_wdl_clamps_subzero_superbatch() {
    let s = LinearWDL { start: 0.2, end: 0.8 };
    approx_eq(lambda(&s, 0, 0, 3), 0.2);
    approx_eq(lambda(&s, 0, 1, 1), 0.2);
}

#[test]
fn linear_wdl_one_superbatch_schedule_saturates_overshoot_to_end() {
    let s = LinearWDL { start: 0.0, end: 1.0 };
    approx_eq(lambda(&s, 0, 1, 1), 0.0);
    approx_eq(lambda(&s, 0, 2, 1), 1.0);
    approx_eq(lambda(&s, 0, 100, 1), 1.0);
}

#[test]
fn linear_wdl_output_always_in_unit_interval_for_valid_endpoints() {
    let s = LinearWDL { start: 0.1, end: 0.9 };
    for sb in 0..200 {
        let v = lambda(&s, 0, sb, 10);
        assert!((0.0..=1.0).contains(&v), "blend({sb}) = {v} out of range");
    }
}

#[test]
fn linear_wdl_descending_lambda_saturates_correctly() {
    let s = LinearWDL { start: 0.8, end: 0.2 };
    approx_eq(lambda(&s, 0, 1, 5), 0.8);
    approx_eq(lambda(&s, 0, 5, 5), 0.2);
    approx_eq(lambda(&s, 0, 100, 5), 0.2);
}

#[test]
fn warmup_linear_wdl_overshoot_saturates_to_end() {
    let inner = LinearWDL { start: 0.0, end: 1.0 };
    let warmup = Warmup { inner, warmup_batches: 4 };
    approx_eq(lambda(&warmup, 0, 4, 3), 1.0);
    approx_eq(lambda(&warmup, 0, 999, 3), 1.0);
}

#[test]
fn sequence_overshoot_uses_inner_saturation() {
    let first = LinearWDL { start: 0.0, end: 0.5 };
    let second = LinearWDL { start: 0.5, end: 1.0 };
    let seq = Sequence { first, second, first_scheduler_final_superbatch: 3 };
    approx_eq(lambda(&seq, 0, 3, 6), 0.5);
    approx_eq(lambda(&seq, 0, 6, 6), 1.0);
    approx_eq(lambda(&seq, 0, 100, 6), 1.0);
}

#[test]
fn sequence_overshoot_through_first_scheduler_saturates_at_max() {
    let first = LinearWDL { start: 0.0, end: 0.5 };
    let second = LinearWDL { start: 0.5, end: 1.0 };
    let seq = Sequence { first, second, first_scheduler_final_superbatch: 10 };
    approx_eq(lambda(&seq, 0, 9, 8), 0.5);
    approx_eq(lambda(&seq, 0, 100, 8), 0.5);
}

#[test]
fn sequence_with_misconfigured_max_does_not_panic() {
    let first = LinearWDL { start: 0.0, end: 0.5 };
    let second = LinearWDL { start: 0.5, end: 1.0 };
    let seq = Sequence { first, second, first_scheduler_final_superbatch: 10 };
    approx_eq(lambda(&seq, 0, 12, 5), 0.5);
}

#[test]
fn constant_wdl_never_changes() {
    let s = ConstantWDL { value: 0.75 };
    approx_eq(lambda(&s, 0, 0, 0), 0.75);
    approx_eq(lambda(&s, 9, 100, 3), 0.75);
}

#[test]
fn warmup_divides_in_the_first_superbatch_only() {
    let warmup = Warmup { inner: ConstantWDL { value: 0.8 }, warmup_batches: 4 };
    approx_eq(lambda(&warmup, 0, 1, 3), 0.2);
    approx_eq(lambda(&warmup, 2, 1, 3), 0.4);
    approx_eq(lambda(&warmup, 3, 1, 3), 0.8);
    approx_eq(lambda(&warmup, 4, 1, 3), 0.8);
    approx_eq(lambda(&warmup, 0, 2, 3), 0.8);
}

#[test]
fn sequence_counts_afresh_after_the_change_over() {
    let first = LinearWDL { start: 0.0, end: 0.5 };
    let second = LinearWDL { start: 0.6, end: 1.0 };
    let seq = Sequence { first, second, first_scheduler_final_superbatch: 3 };
    approx_eq(lambda(&seq, 0, 2, 6), 0.25);
    approx_eq(lambda(&seq, 0, 4, 6), 0.6);
    approx_eq(lambda(&seq, 0, 5, 6), 0.8);
}

#[test]
fn enum_runs_the_chosen_schedule() {
    let constant: WdlSchedulerEnum<f32> = WdlSchedulerEnum::constant(0.3);
    let linear = WdlSchedulerEnum::linear(0.0, 1.0);
    approx_eq(lambda(&constant, 0, 50, 3), 0.3);
    approx_eq(lambda(&linear, 0, 2, 3), 0.5);
    assert_eq!(text(&constant.colourful()), "constant <0.3:31>");
    assert_eq!(text(&linear.colourful()), "linear taper start <0:31> end <1:31>");
}

#[test]
fn descriptions_nest() {
    let warmup = Warmup { inner: ConstantWDL { value: 0.5f32 }, warmup_batches: 16 };
    let seq = Sequence {
        first: warmup,
        second: LinearWDL { start: 0.5, end: 1.0 },
        first_scheduler_final_superbatch: 7,
    };
    assert_eq!(
        text(&seq.colourful()),
        "constant <0.5:31>, warmup over <16:31> batches, then after <7:32> superbatches, \
         linear taper start <0.5:31> end <1:31>"
    );
}

#[test]
fn linear_wdl_runs_one_way() {
    for max in [0usize, 1, 2, 3, 10] {
        for (start, end) in [(0.1, 0.9), (0.9, 0.1), (0.4, 0.4)] {
            let s = LinearWDL { start, end };
            for sb in 0..20 {
                let (a, b) = (lambda(&s, 3, sb, max), lambda(&s, 0, sb + 1, max));
                assert!(if start <= end { a <= b } else { a >= b }, "{sb} of {max}: {a}, {b}");
            }
        }
    }
}

#[test]
fn sequence_hands_on_a_budget() {
    let first = LinearWDL { start: 0.0f32, end: 0.5 };
    let second = LinearWDL { start: 0.5, end: 1.0 };
    let seq = Sequence { first, second, first_scheduler_final_superbatch: 4 };
    // Superbatch 3 of a first run of 4, and superbatch 2 of a second run of 5.
    assert!(matches!(seq.blend(0, 3, 9), Blend::Lerp { step: 2, span: 3, .. }));
    assert!(matches!(seq.blend(0, 6, 9), Blend::Lerp { step: 1, span: 4, start, .. } if start == 0.5));
    // A run of 3 ends within the first schedule.
    assert!(matches!(seq.blend(0, 2, 3), Blend::Lerp { step: 1, span: 2, .. }));
    assert!(matches!(seq.blend(0, 7, 3), Blend::Value(v) if v == 0.5));
}

#[test]
fn warmup_never_falls() {
    let warmup = Warmup { inner: ConstantWDL { value: 0.75 }, warmup_batches: 9 };
    for superbatch in [0, 1, 2] {
        for batch in 0..20 {
            let (a, b) = (lambda(&warmup, batch, superbatch, 3), lambda(&warmup, batch + 1, superbatch, 3));
            assert!(a <= b && b <= 0.75);
        }
    }
}

#[test]
fn enum_output_always_in_unit_interval() {
    for s in [WdlSchedulerEnum::constant(0.25), WdlSchedulerEnum::linear(0.9, 0.1)] {
        for sb in 0..50 {
            assert!((0.0..=1.0).contains(&lambda(&s, 0, sb, 10)));
        }
    }
}
