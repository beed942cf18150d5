use bullet_shogi::value::validate::{
    compute_test_metrics, plan_psv_read, read_psv_positions, AccuracyReport, GameResult, LossTerm,
    ModelOutput, OutputClass, PredictionFormula, PsvError, ScoreFormula, ValidationParams,
    WrmOutputParams, WrmTargetParams,
};

fn standard_params() -> ValidationParams<f32> {
    ValidationParams {
        blend: 1.0,
        eval_scale: 400.0,
        wrm_target: None,
        wrm_output: None,
        score_drop_abs: None,
    }
}

fn sigmoid(x: f32) -> f32 {
    1.0 / (1.0 + (-x).exp())
}

fn win_rate(score: f32, scaling: f32, offset: f32) -> f32 {
    let p = sigmoid((score - offset) / scaling);
    let pm = sigmoid((-score - offset) / scaling);
    0.5 * (1.0 + p - pm)
}

fn error(term: &LossTerm<f32>) -> f64 {
    let result = match term.result {
        GameResult::Loss => 0.0,
        GameResult::Draw => 0.5,
        GameResult::Win => 1.0,
    };
    let score = match term.score {
        ScoreFormula::Sigmoid { score, eval_scale } => sigmoid(f32::from(score) / eval_scale),
        ScoreFormula::WinRate { score, scaling, offset } => {
            win_rate(f32::from(score), scaling, offset)
        }
    };
    let target = term.blend * result + (1.0 - term.blend) * score;
    let prediction = match term.prediction {
        PredictionFormula::Sigmoid { output } => sigmoid(output),
        PredictionFormula::WinRate { output, out_scaling, in_scaling, offset } => {
            win_rate(output * out_scaling, in_scaling, offset)
        }
    };
    f64::from(prediction - target)
}

fn test_loss(report: &AccuracyReport<f32>) -> Option<f32> {
    report.test_loss.as_ref().map(|loss| {
        let sum: f64 = loss.terms.iter().map(|t| error(t) * error(t)).sum();
        (sum / report.loss_sampled as f64) as f32
    })
}

fn accuracy(report: &AccuracyReport<f32>) -> f32 {
    match report.accuracy() {
        Some(r) => r.numerator as f32 / r.denominator as f32,
        None => f32::NAN,
    }
}

fn classify(value: f32) -> ModelOutput<f32> {
    let class = if !value.is_finite() {
        OutputClass::NonFinite
    } else if value >= 0.0 {
        OutputClass::NonNegative
    } else {
        OutputClass::Negative
    };
    ModelOutput { value, class }
}

fn metrics(
    outputs: &[f32],
    scores: &[i16],
    results: &[i8],
    params: ValidationParams<f32>,
) -> AccuracyReport<f32> {
    let outputs: Vec<ModelOutput<f32>> = outputs.iter().map(|&v| classify(v)).collect();
    compute_test_metrics(&outputs, scores, results, params)
}

#[test]
fn decisive_sign_accuracy_excludes_draws() {
    let report =
        metrics(&[1.0, -1.0, 0.0, -0.5], &[100, -100, 0, 50], &[1, -1, 0, 1], standard_params());
    assert_eq!(report.compared, 3);
    assert_eq!(report.sign_matches, 2);
    assert_eq!(report.drawn_games, 1);
    assert_eq!(report.loss_sampled, 4);
    assert!((accuracy(&report) - 2.0 / 3.0).abs() < 1.0e-6);
}

#[test]
fn zero_output_predicts_win() {
    let report = metrics(&[0.0, 0.0], &[0, 0], &[1, -1], standard_params());
    assert_eq!(report.sign_matches, 1);
    assert_eq!(report.compared, 2);
}

#[test]
fn score_cap_excludes_positions_from_both_metrics() {
    let mut params = standard_params();
    params.score_drop_abs = Some(32_000);
    let report = metrics(&[1.0, -1.0, 1.0], &[32_000, -32_000, 100], &[1, -1, 1], params);
    assert_eq!(report.filtered_by_score_cap, 2);
    assert_eq!(report.compared, 1);
    assert_eq!(report.loss_sampled, 1);
}

#[test]
fn loss_uses_wdl_blend() {
    let mut params = standard_params();
    params.blend = 0.0;
    let report = metrics(&[0.25, -0.25], &[100, -100], &[-1, 1], params);
    assert!(test_loss(&report).unwrap() < 1.0e-12);
}

#[test]
fn loss_uses_wrm_target_and_output() {
    let wrm = WrmTargetParams { scaling: 380.0, offset: 270.0 };
    let params = ValidationParams {
        blend: 0.0,
        eval_scale: 600.0,
        wrm_target: Some(wrm),
        wrm_output: Some(WrmOutputParams { in_scaling: 380.0, out_scaling: 600.0, offset: 270.0 }),
        score_drop_abs: None,
    };
    let report = metrics(&[0.5, -0.5], &[300, -300], &[1, -1], params);
    assert!(test_loss(&report).unwrap() < 1.0e-12);
}

#[test]
fn empty_input_has_no_loss_and_nan_accuracy() {
    let report = metrics(&[], &[], &[], standard_params());
    assert_eq!(test_loss(&report), None);
    assert!(accuracy(&report).is_nan());
}

#[test]
fn nan_output_does_not_masquerade_as_loss_sign_match() {
    let report = metrics(&[f32::NAN], &[-100], &[-1], standard_params());
    assert_eq!(report.compared, 1);
    assert_eq!(report.sign_matches, 0);
    assert_eq!(report.non_finite, 1);
    assert_eq!(report.loss_sampled, 0);
    assert_eq!(test_loss(&report), None);
}

#[test]
fn non_finite_outputs_are_excluded_from_loss_and_counted_as_mismatch() {
    let report = metrics(
        &[f32::NAN, f32::INFINITY, 1.0],
        &[100, -100, 50],
        &[1, -1, 1],
        standard_params(),
    );
    assert_eq!(report.compared, 3);
    assert_eq!(report.sign_matches, 1);
    assert_eq!(report.non_finite, 2);
    assert_eq!(report.loss_sampled, 1);
    assert!(test_loss(&report).unwrap().is_finite());
}

#[test]
fn score_cap_takes_the_size_of_the_lowest_score() {
    let mut params = standard_params();
    params.score_drop_abs = Some(32_768);
    let report = metrics(&[1.0, 1.0], &[i16::MIN, i16::MAX], &[1, 1], params);
    assert_eq!(report.filtered_by_score_cap, 1);
    params.score_drop_abs = Some(0);
    let report = metrics(&[1.0, f32::NAN], &[0, 5], &[0, 1], params);
    assert_eq!(report.filtered_by_score_cap, 2);
    assert_eq!(report.drawn_games, 0);
    assert_eq!(report.non_finite, 0);
    assert!(report.test_loss.is_none());
}

#[test]
fn every_position_is_accounted_for() {
    let mut params = standard_params();
    params.score_drop_abs = Some(1000);
    let report = metrics(
        &[1.0, f32::NAN, -1.0, f32::NEG_INFINITY, 0.5],
        &[1000, 10, 20, 30, -999],
        &[1, 0, -1, 1, 0],
        params,
    );
    assert_eq!(report.filtered_by_score_cap, 1);
    assert_eq!(report.drawn_games, 2);
    assert_eq!(report.compared, 2);
    assert_eq!(report.sign_matches, 1);
    assert_eq!(report.non_finite, 2);
    assert_eq!(report.loss_sampled, 2);
    assert_eq!(report.test_loss.unwrap().terms.len(), 2);
}

#[test]
fn reports_add_up() {
    let mut params = standard_params();
    params.score_drop_abs = Some(1000);
    let outputs = [1.0, f32::NAN, -1.0, 0.0, f32::INFINITY, 0.5, -0.25];
    let scores = [1000, 10, 20, -5, 30, -999, -1001];
    let results = [1, 0, -1, 1, 1, 0, -1];
    let whole = metrics(&outputs, &scores, &results, params);
    for cut in 0..=7 {
        let a = metrics(&outputs[..cut], &scores[..cut], &results[..cut], params);
        let b = metrics(&outputs[cut..], &scores[cut..], &results[cut..], params);
        assert_eq!(whole.compared, a.compared + b.compared);
        assert_eq!(whole.sign_matches, a.sign_matches + b.sign_matches);
        assert_eq!(whole.drawn_games, a.drawn_games + b.drawn_games);
        assert_eq!(
            whole.filtered_by_score_cap,
            a.filtered_by_score_cap + b.filtered_by_score_cap
        );
        assert_eq!(whole.non_finite, a.non_finite + b.non_finite);
        assert_eq!(whole.loss_sampled, a.loss_sampled + b.loss_sampled);
    }
    assert_eq!((whole.compared, whole.sign_matches, whole.loss_sampled), (3, 2, 3));
}

#[test]
fn loss_terms_carry_what_they_are_made_of() {
    let mut params = standard_params();
    params.blend = 0.25;
    let report = metrics(&[0.5, -2.0], &[40, -7], &[5, -3], params);
    let terms = report.test_loss.unwrap().terms;
    assert_eq!(terms[0].result, GameResult::Win);
    assert_eq!(terms[1].result, GameResult::Loss);
    assert_eq!(terms[1].blend, 0.25);
    assert!(matches!(terms[0].score, ScoreFormula::Sigmoid { score: 40, .. }));
    assert!(matches!(terms[1].prediction, PredictionFormula::Sigmoid { output } if output == -2.0));
}

#[test]
fn psv_records_are_read_in_order() {
    let mut data = vec![0u8; 120];
    for i in 0..3usize {
        data[40 * i] = i as u8 + 1;
        data[40 * i + 36] = 10 * (i as u8 + 1);
    }
    let all = read_psv_positions(&data, 0).unwrap();
    let plies: Vec<u16> = all.iter().map(|p| p.game_ply()).collect();
    assert_eq!(plies, vec![10, 20, 30]);
    assert_eq!(all[2].bytes[0], 3);
    assert_eq!(read_psv_positions(&data, 2).unwrap().len(), 2);
    assert_eq!(read_psv_positions(&data, 3).unwrap().len(), 3);
    assert_eq!(read_psv_positions(&data, 9).unwrap().len(), 3);
    assert_eq!(read_psv_positions(&[], 0).unwrap().len(), 0);
}

#[test]
fn psv_size_must_be_whole_records() {
    let err = read_psv_positions(&[0u8; 121], 1).unwrap_err();
    assert_eq!(err, PsvError::PartialRecord { file_size: 121 });
    assert_eq!(err.message("data/a.bin"), "data/a.bin: size 121 is not a multiple of 40");
    assert_eq!(plan_psv_read(121, 1), Err(PsvError::PartialRecord { file_size: 121 }));
    assert_eq!(plan_psv_read(4000, 0), Ok(100));
    assert_eq!(plan_psv_read(4000, 7), Ok(7));
}

#[test]
fn loss_is_the_mean_square_of_its_terms() {
    // Outputs of zero predict one half, which is off by one half from a win and right for a draw.
    let report = metrics(&[0.0, 0.0], &[0, 0], &[1, 0], standard_params());
    assert_eq!(test_loss(&report), Some(0.125));
    let first = metrics(&[0.0], &[0], &[1], standard_params());
    let second = metrics(&[0.0], &[0], &[0], standard_params());
    assert_eq!(test_loss(&first), Some(0.25));
    assert_eq!(test_loss(&second), Some(0.0));
}

#[test]
fn win_rates_of_opposite_scores_make_up_one() {
    for score in [0.0, 1.0, 250.0, 3000.0] {
        let both = win_rate(score, 380.0, 270.0) + win_rate(-score, 380.0, 270.0);
        assert!((both - 1.0).abs() < 1e-6);
    }
}

#[test]
fn win_rate_is_a_rate() {
    assert_eq!(win_rate(0.0, 380.0, 270.0), 0.5);
    let mut last = 0.0;
    for score in (-3000..=3000).step_by(100) {
        let score = score as f32;
        let rate = win_rate(score, 380.0, 270.0);
        assert!((0.0..=1.0).contains(&rate));
        assert!(rate >= last);
        last = rate;
        assert!((win_rate(score, 380.0, 0.0) - sigmoid(score / 380.0)).abs() < 1e-6);
    }
}

#[test]
fn reordering_keeps_the_counts() {
    let mut params = standard_params();
    params.score_drop_abs = Some(1000);
    let a = metrics(
        &[1.0, f32::NAN, -1.0, 0.0, 0.5],
        &[1000, 10, 20, -5, 7],
        &[1, 0, -1, 1, -1],
        params,
    );
    let b = metrics(
        &[0.5, -1.0, 1.0, 0.0, f32::NAN],
        &[7, 20, 1000, -5, 10],
        &[-1, -1, 1, 1, 0],
        params,
    );
    assert_eq!((a.compared, a.sign_matches, a.drawn_games), (3, 2, 1));
    assert_eq!((b.compared, b.sign_matches, b.drawn_games), (3, 2, 1));
    assert_eq!((a.filtered_by_score_cap, a.non_finite, a.loss_sampled), (1, 1, 3));
    assert_eq!((b.filtered_by_score_cap, b.non_finite, b.loss_sampled), (1, 1, 3));
}

#[test]
fn reports_are_compared_and_cloned() {
    let report = metrics(&[1.0, -1.0], &[100, -100], &[1, -1], standard_params());
    assert_eq!(report.clone(), report);
    assert_ne!(report, AccuracyReport::default());
    assert_eq!(metrics(&[], &[], &[], standard_params()), AccuracyReport::default());
    let wrm = WrmOutputParams { in_scaling: 380.0, out_scaling: 600.0, offset: 270.0 };
    assert_eq!(wrm, wrm.clone());
}

#[test]
fn blend_weighs_the_result() {
    let mut params = standard_params();
    for (blend, target) in [(1.0f32, 1.0f64), (0.0, 0.5), (0.5, 0.75)] {
        params.blend = blend;
        let report = metrics(&[0.0], &[0], &[1], params);
        let off = error(&report.test_loss.unwrap().terms[0]);
        assert!((off - (0.5 - target)).abs() < 1e-6);
    }
}
