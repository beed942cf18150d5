use bullet_shogi::value::trainer::{
    eval_chunks, BatchAction, Chunk, EvalFormula, LocalSettings, LossRecord, TrainLoss,
    TrainingRun, TrainingSchedule, TrainingSteps, ValueTrainer, ValueTrainerState,
};

fn trainer() -> ValueTrainer<&'static str, u8, u16, u32, f32> {
    ValueTrainer {
        state: ValueTrainerState {
            input_getter: "halfka-hm",
            output_getter: 9,
            blend_getter: 7,
            weight_getter: None,
            wrm_target: None,
            wdl: true,
            score_drop_abs: Some(31000),
        },
    }
}

fn schedule(batches_per_superbatch: usize) -> TrainingSchedule<f32, u8, u64> {
    TrainingSchedule {
        net_id: "net".to_string(),
        eval_scale: 600.0,
        steps: TrainingSteps {
            batch_size: 16,
            batches_per_superbatch,
            start_superbatch: 1,
            end_superbatch: 7,
        },
        wdl_scheduler: 42,
        lr_scheduler: 1,
        save_rate: 3,
    }
}

fn settings() -> LocalSettings {
    LocalSettings {
        threads: 4,
        test_set: None,
        output_directory: "checkpoints".to_string(),
        batch_queue_size: 64,
    }
}

fn records_of(run: &mut TrainingRun, superbatches: usize) -> Vec<LossRecord> {
    let mut out = Vec::new();
    for superbatch in 1..=superbatches {
        for batch in 1..=run.steps.batches_per_superbatch {
            if let Some(r) = run.on_batch(superbatch, batch).record {
                out.push(r);
            }
        }
    }
    out
}

#[test]
fn loader_gets_the_rules_of_the_state() {
    let t = trainer();
    let s = schedule(100);
    let (request, run) = t.run(&s, &settings(), &"data.bin");
    assert_eq!(*request.rules.input_getter, "halfka-hm");
    assert_eq!(request.rules.output_getter, 9);
    assert_eq!(request.rules.blend_getter, 7);
    assert!(request.rules.wdl);
    assert_eq!(request.rules.score_drop_abs, Some(31000));
    assert_eq!(request.eval_scale, 600.0);
    assert_eq!(request.threads, 4);
    assert_eq!(*request.wdl_scheduler, 42);
    assert_eq!(*request.dataloader, "data.bin");
    assert_eq!(run.validation_batch_size, None);
    let measured = t.measure_max_cpu_throughput(&s, &settings(), &"data.bin");
    assert_eq!(measured.steps, s.steps);
    assert_eq!(*measured.dataloader, "data.bin");
    assert_eq!(t.state.clone().score_drop_abs, Some(31000));
    let batch = [1u8, 2, 3];
    let prepared = t.state.prepare(&batch, 2, 0.5, 400.0);
    assert_eq!(prepared.batch, &[1, 2, 3]);
    assert_eq!(prepared.threads, 2);
    assert_eq!(prepared.blend, 0.5);
    assert_eq!(prepared.scale, 400.0);
}

#[test]
fn evaluation_is_prepared_unblended() {
    let t = trainer();
    let batch = [4u8, 5];
    let prepared = t.state.prepare_for_eval(&batch, 1.0);
    assert_eq!(prepared.batch, &[4, 5]);
    assert_eq!(prepared.threads, 1);
    assert_eq!(prepared.blend, 1.0);
    assert_eq!(prepared.scale, 1.0);
    assert_eq!(prepared.rules.output_getter, 9);
    assert_eq!(prepared.rules.score_drop_abs, Some(31000));
}

#[test]
fn divisors_add_up_to_the_losses() {
    for per in [1usize, 5, 31, 32, 33, 64, 100] {
        let (t, s) = (trainer(), schedule(per));
        let (_, mut run) = t.run(&s, &settings(), &"data.bin");
        let divisors: usize = records_of(&mut run, 7).iter().map(|r| r.divisor).sum();
        assert_eq!(divisors + run.ticks_since_last, 7 * per);
    }
}

#[test]
fn superbatch_sum_is_of_one_superbatch() {
    let (t, s) = (trainer(), schedule(5));
    let (_, mut run) = t.run_with_validation(&s, &settings(), &"data.bin", &[0u8; 3], 2);
    for (superbatch, count) in [(3, 1), (3, 2), (4, 1), (4, 2), (4, 3), (3, 1)] {
        run.on_batch(superbatch, 1);
        assert_eq!(run.sum_superbatch, superbatch);
        assert_eq!(run.sum_count, count);
    }
}

#[test]
fn test_set_is_warned_of() {
    let mut s = settings();
    assert_eq!(s.preamble_warning(), None);
    s.test_set = Some("x.bin".to_string());
    assert!(s.preamble_warning().unwrap().starts_with("Warning: Validation data"));
}

#[test]
fn losses_are_recorded_each_interval() {
    let (t, s) = (trainer(), schedule(70));
    let (_, mut run) = t.run(&s, &settings(), &"data.bin");
    let records = records_of(&mut run, 2);
    let seen: Vec<(usize, usize, usize)> =
        records.iter().map(|r| (r.superbatch, r.batch, r.divisor)).collect();
    // Six batches of the first superbatch wait for the first record of the second.
    assert_eq!(seen, vec![(1, 32, 32), (1, 64, 32), (2, 32, 38), (2, 64, 32)]);
    assert_eq!(run.ticks_since_last, 6);
}

#[test]
fn short_superbatches_are_recorded_at_their_end() {
    let (t, s) = (trainer(), schedule(5));
    let (_, mut run) = t.run(&s, &settings(), &"data.bin");
    let records = records_of(&mut run, 2);
    let seen: Vec<(usize, usize, usize)> =
        records.iter().map(|r| (r.superbatch, r.batch, r.divisor)).collect();
    assert_eq!(seen, vec![(1, 5, 5), (2, 5, 5)]);
}

#[test]
fn divisor_is_at_most_a_superbatch() {
    let (t, s) = (trainer(), schedule(5));
    let (_, mut run) = t.run(&s, &settings(), &"data.bin");
    for _ in 0..9 {
        assert_eq!(run.on_batch(1, 1).record, None);
    }
    let record = run.on_batch(1, 64).record;
    assert_eq!(record, Some(LossRecord { superbatch: 1, batch: 64, divisor: 5 }));
}

#[test]
fn superbatch_sum_restarts_only_with_validation() {
    let (t, s) = (trainer(), schedule(100));
    let (_, mut plain) = t.run(&s, &settings(), &"data.bin");
    assert_eq!(
        plain.on_batch(2, 1),
        BatchAction { restart_superbatch_sum: false, add_to_superbatch_sum: false, record: None }
    );
    assert_eq!(plain.on_superbatch_end(2).validate, None);

    let (_, mut run) = t.run_with_validation(&s, &settings(), &"data.bin", &[0u8; 3], 2);
    assert_eq!(run.on_superbatch_end(1).validate, Some(TrainLoss::Undefined));
    assert_eq!(
        run.on_batch(1, 1),
        BatchAction { restart_superbatch_sum: false, add_to_superbatch_sum: true, record: None }
    );
    run.on_batch(1, 2);
    assert_eq!(run.on_superbatch_end(1).validate, Some(TrainLoss::Mean { count: 2 }));
    assert_eq!(
        run.on_batch(2, 1),
        BatchAction { restart_superbatch_sum: true, add_to_superbatch_sum: true, record: None }
    );
    assert_eq!(run.on_superbatch_end(2).validate, Some(TrainLoss::Mean { count: 1 }));
    assert_eq!(run.validation_batch_size, Some(2));
}

#[test]
fn checkpoints_come_at_the_save_rate_and_at_the_end() {
    let (t, s) = (trainer(), schedule(100));
    let (_, run) = t.run(&s, &settings(), &"data.bin");
    let saved: Vec<usize> = (1..=7).filter(|&sb| run.on_superbatch_end(sb).save.is_some()).collect();
    assert_eq!(saved, vec![3, 6, 7]);
    let c = run.on_superbatch_end(6).save.unwrap();
    assert_eq!(c.name, "net-6");
    assert_eq!(c.path, "checkpoints/net-6");
    assert_eq!(c.log_path, "checkpoints/net-6/log.txt");
}

#[test]
fn evaluation_is_chunked_with_two_allocations() {
    assert_eq!(
        eval_chunks(7, 3),
        vec![
            Chunk { start: 0, end: 3, allocate: true },
            Chunk { start: 3, end: 6, allocate: false },
            Chunk { start: 6, end: 7, allocate: true },
        ]
    );
    assert_eq!(eval_chunks(0, 3), vec![]);
    assert_eq!(eval_chunks(2, 3), vec![Chunk { start: 0, end: 2, allocate: true }]);
    let even = eval_chunks(1000, 10);
    assert_eq!(even.len(), 100);
    assert_eq!(even.iter().filter(|c| c.allocate).count(), 1);
    assert_eq!(even[99].end, 1000);
}

#[test]
fn outputs_are_read_by_their_number() {
    let t = trainer();
    assert!(matches!(t.eval(&[0.5]), EvalFormula::Score(v) if v == 0.5));
    assert!(matches!(
        t.eval(&[1.0, 2.0, 3.0]),
        EvalFormula::Wdl { loss, draw, win } if loss == 1.0 && draw == 2.0 && win == 3.0
    ));
    assert_eq!(t.eval_record("8/8 w - -"), "8/8 w - - | 0 | 0.0");
}

#[test]
fn records_are_means_of_their_losses() {
    let (t, s) = (trainer(), schedule(40));
    let (_, mut run) = t.run_with_validation(&s, &settings(), &"data.bin", &[0u8; 3], 2);
    let mut superbatch_sum = 0.0f64;
    let mut since_last = 0.0f64;
    let mut records = Vec::new();
    for superbatch in 1..=2usize {
        for batch in 1..=40usize {
            let loss = (100 * superbatch + batch) as f64;
            let action = run.on_batch(superbatch, batch);
            if action.restart_superbatch_sum {
                superbatch_sum = 0.0;
            }
            if action.add_to_superbatch_sum {
                superbatch_sum += loss;
            }
            since_last += loss;
            if let Some(r) = action.record {
                records.push(since_last / r.divisor as f64);
                since_last = 0.0;
            }
        }
    }
    // 101 to 132; then 133 to 140 and 201 to 232, forty in all.
    assert_eq!(records, vec![116.5, (8.0 * 136.5 + 32.0 * 216.5) / 40.0]);
    // 201 to 240.
    assert_eq!(superbatch_sum / run.sum_count as f64, 220.5);
}

fn evaluate(formula: EvalFormula<f32>) -> f32 {
    match formula {
        EvalFormula::Wdl { loss, draw, win } => {
            let max = win.max(draw).max(loss);
            let (win, draw, loss) = ((win - max).exp(), (draw - max).exp(), (loss - max).exp());
            (win + draw / 2.0) / (win + draw + loss)
        }
        EvalFormula::Score(score) => score,
    }
}

#[test]
fn evaluation_by_win_draw_and_loss() {
    let t = trainer();
    assert_eq!(evaluate(t.eval(&[3.0, 3.0, 3.0])), 0.5);
    assert!(evaluate(t.eval(&[-50.0, 0.0, 50.0])) > 0.999);
    assert!(evaluate(t.eval(&[50.0, 0.0, -50.0])) < 0.001);
    // Win and loss exchanged give the complement.
    let (a, b) = (evaluate(t.eval(&[1.0, 0.5, 4.0])), evaluate(t.eval(&[4.0, 0.5, 1.0])));
    assert!((a + b - 1.0).abs() < 1e-6);
    assert_eq!(evaluate(t.eval(&[2.0, -7.0, 2.0])), 0.5);
    // It grows with win and falls with loss.
    for x in [-3.0, 0.0, 1.0, 5.0] {
        assert!(evaluate(t.eval(&[1.0, 2.0, x])) < evaluate(t.eval(&[1.0, 2.0, x + 1.0])));
        assert!(evaluate(t.eval(&[x, 2.0, 1.0])) > evaluate(t.eval(&[x + 1.0, 2.0, 1.0])));
    }
    // Adding one number to all outputs changes nothing.
    assert_eq!(evaluate(t.eval(&[1.0, 2.0, 4.0])), evaluate(t.eval(&[9.0, 10.0, 12.0])));
}

#[test]
fn batch_size_does_not_change_outputs() {
    let positions: Vec<u32> = (0..23).collect();
    let expected: Vec<u32> = positions.iter().map(|p| p * p).collect();
    for batch_size in [1, 2, 5, 22, 23, 24, 100] {
        let mut outputs = Vec::new();
        for chunk in eval_chunks(positions.len(), batch_size) {
            outputs.extend(positions[chunk.start..chunk.end].iter().map(|p| p * p));
        }
        assert_eq!(outputs, expected);
    }
}
