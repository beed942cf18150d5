//! The decisions of a value-network trainer: what the data loader is asked for, what happens after
//! each batch and each superbatch, and how positions are evaluated.
//!
//! Losses and outputs are numbers of a type `L` that is carried but never computed with. Whoever
//! runs the network adds them up as the actions given here say.
use vstd::prelude::*;

use crate::exact::{in_unit_interval, is_exponential, sum_becomes_product};
use crate::text::decimal;
use crate::value::validate::WrmTargetParams;

verus! {

/// Losses are recorded at each multiple of this many batches.
pub const LOSS_RECORD_INTERVAL: usize = 32;

/// How many batches pass between two lines of the training log.
pub const LOG_RATE: usize = 128;

// ---------------------------------------------------------------------------------------------
// Settings
// ---------------------------------------------------------------------------------------------

/// How long training goes on.
#[derive(Clone, Copy, Debug, PartialEq, Eq, Structural)]
pub struct TrainingSteps {
    pub batch_size: usize,
    pub batches_per_superbatch: usize,
    pub start_superbatch: usize,
    pub end_superbatch: usize,
}

/// What is trained, and by which schedules.
pub struct TrainingSchedule<L, Lr, Wdl> {
    pub net_id: String,
    pub eval_scale: L,
    pub steps: TrainingSteps,
    pub wdl_scheduler: Wdl,
    pub lr_scheduler: Lr,
    pub save_rate: usize,
}

/// How the machine is used.
pub struct LocalSettings {
    pub threads: usize,
    pub test_set: Option<String>,
    pub output_directory: String,
    pub batch_queue_size: usize,
}

impl LocalSettings {
    pub open spec fn preamble_warning_spec(&self) -> Option<Seq<char>> {
        match self.test_set {
            Some(_) => Some(
                "Warning: Validation data not currently implemented! Please bother me on discord."@,
            ),
            None => None,
        }
    }

    /// The warning shown before training, if there is one: a test set is not used.
    pub fn preamble_warning(&self) -> (text: Option<&'static str>)
        ensures
            text is Some <==> self.preamble_warning_spec() is Some,
            text is Some <==> self.test_set is Some,
            text matches Some(t) ==> t@
                == "Warning: Validation data not currently implemented! Please bother me on discord."@,
            text matches Some(t) ==> Some(t@) == self.preamble_warning_spec(),
    {
        match &self.test_set {
            Some(_) => Some(
                "Warning: Validation data not currently implemented! Please bother me on discord.",
            ),
            None => None,
        }
    }
}

// ---------------------------------------------------------------------------------------------
// What the data loader is asked for
// ---------------------------------------------------------------------------------------------

/// How a position is turned into a training sample.
#[derive(Clone)]
pub struct ValueTrainerState<Inp, Out, Bl, Wgt, L> {
    pub input_getter: Inp,
    pub output_getter: Out,
    pub blend_getter: Bl,
    pub weight_getter: Option<Wgt>,
    /// Teacher scores become win-rate targets where this is set.
    pub wrm_target: Option<WrmTargetParams<L>>,
    pub wdl: bool,
    /// Positions whose score is at least this large, either way, do not enter the loss.
    pub score_drop_abs: Option<u16>,
}

/// The rules of a [`ValueTrainerState`], handed to a loader.
pub struct SampleRules<'a, Inp, Out, Bl, Wgt, L> {
    pub input_getter: &'a Inp,
    pub output_getter: Out,
    pub blend_getter: Bl,
    pub weight_getter: Option<Wgt>,
    pub wrm_target: Option<WrmTargetParams<L>>,
    pub wdl: bool,
    pub score_drop_abs: Option<u16>,
}

/// A batch to be prepared for the network.
pub struct PrepareRequest<'a, Inp, Out, Bl, Wgt, L, T> {
    pub rules: SampleRules<'a, Inp, Out, Bl, Wgt, L>,
    pub batch: &'a [T],
    pub threads: usize,
    pub blend: L,
    pub scale: L,
}

/// A stream of prepared batches, of the positions that `dataloader` gives.
pub struct LoaderRequest<'a, Inp, Out, Bl, Wgt, L, Wdl, D> {
    pub rules: SampleRules<'a, Inp, Out, Bl, Wgt, L>,
    pub eval_scale: L,
    pub steps: TrainingSteps,
    pub threads: usize,
    pub wdl_scheduler: &'a Wdl,
    pub dataloader: &'a D,
}

impl<Inp, Out: Copy, Bl: Copy, Wgt: Copy, L: Copy> ValueTrainerState<Inp, Out, Bl, Wgt, L> {
    /// `rules` are those of this state.
    pub open spec fn has_rules(&self, rules: SampleRules<Inp, Out, Bl, Wgt, L>) -> bool {
        &&& *rules.input_getter == self.input_getter
        &&& rules.output_getter == self.output_getter
        &&& rules.blend_getter == self.blend_getter
        &&& rules.weight_getter == self.weight_getter
        &&& rules.wrm_target == self.wrm_target
        &&& rules.wdl == self.wdl
        &&& rules.score_drop_abs == self.score_drop_abs
    }

    fn rules(&self) -> (rules: SampleRules<'_, Inp, Out, Bl, Wgt, L>)
        ensures
            self.has_rules(rules),
    {
        SampleRules {
            input_getter: &self.input_getter,
            output_getter: self.output_getter,
            blend_getter: self.blend_getter,
            weight_getter: self.weight_getter,
            wrm_target: self.wrm_target,
            wdl: self.wdl,
            score_drop_abs: self.score_drop_abs,
        }
    }

    /// Asks for a batch to be prepared.
    pub fn prepare<'a, T>(
        &'a self,
        batch: &'a [T],
        threads: usize,
        blend: L,
        scale: L,
    ) -> (request: PrepareRequest<'a, Inp, Out, Bl, Wgt, L, T>)
        ensures
            self.has_rules(request.rules),
            request.batch@ == batch@,
            request.threads == threads,
            request.blend == blend,
            request.scale == scale,
    {
        PrepareRequest { rules: self.rules(), batch, threads, blend, scale }
    }

    /// Asks for a batch to be prepared for evaluation: on one thread, with nothing blended in and
    /// nothing scaled. `one` is the number one.
    pub fn prepare_for_eval<'a, T>(&'a self, batch: &'a [T], one: L) -> (request: PrepareRequest<
        'a,
        Inp,
        Out,
        Bl,
        Wgt,
        L,
        T,
    >)
        ensures
            self.has_rules(request.rules),
            request.batch@ == batch@,
            request.threads == 1,
            request.blend == one,
            request.scale == one,
    {
        self.prepare(batch, 1, one, one)
    }
}

/// A state hands on each of its rules as it is.
pub proof fn law_rules_are_handed_on<Inp, Out: Copy, Bl: Copy, Wgt: Copy, L: Copy>(
    state: ValueTrainerState<Inp, Out, Bl, Wgt, L>,
    rules: SampleRules<Inp, Out, Bl, Wgt, L>,
)
    requires
        state.has_rules(rules),
    ensures
        *rules.input_getter == state.input_getter,
        rules.output_getter == state.output_getter,
        rules.blend_getter == state.blend_getter,
        rules.weight_getter == state.weight_getter,
        rules.wrm_target == state.wrm_target,
        rules.wdl == state.wdl,
        rules.score_drop_abs == state.score_drop_abs,
{
}

// ---------------------------------------------------------------------------------------------
// A training run
// ---------------------------------------------------------------------------------------------

/// A loss to be recorded: the sum of the losses since the last record, divided by `divisor`.
#[derive(Clone, Copy, Debug, PartialEq, Eq, Structural)]
pub struct LossRecord {
    pub superbatch: usize,
    pub batch: usize,
    pub divisor: usize,
}

/// What to do with the loss of a batch, in this order: start the superbatch's sum afresh, add the
/// loss to it, add the loss to the sum since the last record, make the record and start that sum
/// afresh.
#[derive(Clone, Copy, Debug, PartialEq, Eq, Structural)]
pub struct BatchAction {
    pub restart_superbatch_sum: bool,
    pub add_to_superbatch_sum: bool,
    pub record: Option<LossRecord>,
}

/// The training loss that a validation is reported with.
#[derive(Clone, Copy, Debug, PartialEq, Eq, Structural)]
pub enum TrainLoss {
    /// There was no batch to take it from.
    Undefined,
    /// The superbatch's sum divided by `count`.
    Mean { count: usize },
}

/// Where a checkpoint goes.
#[derive(Debug)]
pub struct Checkpoint {
    pub name: String,
    pub path: String,
    pub log_path: String,
}

/// What to do after a superbatch: validate, then save.
#[derive(Debug)]
pub struct SuperbatchAction {
    pub validate: Option<TrainLoss>,
    pub save: Option<Checkpoint>,
}

pub open spec fn checkpoint_name_spec(net_id: Seq<char>, superbatch: nat) -> Seq<char> {
    net_id + "-"@ + crate::text::decimal_digits(superbatch)
}

pub open spec fn checkpoint_path_spec(
    directory: Seq<char>,
    net_id: Seq<char>,
    superbatch: nat,
) -> Seq<char> {
    directory + "/"@ + checkpoint_name_spec(net_id, superbatch)
}

/// Names the checkpoint of a superbatch.
fn checkpoint(directory: &str, net_id: &str, superbatch: usize) -> (c: Checkpoint)
    ensures
        c.name@ == checkpoint_name_spec(net_id@, superbatch as nat),
        c.path@ == checkpoint_path_spec(directory@, net_id@, superbatch as nat),
        c.log_path@ == c.path@ + "/log.txt"@,
{
    let mut name = net_id.to_owned();
    name.append("-");
    name.append(decimal(superbatch).as_str());
    let mut path = directory.to_owned();
    path.append("/");
    path.append(name.as_str());
    let mut log_path = path.clone();
    log_path.append("/log.txt");
    Checkpoint { name, path, log_path }
}

/// A loss is recorded after batch `batch`.
pub open spec fn is_record_point(batches_per_superbatch: int, batch: int) -> bool {
    batch % LOSS_RECORD_INTERVAL as int == 0 || (batches_per_superbatch < LOSS_RECORD_INTERVAL
        && batch == batches_per_superbatch)
}

/// What a training run keeps between batches, but for the sums of losses.
pub struct TrainingRun {
    pub net_id: String,
    pub output_directory: String,
    pub steps: TrainingSteps,
    pub save_rate: usize,
    /// The network is validated after each superbatch, this many positions at a time.
    pub validation_batch_size: Option<usize>,
    /// The superbatch that the superbatch's sum is of.
    pub sum_superbatch: usize,
    /// How many losses are in the superbatch's sum.
    pub sum_count: usize,
    /// How many losses are in the sum since the last record.
    pub ticks_since_last: usize,
}

impl TrainingRun {
    /// The settings of two runs are the same.
    pub open spec fn same_settings(&self, other: &TrainingRun) -> bool {
        &&& self.net_id@ == other.net_id@
        &&& self.output_directory@ == other.output_directory@
        &&& self.steps == other.steps
        &&& self.save_rate == other.save_rate
        &&& self.validation_batch_size == other.validation_batch_size
    }

    /// The run has only just begun, with the settings given.
    pub open spec fn starts<L, Lr, Wdl>(
        &self,
        schedule: &TrainingSchedule<L, Lr, Wdl>,
        settings: &LocalSettings,
        validation_batch_size: Option<usize>,
    ) -> bool {
        &&& self.net_id@ == schedule.net_id@
        &&& self.output_directory@ == settings.output_directory@
        &&& self.steps == schedule.steps
        &&& self.save_rate == schedule.save_rate
        &&& self.validation_batch_size == validation_batch_size
        &&& self.sum_superbatch == schedule.steps.start_superbatch
        &&& self.sum_count == 0
        &&& self.ticks_since_last == 0
    }

    fn start<L, Lr, Wdl>(
        schedule: &TrainingSchedule<L, Lr, Wdl>,
        settings: &LocalSettings,
        validation_batch_size: Option<usize>,
    ) -> (run: TrainingRun)
        ensures
            run.starts(schedule, settings, validation_batch_size),
    {
        TrainingRun {
            net_id: schedule.net_id.clone(),
            output_directory: settings.output_directory.clone(),
            steps: schedule.steps,
            save_rate: schedule.save_rate,
            validation_batch_size,
            sum_superbatch: schedule.steps.start_superbatch,
            sum_count: 0,
            ticks_since_last: 0,
        }
    }

    /// The superbatch's sum is of another superbatch than this one, and has to start afresh.
    pub open spec fn sum_is_stale(&self, superbatch: usize) -> bool {
        self.validation_batch_size is Some && self.sum_superbatch != superbatch
    }

    /// Batch `batch` of superbatch `superbatch` takes this run to `after`, and `action` is done with
    /// its loss.
    pub open spec fn batch_step(
        &self,
        superbatch: usize,
        batch: usize,
        after: &TrainingRun,
        action: BatchAction,
    ) -> bool {
        let per_superbatch = self.steps.batches_per_superbatch as int;
        &&& after.same_settings(self)
        &&& self.validation_batch_size is None ==> after.sum_superbatch == self.sum_superbatch
            && after.sum_count == self.sum_count
        &&& self.validation_batch_size is Some ==> after.sum_superbatch == superbatch
            && after.sum_count == (if self.sum_is_stale(superbatch) {
            1
        } else {
            self.sum_count + 1
        })
        &&& after.ticks_since_last == (if is_record_point(per_superbatch, batch as int) {
            0
        } else {
            self.ticks_since_last + 1
        })
        &&& action.restart_superbatch_sum == self.sum_is_stale(superbatch)
        &&& action.add_to_superbatch_sum == (self.validation_batch_size is Some)
        &&& action.record is Some <==> is_record_point(per_superbatch, batch as int)
        &&& action.record matches Some(r) ==> {
            &&& r.superbatch == superbatch
            &&& r.batch == batch
            &&& r.divisor == (if self.ticks_since_last + 1 < per_superbatch {
                self.ticks_since_last + 1
            } else {
                per_superbatch
            })
        }
    }

    /// Takes in that a batch was trained on.
    pub fn on_batch(&mut self, superbatch: usize, batch: usize) -> (action: BatchAction)
        requires
            old(self).sum_count < usize::MAX,
            old(self).ticks_since_last < usize::MAX,
        ensures
            old(self).batch_step(superbatch, batch, final(self), action),
    {
        let validates = self.validation_batch_size.is_some();
        let restart = validates && self.sum_superbatch != superbatch;
        if restart {
            self.sum_superbatch = superbatch;
            self.sum_count = 0;
        }
        if validates {
            self.sum_count = self.sum_count + 1;
        }
        self.ticks_since_last = self.ticks_since_last + 1;
        let per_superbatch: usize = self.steps.batches_per_superbatch;
        let record = if batch % LOSS_RECORD_INTERVAL == 0 || (per_superbatch < LOSS_RECORD_INTERVAL
            && batch == per_superbatch) {
            let divisor: usize = if self.ticks_since_last < per_superbatch {
                self.ticks_since_last
            } else {
                per_superbatch
            };
            self.ticks_since_last = 0;
            Some(LossRecord { superbatch, batch, divisor })
        } else {
            None
        };
        BatchAction {
            restart_superbatch_sum: restart,
            add_to_superbatch_sum: validates,
            record,
        }
    }

    /// Decides what happens after a superbatch.
    pub fn on_superbatch_end(&self, superbatch: usize) -> (action: SuperbatchAction)
        requires
            self.save_rate > 0,
        ensures
            action.validate == (if self.validation_batch_size is None {
                None
            } else if self.sum_count == 0 {
                Some(TrainLoss::Undefined)
            } else {
                Some(TrainLoss::Mean { count: self.sum_count })
            }),
            action.save is Some <==> superbatch % self.save_rate == 0 || superbatch
                == self.steps.end_superbatch,
            action.save matches Some(c) ==> {
                &&& c.name@ == checkpoint_name_spec(self.net_id@, superbatch as nat)
                &&& c.path@ == checkpoint_path_spec(
                    self.output_directory@,
                    self.net_id@,
                    superbatch as nat,
                )
                &&& c.log_path@ == c.path@ + "/log.txt"@
            },
    {
        let validate = match self.validation_batch_size {
            None => None,
            Some(_) => {
                if self.sum_count == 0 {
                    Some(TrainLoss::Undefined)
                } else {
                    Some(TrainLoss::Mean { count: self.sum_count })
                }
            },
        };
        let save = if superbatch % self.save_rate == 0 || superbatch == self.steps.end_superbatch {
            Some(checkpoint(self.output_directory.as_str(), self.net_id.as_str(), superbatch))
        } else {
            None
        };
        SuperbatchAction { validate, save }
    }
}

/// A checkpoint lies in the output directory, and its name is the network's and the superbatch in
/// decimal, with a dash between them: the superbatch can be read back from it.
pub proof fn law_checkpoint_is_named_after_its_superbatch(
    directory: Seq<char>,
    net_id: Seq<char>,
    superbatch: nat,
)
    ensures
        ({
            let name = checkpoint_name_spec(net_id, superbatch);
            &&& checkpoint_path_spec(directory, net_id, superbatch) == directory + "/"@ + name
            &&& name.take(net_id.len() as int) == net_id
            &&& name[net_id.len() as int] == '-'
            &&& name.skip(net_id.len() as int + 1) == crate::text::decimal_digits(superbatch)
            &&& crate::text::digits_value(name.skip(net_id.len() as int + 1)) == superbatch
        }),
{
    reveal_strlit("-");
    let name = checkpoint_name_spec(net_id, superbatch);
    assert(name.take(net_id.len() as int) =~= net_id);
    assert(name.skip(net_id.len() as int + 1) =~= crate::text::decimal_digits(superbatch));
    crate::text::law_decimal_reads_back(superbatch);
}

/// Two superbatches of a run never share a checkpoint.
pub proof fn law_checkpoints_are_distinct(
    directory: Seq<char>,
    net_id: Seq<char>,
    a: nat,
    b: nat,
)
    requires
        checkpoint_path_spec(directory, net_id, a) == checkpoint_path_spec(directory, net_id, b),
    ensures
        a == b,
{
    let head = directory + "/"@ + (net_id + "-"@);
    let p = checkpoint_path_spec(directory, net_id, a);
    assert(p =~= head + crate::text::decimal_digits(a));
    assert(p =~= head + crate::text::decimal_digits(b));
    assert(crate::text::decimal_digits(a) =~= p.skip(head.len() as int));
    assert(crate::text::decimal_digits(b) =~= p.skip(head.len() as int));
    crate::text::law_decimal_is_injective(a, b);
}

// ---------------------------------------------------------------------------------------------
// Laws of the loss records
// ---------------------------------------------------------------------------------------------

/// How many losses are in no record yet after `batches`, the batch numbers in the order in which
/// they came.
pub open spec fn ticks_after(batches_per_superbatch: int, batches: Seq<int>) -> nat
    decreases batches.len(),
{
    if batches.len() == 0 || is_record_point(batches_per_superbatch, batches.last()) {
        0
    } else {
        ticks_after(batches_per_superbatch, batches.drop_last()) + 1
    }
}

/// How many losses went into the records made after `batches`.
pub open spec fn recorded_after(batches_per_superbatch: int, batches: Seq<int>) -> nat
    decreases batches.len(),
{
    if batches.len() == 0 {
        0
    } else {
        let before = batches.drop_last();
        recorded_after(batches_per_superbatch, before) + (if is_record_point(
            batches_per_superbatch,
            batches.last(),
        ) {
            ticks_after(batches_per_superbatch, before) + 1
        } else {
            0
        })
    }
}

/// Each loss goes into exactly one record, or waits for the next: none is lost and none is counted
/// twice, in whatever order the batches come.
pub proof fn law_every_loss_is_recorded_once(batches_per_superbatch: int, batches: Seq<int>)
    ensures
        recorded_after(batches_per_superbatch, batches) + ticks_after(
            batches_per_superbatch,
            batches,
        ) == batches.len(),
    decreases batches.len(),
{
    if batches.len() > 0 {
        law_every_loss_is_recorded_once(batches_per_superbatch, batches.drop_last());
    }
}

/// The batch numbers of the first `n` batches of a run in which each superbatch counts its batches
/// from 1.
pub open spec fn batches_in_order(batches_per_superbatch: int, n: nat) -> Seq<int> {
    Seq::new(n, |k: int| k % batches_per_superbatch + 1)
}

proof fn lemma_ticks_in_order(per: int, n: nat)
    requires
        per > 0,
    ensures
        ({
            let done = n as int % per;
            ticks_after(per, batches_in_order(per, n)) == (if per < LOSS_RECORD_INTERVAL {
                done
            } else if done >= LOSS_RECORD_INTERVAL {
                done % LOSS_RECORD_INTERVAL as int
            } else if n < per {
                done
            } else {
                per % LOSS_RECORD_INTERVAL as int + done
            })
        }),
    decreases n,
{
    if n == 0 {
        assert(0int % per == 0) by (nonlinear_arith)
            requires
                per > 0,
        ;
    } else {
        let prev = (n - 1) as nat;
        lemma_ticks_in_order(per, prev);
        assert(batches_in_order(per, n).drop_last() =~= batches_in_order(per, prev));
        let batch = prev as int % per + 1;
        assert(batches_in_order(per, n).last() == batch);
        vstd::arithmetic::div_mod::lemma_mod_pos_bound(prev as int, per);
        vstd::arithmetic::div_mod::lemma_fundamental_div_mod(prev as int, per);
        let q = prev as int / per;
        if batch == per {
            assert((q + 1) * per == per * q + per) by (nonlinear_arith);
            vstd::arithmetic::div_mod::lemma_fundamental_div_mod_converse(n as int, per, q + 1, 0);
            assert(n >= per);
            if prev < per {
                assert(q == 0) by (nonlinear_arith)
                    requires
                        prev == per * q + (per - 1),
                        0 <= prev < per,
                ;
            }
        } else {
            assert(q * per == per * q) by (nonlinear_arith);
            vstd::arithmetic::div_mod::lemma_fundamental_div_mod_converse(n as int, per, q, batch);
            assert(prev < per <==> n < per) by {
                if prev < per && n >= per {
                    assert(prev == per - 1);
                    vstd::arithmetic::div_mod::lemma_small_mod(prev, per as nat);
                }
            }
        }
    }
}

/// A loss is recorded after every 32nd batch, and where superbatches are shorter than that, after
/// the last batch of each; after no other batch. The record is of that batch and divides by the
/// losses that have come since the last record, or by the batches of a superbatch where those are
/// fewer. With the record the count starts afresh, and without one it grows by one.
pub proof fn law_batch_step_records(
    before: TrainingRun,
    superbatch: usize,
    batch: usize,
    after: TrainingRun,
    action: BatchAction,
)
    requires
        before.batch_step(superbatch, batch, &after, action),
    ensures
        ({
            let per = before.steps.batches_per_superbatch;
            &&& batch % 32 == 0 ==> action.record is Some
            &&& per < 32 && batch == per ==> action.record is Some
            &&& batch % 32 != 0 && per >= 32 ==> action.record is None
            &&& batch % 32 != 0 && batch != per ==> action.record is None
            &&& action.record is None ==> after.ticks_since_last == before.ticks_since_last + 1
            &&& action.record matches Some(r) ==> {
                &&& after.ticks_since_last == 0
                &&& r.superbatch == superbatch
                &&& r.batch == batch
                &&& r.divisor <= per
                &&& r.divisor <= before.ticks_since_last + 1
                &&& r.divisor == per || r.divisor == before.ticks_since_last + 1
            }
        }),
{
}

/// Losses are recorded every 32 batches, and the log has a line every 128.
pub proof fn law_intervals()
    ensures
        LOSS_RECORD_INTERVAL == 32,
        LOG_RATE == 128,
{
}

/// Of any 32 batches in a row exactly one is followed by a record, where superbatches have at least
/// as many.
pub proof fn law_one_record_in_each_interval(batches_per_superbatch: int, first: int)
    requires
        first >= 0,
        batches_per_superbatch >= 32,
    ensures
        exists|k: int| 0 <= k < 32 && #[trigger] is_record_point(batches_per_superbatch, first + k),
        forall|j: int, k: int|
            0 <= j < 32 && 0 <= k < 32 && #[trigger] is_record_point(
                batches_per_superbatch,
                first + j,
            ) && #[trigger] is_record_point(batches_per_superbatch, first + k) ==> j == k,
{
    let k = (32 - first % 32) % 32;
    assert(is_record_point(batches_per_superbatch, first + k));
}

/// With validation each loss goes into the superbatch's sum, which starts afresh with the first
/// loss of another superbatch. Without it there is no such sum. Settings never change.
pub proof fn law_batch_step_sums(
    before: TrainingRun,
    superbatch: usize,
    batch: usize,
    after: TrainingRun,
    action: BatchAction,
)
    requires
        before.batch_step(superbatch, batch, &after, action),
    ensures
        after.net_id@ == before.net_id@,
        after.output_directory@ == before.output_directory@,
        after.steps == before.steps,
        after.save_rate == before.save_rate,
        after.validation_batch_size == before.validation_batch_size,
        before.validation_batch_size is None ==> {
            &&& !action.restart_superbatch_sum
            &&& !action.add_to_superbatch_sum
            &&& after.sum_superbatch == before.sum_superbatch
            &&& after.sum_count == before.sum_count
        },
        before.validation_batch_size is Some ==> {
            &&& action.add_to_superbatch_sum
            &&& action.restart_superbatch_sum <==> before.sum_superbatch != superbatch
            &&& after.sum_superbatch == superbatch
            &&& before.sum_superbatch == superbatch ==> after.sum_count == before.sum_count + 1
            &&& before.sum_superbatch != superbatch ==> after.sum_count == 1
        },
{
}

/// A batch takes a run whose count of losses is that of the batches so far to one whose count is
/// that of the batches with it; where a record is made, all the losses that waited go into it, and
/// where none is made, none does.
pub proof fn law_batch_step_counts_its_loss(
    before: TrainingRun,
    superbatch: usize,
    batch: usize,
    after: TrainingRun,
    action: BatchAction,
    batches: Seq<int>,
)
    requires
        before.batch_step(superbatch, batch, &after, action),
        before.ticks_since_last == ticks_after(before.steps.batches_per_superbatch as int, batches),
    ensures
        ({
            let per = before.steps.batches_per_superbatch as int;
            let with = batches.push(batch as int);
            &&& after.ticks_since_last == ticks_after(per, with)
            &&& recorded_after(per, with) == recorded_after(per, batches) + (
            if action.record is Some {
                before.ticks_since_last + 1
            } else {
                0
            })
        }),
{
    assert(batches.push(batch as int).drop_last() =~= batches);
}

/// Where the batches of each superbatch come in order from 1, a record divides the sum by exactly
/// the number of losses in it: there are never more of them than a superbatch has batches.
pub proof fn law_record_divides_by_its_losses(
    before: TrainingRun,
    superbatch: usize,
    batch: usize,
    after: TrainingRun,
    action: BatchAction,
    n: nat,
)
    requires
        before.steps.batches_per_superbatch > 0,
        before.ticks_since_last == ticks_after(
            before.steps.batches_per_superbatch as int,
            batches_in_order(before.steps.batches_per_superbatch as int, n),
        ),
        batch == n as int % before.steps.batches_per_superbatch as int + 1,
        before.batch_step(superbatch, batch, &after, action),
    ensures
        before.ticks_since_last + 1 <= before.steps.batches_per_superbatch,
        action.record matches Some(r) ==> r.divisor == before.ticks_since_last + 1,
        after.ticks_since_last == ticks_after(
            before.steps.batches_per_superbatch as int,
            batches_in_order(before.steps.batches_per_superbatch as int, n + 1),
        ),
{
    let per = before.steps.batches_per_superbatch as int;
    let batches = batches_in_order(per, n);
    lemma_ticks_in_order(per, n);
    vstd::arithmetic::div_mod::lemma_mod_pos_bound(n as int, per);
    law_batch_step_counts_its_loss(before, superbatch, batch, after, action, batches);
    assert(batches.push(batch as int) =~= batches_in_order(per, n + 1));
}

/// A training run as it went: the state before each batch and after the last one, the numbers of
/// the batches, and what was done with each loss.
pub ghost struct Course {
    pub states: Seq<TrainingRun>,
    pub superbatches: Seq<usize>,
    pub batches: Seq<usize>,
    pub actions: Seq<BatchAction>,
}

impl Course {
    /// Each batch was taken in, and nothing was waiting at the start.
    pub open spec fn wf(self) -> bool {
        &&& self.states.len() == self.actions.len() + 1
        &&& self.superbatches.len() == self.actions.len()
        &&& self.batches.len() == self.actions.len()
        &&& self.states[0].ticks_since_last == 0
        &&& self.states[0].sum_count == 0
        &&& forall|k: int|
            0 <= k < self.actions.len() ==> self.states[k].batch_step(
                self.superbatches[k],
                self.batches[k],
                &self.states[k + 1],
                #[trigger] self.actions[k],
            )
    }

    pub open spec fn batches_per_superbatch(self) -> int {
        self.states[0].steps.batches_per_superbatch as int
    }

    /// The numbers of the first `n` batches.
    pub open spec fn first_batches(self, n: nat) -> Seq<int> {
        Seq::new(n, |k: int| self.batches[k] as int)
    }

    /// What the first `n` batches' records were divided by, added up.
    pub open spec fn divisors(self, n: nat) -> nat {
        crate::counting::sum_upto(
            n,
            |k: int|
                match self.actions[k].record {
                    Some(r) => r.divisor as nat,
                    None => 0,
                },
        )
    }

    /// The length of the last stretch, among the first `n` batches, that is of one superbatch.
    pub open spec fn last_stretch(self, n: nat) -> nat
        decreases n,
    {
        if n == 0 {
            0
        } else if n >= 2 && self.superbatches[n - 2] == self.superbatches[n - 1] {
            self.last_stretch((n - 1) as nat) + 1
        } else {
            1
        }
    }
}

/// Whatever batches a run takes in, its settings stay, and it knows how many losses wait for a
/// record.
pub proof fn law_course_counts_losses(c: Course, n: nat)
    requires
        c.wf(),
        n <= c.actions.len(),
    ensures
        c.states[n as int].same_settings(&c.states[0]),
        c.states[n as int].ticks_since_last == ticks_after(
            c.batches_per_superbatch(),
            c.first_batches(n),
        ),
    decreases n,
{
    if n > 0 {
        let prev = (n - 1) as nat;
        law_course_counts_losses(c, prev);
        assert(c.states[prev as int].batch_step(
            c.superbatches[prev as int],
            c.batches[prev as int],
            &c.states[n as int],
            c.actions[prev as int],
        ));
        law_batch_step_counts_its_loss(
            c.states[prev as int],
            c.superbatches[prev as int],
            c.batches[prev as int],
            c.states[n as int],
            c.actions[prev as int],
            c.first_batches(prev),
        );
        assert(c.first_batches(prev).push(c.batches[prev as int] as int) =~= c.first_batches(n));
    }
}

/// Where the batches of each superbatch come in order from 1, the records of a run together divide
/// by the number of losses that are in them: with those that still wait, that is every loss.
pub proof fn law_course_records_every_loss(c: Course, n: nat)
    requires
        c.wf(),
        n <= c.actions.len(),
        c.batches_per_superbatch() > 0,
        c.first_batches(c.actions.len()) == batches_in_order(
            c.batches_per_superbatch(),
            c.actions.len(),
        ),
    ensures
        c.divisors(n) + c.states[n as int].ticks_since_last == n,
    decreases n,
{
    if n > 0 {
        let prev = (n - 1) as nat;
        let per = c.batches_per_superbatch();
        let all = c.actions.len();
        law_course_records_every_loss(c, prev);
        law_course_counts_losses(c, prev);
        assert(c.first_batches(prev) =~= c.first_batches(all).take(prev as int));
        assert(batches_in_order(per, prev) =~= batches_in_order(per, all).take(prev as int));
        assert(c.first_batches(all)[prev as int] == batches_in_order(per, all)[prev as int]);
        assert(c.states[prev as int].batch_step(
            c.superbatches[prev as int],
            c.batches[prev as int],
            &c.states[n as int],
            c.actions[prev as int],
        ));
        law_record_divides_by_its_losses(
            c.states[prev as int],
            c.superbatches[prev as int],
            c.batches[prev as int],
            c.states[n as int],
            c.actions[prev as int],
            prev,
        );
    }
}

/// The superbatch's sum of a run that validates holds the losses of the last stretch of batches
/// that are of one superbatch, and it is the sum of that superbatch.
pub proof fn law_course_sums_one_superbatch(c: Course, n: nat)
    requires
        c.wf(),
        0 < n <= c.actions.len(),
        c.states[0].validation_batch_size is Some,
    ensures
        c.states[n as int].sum_superbatch == c.superbatches[n - 1],
        c.states[n as int].sum_count == c.last_stretch(n),
    decreases n,
{
    let prev = (n - 1) as nat;
    law_course_counts_losses(c, prev);
    assert(c.states[prev as int].batch_step(
        c.superbatches[prev as int],
        c.batches[prev as int],
        &c.states[n as int],
        c.actions[prev as int],
    ));
    if n >= 2 {
        law_course_sums_one_superbatch(c, prev);
    }
}

/// Where no superbatch comes back once the run has gone past it, the last stretch is every batch of
/// its superbatch.
pub proof fn law_last_stretch_is_the_superbatch(c: Course, n: nat)
    requires
        0 < n <= c.superbatches.len(),
        forall|i: int, j: int|
            0 <= i < j < c.superbatches.len() ==> c.superbatches[i] <= c.superbatches[j],
    ensures
        c.last_stretch(n) == crate::counting::count_upto(
            n,
            |k: int| c.superbatches[k] == c.superbatches[n - 1],
        ),
    decreases n,
{
    let prev = (n - 1) as nat;
    let of_last = |k: int| c.superbatches[k] == c.superbatches[n - 1];
    if n >= 2 && c.superbatches[n - 2] == c.superbatches[n - 1] {
        law_last_stretch_is_the_superbatch(c, prev);
        crate::counting::lemma_count_congruence(
            prev,
            |k: int| c.superbatches[k] == c.superbatches[prev - 1],
            of_last,
        );
    } else {
        assert forall|k: int| 0 <= k < prev implies !#[trigger] of_last(k) by {
            assert(c.superbatches[k] <= c.superbatches[n - 2] || k == n - 2);
        }
        crate::counting::lemma_count_of_none(prev, of_last);
    }
}

/// The sums of losses that go with a run, and the losses recorded so far, in exact arithmetic.
pub ghost struct LossSums {
    pub superbatch: real,
    pub since_last: real,
    pub records: Seq<real>,
}

impl BatchAction {
    /// What doing this action with the loss `loss` makes of `sums`.
    pub open spec fn done(self, sums: LossSums, loss: real) -> LossSums {
        let start = if self.restart_superbatch_sum {
            0 as real
        } else {
            sums.superbatch
        };
        let since_last = sums.since_last + loss;
        LossSums {
            superbatch: if self.add_to_superbatch_sum {
                start + loss
            } else {
                start
            },
            since_last: if self.record is Some {
                0 as real
            } else {
                since_last
            },
            records: match self.record {
                Some(r) => sums.records.push(since_last / (r.divisor as real)),
                None => sums.records,
            },
        }
    }
}

/// `losses` from index `from` up to `to`, added up.
pub open spec fn losses_between(losses: Seq<real>, from: int, to: int) -> real
    decreases to - from,
{
    if to <= from {
        0 as real
    } else {
        losses_between(losses, from, to - 1) + losses[to - 1]
    }
}

impl Course {
    /// The sums after the first `n` batches, whose losses are `losses`.
    pub open spec fn sums(self, losses: Seq<real>, n: nat) -> LossSums
        decreases n,
    {
        if n == 0 {
            LossSums { superbatch: 0 as real, since_last: 0 as real, records: Seq::empty() }
        } else {
            self.actions[n - 1].done(self.sums(losses, (n - 1) as nat), losses[n - 1])
        }
    }
}

proof fn lemma_ticks_are_bounded(c: Course, n: nat)
    requires
        c.wf(),
        n <= c.actions.len(),
    ensures
        c.states[n as int].ticks_since_last <= n,
        c.last_stretch(n) <= n,
    decreases n,
{
    if n > 0 {
        let prev = (n - 1) as nat;
        lemma_ticks_are_bounded(c, prev);
        assert(c.states[prev as int].batch_step(
            c.superbatches[prev as int],
            c.batches[prev as int],
            &c.states[n as int],
            c.actions[prev as int],
        ));
    }
}

/// The sum since the last record holds exactly the losses that wait for one: the last ones, as many
/// as the run has counted.
pub proof fn law_waiting_losses_are_summed(c: Course, losses: Seq<real>, n: nat)
    requires
        c.wf(),
        n <= c.actions.len(),
    ensures
        c.states[n as int].ticks_since_last <= n,
        c.sums(losses, n).since_last == losses_between(
            losses,
            n - c.states[n as int].ticks_since_last,
            n as int,
        ),
    decreases n,
{
    lemma_ticks_are_bounded(c, n);
    if n > 0 {
        let prev = (n - 1) as nat;
        law_waiting_losses_are_summed(c, losses, prev);
        assert(c.states[prev as int].batch_step(
            c.superbatches[prev as int],
            c.batches[prev as int],
            &c.states[n as int],
            c.actions[prev as int],
        ));
    }
}

/// Where the batches of each superbatch come in order from 1, what is recorded after a batch is the
/// mean of the losses since the record before, that batch's with them.
pub proof fn law_record_is_the_mean(c: Course, losses: Seq<real>, n: nat)
    requires
        c.wf(),
        n < c.actions.len(),
        c.batches_per_superbatch() > 0,
        c.first_batches(c.actions.len()) == batches_in_order(
            c.batches_per_superbatch(),
            c.actions.len(),
        ),
        c.actions[n as int].record is Some,
    ensures
        ({
            let count = c.states[n as int].ticks_since_last + 1;
            c.sums(losses, n + 1).records.last() == losses_between(
                losses,
                n + 1 - count,
                n as int + 1,
            ) / (count as real)
        }),
{
    let per = c.batches_per_superbatch();
    let all = c.actions.len();
    law_waiting_losses_are_summed(c, losses, n);
    law_course_counts_losses(c, n);
    assert(c.first_batches(n) =~= c.first_batches(all).take(n as int));
    assert(batches_in_order(per, n) =~= batches_in_order(per, all).take(n as int));
    assert(c.first_batches(all)[n as int] == batches_in_order(per, all)[n as int]);
    assert(c.states[n as int].batch_step(
        c.superbatches[n as int],
        c.batches[n as int],
        &c.states[n as int + 1],
        c.actions[n as int],
    ));
    law_record_divides_by_its_losses(
        c.states[n as int],
        c.superbatches[n as int],
        c.batches[n as int],
        c.states[n as int + 1],
        c.actions[n as int],
        n,
    );
}

/// The superbatch's sum of a run that validates is that of the losses of the last stretch of
/// batches that are of one superbatch: with the run's count, it gives their mean.
pub proof fn law_superbatch_losses_are_summed(c: Course, losses: Seq<real>, n: nat)
    requires
        c.wf(),
        n <= c.actions.len(),
        c.states[0].validation_batch_size is Some,
    ensures
        c.sums(losses, n).superbatch == losses_between(
            losses,
            n - c.last_stretch(n),
            n as int,
        ),
        n > 0 ==> c.states[n as int].sum_count == c.last_stretch(n),
    decreases n,
{
    if n > 0 {
        let prev = (n - 1) as nat;
        law_superbatch_losses_are_summed(c, losses, prev);
        law_course_sums_one_superbatch(c, n);
        law_course_counts_losses(c, prev);
        lemma_ticks_are_bounded(c, prev);
        assert(c.states[prev as int].batch_step(
            c.superbatches[prev as int],
            c.batches[prev as int],
            &c.states[n as int],
            c.actions[prev as int],
        ));
        if n >= 2 {
            law_course_sums_one_superbatch(c, prev);
        } else {
            assert(losses_between(losses, 0, 0) == 0 as real);
        }
        if c.last_stretch(n) == 1 {
            assert(losses_between(losses, n - 1, n - 1) == 0 as real);
        }
    }
}

// ---------------------------------------------------------------------------------------------
// Evaluation
// ---------------------------------------------------------------------------------------------

/// A stretch of positions that is evaluated at once.
#[derive(Clone, Copy, Debug, PartialEq, Eq, Structural)]
pub struct Chunk {
    pub start: usize,
    pub end: usize,
    /// The output buffers are made anew, because their size changes.
    pub allocate: bool,
}

/// How many chunks `total` positions are cut into.
pub open spec fn num_chunks(total: int, batch_size: int) -> int {
    (total + batch_size - 1) / batch_size
}

/// Where chunk `i` starts.
pub open spec fn chunk_start(batch_size: int, i: int) -> int {
    batch_size * i
}

/// Where chunk `i` ends.
pub open spec fn chunk_end(total: int, batch_size: int, i: int) -> int {
    if batch_size * i + batch_size < total {
        batch_size * i + batch_size
    } else {
        total
    }
}

/// The size of chunk `i`.
pub open spec fn chunk_size(total: int, batch_size: int, i: int) -> int {
    chunk_end(total, batch_size, i) - chunk_start(batch_size, i)
}

/// Chunk `i` needs other buffers than the chunk before it.
pub open spec fn chunk_allocates(total: int, batch_size: int, i: int) -> bool {
    i == 0 || chunk_size(total, batch_size, i) != chunk_size(total, batch_size, i - 1)
}

proof fn lemma_num_chunks(total: int, batch_size: int)
    requires
        total >= 0,
        batch_size > 0,
    ensures
        num_chunks(total, batch_size) >= 0,
        total == 0 <==> num_chunks(total, batch_size) == 0,
        total <= batch_size * num_chunks(total, batch_size) < total + batch_size,
        forall|i: int|
            #![trigger chunk_start(batch_size, i)]
            0 <= i < num_chunks(total, batch_size) ==> 0 <= chunk_start(batch_size, i) < total,
        forall|i: int|
            #![trigger chunk_end(total, batch_size, i)]
            0 <= i < num_chunks(total, batch_size) - 1 ==> chunk_end(total, batch_size, i)
                == batch_size * i + batch_size,
{
    let n = num_chunks(total, batch_size);
    vstd::arithmetic::div_mod::lemma_fundamental_div_mod(total + batch_size - 1, batch_size);
    vstd::arithmetic::div_mod::lemma_mod_pos_bound(total + batch_size - 1, batch_size);
    assert(total <= batch_size * n < total + batch_size);
    assert(n >= 0 && (total == 0 <==> n == 0)) by (nonlinear_arith)
        requires
            total <= batch_size * n < total + batch_size,
            batch_size > 0,
            total >= 0,
    ;
    assert forall|i: int| 0 <= i < n implies 0 <= #[trigger] chunk_start(batch_size, i) < total by {
        assert(0 <= batch_size * i && batch_size * i + batch_size <= batch_size * n)
            by (nonlinear_arith)
            requires
                0 <= i < n,
                batch_size > 0,
        ;
    }
    assert forall|i: int| 0 <= i < n - 1 implies #[trigger] chunk_end(total, batch_size, i)
        == batch_size * i + batch_size by {
        assert(batch_size * i + 2 * batch_size <= batch_size * n) by (nonlinear_arith)
            requires
                0 <= i < n - 1,
                batch_size > 0,
        ;
    }
}

/// Cuts `total` positions into chunks of `batch_size`, of which the last may be shorter.
pub fn eval_chunks(total: usize, batch_size: usize) -> (chunks: Vec<Chunk>)
    requires
        batch_size > 0,
    ensures
        chunks@.len() == num_chunks(total as int, batch_size as int),
        forall|i: int|
            #![trigger chunks@[i]]
            0 <= i < chunks@.len() ==> {
                &&& chunks@[i].start == chunk_start(batch_size as int, i)
                &&& chunks@[i].end == chunk_end(total as int, batch_size as int, i)
                &&& chunks@[i].allocate == chunk_allocates(total as int, batch_size as int, i)
            },
        total == 0 ==> chunks@.len() == 0,
        total > 0 ==> chunks@.len() > 0 && chunks@[0].start == 0 && chunks@[0].allocate
            && chunks@.last().end == total,
        forall|i: int|
            #![trigger chunks@[i]]
            0 <= i < chunks@.len() ==> 0 < chunks@[i].end - chunks@[i].start <= batch_size && (i
                + 1 < chunks@.len() ==> chunks@[i].end - chunks@[i].start == batch_size),
        forall|i: int, j: int|
            #![trigger chunks@[i], chunks@[j]]
            0 <= i && j == i + 1 && j < chunks@.len() ==> chunks@[j].start == chunks@[i].end && (
            chunks@[j].allocate <==> chunks@[j].end - chunks@[j].start != chunks@[i].end
                - chunks@[i].start),
{
    let mut chunks: Vec<Chunk> = Vec::new();
    let mut start: usize = 0;
    let mut cached: Option<usize> = None;
    proof {
        lemma_num_chunks(total as int, batch_size as int);
    }
    let ghost n = num_chunks(total as int, batch_size as int);
    while start < total
        invariant
            batch_size > 0,
            n == num_chunks(total as int, batch_size as int),
            chunks@.len() <= n,
            start <= total,
            start == (if chunks@.len() < n {
                chunk_start(batch_size as int, chunks@.len() as int)
            } else {
                total as int
            }),
            cached == (if chunks@.len() == 0 {
                None
            } else {
                Some(
                    chunk_size(total as int, batch_size as int, chunks@.len() - 1) as usize,
                )
            }),
            chunks@.len() > 0 ==> 0 <= chunk_size(
                total as int,
                batch_size as int,
                chunks@.len() - 1,
            ) <= usize::MAX,
            forall|i: int|
                #![trigger chunks@[i]]
                0 <= i < chunks@.len() ==> {
                    &&& chunks@[i].start == chunk_start(batch_size as int, i)
                    &&& chunks@[i].end == chunk_end(total as int, batch_size as int, i)
                    &&& chunks@[i].allocate == chunk_allocates(total as int, batch_size as int, i)
                },
        decreases total - start,
    {
        let ghost i = chunks@.len() as int;
        let remaining: usize = total - start;
        let size: usize = if remaining < batch_size {
            remaining
        } else {
            batch_size
        };
        let end: usize = start + size;
        let allocate = match cached {
            Some(s) => s != size,
            None => true,
        };
        proof {
            lemma_num_chunks(total as int, batch_size as int);
            assert(i < n);
            assert(batch_size * (i + 1) == batch_size * i + batch_size) by (nonlinear_arith);
            if i + 1 < n {
                assert(chunk_end(total as int, batch_size as int, i) == batch_size * i + batch_size);
                assert(chunk_start(batch_size as int, i + 1) < total);
            } else {
                assert(batch_size * n >= total);
                assert(n == i + 1);
            }
        }
        if allocate {
            cached = Some(size);
        }
        chunks.push(Chunk { start, end, allocate });
        start = end;
    }
    proof {
        lemma_num_chunks(total as int, batch_size as int);
        if chunks@.len() < n {
            assert(chunk_start(batch_size as int, chunks@.len() as int) < total);
        }
        assert forall|i: int| 0 <= i < n implies 0 < #[trigger] chunks@[i].end - chunks@[i].start
            <= batch_size && (i + 1 < n ==> chunks@[i].end - chunks@[i].start == batch_size && (
        chunks@[i + 1].start == chunks@[i].end)) && (i + 1 == n ==> chunks@[i].end == total) by {
            law_chunks_cover_positions(total as int, batch_size as int, i);
            if i + 1 < n {
                assert(chunk_end(total as int, batch_size as int, i) == batch_size * i + batch_size);
                assert(chunks@[i + 1].start == chunk_start(batch_size as int, i + 1));
            }
        }
        assert(chunk_start(batch_size as int, 0) == 0);
    }
    chunks
}

/// The chunks hold every position exactly once and in order: the first starts at 0, each one starts
/// where the one before it ends, none is empty or longer than `batch_size`, and the last ends at
/// the last position.
pub proof fn law_chunks_cover_positions(total: int, batch_size: int, i: int)
    requires
        total >= 0,
        batch_size > 0,
        0 <= i < num_chunks(total, batch_size),
    ensures
        chunk_start(batch_size, 0) == 0,
        0 < chunk_size(total, batch_size, i) <= batch_size,
        chunk_size(total, batch_size, i) == chunk_end(total, batch_size, i) - chunk_start(
            batch_size,
            i,
        ),
        i + 1 < num_chunks(total, batch_size) ==> chunk_size(total, batch_size, i) == batch_size,
        i + 1 < num_chunks(total, batch_size) ==> chunk_start(batch_size, i + 1) == chunk_end(
            total,
            batch_size,
            i,
        ),
        i + 1 == num_chunks(total, batch_size) ==> chunk_end(total, batch_size, i) == total,
{
    lemma_num_chunks(total, batch_size);
    assert(chunk_start(batch_size, i) < total);
    assert(batch_size * (i + 1) == batch_size * i + batch_size) by (nonlinear_arith);
    if i + 1 < num_chunks(total, batch_size) {
        assert(chunk_end(total, batch_size, i) == batch_size * i + batch_size);
    }
}

/// The outputs of a network for the first `n` chunks of `positions`, one after the other.
pub open spec fn chunk_outputs<T, L>(
    network: spec_fn(Seq<T>) -> Seq<L>,
    positions: Seq<T>,
    batch_size: int,
    n: nat,
) -> Seq<L>
    decreases n,
{
    if n == 0 {
        Seq::empty()
    } else {
        chunk_outputs(network, positions, batch_size, (n - 1) as nat) + network(
            positions.subrange(
                chunk_start(batch_size, n - 1),
                chunk_end(positions.len() as int, batch_size, n - 1),
            ),
        )
    }
}

/// The network looks at each position by itself: its outputs for positions put together are its
/// outputs for the first and then those for the others.
pub open spec fn looks_at_each<T, L>(network: spec_fn(Seq<T>) -> Seq<L>) -> bool {
    forall|a: Seq<T>, b: Seq<T>| #[trigger] network(a + b) == network(a) + network(b)
}

proof fn lemma_chunk_outputs<T, L>(
    network: spec_fn(Seq<T>) -> Seq<L>,
    positions: Seq<T>,
    batch_size: int,
    n: nat,
)
    requires
        batch_size > 0,
        looks_at_each(network),
        n <= num_chunks(positions.len() as int, batch_size),
    ensures
        ({
            let done = if n == 0 {
                0
            } else {
                chunk_end(positions.len() as int, batch_size, n - 1)
            };
            &&& 0 <= done <= positions.len()
            &&& chunk_outputs(network, positions, batch_size, n) == network(positions.take(done))
        }),
    decreases n,
{
    let total = positions.len() as int;
    if n == 0 {
        let none = Seq::<T>::empty();
        assert(none + none =~= none);
        assert(network(none + none) == network(none) + network(none));
        assert(network(none) =~= Seq::empty());
        assert(positions.take(0) =~= none);
    } else {
        let i = n - 1;
        lemma_chunk_outputs(network, positions, batch_size, i as nat);
        law_chunks_cover_positions(total, batch_size, i);
        if i > 0 {
            law_chunks_cover_positions(total, batch_size, i - 1);
        }
        let (start, end) = (chunk_start(batch_size, i), chunk_end(total, batch_size, i));
        assert(0 <= start) by {
            lemma_num_chunks(total, batch_size);
        }
        let chunk = positions.subrange(start, end);
        assert(positions.take(start) + chunk =~= positions.take(end));
        assert(network(positions.take(start) + chunk) == network(positions.take(start)) + network(
            chunk,
        ));
    }
}

/// The outputs of the chunks, one after the other, are the outputs for all positions at once,
/// where the network looks at each position by itself. So they do not depend on the batch size.
pub proof fn law_batch_size_does_not_change_outputs<T, L>(
    network: spec_fn(Seq<T>) -> Seq<L>,
    positions: Seq<T>,
    batch_size: int,
    other: int,
)
    requires
        batch_size > 0,
        other > 0,
        looks_at_each(network),
    ensures
        chunk_outputs(
            network,
            positions,
            batch_size,
            num_chunks(positions.len() as int, batch_size) as nat,
        ) == network(positions),
        chunk_outputs(
            network,
            positions,
            other,
            num_chunks(positions.len() as int, other) as nat,
        ) == network(positions),
{
    let total = positions.len() as int;
    assert(positions.take(total) =~= positions);
    lemma_num_chunks(total, batch_size);
    lemma_num_chunks(total, other);
    let (n, m) = (num_chunks(total, batch_size), num_chunks(total, other));
    lemma_chunk_outputs(network, positions, batch_size, n as nat);
    lemma_chunk_outputs(network, positions, other, m as nat);
    if total > 0 {
        law_chunks_cover_positions(total, batch_size, n - 1);
        law_chunks_cover_positions(total, other, m - 1);
    }
}

proof fn lemma_inner_chunks_allocate_once(total: int, batch_size: int, k: nat)
    requires
        total >= 0,
        batch_size > 0,
        k < num_chunks(total, batch_size),
    ensures
        crate::counting::count_upto(k, |i: int| chunk_allocates(total, batch_size, i)) <= 1,
    decreases k,
{
    if k > 1 {
        lemma_inner_chunks_allocate_once(total, batch_size, (k - 1) as nat);
        lemma_num_chunks(total, batch_size);
        assert(chunk_end(total, batch_size, k - 1) == batch_size * (k - 1) + batch_size);
        assert(chunk_end(total, batch_size, k - 2) == batch_size * (k - 2) + batch_size);
    } else if k == 1 {
        assert(crate::counting::count_upto(0, |i: int| chunk_allocates(total, batch_size, i)) == 0);
    }
}

/// However many positions are evaluated, output buffers are made at most twice.
pub proof fn law_eval_allocates_at_most_twice(total: int, batch_size: int)
    requires
        total >= 0,
        batch_size > 0,
    ensures
        crate::counting::count_upto(
            num_chunks(total, batch_size) as nat,
            |i: int| chunk_allocates(total, batch_size, i),
        ) <= 2,
{
    lemma_num_chunks(total, batch_size);
    let n = num_chunks(total, batch_size);
    if n > 0 {
        lemma_inner_chunks_allocate_once(total, batch_size, (n - 1) as nat);
    }
}

/// What a network's outputs say about a position.
#[derive(Clone, Copy, Debug)]
pub enum EvalFormula<L> {
    /// `(w + d / 2) / (w + d + l)`, where `w`, `d` and `l` are the exponentials of the three
    /// numbers, each less the greatest of them. See [`exact_eval`].
    Wdl { loss: L, draw: L, win: L },
    /// The number itself.
    Score(L),
}

/// The greater of two numbers.
pub open spec fn max_real(a: real, b: real) -> real {
    if a >= b {
        a
    } else {
        b
    }
}

/// What an evaluation comes to in exact arithmetic, over the function `exp`.
pub open spec fn exact_eval(exp: spec_fn(real) -> real, f: EvalFormula<real>) -> real {
    match f {
        EvalFormula::Wdl { loss, draw, win } => {
            let max = max_real(max_real(win, draw), loss);
            let (w, d, l) = (exp(win - max), exp(draw - max), exp(loss - max));
            (w + d / (2 as real)) / (w + d + l)
        },
        EvalFormula::Score(score) => score,
    }
}

/// With an `exp` that is positive, an evaluation by win, draw and loss lies between 0 and 1, and
/// adding one number to all three outputs does not change it.
pub proof fn law_wdl_evaluation(
    exp: spec_fn(real) -> real,
    loss: real,
    draw: real,
    win: real,
    shift: real,
)
    requires
        forall|x: real| #[trigger] exp(x) > 0 as real,
    ensures
        in_unit_interval(exact_eval(exp, EvalFormula::Wdl { loss, draw, win })),
        exact_eval(
            exp,
            EvalFormula::Wdl { loss: loss + shift, draw: draw + shift, win: win + shift },
        ) == exact_eval(exp, EvalFormula::Wdl { loss, draw, win }),
{
    let max = max_real(max_real(win, draw), loss);
    let (w, d, l) = (exp(win - max), exp(draw - max), exp(loss - max));
    let (above, below) = (w + d / (2 as real), w + d + l);
    assert(0 as real <= above / below && above / below <= 1 as real) by (nonlinear_arith)
        requires
            0 as real <= above,
            above <= below,
            (0 as real) < below,
    ;
    let shifted = max_real(max_real(win + shift, draw + shift), loss + shift);
    assert(shifted == max + shift);
    assert(win + shift - shifted == win - max);
    assert(draw + shift - shifted == draw - max);
    assert(loss + shift - shifted == loss - max);
}

/// An evaluation by win, draw and loss is the share that the exponential of the win and half that of
/// the draw have in all three: taking the greatest output off each of them first changes nothing.
pub proof fn law_evaluation_is_a_share_of_exponentials(
    exp: spec_fn(real) -> real,
    loss: real,
    draw: real,
    win: real,
)
    requires
        is_exponential(exp),
    ensures
        exact_eval(exp, EvalFormula::Wdl { loss, draw, win }) == (exp(win) + exp(draw) / (
        2 as real)) / (exp(win) + exp(draw) + exp(loss)),
{
    let max = max_real(max_real(win, draw), loss);
    let (w, d, l) = (exp(win - max), exp(draw - max), exp(loss - max));
    let m = exp(max);
    assert(sum_becomes_product(exp, win - max, max));
    assert(sum_becomes_product(exp, draw - max, max));
    assert(sum_becomes_product(exp, loss - max, max));
    assert(win - max + max == win);
    assert(draw - max + max == draw);
    assert(loss - max + max == loss);
    let two = 2 as real;
    let (above, below) = (w + d / two, w + d + l);
    assert(w * m + (d * m) / two == above * m && w * m + d * m + l * m == below * m)
        by (nonlinear_arith)
        requires
            above == w + d / two,
            below == w + d + l,
            two == 2 as real,
    ;
    assert((above * m) / (below * m) == above / below) by (nonlinear_arith)
        requires
            m > 0 as real,
            below > 0 as real,
    ;
}

/// Exchanging win and loss gives the complement of an evaluation, whatever the draw is: the two
/// evaluations make up one. So where win and loss are equal, the evaluation is one half.
pub proof fn law_exchanged_evaluations_make_up_one(
    exp: spec_fn(real) -> real,
    loss: real,
    draw: real,
    win: real,
)
    requires
        forall|x: real| #[trigger] exp(x) > 0 as real,
    ensures
        exact_eval(exp, EvalFormula::Wdl { loss, draw, win }) + exact_eval(
            exp,
            EvalFormula::Wdl { loss: win, draw, win: loss },
        ) == 1 as real,
        win == loss ==> exact_eval(exp, EvalFormula::Wdl { loss, draw, win }) == (1 as real) / (
        2 as real),
{
    let max = max_real(max_real(win, draw), loss);
    assert(max_real(max_real(loss, draw), win) == max);
    let (w, d, l) = (exp(win - max), exp(draw - max), exp(loss - max));
    let two = 2 as real;
    assert((w + d / two) / (w + d + l) + (l + d / two) / (l + d + w) == 1 as real)
        by (nonlinear_arith)
        requires
            w > 0 as real,
            d > 0 as real,
            l > 0 as real,
            two == 2 as real,
    ;
}

/// An evaluation never falls as the output for a win grows, and never rises as the output for a
/// loss does.
pub proof fn law_evaluation_follows_win_and_loss(
    exp: spec_fn(real) -> real,
    loss: real,
    draw: real,
    win: real,
    higher: real,
)
    requires
        is_exponential(exp),
    ensures
        win <= higher ==> exact_eval(exp, EvalFormula::Wdl { loss, draw, win }) <= exact_eval(
            exp,
            EvalFormula::Wdl { loss, draw, win: higher },
        ),
        loss <= higher ==> exact_eval(exp, EvalFormula::Wdl { loss, draw, win }) >= exact_eval(
            exp,
            EvalFormula::Wdl { loss: higher, draw, win },
        ),
{
    law_evaluation_is_a_share_of_exponentials(exp, loss, draw, win);
    law_evaluation_is_a_share_of_exponentials(exp, loss, draw, higher);
    law_evaluation_is_a_share_of_exponentials(exp, higher, draw, win);
    let (w, h, l) = (exp(win), exp(higher), exp(loss));
    let half = exp(draw) / (2 as real);
    assert(exp(draw) == half + half);
    let (below, wider, longer) = (w + half + half + l, h + half + half + l, w + half + half + h);
    if win <= higher {
        let (x, y) = ((w + half) / below, (h + half) / wider);
        assert(x <= y) by (nonlinear_arith)
            requires
                x == (w + half) / below,
                y == (h + half) / wider,
                below == w + half + half + l,
                wider == h + half + half + l,
                (0 as real) < w,
                w <= h,
                (0 as real) < half,
                (0 as real) < l,
        ;
    }
    if loss <= higher {
        let (x, y) = ((w + half) / below, (w + half) / longer);
        assert(x >= y) by (nonlinear_arith)
            requires
                x == (w + half) / below,
                y == (w + half) / longer,
                below == w + half + half + l,
                longer == w + half + half + h,
                (0 as real) < w,
                (0 as real) < half,
                (0 as real) < l,
                l <= h,
        ;
    }
}

/// The record that a position given as FEN is parsed from.
pub open spec fn eval_record_spec(fen: Seq<char>) -> Seq<char> {
    fen + " | 0 | 0.0"@
}

// ---------------------------------------------------------------------------------------------
// The trainer
// ---------------------------------------------------------------------------------------------

/// A trainer of value networks, without the network.
pub struct ValueTrainer<Inp, Out, Bl, Wgt, L> {
    pub state: ValueTrainerState<Inp, Out, Bl, Wgt, L>,
}

impl<Inp, Out: Copy, Bl: Copy, Wgt: Copy, L: Copy> ValueTrainer<Inp, Out, Bl, Wgt, L> {
    /// `request` asks for the batches of a run with these settings, from `dataloader`.
    pub open spec fn is_loader<Lr, Wdl, D>(
        &self,
        schedule: &TrainingSchedule<L, Lr, Wdl>,
        settings: &LocalSettings,
        dataloader: &D,
        request: LoaderRequest<Inp, Out, Bl, Wgt, L, Wdl, D>,
    ) -> bool {
        &&& self.state.has_rules(request.rules)
        &&& request.eval_scale == schedule.eval_scale
        &&& request.steps == schedule.steps
        &&& request.threads == settings.threads
        &&& *request.wdl_scheduler == schedule.wdl_scheduler
        &&& *request.dataloader == *dataloader
    }

    /// Asks for the batches of a run, to be loaded as fast as they can be.
    pub fn measure_max_cpu_throughput<'a, Lr, Wdl, D>(
        &'a self,
        schedule: &'a TrainingSchedule<L, Lr, Wdl>,
        settings: &LocalSettings,
        dataloader: &'a D,
    ) -> (request: LoaderRequest<'a, Inp, Out, Bl, Wgt, L, Wdl, D>)
        ensures
            self.is_loader(schedule, settings, dataloader, request),
    {
        LoaderRequest {
            rules: self.state.rules(),
            eval_scale: schedule.eval_scale,
            steps: schedule.steps,
            threads: settings.threads,
            wdl_scheduler: &schedule.wdl_scheduler,
            dataloader,
        }
    }

    /// Begins a run without validation.
    pub fn run<'a, Lr, Wdl, D>(
        &'a self,
        schedule: &'a TrainingSchedule<L, Lr, Wdl>,
        settings: &LocalSettings,
        dataloader: &'a D,
    ) -> (begun: (LoaderRequest<'a, Inp, Out, Bl, Wgt, L, Wdl, D>, TrainingRun))
        ensures
            self.is_loader(schedule, settings, dataloader, begun.0),
            begun.1.starts(schedule, settings, None),
    {
        (
            self.measure_max_cpu_throughput(schedule, settings, dataloader),
            TrainingRun::start(schedule, settings, None),
        )
    }

    /// Begins a run that validates the network on `positions` after each superbatch.
    pub fn run_with_validation<'a, Lr, Wdl, D, T>(
        &'a self,
        schedule: &'a TrainingSchedule<L, Lr, Wdl>,
        settings: &LocalSettings,
        dataloader: &'a D,
        positions: &[T],
        batch_size: usize,
    ) -> (begun: (LoaderRequest<'a, Inp, Out, Bl, Wgt, L, Wdl, D>, TrainingRun))
        requires
            positions@.len() > 0,
            batch_size > 0,
        ensures
            self.is_loader(schedule, settings, dataloader, begun.0),
            begun.1.starts(schedule, settings, Some(batch_size)),
    {
        (
            self.measure_max_cpu_throughput(schedule, settings, dataloader),
            TrainingRun::start(schedule, settings, Some(batch_size)),
        )
    }

    /// Writes the record that a position given as FEN is parsed from.
    pub fn eval_record(&self, fen: &str) -> (record: String)
        ensures
            record@ == eval_record_spec(fen@),
            record@ == fen@ + " | 0 | 0.0"@,
    {
        let mut record = fen.to_owned();
        record.append(" | 0 | 0.0");
        record
    }

    /// Reads the outputs that the network gave for one position.
    pub fn eval(&self, vals: &[L]) -> (formula: EvalFormula<L>)
        requires
            vals@.len() == 1 || vals@.len() == 3,
        ensures
            formula == (if vals@.len() == 3 {
                EvalFormula::Wdl { loss: vals@[0], draw: vals@[1], win: vals@[2] }
            } else {
                EvalFormula::Score(vals@[0])
            }),
    {
        if vals.len() == 3 {
            EvalFormula::Wdl { loss: vals[0], draw: vals[1], win: vals[2] }
        } else {
            EvalFormula::Score(vals[0])
        }
    }
}

/// A loader is asked for the batches of this trainer's rules, at the schedule's scale and steps and
/// with its lambda, on the threads that the settings give, from the loader that was named.
pub proof fn law_loader_is_asked_for_the_run<
    Inp,
    Out: Copy,
    Bl: Copy,
    Wgt: Copy,
    L: Copy,
    Lr,
    Wdl,
    D,
>(
    trainer: ValueTrainer<Inp, Out, Bl, Wgt, L>,
    schedule: &TrainingSchedule<L, Lr, Wdl>,
    settings: &LocalSettings,
    dataloader: &D,
    request: LoaderRequest<Inp, Out, Bl, Wgt, L, Wdl, D>,
)
    requires
        trainer.is_loader(schedule, settings, dataloader, request),
    ensures
        trainer.state.has_rules(request.rules),
        request.eval_scale == schedule.eval_scale,
        request.steps == schedule.steps,
        request.threads == settings.threads,
        *request.wdl_scheduler == schedule.wdl_scheduler,
        *request.dataloader == *dataloader,
{
}

/// A run begins with the settings asked for, at the schedule's first superbatch, and with nothing
/// summed or waiting.
pub proof fn law_run_begins_afresh<L, Lr, Wdl>(
    run: TrainingRun,
    schedule: &TrainingSchedule<L, Lr, Wdl>,
    settings: &LocalSettings,
    validation_batch_size: Option<usize>,
)
    requires
        run.starts(schedule, settings, validation_batch_size),
    ensures
        run.net_id@ == schedule.net_id@,
        run.output_directory@ == settings.output_directory@,
        run.steps == schedule.steps,
        run.save_rate == schedule.save_rate,
        run.validation_batch_size == validation_batch_size,
        run.sum_superbatch == schedule.steps.start_superbatch,
        run.sum_count == 0,
        run.ticks_since_last == 0,
{
}

} // verus!
