//! Shuffling a file of chess position records, in memory or in parts.
use vstd::prelude::*;

use crate::text::decimal;

verus! {

/// Bytes of one chess position record.
pub const CHESS_BOARD_SIZE: usize = 32;

/// The fewest parts that a file too large for memory is split into.
pub const MIN_TMP_FILES: usize = 4;

/// Bytes of the unit in which memory limits are given.
pub const BYTES_PER_MB: usize = 1_048_576;

/// The most bytes that are asked for in one read while a part is loaded.
pub const READ_CHUNK_BYTES: usize = 1_048_576;

/// The seed stream of a shuffle that happens in memory.
pub const IN_MEMORY_SEED_STREAM: u64 = 1;

/// The size of [`bulletformat::ChessBoard`] in memory, which is the size of a record on disk.
/// Claims of `std::mem::size_of` on that type that it gives 32, which bulletformat asserts of its
/// type at compile time.
#[verifier::external_body]
fn chess_board_size() -> (n: usize)
    ensures
        n == CHESS_BOARD_SIZE,
{
    std::mem::size_of::<bulletformat::ChessBoard>()
}

// ---------------------------------------------------------------------------------------------
// Shuffling records
// ---------------------------------------------------------------------------------------------

/// The whole records that `data` consists of.
pub open spec fn records(data: Seq<u8>) -> Seq<Seq<u8>> {
    Seq::new(
        data.len() / CHESS_BOARD_SIZE as nat,
        |i: int| data.subrange(CHESS_BOARD_SIZE * i, CHESS_BOARD_SIZE * i + CHESS_BOARD_SIZE),
    )
}

/// `s` with the items at `a` and `b` exchanged.
pub open spec fn swapped<T>(s: Seq<T>, a: int, b: int) -> Seq<T> {
    s.update(a, s[b]).update(b, s[a])
}

/// The place that draw number `step` picks among the first `count` places.
pub open spec fn picked(draws: Seq<u64>, step: int, count: int) -> int {
    (draws[step] as usize) as int % count
}

/// `s` after the first `steps` exchanges of a shuffle: exchange number `k` swaps the last item not
/// yet placed, number `s.len() - 1 - k`, with one that draw number `k` picks at or below it.
pub open spec fn shuffled<T>(s: Seq<T>, draws: Seq<u64>, steps: nat) -> Seq<T>
    decreases steps,
{
    if steps == 0 {
        s
    } else {
        let last = s.len() - steps;
        swapped(shuffled(s, draws, (steps - 1) as nat), picked(draws, steps - 1, last + 1), last)
    }
}

/// Exchanges records `a` and `b` of `data`.
fn swap_records(data: &mut [u8], a: usize, b: usize)
    requires
        a < old(data)@.len() / CHESS_BOARD_SIZE as nat,
        b < old(data)@.len() / CHESS_BOARD_SIZE as nat,
    ensures
        final(data)@.len() == old(data)@.len(),
        records(final(data)@) == swapped(records(old(data)@), a as int, b as int),
{
    let ghost before = data@;
    let total: usize = data.len();
    assert(CHESS_BOARD_SIZE * a < total && CHESS_BOARD_SIZE * b < total);
    let base_a: usize = a * CHESS_BOARD_SIZE;
    let base_b: usize = b * CHESS_BOARD_SIZE;
    let mut k: usize = 0;
    while k < CHESS_BOARD_SIZE
        invariant
            k <= CHESS_BOARD_SIZE,
            data@.len() == before.len(),
            a < before.len() / CHESS_BOARD_SIZE as nat,
            b < before.len() / CHESS_BOARD_SIZE as nat,
            base_a == CHESS_BOARD_SIZE * a,
            base_b == CHESS_BOARD_SIZE * b,
            forall|j: int|
                0 <= j < before.len() ==> #[trigger] data@[j] == (if base_a <= j < base_a + k {
                    before[base_b + (j - base_a)]
                } else if base_b <= j < base_b + k {
                    before[base_a + (j - base_b)]
                } else {
                    before[j]
                }),
        decreases CHESS_BOARD_SIZE - k,
    {
        let x: u8 = data[base_a + k];
        let y: u8 = data[base_b + k];
        data[base_a + k] = y;
        data[base_b + k] = x;
        k += 1;
    }
    proof {
        let want = swapped(records(before), a as int, b as int);
        assert forall|i: int| 0 <= i < want.len() implies #[trigger] records(data@)[i]
            == want[i] by {
            assert(records(data@)[i] =~= want[i]);
        }
        assert(records(data@) =~= want);
    }
}

/// `s`, of which the last `done` items are placed, after `steps` more exchanges of the shuffle, by
/// `draws`.
pub open spec fn resumed<T>(s: Seq<T>, done: int, draws: Seq<u64>, steps: nat) -> Seq<T>
    decreases steps,
{
    if steps == 0 {
        s
    } else {
        let last = s.len() - done - steps;
        swapped(
            resumed(s, done, draws, (steps - 1) as nat),
            picked(draws, steps - 1, last + 1),
            last,
        )
    }
}

/// `after` is `before`, shuffled by `draws`.
pub open spec fn is_shuffle(before: Seq<u8>, draws: Seq<u64>, after: Seq<u8>) -> bool {
    &&& after.len() == before.len()
    &&& records(after) == shuffled(records(before), draws, draws.len())
}

/// Goes on with a shuffle of `data` of which the last `done` records are placed. `draws` holds the
/// next random numbers, at most one per record that is left.
pub fn resume_shuffle(data: &mut [u8], done: usize, draws: &[u64])
    requires
        old(data)@.len() % CHESS_BOARD_SIZE as nat == 0,
        done + draws@.len() <= old(data)@.len() / CHESS_BOARD_SIZE as nat,
    ensures
        final(data)@.len() == old(data)@.len(),
        records(final(data)@) == resumed(
            records(old(data)@),
            done as int,
            draws@,
            draws@.len(),
        ),
{
    let ghost before = data@;
    let size: usize = chess_board_size();
    let len: usize = data.len() / size;
    let mut step: usize = 0;
    while step < draws.len()
        invariant
            step <= draws@.len(),
            done + draws@.len() <= len,
            len == before.len() / CHESS_BOARD_SIZE as nat,
            data@.len() == before.len(),
            records(data@) == resumed(records(before), done as int, draws@, step as nat),
        decreases draws@.len() - step,
    {
        let i: usize = len - done - step - 1;
        let idx: usize = draws[step] as usize % (i + 1);
        swap_records(data, idx, i);
        step += 1;
    }
}

/// Shuffles the records of `data` in place. `draws` holds the random numbers, one per record, in
/// the order in which the generator gave them.
pub fn shuffle_positions(data: &mut [u8], draws: &[u64])
    requires
        old(data)@.len() % CHESS_BOARD_SIZE as nat == 0,
        draws@.len() == old(data)@.len() / CHESS_BOARD_SIZE as nat,
    ensures
        is_shuffle(old(data)@, draws@, final(data)@),
{
    proof {
        law_shuffle_may_be_resumed(records(data@), Seq::empty(), draws@, draws@.len());
        assert(Seq::<u64>::empty() + draws@ =~= draws@);
    }
    resume_shuffle(data, 0, draws);
}

/// Draws pick evenly among `count` places: a draw below `count` picks its own place, and two draws
/// that differ by a multiple of `count` pick the same. So among any `count` draws in a row each
/// place is picked by exactly one.
pub proof fn law_draws_pick_evenly(
    draws: Seq<u64>,
    step: int,
    others: Seq<u64>,
    other: int,
    count: int,
    times: int,
)
    requires
        count > 0,
        draws[step] <= usize::MAX,
        others[other] <= usize::MAX,
    ensures
        0 <= picked(draws, step, count) < count,
        draws[step] < count ==> picked(draws, step, count) == draws[step],
        draws[step] - others[other] == times * count ==> picked(draws, step, count) == picked(
            others,
            other,
            count,
        ),
        draws[step] != others[other] && -count < draws[step] - others[other] < count ==> picked(
            draws,
            step,
            count,
        ) != picked(others, other, count),
{
    let (a, b) = (draws[step] as int, others[other] as int);
    assert((draws[step] as usize) as int == a && (others[other] as usize) as int == b);
    vstd::arithmetic::div_mod::lemma_mod_pos_bound(a, count);
    vstd::arithmetic::div_mod::lemma_mod_pos_bound(b, count);
    vstd::arithmetic::div_mod::lemma_fundamental_div_mod(a, count);
    vstd::arithmetic::div_mod::lemma_fundamental_div_mod(b, count);
    if a < count {
        vstd::arithmetic::div_mod::lemma_small_mod(a as nat, count as nat);
    }
    let (qa, qb) = (a / count, b / count);
    if a - b == times * count {
        let t = times + qb;
        assert(t * count == times * count + count * qb) by (nonlinear_arith)
            requires
                t == times + qb,
        ;
        vstd::arithmetic::div_mod::lemma_fundamental_div_mod_converse(a, count, t, b % count);
    }
    if a != b && -count < a - b < count && a % count == b % count {
        assert(count * (qa - qb) == a - b) by (nonlinear_arith)
            requires
                a == count * qa + a % count,
                b == count * qb + b % count,
                a % count == b % count,
        ;
        assert(false) by (nonlinear_arith)
            requires
                count * (qa - qb) == a - b,
                a != b,
                -count < a - b < count,
                count > 0,
        ;
    }
}

/// Whatever `count` draws come in a row, each place below `count` is picked by one of them.
pub proof fn law_draws_in_a_row_pick_each_place(first: int, count: int, place: int, draws: Seq<u64>)
    requires
        0 <= place < count,
        0 <= first,
        first + count <= usize::MAX,
        draws.len() == count,
        forall|k: int| 0 <= k < count ==> #[trigger] draws[k] == first + k,
    ensures
        exists|k: int| 0 <= k < count && #[trigger] picked(draws, k, count) == place,
{
    vstd::arithmetic::div_mod::lemma_mod_pos_bound(first, count);
    vstd::arithmetic::div_mod::lemma_fundamental_div_mod(first, count);
    let (q, r) = (first / count, first % count);
    let (k, t) = if place >= r {
        (place - r, q)
    } else {
        (place - r + count, q + 1)
    };
    assert(first + k == t * count + place) by (nonlinear_arith)
        requires
            first == count * q + r,
            place >= r ==> k == place - r && t == q,
            place < r ==> k == place - r + count && t == q + 1,
    ;
    assert(draws[k] == first + k);
    vstd::arithmetic::div_mod::lemma_fundamental_div_mod_converse(first + k, count, t, place);
    assert(picked(draws, k, count) == place);
}

/// The records of `data` are its stretches of 32 bytes, one after the other.
pub proof fn law_records_are_stretches_of_bytes(data: Seq<u8>, i: int, j: int)
    requires
        data.len() % 32 == 0,
        0 <= i < data.len() / 32,
        0 <= j < 32,
    ensures
        records(data).len() * 32 == data.len(),
        records(data)[i].len() == 32,
        records(data)[i][j] == data[32 * i + j],
{
}

/// One exchange of a shuffle: among the places that are still open, from the first up to `last`,
/// the draw picks one, below `last + 1` and by its remainder. The item there goes to `last` and is
/// placed, the item at `last` goes there, and every other item stays.
pub proof fn law_shuffle_places_one_item<T>(s: Seq<T>, draws: Seq<u64>, steps: nat, j: int)
    requires
        steps < s.len(),
        0 <= j < s.len(),
    ensures
        ({
            let (before, after) = (shuffled(s, draws, steps), shuffled(s, draws, steps + 1));
            let last = s.len() - 1 - steps;
            let place = (draws[steps as int] as usize) as int % (last + 1);
            &&& shuffled(s, draws, 0) == s
            &&& before.len() == s.len() && after.len() == s.len()
            &&& 0 <= place <= last
            &&& after[last] == before[place]
            &&& after[place] == before[last]
            &&& j != last && j != place ==> after[j] == before[j]
        }),
{
    law_shuffle_preserves_all_records(s, draws, steps);
    law_shuffle_preserves_all_records(s, draws, steps + 1);
    let last = s.len() - 1 - steps;
    vstd::arithmetic::div_mod::lemma_mod_pos_bound(
        (draws[steps as int] as usize) as int,
        last + 1,
    );
}

/// The same of a shuffle that goes on where `done` items are placed.
pub proof fn law_resumed_shuffle_places_one_item<T>(
    s: Seq<T>,
    done: int,
    draws: Seq<u64>,
    steps: nat,
    j: int,
)
    requires
        done >= 0,
        done + steps < s.len(),
        0 <= j < s.len(),
    ensures
        ({
            let (before, after) = (
                resumed(s, done, draws, steps),
                resumed(s, done, draws, steps + 1),
            );
            let last = s.len() - 1 - done - steps;
            let place = (draws[steps as int] as usize) as int % (last + 1);
            &&& resumed(s, done, draws, 0) == s
            &&& before.len() == s.len() && after.len() == s.len()
            &&& 0 <= place <= last
            &&& after[last] == before[place]
            &&& after[place] == before[last]
            &&& j != last && j != place ==> after[j] == before[j]
        }),
{
    lemma_resumed_len(s, done, draws, steps);
    lemma_resumed_len(s, done, draws, steps + 1);
    let last = s.len() - 1 - done - steps;
    vstd::arithmetic::div_mod::lemma_mod_pos_bound(
        (draws[steps as int] as usize) as int,
        last + 1,
    );
}

proof fn lemma_resumed_len<T>(s: Seq<T>, done: int, draws: Seq<u64>, steps: nat)
    requires
        done >= 0,
        done + steps <= s.len(),
    ensures
        resumed(s, done, draws, steps).len() == s.len(),
    decreases steps,
{
    if steps > 0 {
        lemma_resumed_len(s, done, draws, (steps - 1) as nat);
        vstd::arithmetic::div_mod::lemma_mod_pos_bound(
            (draws[steps - 1] as usize) as int,
            s.len() - done - steps + 1,
        );
    }
}

proof fn lemma_placed_items_stay<T>(s: Seq<T>, draws: Seq<u64>, from: nat, to: nat, j: int)
    requires
        from <= to <= s.len(),
        s.len() - from <= j < s.len(),
    ensures
        shuffled(s, draws, to)[j] == shuffled(s, draws, from)[j],
    decreases to,
{
    if from < to {
        let prev = (to - 1) as nat;
        lemma_placed_items_stay(s, draws, from, prev, j);
        law_shuffle_preserves_all_records(s, draws, prev);
        let last = s.len() - to;
        vstd::arithmetic::div_mod::lemma_mod_pos_bound(
            (draws[prev as int] as usize) as int,
            last + 1,
        );
    }
}

/// A draw decides one place for good: the item that exchange number `steps` places stays where it
/// is through all the exchanges after it.
pub proof fn law_placed_items_stay<T>(s: Seq<T>, draws: Seq<u64>, steps: nat)
    requires
        steps < s.len(),
    ensures
        ({
            let last = s.len() - 1 - steps;
            shuffled(s, draws, s.len())[last] == shuffled(s, draws, steps)[(
            draws[steps as int] as usize) as int % (last + 1)]
        }),
{
    let last = s.len() - 1 - steps;
    law_shuffle_places_one_item(s, draws, steps, last);
    lemma_placed_items_stay(s, draws, steps + 1, s.len(), last);
}

proof fn lemma_same_order_same_draws<T>(s: Seq<T>, a: Seq<u64>, b: Seq<u64>, steps: nat)
    requires
        s.no_duplicates(),
        s.len() <= usize::MAX,
        steps <= s.len(),
        a.len() == s.len(),
        b.len() == s.len(),
        forall|k: int| 0 <= k < s.len() ==> #[trigger] a[k] < s.len() - k,
        forall|k: int| 0 <= k < s.len() ==> #[trigger] b[k] < s.len() - k,
        shuffled(s, a, s.len()) == shuffled(s, b, s.len()),
    ensures
        a.take(steps as int) == b.take(steps as int),
    decreases steps,
{
    if steps == 0 {
        assert(a.take(0) =~= b.take(0));
    } else {
        let prev = (steps - 1) as nat;
        lemma_same_order_same_draws(s, a, b, prev);
        law_shuffle_is_reproducible(s, a, b, prev);
        law_placed_items_stay(s, a, prev);
        law_placed_items_stay(s, b, prev);
        let last = s.len() - 1 - prev;
        let (x, y) = (a[prev as int] as int, b[prev as int] as int);
        vstd::arithmetic::div_mod::lemma_small_mod(x as nat, (last + 1) as nat);
        vstd::arithmetic::div_mod::lemma_small_mod(y as nat, (last + 1) as nat);
        let state = shuffled(s, a, prev);
        law_shuffle_order_depends_on_draws_and_length(s, a, prev);
        law_shuffle_preserves_all_records(s, a, prev);
        assert(state[x] == state[y]);
        lemma_shuffle_keeps_items_apart(s, a, prev);
        assert(x == y);
        assert(a.take(steps as int) =~= a.take(prev as int).push(a[prev as int]));
        assert(b.take(steps as int) =~= b.take(prev as int).push(b[prev as int]));
    }
}

proof fn lemma_shuffle_keeps_items_apart<T>(s: Seq<T>, draws: Seq<u64>, steps: nat)
    requires
        s.no_duplicates(),
        steps <= s.len(),
    ensures
        shuffled(s, draws, steps).no_duplicates(),
    decreases steps,
{
    if steps > 0 {
        let prev = (steps - 1) as nat;
        lemma_shuffle_keeps_items_apart(s, draws, prev);
        law_shuffle_preserves_all_records(s, draws, prev);
        let last = s.len() - steps;
        vstd::arithmetic::div_mod::lemma_mod_pos_bound(
            (draws[prev as int] as usize) as int,
            last + 1,
        );
    }
}

/// No order comes up more often than another: of the draws that are each below the number of
/// places open to them, no two lists lead to one order of items that are all different. As each
/// order is reached, each is reached by exactly one list.
pub proof fn law_each_order_has_its_own_draws<T>(s: Seq<T>, a: Seq<u64>, b: Seq<u64>)
    requires
        s.no_duplicates(),
        s.len() <= usize::MAX,
        a.len() == s.len(),
        b.len() == s.len(),
        forall|k: int| 0 <= k < s.len() ==> #[trigger] a[k] < s.len() - k,
        forall|k: int| 0 <= k < s.len() ==> #[trigger] b[k] < s.len() - k,
        shuffled(s, a, s.len()) == shuffled(s, b, s.len()),
    ensures
        a == b,
{
    lemma_same_order_same_draws(s, a, b, s.len());
    assert(a.take(s.len() as int) =~= a);
    assert(b.take(s.len() as int) =~= b);
}

/// Shuffled data is as long as before, and its records are the records from before, one exchange
/// made for each draw.
pub proof fn law_shuffled_data_holds_shuffled_records(
    before: Seq<u8>,
    draws: Seq<u64>,
    after: Seq<u8>,
)
    requires
        is_shuffle(before, draws, after),
        before.len() % 32 == 0,
        draws.len() * 32 == before.len(),
    ensures
        after.len() == before.len(),
        records(after) == shuffled(records(before), draws, records(before).len()),
        records(after).to_multiset() == records(before).to_multiset(),
{
    law_shuffle_preserves_all_records(records(before), draws, records(before).len());
}

/// A shuffle may stop and go on: the first draws and then the others do what all of them do at
/// once.
pub proof fn law_shuffle_may_be_resumed<T>(
    s: Seq<T>,
    first: Seq<u64>,
    more: Seq<u64>,
    steps: nat,
)
    requires
        steps <= more.len(),
        first.len() + steps <= s.len(),
    ensures
        resumed(shuffled(s, first, first.len()), first.len() as int, more, steps) == shuffled(
            s,
            first + more,
            first.len() + steps,
        ),
    decreases steps,
{
    law_shuffle_preserves_all_records(s, first, first.len());
    if steps == 0 {
        assert((first + more).take(first.len() as int) =~= first.take(first.len() as int));
        law_shuffle_is_reproducible(s, first, first + more, first.len());
    } else {
        law_shuffle_may_be_resumed(s, first, more, (steps - 1) as nat);
    }
}

/// An exchange keeps the items and how often each occurs.
proof fn lemma_swap_keeps_items<T>(s: Seq<T>, a: int, b: int)
    requires
        0 <= a < s.len(),
        0 <= b < s.len(),
    ensures
        swapped(s, a, b).to_multiset() == s.to_multiset(),
{
    broadcast use vstd::multiset::group_multiset_axioms;
    broadcast use vstd::seq_lib::group_to_multiset_ensures;

    vstd::seq_lib::to_multiset_update(s, a, s[b]);
    vstd::seq_lib::to_multiset_update(s.update(a, s[b]), b, s[a]);
    assert(s.contains(s[a]) && s.contains(s[b]));
    assert(swapped(s, a, b).to_multiset() =~= s.to_multiset());
}

/// A shuffle loses no record, adds none and repeats none: after any number of exchanges the same
/// items are there, each as often as before.
pub proof fn law_shuffle_preserves_all_records<T>(s: Seq<T>, draws: Seq<u64>, steps: nat)
    requires
        steps <= s.len(),
    ensures
        shuffled(s, draws, steps).len() == s.len(),
        shuffled(s, draws, steps).to_multiset() == s.to_multiset(),
    decreases steps,
{
    if steps > 0 {
        law_shuffle_preserves_all_records(s, draws, (steps - 1) as nat);
        let last = s.len() - steps;
        lemma_swap_keeps_items(
            shuffled(s, draws, (steps - 1) as nat),
            picked(draws, steps - 1, last + 1),
            last,
        );
    }
}

/// The numbers below `n`, in order.
pub open spec fn in_order(n: nat) -> Seq<int> {
    Seq::new(n, |i: int| i)
}

/// Where each item goes depends on the draws and on how many items there are, and on nothing else:
/// what the draws make of the numbers in order says which item comes to stand where.
pub proof fn law_shuffle_order_depends_on_draws_and_length<T>(
    s: Seq<T>,
    draws: Seq<u64>,
    steps: nat,
)
    requires
        steps <= s.len(),
    ensures
        ({
            let order = shuffled(in_order(s.len()), draws, steps);
            &&& order.len() == s.len()
            &&& forall|i: int|
                0 <= i < s.len() ==> 0 <= #[trigger] order[i] < s.len() && shuffled(
                    s,
                    draws,
                    steps,
                )[i] == s[order[i]]
        }),
    decreases steps,
{
    law_shuffle_preserves_all_records(s, draws, steps);
    law_shuffle_preserves_all_records(in_order(s.len()), draws, steps);
    if steps > 0 {
        let prev = (steps - 1) as nat;
        law_shuffle_order_depends_on_draws_and_length(s, draws, prev);
        law_shuffle_preserves_all_records(s, draws, prev);
        let last = s.len() - steps;
        let from = picked(draws, steps - 1, last + 1);
        let before = shuffled(in_order(s.len()), draws, prev);
        assert(0 <= before[from] < s.len() && 0 <= before[last] < s.len());
    }
}

/// A shuffle looks at no draw but the first `steps`: the same items and the same draws give the
/// same order, whatever the generator gives later.
pub proof fn law_shuffle_is_reproducible<T>(s: Seq<T>, a: Seq<u64>, b: Seq<u64>, steps: nat)
    requires
        steps <= a.len(),
        steps <= b.len(),
        a.take(steps as int) == b.take(steps as int),
    ensures
        shuffled(s, a, steps) == shuffled(s, b, steps),
    decreases steps,
{
    if steps > 0 {
        let prev = (steps - 1) as nat;
        assert(a.take(prev as int) =~= a.take(steps as int).take(prev as int));
        assert(b.take(prev as int) =~= b.take(steps as int).take(prev as int));
        law_shuffle_is_reproducible(s, a, b, prev);
        assert(a[prev as int] == a.take(steps as int)[prev as int]);
        assert(b[prev as int] == b.take(steps as int)[prev as int]);
    }
}

/// Data that is whole records is told apart by its records alone.
pub proof fn law_records_determine_data(a: Seq<u8>, b: Seq<u8>)
    requires
        a.len() % CHESS_BOARD_SIZE as nat == 0,
        b.len() % CHESS_BOARD_SIZE as nat == 0,
        records(a) == records(b),
    ensures
        a == b,
{
    assert(a.len() / CHESS_BOARD_SIZE as nat == records(a).len());
    assert(b.len() / CHESS_BOARD_SIZE as nat == records(b).len());
    assert(a.len() == b.len());
    assert forall|j: int| 0 <= j < a.len() implies a[j] == b[j] by {
        let i = j / CHESS_BOARD_SIZE as int;
        assert(records(a)[i] == records(b)[i]);
        assert(records(a)[i][j - CHESS_BOARD_SIZE * i] == a[j]);
        assert(records(b)[i][j - CHESS_BOARD_SIZE * i] == b[j]);
    }
    assert(a =~= b);
}

/// Draws that put the last `steps` items of `t` in their places.
proof fn lemma_draws_towards<T>(s: Seq<T>, t: Seq<T>, steps: nat) -> (draws: Seq<u64>)
    requires
        s.to_multiset() == t.to_multiset(),
        s.len() <= usize::MAX,
        steps <= s.len(),
    ensures
        draws.len() == steps,
        shuffled(s, draws, steps).len() == t.len(),
        shuffled(s, draws, steps).skip(s.len() - steps) == t.skip(s.len() - steps),
        shuffled(s, draws, steps).take(s.len() - steps).to_multiset() == t.take(
            s.len() - steps,
        ).to_multiset(),
    decreases steps,
{
    broadcast use vstd::multiset::group_multiset_axioms;
    broadcast use vstd::seq_lib::group_to_multiset_ensures;

    s.to_multiset_ensures();
    t.to_multiset_ensures();
    if steps == 0 {
        let draws = Seq::<u64>::empty();
        assert(s.take(s.len() as int) =~= s);
        assert(t.take(t.len() as int) =~= t);
        assert(s.skip(s.len() as int) =~= t.skip(t.len() as int));
        draws
    } else {
        let prev = (steps - 1) as nat;
        let front = lemma_draws_towards(s, t, prev);
        let last = s.len() - steps;
        let cur = shuffled(s, front, prev);
        let cur_open = cur.take(last + 1);
        let t_open = t.take(last + 1);
        // The item that belongs at `last` is still among those not placed.
        assert(t_open[last] == t[last]);
        assert(t_open.contains(t[last]));
        t_open.to_multiset_ensures();
        cur_open.to_multiset_ensures();
        assert(s.len() - prev == last + 1);
        assert(t_open.to_multiset().count(t[last]) > 0);
        assert(cur_open.to_multiset().count(t[last]) > 0);
        assert(cur_open.contains(t[last]));
        let idx = choose|i: int| 0 <= i < cur_open.len() && cur_open[i] == t[last];
        assert(0 <= idx <= last && cur[idx] == t[last]);
        let draws = front.push(idx as u64);
        assert(front =~= draws.take(prev as int));
        assert(front.take(prev as int) =~= front);
        law_shuffle_is_reproducible(s, draws, front, prev);
        assert(idx % (last + 1) == idx) by (nonlinear_arith)
            requires
                0 <= idx < last + 1,
        ;
        assert(picked(draws, prev as int, last + 1) == idx);
        let next = shuffled(s, draws, steps);
        assert(next == swapped(cur, idx, last));
        assert forall|j: int| last <= j < t.len() implies next[j] == t[j] by {
            if j > last {
                assert(cur[j] == cur.skip(last + 1)[j - (last + 1)]);
                assert(t[j] == t.skip(last + 1)[j - (last + 1)]);
            }
        }
        assert(next.skip(last) =~= t.skip(last));
        // What is left to place is what was left before, less the item just placed.
        let next_open = next.take(last + 1);
        assert(next_open =~= swapped(cur_open, idx, last));
        lemma_swap_keeps_items(cur_open, idx, last);
        assert(next_open =~= next.take(last).push(t[last]));
        assert(t_open =~= t.take(last).push(t[last]));
        assert(next.take(last).to_multiset() =~= next_open.to_multiset().remove(t[last]));
        assert(t.take(last).to_multiset() =~= t_open.to_multiset().remove(t[last]));
        draws
    }
}

/// A shuffle can give every order: for each arrangement `t` of the items of `s` there are draws
/// that lead to it.
pub proof fn law_shuffle_reaches_every_order<T>(s: Seq<T>, t: Seq<T>)
    requires
        s.to_multiset() == t.to_multiset(),
        s.len() <= usize::MAX,
    ensures
        exists|draws: Seq<u64>|
            draws.len() == s.len() && #[trigger] shuffled(s, draws, s.len()) == t,
{
    let draws = lemma_draws_towards(s, t, s.len());
    assert(shuffled(s, draws, s.len()).skip(0) =~= shuffled(s, draws, s.len()));
    assert(t.skip(0) =~= t);
}

// ---------------------------------------------------------------------------------------------
// Splitting a file into parts
// ---------------------------------------------------------------------------------------------

/// How many of `total` positions part `idx` of `files` holds: an even share, and the first parts
/// take one more each until the remainder is used up.
pub open spec fn part_positions(total: int, files: int, idx: int) -> int {
    total / files + (if idx < total % files {
        1int
    } else {
        0
    })
}

/// How many positions come before part `idx`.
pub open spec fn part_start(total: int, files: int, idx: nat) -> int
    decreases idx,
{
    if idx == 0 {
        0
    } else {
        part_start(total, files, (idx - 1) as nat) + part_positions(total, files, idx - 1)
    }
}

/// The number of positions of each part when an input of `input_size` bytes is split into
/// `files` parts.
pub fn positions_per_file(input_size: usize, files: usize) -> (sizes: Vec<usize>)
    requires
        files > 0,
    ensures
        sizes@.len() == files,
        forall|i: int|
            0 <= i < files ==> #[trigger] sizes@[i] == part_positions(
                input_size as int / CHESS_BOARD_SIZE as int,
                files as int,
                i,
            ),
{
    let total_positions: usize = input_size / chess_board_size();
    let ideal: usize = total_positions / files;
    let remaining: usize = total_positions % files;
    assert(remaining > 0 ==> ideal < total_positions) by (nonlinear_arith)
        requires
            files > 0,
            ideal == total_positions / files,
            remaining == total_positions % files,
    ;
    let mut sizes: Vec<usize> = Vec::new();
    let mut i: usize = 0;
    while i < files
        invariant
            files > 0,
            i <= files,
            sizes@.len() == i,
            total_positions == input_size / CHESS_BOARD_SIZE,
            ideal == total_positions / files,
            remaining == total_positions % files,
            remaining > 0 ==> ideal < total_positions,
            forall|j: int|
                0 <= j < i ==> #[trigger] sizes@[j] == part_positions(
                    total_positions as int,
                    files as int,
                    j,
                ),
        decreases files - i,
    {
        if i < remaining {
            sizes.push(ideal + 1);
        } else {
            sizes.push(ideal);
        }
        i += 1;
    }
    sizes
}

/// Where a part starts, in closed form.
proof fn lemma_part_start(total: int, files: int, idx: nat)
    requires
        total >= 0,
        files > 0,
        idx <= files,
    ensures
        part_start(total, files, idx) == idx * (total / files) + (if idx < total % files {
            idx as int
        } else {
            total % files
        }),
    decreases idx,
{
    let q = total / files;
    vstd::arithmetic::div_mod::lemma_mod_pos_bound(total, files);
    if idx == 0 {
        assert(idx * q == 0) by (nonlinear_arith)
            requires
                idx == 0,
        ;
    } else {
        lemma_part_start(total, files, (idx - 1) as nat);
        assert(idx * q == (idx - 1) * q + q) by (nonlinear_arith);
    }
}

/// The parts take every position exactly once: laid end to end they are as long as the input.
pub proof fn law_parts_cover_the_input(total: int, files: int)
    requires
        total >= 0,
        files > 0,
    ensures
        part_start(total, files, files as nat) == total,
{
    lemma_part_start(total, files, files as nat);
    vstd::arithmetic::div_mod::lemma_fundamental_div_mod(total, files);
}

/// No two parts differ by more than one position, and an earlier part is never the smaller one.
pub proof fn law_parts_are_balanced(total: int, files: int, a: int, b: int)
    requires
        total >= 0,
        files > 0,
        0 <= a <= b < files,
    ensures
        part_positions(total, files, b) <= part_positions(total, files, a) <= part_positions(
            total,
            files,
            b,
        ) + 1,
{
}

/// The sizes of the parts add up to all positions.
pub proof fn law_part_sizes_add_up(total: int, files: int)
    requires
        total >= 0,
        files > 0,
    ensures
        crate::counting::sum_upto(
            files as nat,
            |i: int| part_positions(total, files, i) as nat,
        ) == total,
        forall|i: int| 0 <= i < files ==> #[trigger] part_positions(total, files, i) >= 0,
{
    vstd::arithmetic::div_mod::lemma_div_pos_is_pos(total, files);
    lemma_part_sizes(total, files, files as nat);
    law_parts_cover_the_input(total, files);
}

proof fn lemma_part_sizes(total: int, files: int, n: nat)
    requires
        total >= 0,
        files > 0,
        total / files >= 0,
    ensures
        crate::counting::sum_upto(n, |i: int| part_positions(total, files, i) as nat)
            == part_start(total, files, n),
    decreases n,
{
    if n > 0 {
        lemma_part_sizes(total, files, (n - 1) as nat);
    }
}

/// The items of part `idx` of `s`.
pub open spec fn part<T>(s: Seq<T>, files: int, idx: nat) -> Seq<T> {
    s.subrange(
        part_start(s.len() as int, files, idx),
        part_start(s.len() as int, files, idx + 1),
    )
}

/// The first `count` parts of `s`, each shuffled by its own draws, one after the other.
pub open spec fn shuffled_parts<T>(
    s: Seq<T>,
    files: int,
    draws: Seq<Seq<u64>>,
    count: nat,
) -> Seq<T>
    decreases count,
{
    if count == 0 {
        Seq::empty()
    } else {
        let items = part(s, files, (count - 1) as nat);
        shuffled_parts(s, files, draws, (count - 1) as nat) + shuffled(
            items,
            draws[count - 1],
            items.len(),
        )
    }
}

proof fn lemma_shuffled_parts<T>(s: Seq<T>, files: int, draws: Seq<Seq<u64>>, count: nat)
    requires
        files > 0,
        count <= files,
    ensures
        0 <= part_start(s.len() as int, files, count) <= s.len(),
        shuffled_parts(s, files, draws, count).to_multiset() == s.take(
            part_start(s.len() as int, files, count),
        ).to_multiset(),
    decreases count,
{
    broadcast use vstd::multiset::group_multiset_axioms;

    let total = s.len() as int;
    lemma_part_start(total, files, count);
    vstd::arithmetic::div_mod::lemma_fundamental_div_mod(total, files);
    let q = total / files;
    assert(q >= 0) by (nonlinear_arith)
        requires
            q == total / files,
            total >= 0,
            files > 0,
    ;
    assert(0 <= count * q <= files * q) by (nonlinear_arith)
        requires
            0 <= count <= files,
            q >= 0,
    ;
    let end = part_start(total, files, count);
    if count == 0 {
        assert(s.take(0) =~= Seq::<T>::empty());
    } else {
        let prev = (count - 1) as nat;
        lemma_shuffled_parts(s, files, draws, prev);
        let start = part_start(total, files, prev);
        let items = part(s, files, prev);
        assert(end == start + part_positions(total, files, prev as int));
        law_shuffle_preserves_all_records(items, draws[prev as int], items.len());
        vstd::seq_lib::lemma_multiset_commutative(
            shuffled_parts(s, files, draws, prev),
            shuffled(items, draws[prev as int], items.len()),
        );
        vstd::seq_lib::lemma_multiset_commutative(s.take(start), items);
        assert(s.take(end) =~= s.take(start) + items);
    }
}

/// Splitting and shuffling each part loses no record, adds none and repeats none, whatever the
/// draws of each part are.
pub proof fn law_split_preserves_all_records<T>(s: Seq<T>, files: int, draws: Seq<Seq<u64>>)
    requires
        files > 0,
    ensures
        shuffled_parts(s, files, draws, files as nat).to_multiset() == s.to_multiset(),
{
    lemma_shuffled_parts(s, files, draws, files as nat);
    law_parts_cover_the_input(s.len() as int, files);
    assert(s.take(s.len() as int) =~= s);
}

// ---------------------------------------------------------------------------------------------
// Planning a run
// ---------------------------------------------------------------------------------------------

/// What a shuffle run is asked to do. `M` is how the parts are to be interleaved, which the plan
/// hands on as it is.
pub struct ShuffleOptions<M> {
    pub input: String,
    pub output: String,
    pub mem_used_mb: usize,
    pub interleave_mode: M,
    pub interleave_block_mb: usize,
    pub seed: Option<u64>,
}

/// Why a shuffle run cannot start.
#[derive(Clone, Copy, Debug, PartialEq, Eq, Structural)]
pub enum ShuffleError {
    /// The memory limit does not fit in a `usize` number of bytes.
    MemoryLimitOverflow,
    /// The memory limit is zero.
    NoMemory,
}

impl ShuffleError {
    /// The text shown to the user.
    pub open spec fn message_spec(self) -> Seq<char> {
        match self {
            ShuffleError::MemoryLimitOverflow => "memory limit overflow"@,
            ShuffleError::NoMemory => "mem_used_mb must be at least 1"@,
        }
    }

    pub fn message(&self) -> (text: &'static str)
        ensures
            text@ == self.message_spec(),
    {
        match self {
            ShuffleError::MemoryLimitOverflow => "memory limit overflow",
            ShuffleError::NoMemory => "mem_used_mb must be at least 1",
        }
    }
}

/// The seed that a generator derives from a base seed for one of its streams.
#[derive(Clone, Copy, Debug, PartialEq, Eq, Structural)]
pub struct DerivedSeed {
    pub base: u64,
    pub stream: u64,
}

/// One part of an input that is too large for memory.
pub struct PartPlan {
    /// The temporary file that the part is written to.
    pub path: String,
    /// How many positions of the input it takes.
    pub positions: usize,
    /// The seed that it is shuffled with.
    pub seed: DerivedSeed,
}

/// The request that merges the shuffled parts into the output.
pub struct InterleaveRequest<M> {
    pub inputs: Vec<String>,
    pub output: String,
    pub mode: M,
    pub block_mb: usize,
    pub seed: DerivedSeed,
}

/// How a shuffle run goes about it.
pub enum ShufflePlan<M> {
    /// Read the whole input, shuffle it with this seed and write it.
    InMemory { seed: DerivedSeed },
    /// Write the parts in order, then interleave them.
    Split { parts: Vec<PartPlan>, interleave: InterleaveRequest<M> },
}

/// Where the temporary files go.
pub const TMP_DIR: &'static str = "./tmp";

/// The path of the temporary file of part `idx`.
pub open spec fn part_path_spec(idx: nat) -> Seq<char> {
    TMP_DIR@ + "/part_"@ + crate::text::decimal_digits(idx + 1) + ".bin"@
}

/// Names the temporary file of part `idx`.
pub fn part_path(idx: usize) -> (path: String)
    requires
        idx < usize::MAX,
    ensures
        path@ == part_path_spec(idx as nat),
{
    let mut path = TMP_DIR.to_owned();
    path.append("/part_");
    path.append(decimal(idx + 1).as_str());
    path.append(".bin");
    path
}

/// Two parts never share a temporary file.
pub proof fn law_part_paths_are_distinct(a: nat, b: nat)
    requires
        part_path_spec(a) == part_path_spec(b),
    ensures
        a == b,
{
    let head = TMP_DIR@ + "/part_"@;
    let tail = ".bin"@;
    let x = crate::text::decimal_digits(a + 1);
    let y = crate::text::decimal_digits(b + 1);
    let p = part_path_spec(a);
    assert(x =~= p.subrange(head.len() as int, p.len() - tail.len()));
    assert(y =~= p.subrange(head.len() as int, p.len() - tail.len()));
    crate::text::law_decimal_is_injective(a + 1, b + 1);
}

/// How many parts an input of `input_size` bytes is split into when `bytes_used` fit in memory.
pub open spec fn num_tmp_files_spec(input_size: int, bytes_used: int) -> int {
    let full = (input_size + bytes_used - 1) / bytes_used;
    if full < MIN_TMP_FILES {
        MIN_TMP_FILES as int
    } else {
        full
    }
}

/// Decides how many parts to split an input into.
pub fn num_tmp_files(input_size: usize, bytes_used: usize) -> (files: usize)
    requires
        bytes_used > 0,
    ensures
        files == num_tmp_files_spec(input_size as int, bytes_used as int),
        files >= MIN_TMP_FILES,
        bytes_used > 1 ==> files < usize::MAX,
{
    let quotient: usize = input_size / bytes_used;
    let remainder: usize = input_size % bytes_used;
    proof {
        let n = input_size as int;
        let d = bytes_used as int;
        vstd::arithmetic::div_mod::lemma_fundamental_div_mod(n, d);
        if remainder == 0 {
            assert(quotient * d == d * quotient) by (nonlinear_arith);
            vstd::arithmetic::div_mod::lemma_fundamental_div_mod_converse(
                n + d - 1,
                d,
                quotient as int,
                d - 1,
            );
        } else {
            assert((quotient + 1) * d == d * quotient + d) by (nonlinear_arith);
            vstd::arithmetic::div_mod::lemma_fundamental_div_mod_converse(
                n + d - 1,
                d,
                quotient + 1,
                remainder - 1,
            );
        }
        assert(remainder > 0 ==> quotient < n) by (nonlinear_arith)
            requires
                n == d * quotient + remainder,
                d > 0,
                quotient >= 0,
        ;
        assert(d > 1 ==> 2 * quotient <= n) by (nonlinear_arith)
            requires
                n == d * quotient + remainder,
                remainder >= 0,
                quotient >= 0,
        ;
    }
    let full: usize = if remainder == 0 {
        quotient
    } else {
        quotient + 1
    };
    if full < MIN_TMP_FILES {
        MIN_TMP_FILES
    } else {
        full
    }
}

/// There are four parts, or as few more as it takes for them to hold the input in `bytes_used` each.
pub proof fn law_fewest_parts_that_hold_the_input(input_size: int, bytes_used: int)
    requires
        input_size >= 0,
        bytes_used > 0,
    ensures
        ({
            let files = num_tmp_files_spec(input_size, bytes_used);
            &&& files >= 4
            &&& files * bytes_used >= input_size
            &&& files > 4 ==> (files - 1) * bytes_used < input_size
        }),
{
    let full = (input_size + bytes_used - 1) / bytes_used;
    let files = num_tmp_files_spec(input_size, bytes_used);
    vstd::arithmetic::div_mod::lemma_fundamental_div_mod(input_size + bytes_used - 1, bytes_used);
    vstd::arithmetic::div_mod::lemma_mod_pos_bound(input_size + bytes_used - 1, bytes_used);
    assert(files * bytes_used >= bytes_used * full) by (nonlinear_arith)
        requires
            files >= full,
            bytes_used > 0,
    ;
    assert((full - 1) * bytes_used == bytes_used * full - bytes_used) by (nonlinear_arith);
}

/// A part's temporary file lies in `./tmp`, and its name holds the part's number, counted from one,
/// in decimal.
pub proof fn law_part_path_holds_its_number(idx: nat)
    ensures
        part_path_spec(idx) == "./tmp"@ + "/part_"@ + crate::text::decimal_digits(idx + 1)
            + ".bin"@,
{
}

/// The messages of the two errors.
pub proof fn law_messages()
    ensures
        ShuffleError::MemoryLimitOverflow.message_spec() == "memory limit overflow"@,
        ShuffleError::NoMemory.message_spec() == "mem_used_mb must be at least 1"@,
{
}

/// While an input is split, no part needs more memory than the run may use.
pub proof fn law_parts_fit_in_memory(input_size: int, mem_used_mb: int, idx: int)
    requires
        mem_used_mb > 0,
        input_size >= 0,
        input_size % CHESS_BOARD_SIZE as int == 0,
        0 <= idx < num_tmp_files_spec(input_size, mem_used_mb * BYTES_PER_MB),
    ensures
        part_positions(
            input_size / CHESS_BOARD_SIZE as int,
            num_tmp_files_spec(input_size, mem_used_mb * BYTES_PER_MB),
            idx,
        ) * CHESS_BOARD_SIZE <= mem_used_mb * BYTES_PER_MB,
{
    let bytes = mem_used_mb * BYTES_PER_MB;
    let files = num_tmp_files_spec(input_size, bytes);
    let total = input_size / CHESS_BOARD_SIZE as int;
    let room = mem_used_mb * 32768;
    assert(bytes == 32 * room);
    assert(input_size == 32 * total);
    let full = (input_size + bytes - 1) / bytes;
    // The parts have room for the whole input.
    vstd::arithmetic::div_mod::lemma_fundamental_div_mod(input_size + bytes - 1, bytes);
    vstd::arithmetic::div_mod::lemma_mod_pos_bound(input_size + bytes - 1, bytes);
    assert(bytes * full >= input_size);
    assert(32 * (room * full) == bytes * full) by (nonlinear_arith)
        requires
            bytes == 32 * room,
    ;
    assert(room * full <= room * files) by (nonlinear_arith)
        requires
            full <= files,
            room > 0,
    ;
    assert(total <= room * files);
    // So an even share, rounded up, has room in one.
    let q = total / files;
    let r = total % files;
    vstd::arithmetic::div_mod::lemma_fundamental_div_mod(total, files);
    vstd::arithmetic::div_mod::lemma_mod_pos_bound(total, files);
    assert(files * q + r <= files * room) by (nonlinear_arith)
        requires
            total == files * q + r,
            total <= room * files,
    ;
    assert(q <= room && (r > 0 ==> q < room)) by (nonlinear_arith)
        requires
            files * q + r <= files * room,
            r >= 0,
            files > 0,
    ;
}

impl<M: Copy> ShuffleOptions<M> {
    /// The memory limit in bytes.
    pub open spec fn bytes_used(&self) -> int {
        self.mem_used_mb * BYTES_PER_MB
    }

    /// An input of `input_size` bytes is shuffled in memory.
    pub open spec fn fits_in_memory(&self, input_size: int) -> bool {
        0 < self.bytes_used() <= usize::MAX && input_size <= self.bytes_used()
    }

    /// The seed that all others are derived from: the one asked for, or else `random`.
    pub open spec fn base_seed_spec(&self, random: u64) -> u64 {
        match self.seed {
            Some(seed) => seed,
            None => random,
        }
    }

    /// `parts` is how an input of `input_size` bytes is cut up, with seeds derived from `base`.
    pub open spec fn is_split(&self, input_size: usize, base: u64, parts: Seq<PartPlan>) -> bool {
        let files = num_tmp_files_spec(input_size as int, self.bytes_used());
        &&& parts.len() == files
        &&& forall|i: int|
            #![trigger parts[i]]
            0 <= i < files ==> {
                &&& parts[i].path@ == part_path_spec(i as nat)
                &&& parts[i].positions == part_positions(
                    input_size as int / CHESS_BOARD_SIZE as int,
                    files,
                    i,
                )
                &&& parts[i].seed.base == base
                &&& parts[i].seed.stream == i + 1
            }
    }

    /// `request` merges `parts` into the output that these options name.
    pub open spec fn is_interleave(
        &self,
        base: u64,
        parts: Seq<PartPlan>,
        request: InterleaveRequest<M>,
    ) -> bool {
        &&& request.inputs@.len() == parts.len()
        &&& forall|i: int|
            #![trigger request.inputs@[i]]
            0 <= i < parts.len() ==> request.inputs@[i]@ == parts[i].path@
        &&& request.output@ == self.output@
        &&& request.mode == self.interleave_mode
        &&& request.block_mb == self.interleave_block_mb
        &&& request.seed.base == base
        &&& request.seed.stream == parts.len() + 1
    }

    /// `plan` is how a run on an input of `input_size` bytes goes about it, where `random` is the
    /// base seed that chance gives.
    pub open spec fn is_plan(
        &self,
        input_size: usize,
        random: u64,
        plan: Result<ShufflePlan<M>, ShuffleError>,
    ) -> bool {
        match plan {
            Err(ShuffleError::MemoryLimitOverflow) => self.bytes_used() > usize::MAX,
            Err(ShuffleError::NoMemory) => self.mem_used_mb == 0,
            Ok(ShufflePlan::InMemory { seed }) => {
                &&& self.fits_in_memory(input_size as int)
                &&& seed.base == self.base_seed_spec(random)
                &&& seed.stream == IN_MEMORY_SEED_STREAM
            },
            Ok(ShufflePlan::Split { parts, interleave }) => {
                &&& 0 < self.bytes_used() <= usize::MAX
                &&& input_size > self.bytes_used()
                &&& self.is_split(input_size, self.base_seed_spec(random), parts@)
                &&& self.is_interleave(self.base_seed_spec(random), parts@, interleave)
            },
        }
    }

    /// Finds the seed that all others are derived from.
    pub fn base_seed(&self, random: u64) -> (seed: u64)
        ensures
            seed == self.base_seed_spec(random),
    {
        match self.seed {
            Some(seed) => seed,
            None => random,
        }
    }

    /// Begins a run on an input of `input_size` bytes, which must be whole records: decides how to
    /// go about it. `random` is the base seed where none was asked for.
    pub fn run(&self, input_size: usize, random: u64) -> (plan: Result<
        ShufflePlan<M>,
        ShuffleError,
    >)
        requires
            input_size % CHESS_BOARD_SIZE == 0,
        ensures
            self.is_plan(input_size, random, plan),
            plan == Err::<ShufflePlan<M>, _>(ShuffleError::MemoryLimitOverflow)
                <==> self.bytes_used() > usize::MAX,
            plan == Err::<ShufflePlan<M>, _>(ShuffleError::NoMemory) <==> self.mem_used_mb == 0,
            plan is Ok <==> 0 < self.bytes_used() <= usize::MAX,
            plan matches Ok(p) ==> (p is InMemory <==> self.fits_in_memory(input_size as int)),
    {
        let bytes_used: usize = match self.mem_used_mb.checked_mul(BYTES_PER_MB) {
            Some(bytes) => bytes,
            None => {
                return Err(ShuffleError::MemoryLimitOverflow);
            },
        };
        if bytes_used == 0 {
            return Err(ShuffleError::NoMemory);
        }
        let base: u64 = self.base_seed(random);
        if input_size <= bytes_used {
            return Ok(
                ShufflePlan::InMemory {
                    seed: DerivedSeed { base, stream: IN_MEMORY_SEED_STREAM },
                },
            );
        }
        let files: usize = num_tmp_files(input_size, bytes_used);
        let sizes = positions_per_file(input_size, files);
        let mut parts: Vec<PartPlan> = Vec::new();
        let mut inputs: Vec<String> = Vec::new();
        let mut i: usize = 0;
        while i < files
            invariant
                i <= files,
                files < usize::MAX,
                files == num_tmp_files_spec(input_size as int, self.bytes_used()),
                sizes@.len() == files,
                forall|j: int|
                    0 <= j < files ==> #[trigger] sizes@[j] == part_positions(
                        input_size as int / CHESS_BOARD_SIZE as int,
                        files as int,
                        j,
                    ),
                parts@.len() == i,
                inputs@.len() == i,
                forall|j: int|
                    #![trigger parts@[j]]
                    0 <= j < i ==> {
                        &&& parts@[j].path@ == part_path_spec(j as nat)
                        &&& parts@[j].positions == part_positions(
                            input_size as int / CHESS_BOARD_SIZE as int,
                            files as int,
                            j,
                        )
                        &&& parts@[j].seed.base == base
                        &&& parts@[j].seed.stream == j + 1
                    },
                forall|j: int|
                    #![trigger inputs@[j]]
                    0 <= j < i ==> inputs@[j]@ == part_path_spec(j as nat),
            decreases files - i,
        {
            let path = part_path(i);
            inputs.push(path.clone());
            let seed = DerivedSeed { base, stream: i as u64 + 1 };
            parts.push(PartPlan { path, positions: sizes[i], seed });
            i += 1;
        }
        let interleave = InterleaveRequest {
            inputs,
            output: self.output.clone(),
            mode: self.interleave_mode,
            block_mb: self.interleave_block_mb,
            seed: DerivedSeed { base, stream: files as u64 + 1 },
        };
        Ok(ShufflePlan::Split { parts, interleave })
    }
}

/// What a plan says, over the options alone. The memory limit is in units of 1048576 bytes. An
/// input within it is shuffled in memory, with stream 1 of the base seed; a larger one is split.
/// The base seed is the one asked for, or what chance gives.
pub proof fn law_plan_follows_the_options<M: Copy>(
    options: ShuffleOptions<M>,
    input_size: usize,
    random: u64,
    plan: Result<ShufflePlan<M>, ShuffleError>,
)
    requires
        options.is_plan(input_size, random, plan),
    ensures
        ({
            let limit = options.mem_used_mb * 1_048_576;
            let base = match options.seed {
                Some(seed) => seed,
                None => random,
            };
            &&& options.bytes_used() == limit
            &&& options.fits_in_memory(input_size as int) <==> 0 < limit <= usize::MAX && input_size
                <= limit
            &&& options.base_seed_spec(random) == base
            &&& plan == Err::<ShufflePlan<M>, _>(ShuffleError::MemoryLimitOverflow) ==> limit
                > usize::MAX
            &&& plan == Err::<ShufflePlan<M>, _>(ShuffleError::NoMemory) ==> limit == 0
            &&& plan is Ok ==> 0 < limit <= usize::MAX
            &&& plan matches Ok(ShufflePlan::InMemory { seed }) ==> input_size <= limit && seed.base
                == base && seed.stream == 1
            &&& plan matches Ok(ShufflePlan::Split { parts, interleave }) ==> input_size > limit
        }),
{
}

/// What a plan for a split says: the parts are the fewest that fit in the memory limit, four at
/// least. They hold all positions between them, no two differing by more than one and the larger
/// ones first. Part `i` has the seed stream and the file number `i + 1`. All files are merged in
/// order into the output, as asked for, with the stream after those of the parts.
pub proof fn law_split_follows_the_options<M: Copy>(
    options: ShuffleOptions<M>,
    input_size: usize,
    random: u64,
    parts: Vec<PartPlan>,
    merge: InterleaveRequest<M>,
    i: int,
    j: int,
)
    requires
        options.is_plan(
            input_size,
            random,
            Ok(ShufflePlan::Split { parts, interleave: merge }),
        ),
        0 <= i <= j < parts@.len(),
    ensures
        ({
            let limit = options.mem_used_mb * 1_048_576;
            let base = match options.seed {
                Some(seed) => seed,
                None => random,
            };
            &&& parts@.len() >= 4
            &&& parts@.len() * limit >= input_size
            &&& parts@.len() > 4 ==> (parts@.len() - 1) * limit < input_size
            &&& crate::counting::sum_upto(parts@.len(), |k: int| parts@[k].positions as nat)
                == input_size as int / 32
            &&& parts@[j].positions <= parts@[i].positions <= parts@[j].positions + 1
            &&& parts@[i].path@ == "./tmp"@ + "/part_"@ + crate::text::decimal_digits(
                (i + 1) as nat,
            ) + ".bin"@
            &&& parts@[i].seed.base == base
            &&& parts@[i].seed.stream == i + 1
            &&& merge.inputs@.len() == parts@.len()
            &&& merge.inputs@[i]@ == parts@[i].path@
            &&& merge.output@ == options.output@
            &&& merge.mode == options.interleave_mode
            &&& merge.block_mb == options.interleave_block_mb
            &&& merge.seed.base == base
            &&& merge.seed.stream == parts@.len() + 1
        }),
{
    let limit = options.mem_used_mb * 1_048_576;
    let total = input_size as int / 32;
    let files = parts@.len() as int;
    law_fewest_parts_that_hold_the_input(input_size as int, limit);
    law_part_sizes_add_up(total, files);
    law_parts_are_balanced(total, files, i, j);
    let sizes = |k: int| part_positions(total, files, k) as nat;
    let given = |k: int| parts@[k].positions as nat;
    assert forall|k: int| 0 <= k < files implies #[trigger] sizes(k) == given(k) by {
        assert(parts@[k].positions == part_positions(total, files, k));
    }
    crate::counting::lemma_sum_congruence(parts@.len(), sizes, given);
    assert((i + 1) as nat == (i as nat) + 1);
    assert(merge.inputs@[i]@ == parts@[i].path@);
}

/// Two runs in memory that were asked for the same seed write the same bytes for the same input,
/// whatever chance gave them: each is planned without temporary files, with stream 1 of that seed,
/// and the output is the input shuffled by the numbers that the generator gives for it.
/// `generator` says which numbers a seed leads to.
pub proof fn law_in_memory_run_is_reproducible<M: Copy>(
    a: ShuffleOptions<M>,
    b: ShuffleOptions<M>,
    seed: u64,
    random_a: u64,
    random_b: u64,
    plan_a: Result<ShufflePlan<M>, ShuffleError>,
    plan_b: Result<ShufflePlan<M>, ShuffleError>,
    generator: spec_fn(DerivedSeed) -> Seq<u64>,
    input: Seq<u8>,
    output_a: Seq<u8>,
    output_b: Seq<u8>,
)
    requires
        a.seed == Some(seed),
        b.seed == Some(seed),
        input.len() % CHESS_BOARD_SIZE as nat == 0,
        input.len() <= usize::MAX,
        a.fits_in_memory(input.len() as int),
        b.fits_in_memory(input.len() as int),
        a.is_plan(input.len() as usize, random_a, plan_a),
        b.is_plan(input.len() as usize, random_b, plan_b),
        plan_a matches Ok(ShufflePlan::InMemory { seed: s }) ==> is_shuffle(
            input,
            generator(s),
            output_a,
        ),
        plan_b matches Ok(ShufflePlan::InMemory { seed: s }) ==> is_shuffle(
            input,
            generator(s),
            output_b,
        ),
    ensures
        plan_a == Ok::<ShufflePlan<M>, ShuffleError>(
            ShufflePlan::InMemory { seed: DerivedSeed { base: seed, stream: 1 } },
        ),
        plan_b == plan_a,
        is_shuffle(input, generator(DerivedSeed { base: seed, stream: 1 }), output_a),
        output_a == output_b,
{
    law_records_determine_data(output_a, output_b);
}

/// `a` and `b` cut an input into the same parts, at the same paths and with the same seeds.
pub open spec fn same_parts(a: Seq<PartPlan>, b: Seq<PartPlan>) -> bool {
    &&& a.len() == b.len()
    &&& forall|i: int|
        #![trigger a[i]]
        #![trigger b[i]]
        0 <= i < a.len() ==> {
            &&& a[i].path@ == b[i].path@
            &&& a[i].positions == b[i].positions
            &&& a[i].seed == b[i].seed
        }
}

/// The numbers by which each of `parts` is shuffled, where `generator` says which numbers a seed
/// leads to.
pub open spec fn part_draws(
    parts: Seq<PartPlan>,
    generator: spec_fn(DerivedSeed) -> Seq<u64>,
) -> Seq<Seq<u64>> {
    Seq::new(parts.len(), |i: int| generator(parts[i].seed))
}

/// Two runs with the same memory limit that were asked for the same seed split the same input into
/// the same parts, whatever chance gave them; the shuffled parts hold the same records in the same
/// order, and they are merged with the same seed.
pub proof fn law_split_run_is_reproducible<M: Copy, T>(
    a: ShuffleOptions<M>,
    b: ShuffleOptions<M>,
    seed: u64,
    random_a: u64,
    random_b: u64,
    plan_a: Result<ShufflePlan<M>, ShuffleError>,
    plan_b: Result<ShufflePlan<M>, ShuffleError>,
    generator: spec_fn(DerivedSeed) -> Seq<u64>,
    input_size: usize,
    s: Seq<T>,
)
    requires
        a.seed == Some(seed),
        b.seed == Some(seed),
        a.mem_used_mb == b.mem_used_mb,
        0 < a.bytes_used() < input_size,
        a.is_plan(input_size, random_a, plan_a),
        b.is_plan(input_size, random_b, plan_b),
    ensures
        plan_a matches Ok(ShufflePlan::Split { parts: parts_a, interleave: merge_a })
            && plan_b matches Ok(ShufflePlan::Split { parts: parts_b, interleave: merge_b })
            && same_parts(parts_a@, parts_b@)
            && shuffled_parts(
            s,
            parts_a@.len() as int,
            part_draws(parts_a@, generator),
            parts_a@.len(),
        ) == shuffled_parts(
            s,
            parts_b@.len() as int,
            part_draws(parts_b@, generator),
            parts_b@.len(),
        )
            && merge_a.seed == merge_b.seed
            && merge_a.seed.base == seed,
{
    if let (
        Ok(ShufflePlan::Split { parts: parts_a, interleave: _ }),
        Ok(ShufflePlan::Split { parts: parts_b, interleave: _ }),
    ) = (plan_a, plan_b) {
        assert(same_parts(parts_a@, parts_b@));
        assert(part_draws(parts_a@, generator) =~= part_draws(parts_b@, generator));
    }
}

// ---------------------------------------------------------------------------------------------
// Loading a part
// ---------------------------------------------------------------------------------------------

/// How far the buffer of a part is filled.
pub struct PartFill {
    size: usize,
    offset: usize,
    ended: bool,
}

impl PartFill {
    /// The bytes that the part needs.
    pub closed spec fn size(&self) -> nat {
        self.size as nat
    }

    /// The bytes read so far.
    pub closed spec fn offset(&self) -> nat {
        self.offset as nat
    }

    /// Whether the input ran out.
    pub closed spec fn ended(&self) -> bool {
        self.ended
    }

    /// The fill never runs past the buffer.
    #[verifier::type_invariant]
    spec fn within_buffer(&self) -> bool {
        self.offset <= self.size
    }

    /// Whether another read is due.
    pub open spec fn is_open(&self) -> bool {
        !self.ended() && self.offset() < self.size()
    }

    /// The end of the bytes that the next read fills.
    pub open spec fn request_end(&self) -> nat {
        if self.offset() + READ_CHUNK_BYTES < self.size() {
            self.offset() + READ_CHUNK_BYTES as nat
        } else {
            self.size()
        }
    }

    /// Starts on an empty buffer for `positions` records.
    pub fn new(positions: usize) -> (fill: PartFill)
        requires
            positions * CHESS_BOARD_SIZE <= usize::MAX,
        ensures
            fill.size() == positions * CHESS_BOARD_SIZE,
            fill.offset() == 0,
            !fill.ended(),
    {
        PartFill { size: positions * chess_board_size(), offset: 0, ended: false }
    }

    /// The buffer's size in bytes.
    pub fn buffer_size(&self) -> (n: usize)
        ensures
            n == self.size(),
    {
        self.size
    }

    /// The range of the buffer that the next read fills, if one is due.
    pub fn next_read(&self) -> (range: Option<(usize, usize)>)
        ensures
            range == (if self.is_open() {
                Some((self.offset() as usize, self.request_end() as usize))
            } else {
                None
            }),
            range matches Some((start, end)) ==> start == self.offset() && end
                == self.request_end() && start < end <= self.size() && end - start
                <= READ_CHUNK_BYTES,
            range matches Some((start, end)) ==> end == self.size() || end - start == 1_048_576,
            range matches Some((start, end)) ==> end - start <= 1_048_576,
            range is None <==> self.ended() || self.offset() == self.size(),
    {
        proof {
            use_type_invariant(self);
        }
        if self.ended || self.offset >= self.size {
            return None;
        }
        let remaining: usize = self.size - self.offset;
        let current: usize = if remaining < READ_CHUNK_BYTES {
            remaining
        } else {
            READ_CHUNK_BYTES
        };
        Some((self.offset, self.offset + current))
    }

    /// Takes in that the read asked for by [`PartFill::next_read`] gave `bytes_read` bytes. A read
    /// that gives none ends the fill.
    pub fn advance(&mut self, bytes_read: usize)
        requires
            old(self).is_open(),
            old(self).offset() + bytes_read <= old(self).request_end(),
        ensures
            final(self).size() == old(self).size(),
            final(self).offset() == old(self).offset() + bytes_read,
            final(self).ended() == (bytes_read == 0),
    {
        proof {
            use_type_invariant(&*self);
        }
        if bytes_read == 0 {
            self.ended = true;
        } else {
            self.offset = self.offset + bytes_read;
        }
    }
}

} // verus!
