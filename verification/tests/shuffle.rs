use bullet_shogi::text::decimal;
use bullet_shogi::utils::shuffle::{
    num_tmp_files, part_path, positions_per_file, resume_shuffle, shuffle_positions, DerivedSeed,
    PartFill, ShuffleError, ShuffleOptions, ShufflePlan, BYTES_PER_MB, CHESS_BOARD_SIZE,
    READ_CHUNK_BYTES, TMP_DIR,
};

fn make_records(values: &[u8]) -> Vec<u8> {
    let mut bytes = Vec::with_capacity(values.len() * CHESS_BOARD_SIZE);
    for &value in values {
        let mut record = [value; CHESS_BOARD_SIZE];
        record[0] = value;
        bytes.extend_from_slice(&record);
    }
    bytes
}

fn record_ids(data: &[u8]) -> Vec<u8> {
    data.chunks_exact(CHESS_BOARD_SIZE).map(|chunk| chunk[0]).collect()
}

/// A stream of numbers that is fixed by its seed.
fn draws(seed: u64, count: usize) -> Vec<u64> {
    let mut x = seed;
    let mut out = Vec::new();
    for _ in 0..count {
        x ^= x << 13;
        x ^= x >> 7;
        x ^= x << 17;
        out.push(x);
    }
    out
}

fn options(mem_used_mb: usize) -> ShuffleOptions<u8> {
    ShuffleOptions {
        input: "in.bin".to_string(),
        output: "out.bin".to_string(),
        mem_used_mb,
        interleave_mode: 3,
        interleave_block_mb: 8,
        seed: None,
    }
}

#[test]
fn shuffle_positions_is_reproducible() {
    let mut a = make_records(&[1, 2, 3, 4, 5]);
    let mut b = make_records(&[1, 2, 3, 4, 5]);

    shuffle_positions(&mut a, &draws(123, 5));
    shuffle_positions(&mut b, &draws(123, 5));

    assert_eq!(a, b);
}

#[test]
fn shuffle_positions_preserves_all_records() {
    let mut data = make_records(&[1, 2, 3, 4, 5]);

    shuffle_positions(&mut data, &draws(456, 5));

    let mut ids = record_ids(&data);
    ids.sort_unstable();
    assert_eq!(ids, vec![1, 2, 3, 4, 5]);
}

#[test]
fn shuffle_follows_its_draws() {
    // 7 % 4 = 3 keeps the last record, 4 % 3 = 1 swaps the next with its neighbour, 0 % 2 = 0
    // swaps the first two, and the last draw does nothing.
    let mut data = make_records(&[1, 2, 3, 4]);
    shuffle_positions(&mut data, &[7, 4, 0, 9]);
    assert_eq!(record_ids(&data), vec![3, 1, 2, 4]);
    assert_eq!(data, make_records(&[3, 1, 2, 4]));
    let mut empty: Vec<u8> = Vec::new();
    shuffle_positions(&mut empty, &[]);
    assert!(empty.is_empty());
}

#[test]
fn every_order_of_three_can_come_out() {
    let mut seen: Vec<Vec<u8>> = Vec::new();
    for a in 0..3u64 {
        for b in 0..2u64 {
            let mut data = make_records(&[1, 2, 3]);
            shuffle_positions(&mut data, &[a, b, 0]);
            let ids = record_ids(&data);
            assert!(!seen.contains(&ids));
            seen.push(ids);
        }
    }
    assert_eq!(seen.len(), 6);
}

#[test]
fn record_size_is_that_of_a_board() {
    assert_eq!(CHESS_BOARD_SIZE, std::mem::size_of::<bulletformat::ChessBoard>());
    assert_eq!(PartFill::new(3).buffer_size(), 96);
}

#[test]
fn parts_are_even_and_cover_the_input() {
    assert_eq!(positions_per_file(10 * 32, 4), vec![3, 3, 2, 2]);
    assert_eq!(positions_per_file(8 * 32, 4), vec![2, 2, 2, 2]);
    assert_eq!(positions_per_file(2 * 32, 4), vec![1, 1, 0, 0]);
}

#[test]
fn number_of_parts() {
    assert_eq!(num_tmp_files(100, 60), 4);
    assert_eq!(num_tmp_files(500, 100), 5);
    assert_eq!(num_tmp_files(501, 100), 6);
}

#[test]
fn part_paths_count_from_one() {
    assert_eq!(part_path(0), "./tmp/part_1.bin");
    assert_eq!(part_path(99), "./tmp/part_100.bin");
    assert_eq!(TMP_DIR, "./tmp");
    assert_eq!(decimal(0), "0");
    assert_eq!(decimal(9876543210), "9876543210");
}

#[test]
fn memory_limits_are_checked() {
    let err = options(0).run(32, 9).err().unwrap();
    assert_eq!(err, ShuffleError::NoMemory);
    assert_eq!(err.message(), "mem_used_mb must be at least 1");
    let err = options(usize::MAX).run(32, 9).err().unwrap();
    assert_eq!(err, ShuffleError::MemoryLimitOverflow);
    assert_eq!(err.message(), "memory limit overflow");
}

#[test]
fn small_inputs_stay_in_memory() {
    for size in [0, 32, BYTES_PER_MB] {
        match options(1).run(size, 9) {
            Ok(ShufflePlan::InMemory { seed }) => {
                assert_eq!(seed, DerivedSeed { base: 9, stream: 1 });
            }
            _ => panic!("expected a shuffle in memory"),
        }
    }
}

#[test]
fn large_inputs_are_split() {
    match options(1).run(5 * BYTES_PER_MB + 32, 9) {
        Ok(ShufflePlan::Split { parts, interleave }) => {
            let sizes: Vec<usize> = parts.iter().map(|p| p.positions).collect();
            assert_eq!(sizes, vec![27307, 27307, 27307, 27307, 27307, 27306]);
            assert_eq!(sizes.iter().sum::<usize>() * 32, 5 * BYTES_PER_MB + 32);
            assert!(sizes.iter().all(|n| n * 32 <= BYTES_PER_MB));
            let streams: Vec<u64> = parts.iter().map(|p| p.seed.stream).collect();
            assert!(parts.iter().all(|p| p.seed.base == 9));
            assert_eq!(streams, vec![1, 2, 3, 4, 5, 6]);
            assert_eq!(parts[5].path, "./tmp/part_6.bin");
            assert_eq!(interleave.inputs.len(), 6);
            assert_eq!(interleave.inputs[0], "./tmp/part_1.bin");
            assert_eq!(interleave.output, "out.bin");
            assert_eq!(interleave.mode, 3);
            assert_eq!(interleave.block_mb, 8);
            assert_eq!(interleave.seed, DerivedSeed { base: 9, stream: 7 });
        }
        _ => panic!("expected a split"),
    }
    match options(1).run(BYTES_PER_MB + 32, 9) {
        Ok(ShufflePlan::Split { parts, .. }) => assert_eq!(parts.len(), 4),
        _ => panic!("expected a split"),
    }
}

#[test]
fn seed_is_the_one_asked_for() {
    let mut o = options(1);
    assert_eq!(o.base_seed(11), 11);
    o.seed = Some(5);
    assert_eq!(o.base_seed(11), 5);
}

/// A run in memory: the plan's seed picks the numbers, and they shuffle the input.
fn run_in_memory(o: &ShuffleOptions<u8>, random: u64, input: &[u8]) -> Vec<u8> {
    match o.run(input.len(), random) {
        Ok(ShufflePlan::InMemory { seed }) => {
            let mut bytes = input.to_vec();
            let numbers = draws(seed.base * 31 + seed.stream, input.len() / CHESS_BOARD_SIZE);
            shuffle_positions(&mut bytes, &numbers);
            bytes
        }
        _ => panic!("expected a shuffle in memory"),
    }
}

#[test]
fn run_in_memory_is_reproducible() {
    let input = make_records(&[1, 2, 3, 4, 5, 6, 7, 8]);
    let mut a = options(1);
    let mut b = options(2);
    a.seed = Some(77);
    b.seed = Some(77);
    let out = run_in_memory(&a, 5, &input);
    assert_eq!(out, run_in_memory(&b, 6, &input));
    assert_ne!(out, input);
    b.seed = None;
    assert_eq!(out, run_in_memory(&b, 77, &input));
}

#[test]
fn split_run_is_reproducible() {
    let mut a = options(1);
    a.seed = Some(77);
    let size = 3 * BYTES_PER_MB;
    match (a.run(size, 5), a.run(size, 6)) {
        (
            Ok(ShufflePlan::Split { parts: p, interleave: i }),
            Ok(ShufflePlan::Split { parts: q, interleave: j }),
        ) => {
            assert_eq!(p.len(), q.len());
            for (x, y) in p.iter().zip(&q) {
                assert_eq!((&x.path, x.positions, x.seed), (&y.path, y.positions, y.seed));
                assert_eq!(x.seed.base, 77);
            }
            assert_eq!(i.seed, j.seed);
        }
        _ => panic!("expected a split"),
    }
}

#[test]
fn shuffle_may_stop_and_go_on() {
    let ids: Vec<u8> = (1..=20).collect();
    let numbers = draws(99, 20);
    let mut whole = make_records(&ids);
    shuffle_positions(&mut whole, &numbers);
    for cut in [0usize, 1, 7, 19, 20] {
        let mut data = make_records(&ids);
        resume_shuffle(&mut data, 0, &numbers[..cut]);
        resume_shuffle(&mut data, cut, &numbers[cut..]);
        assert_eq!(data, whole);
    }
    // With the last record placed, a draw of 5 picks record 5 % 3 = 2 of the three that are left.
    let mut data = make_records(&[1, 2, 3, 4]);
    resume_shuffle(&mut data, 1, &[5, 0]);
    assert_eq!(record_ids(&data), vec![2, 1, 3, 4]);
}

#[test]
fn part_is_filled_in_chunks() {
    let mut fill = PartFill::new(READ_CHUNK_BYTES / 32 + 1);
    assert_eq!(fill.next_read(), Some((0, READ_CHUNK_BYTES)));
    fill.advance(100);
    assert_eq!(fill.next_read(), Some((100, READ_CHUNK_BYTES + 32)));
    fill.advance(READ_CHUNK_BYTES - 68);
    assert_eq!(fill.next_read(), None);
}

#[test]
fn part_fill_ends_with_the_input() {
    let mut fill = PartFill::new(2);
    fill.advance(10);
    assert_eq!(fill.next_read(), Some((10, 64)));
    fill.advance(0);
    assert_eq!(fill.next_read(), None);
    assert_eq!(PartFill::new(0).next_read(), None);
}

#[test]
fn order_depends_on_draws_and_length() {
    let numbers = draws(31, 6);
    let mut order = make_records(&[0, 1, 2, 3, 4, 5]);
    shuffle_positions(&mut order, &numbers);
    let ids = [9u8, 7, 7, 40, 2, 255];
    let mut data = make_records(&ids);
    shuffle_positions(&mut data, &numbers);
    let expected: Vec<u8> = record_ids(&order).iter().map(|&i| ids[i as usize]).collect();
    assert_eq!(record_ids(&data), expected);
}
