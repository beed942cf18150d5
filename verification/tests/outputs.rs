use bullet_shogi::game::outputs::{
    progress_bucket, BucketChoice, MaterialCount, OutputBuckets, ProgressLogit, ShogiKingRankBucket,
    ShogiLayerStackBucket9, ShogiPlyBucket9, ShogiPosition, ShogiProgressBucket8, Single,
    SHOGI_PLY_BUCKET9_DEFAULT_BOUNDS, SHOGI_PROGRESS8_FEATURE_ORDER, SHOGI_PROGRESS8_NUM_FEATURES,
};
use bullet_shogi::shogi::{Color, PackedSfenValue, PieceType, ShogiBoard, Square};
use bulletformat::ChessBoard;

fn psv_with_ply(ply: u16) -> PackedSfenValue {
    let mut psv = PackedSfenValue::default();
    let bytes = psv.as_bytes_mut();
    let le = ply.to_le_bytes();
    bytes[36] = le[0];
    bytes[37] = le[1];
    psv
}

fn board_with_kings(side_to_move: Color, black_rank: u8, white_rank: u8) -> ShogiBoard {
    ShogiBoard {
        side_to_move,
        board: [PieceType::Empty; 81],
        black_hand: [0; 7],
        white_hand: [0; 7],
        black_king: Square { file: 4, rank: black_rank },
        white_king: Square { file: 4, rank: white_rank },
    }
}

fn position(ply: u16, board: ShogiBoard) -> ShogiPosition {
    ShogiPosition { packed: psv_with_ply(ply), board }
}

fn default_progress_model() -> ShogiProgressBucket8<f32> {
    ShogiProgressBucket8::new(
        [30.12, 8.45, 2.18, 1.63, 6.71, 6.24],
        [3.77, 4.02, 0.66, 1.40, 1.31, 1.27],
        [-0.81, 0.56, -0.32, 0.48, 0.11, -0.09],
        -0.15,
        [-8.0, 8.0],
    )
}

fn evaluate(logit: &ProgressLogit<f32>) -> f32 {
    let mut z = logit.bias;
    for term in logit.terms.iter() {
        let std = if term.std > 0.0 { term.std } else { 1.0 };
        z += term.weight * ((term.feature as f32 - term.mean) / std);
    }
    let z_min = logit.z_clip[0].min(logit.z_clip[1]);
    let z_max = logit.z_clip[0].max(logit.z_clip[1]);
    let p = 1.0 / (1.0 + (-z.clamp(z_min, z_max)).exp());
    p.clamp(0.0, 1.0)
}

fn bucket_of_progress(p: f32) -> u8 {
    progress_bucket((p * 8.0).floor() as i32)
}

fn layer_stack_bucket(rule: &ShogiLayerStackBucket9<f32>, pos: &ShogiPosition) -> u8 {
    match rule.bucket(pos) {
        BucketChoice::Bucket(b) => b,
        BucketChoice::Progress(logit) => bucket_of_progress(evaluate(&logit)),
    }
}

#[test]
fn test_shogi_ply_bucket9_default_bounds() {
    let bucket = ShogiPlyBucket9::default();
    assert_eq!(bucket.bucket(&psv_with_ply(0)), 0);
    assert_eq!(bucket.bucket(&psv_with_ply(30)), 0);
    assert_eq!(bucket.bucket(&psv_with_ply(31)), 1);
    assert_eq!(bucket.bucket(&psv_with_ply(138)), 7);
    assert_eq!(bucket.bucket(&psv_with_ply(139)), 8);
    assert_eq!(bucket.bucket(&psv_with_ply(400)), 8);
}

#[test]
fn test_shogi_layerstack_bucket9_ply_mode() {
    let bucket: ShogiLayerStackBucket9<f32> =
        ShogiLayerStackBucket9::Ply9([10, 20, 30, 40, 50, 60, 70, 80]);
    let board = board_with_kings(Color::Black, 8, 0);
    assert_eq!(layer_stack_bucket(&bucket, &position(10, board)), 0);
    assert_eq!(layer_stack_bucket(&bucket, &position(21, board)), 2);
    assert_eq!(layer_stack_bucket(&bucket, &position(80, board)), 7);
    assert_eq!(layer_stack_bucket(&bucket, &position(81, board)), 8);
}

#[test]
fn test_shogi_progress_bucket8_range() {
    let model = default_progress_model();
    for ply in [1u16, 30, 60, 100, 150, 220, 300] {
        let pos = position(ply, board_with_kings(Color::Black, 8, 0));
        let b = bucket_of_progress(evaluate(&model.progress(&pos.board)));
        assert!(b <= 7, "progress8 bucket must be in 0..=7, got {}", b);
    }
}

#[test]
fn test_shogi_layerstack_bucket9_progress_mode_range() {
    let bucket = ShogiLayerStackBucket9::Progress8(default_progress_model());
    for ply in [1u16, 40, 80, 120, 200, 400] {
        let b = layer_stack_bucket(&bucket, &position(ply, board_with_kings(Color::White, 8, 0)));
        assert!(b <= 7, "progress8-in-9 bucket must be in 0..=7, got {}", b);
    }
}

#[test]
fn single_has_one_bucket() {
    assert_eq!(Single.bucket(&7u8), 0);
    assert_eq!(<Single as OutputBuckets<u8>>::BUCKETS, 1);
}

#[test]
fn material_count_of_the_start_position() {
    let text = "rnbqkbnr/pppppppp/8/8/8/8/PPPPPPPP/RNBQKBNR w KQkq - 0 1 | 0 | 0.5";
    let board: ChessBoard = text.parse().unwrap();
    assert_eq!(MaterialCount::<8>.bucket(&board), 7);
    assert_eq!(MaterialCount::<1>.bucket(&board), 0);
    assert_eq!(MaterialCount::<5>.bucket(&board), 4);
    assert_eq!(MaterialCount::<64>.bucket(&board), 30);
    assert_eq!(<MaterialCount<8> as OutputBuckets<ChessBoard>>::BUCKETS, 8);
}

#[test]
fn material_count_of_few_pieces() {
    let kings: ChessBoard = "4k3/8/8/8/8/8/8/4K3 w - - 0 1 | 0 | 0.5".parse().unwrap();
    assert_eq!(MaterialCount::<8>.bucket(&kings), 0);
    let six: ChessBoard = "4k3/pp6/8/8/8/8/PP6/4K3 b - - 0 1 | 0 | 0.5".parse().unwrap();
    assert_eq!(MaterialCount::<8>.bucket(&six), 1);
    assert_eq!(MaterialCount::<16>.bucket(&six), 2);
}

#[test]
fn king_rank_bucket_table() {
    // The friend's zone picks the row and the enemy's zone the column.
    for (f, row) in [(0u8, 0u8), (2, 0), (3, 3), (5, 3), (6, 6), (8, 6)] {
        for (e, column) in [(0u8, 0u8), (2, 0), (3, 1), (5, 1), (6, 2), (8, 2)] {
            let black = position(1, board_with_kings(Color::Black, f, 8 - e));
            let white = position(1, board_with_kings(Color::White, e, 8 - f));
            assert_eq!(ShogiKingRankBucket::<9>.bucket(&black), row + column);
            assert_eq!(ShogiKingRankBucket::<9>.bucket(&white), row + column);
        }
    }
}

#[test]
fn king_rank_bucket_is_cut_off() {
    let pos = position(1, board_with_kings(Color::Black, 8, 0));
    assert_eq!(ShogiKingRankBucket::<9>.bucket(&pos), 8);
    assert_eq!(ShogiKingRankBucket::<4>.bucket(&pos), 3);
    assert_eq!(ShogiKingRankBucket::<1>.bucket(&pos), 0);
    assert_eq!(ShogiKingRankBucket::<100>.bucket(&pos), 8);
}

#[test]
fn layer_stack_default_is_king_rank() {
    let rule: ShogiLayerStackBucket9<f32> = ShogiLayerStackBucket9::default();
    assert!(matches!(rule, ShogiLayerStackBucket9::KingRank9));
    let pos = position(1, board_with_kings(Color::Black, 4, 0));
    assert_eq!(layer_stack_bucket(&rule, &pos), 5);
}

#[test]
fn ply_bucket_takes_the_first_bound() {
    // Bounds that do not ascend: the first one that is large enough decides.
    let rule = ShogiPlyBucket9 { bounds: [50, 10, 60, 20, 70, 30, 80, 40] };
    assert_eq!(rule.bucket(&psv_with_ply(5)), 0);
    assert_eq!(rule.bucket(&psv_with_ply(51)), 2);
    assert_eq!(rule.bucket(&psv_with_ply(61)), 4);
    assert_eq!(rule.bucket(&psv_with_ply(81)), 8);
    assert_eq!(ShogiPlyBucket9::default().bounds, SHOGI_PLY_BUCKET9_DEFAULT_BOUNDS);
    assert_eq!(rule.bucket(&position(51, board_with_kings(Color::Black, 8, 0))), 2);
}

#[test]
fn game_ply_is_little_endian() {
    assert_eq!(psv_with_ply(0x1234).game_ply(), 0x1234);
    assert_eq!(psv_with_ply(u16::MAX).game_ply(), u16::MAX);
}

#[test]
fn progress_features_of_a_board() {
    let mut board = board_with_kings(Color::White, 8, 1);
    board.board[0] = PieceType::King;
    board.board[1] = PieceType::King;
    board.board[2] = PieceType::Pawn;
    board.board[3] = PieceType::Bishop;
    board.board[4] = PieceType::Dragon;
    board.board[5] = PieceType::ProSilver;
    board.board[80] = PieceType::Gold;
    board.black_hand = [3, 0, 0, 1, 0, 0, 0];
    board.white_hand = [0, 2, 0, 0, 0, 0, 1];
    let x = ShogiProgressBucket8::<f32>::extract_features(&board);
    assert_eq!(x, [5, 7, 2, 2, 7, 8]);
    assert_eq!(SHOGI_PROGRESS8_FEATURE_ORDER.len(), SHOGI_PROGRESS8_NUM_FEATURES);
    assert_eq!(SHOGI_PROGRESS8_FEATURE_ORDER[5], "x_ntm_king_rank_rel");
}

#[test]
fn progress_hands_its_coefficients_on() {
    let model = default_progress_model();
    let logit = model.progress(&board_with_kings(Color::Black, 8, 0));
    assert_eq!(logit.bias, -0.15);
    assert_eq!(logit.z_clip, [-8.0, 8.0]);
    assert_eq!(logit.terms[3].weight, 0.48);
    assert_eq!(logit.terms[3].mean, 1.63);
    assert_eq!(logit.terms[3].std, 1.40);
    assert_eq!(logit.terms[4].feature, 8);
    assert_eq!(logit.terms[5].feature, 8);
}

#[test]
fn progress_bucket_clamps() {
    assert_eq!(progress_bucket(-1), 0);
    assert_eq!(progress_bucket(0), 0);
    assert_eq!(progress_bucket(6), 6);
    assert_eq!(progress_bucket(8), 7);
    assert_eq!(bucket_of_progress(1.0), 7);
    assert_eq!(bucket_of_progress(0.5), 4);
}

#[test]
fn clip_ends_may_come_in_either_order() {
    let board = board_with_kings(Color::Black, 8, 0);
    let mut model = default_progress_model();
    model.z_clip = [-0.5, 1.5];
    let logit = model.progress(&board);
    model.z_clip = [1.5, -0.5];
    let exchanged = model.progress(&board);
    assert_eq!(exchanged.z_clip, [1.5, -0.5]);
    assert_eq!(evaluate(&logit), evaluate(&exchanged));
    // The sum is above 1.5, so the progress is the logistic function of 1.5: 0.8176, bucket 6.
    assert!((evaluate(&logit) - 0.817_574_5).abs() < 1e-5);
    assert_eq!(bucket_of_progress(evaluate(&logit)), 6);
}

#[test]
fn std_that_is_not_positive_counts_as_one() {
    let board = board_with_kings(Color::Black, 8, 0);
    let mut model = ShogiProgressBucket8::new([0.0f32; 6], [1.0; 6], [0.0; 6], 0.0, [-8.0, 8.0]);
    model.weights[4] = 0.125;
    let one = evaluate(&model.progress(&board));
    for std in [0.0, -3.0] {
        model.std[4] = std;
        assert_eq!(evaluate(&model.progress(&board)), one);
    }
    // The king's rank of 8, times the weight, is 1: the logistic function gives 0.7311.
    assert!((one - 0.731_058_6).abs() < 1e-5);
}

#[test]
fn progress_buckets_are_eighths() {
    for b in 0..8u8 {
        let low = f32::from(b) / 8.0;
        assert_eq!(bucket_of_progress(low), b);
        assert_eq!(bucket_of_progress(low + 0.12), b);
    }
}

#[test]
fn files_play_no_part() {
    let mut board = board_with_kings(Color::Black, 8, 0);
    board.black_king.file = 200;
    board.white_king.file = 9;
    let pos = position(1, board);
    assert_eq!(ShogiKingRankBucket::<9>.bucket(&pos), 8);
    assert_eq!(ShogiProgressBucket8::<f32>::extract_features(&board), [0, 0, 0, 0, 8, 8]);
}
