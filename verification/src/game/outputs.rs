//! Output buckets: which of a network's output heads a position is scored by.
use vstd::prelude::*;

use bulletformat::chess::MarlinFormat;
use bulletformat::ChessBoard;

use crate::exact::{in_unit_interval, is_sigmoid};
use crate::shogi::{PackedSfenValue, PieceType, ShogiBoard};

verus! {

// ---------------------------------------------------------------------------------------------
// Chess positions of bulletformat
// ---------------------------------------------------------------------------------------------

/// Declares `bulletformat::ChessBoard`, a struct of public integer fields.
#[verifier::external_type_specification]
pub struct ExChessBoard(bulletformat::ChessBoard);

/// Declares `bulletformat::chess::MarlinFormat`, whose fields are private.
#[verifier::external_type_specification]
#[verifier::external_body]
pub struct ExMarlinFormat(bulletformat::chess::MarlinFormat);

/// The occupancy bitboard that a `MarlinFormat` record holds.
pub uninterp spec fn marlin_occ(pos: MarlinFormat) -> u64;

/// `bulletformat::ChessBoard::occ` gives the board's `occ` field.
pub assume_specification[ bulletformat::ChessBoard::occ ](pos: &ChessBoard) -> (occ: u64)
    ensures
        occ == pos.occ,
;

/// `bulletformat::chess::MarlinFormat::occ` gives the record's occupancy bitboard.
pub assume_specification[ bulletformat::chess::MarlinFormat::occ ](pos: &MarlinFormat) -> (occ: u64)
    ensures
        occ == marlin_occ(*pos),
;

// ---------------------------------------------------------------------------------------------
// The trait
// ---------------------------------------------------------------------------------------------

/// A rule that sorts positions of type `T` into `BUCKETS` buckets.
pub trait OutputBuckets<T>: Send + Sync + Copy + Default + 'static {
    const BUCKETS: usize;

    /// The positions that the rule is made for.
    spec fn accepts(&self, pos: &T) -> bool;

    /// The bucket of `pos`.
    spec fn bucket_spec(&self, pos: &T) -> int;

    fn bucket(&self, pos: &T) -> (b: u8)
        requires
            self.accepts(pos),
        ensures
            b == self.bucket_spec(pos),
    ;
}

/// One bucket for everything.
#[derive(Clone, Copy, Default)]
pub struct Single;

impl<T: 'static> OutputBuckets<T> for Single {
    const BUCKETS: usize = 1;

    open spec fn accepts(&self, pos: &T) -> bool {
        true
    }

    open spec fn bucket_spec(&self, pos: &T) -> int {
        0
    }

    fn bucket(&self, _pos: &T) -> (b: u8) {
        0
    }
}

/// A rule with a single bucket puts every position in bucket 0.
pub proof fn law_single_has_one_bucket<T: 'static>(rule: Single, pos: &T)
    ensures
        <Single as OutputBuckets<T>>::BUCKETS == 1,
        OutputBuckets::<T>::accepts(&rule, pos),
        OutputBuckets::<T>::bucket_spec(&rule, pos) == 0,
{
}

// ---------------------------------------------------------------------------------------------
// Material count
// ---------------------------------------------------------------------------------------------

/// The number of ones in the binary form of `x`.
pub open spec fn popcount(x: u64) -> nat
    decreases x,
{
    if x == 0 {
        0
    } else {
        popcount(x / 2) + (x % 2) as nat
    }
}

/// `32 / n`, rounded up.
pub open spec fn material_divisor(n: int) -> int {
    (32 + n - 1) / n
}

/// The bucket of a position with `pieces` pieces when there are `n` buckets.
pub open spec fn material_bucket_spec(n: int, pieces: int) -> int {
    (pieces - 2) / material_divisor(n)
}

proof fn lemma_popcount_bound(x: u64, bits: nat)
    requires
        x < vstd::arithmetic::power2::pow2(bits),
    ensures
        popcount(x) <= bits,
    decreases bits,
{
    vstd::arithmetic::power2::lemma2_to64();
    if bits > 0 {
        if x > 0 {
            vstd::arithmetic::power2::lemma_pow2_unfold(bits);
            lemma_popcount_bound(x / 2, (bits - 1) as nat);
        }
    }
}

/// Counts the ones in the binary form of `x`.
fn count_ones(x: u64) -> (n: u32)
    ensures
        n == popcount(x),
        n <= 64,
{
    let mut rest: u64 = x;
    let mut n: u32 = 0;
    proof {
        vstd::arithmetic::power2::lemma2_to64();
        lemma_popcount_bound(x, 64);
    }
    while rest > 0
        invariant
            n + popcount(rest) == popcount(x),
            popcount(x) <= 64,
        decreases rest,
    {
        n += (rest % 2) as u32;
        rest = rest / 2;
    }
    n
}

/// Buckets of equal width over the number of pieces on a chess board.
#[derive(Clone, Copy, Default)]
pub struct MaterialCount<const N: usize>;

impl<const N: usize> MaterialCount<N> {
    /// A board with at least two pieces, and at least one bucket to put it in.
    pub open spec fn covers(occ: u64) -> bool {
        N > 0 && popcount(occ) >= 2
    }

    /// The bucket of a board with the occupied squares `occ`.
    pub fn bucket_of_occ(occ: u64) -> (b: u8)
        requires
            Self::covers(occ),
        ensures
            b == material_bucket_spec(N as int, popcount(occ) as int),
    {
        let divisor: usize = if 32 % N == 0 {
            32 / N
        } else {
            32 / N + 1
        };
        proof {
            lemma_material_divisor(N as int);
            let q = 32int / N as int;
            let r = 32int % N as int;
            vstd::arithmetic::div_mod::lemma_fundamental_div_mod(32, N as int);
            vstd::arithmetic::div_mod::lemma_mod_pos_bound(32, N as int);
            assert(q * N == N * q) by (nonlinear_arith);
            if r == 0 {
                vstd::arithmetic::div_mod::lemma_fundamental_div_mod_converse(
                    32 + N - 1,
                    N as int,
                    q,
                    N - 1,
                );
            } else {
                assert((q + 1) * N == N * q + N) by (nonlinear_arith);
                vstd::arithmetic::div_mod::lemma_fundamental_div_mod_converse(
                    32 + N - 1,
                    N as int,
                    q + 1,
                    r - 1,
                );
            }
            assert(divisor == material_divisor(N as int));
        }
        let pieces: u8 = count_ones(occ) as u8;
        (pieces - 2) / divisor as u8
    }

    /// The bucket of a Marlin record, or `None` where it has fewer than two pieces or there is no
    /// bucket.
    pub fn try_bucket(&self, pos: &MarlinFormat) -> (b: Option<u8>)
        ensures
            b is Some <==> Self::covers(marlin_occ(*pos)),
            b is Some <==> N > 0 && popcount(marlin_occ(*pos)) >= 2,
            b matches Some(v) ==> v == material_bucket_spec(
                N as int,
                popcount(marlin_occ(*pos)) as int,
            ),
    {
        let occ: u64 = pos.occ();
        if N == 0 || count_ones(occ) < 2 {
            None
        } else {
            Some(Self::bucket_of_occ(occ))
        }
    }
}

impl<const N: usize> OutputBuckets<ChessBoard> for MaterialCount<N> {
    const BUCKETS: usize = N;

    open spec fn accepts(&self, pos: &ChessBoard) -> bool {
        Self::covers(pos.occ)
    }

    open spec fn bucket_spec(&self, pos: &ChessBoard) -> int {
        material_bucket_spec(N as int, popcount(pos.occ) as int)
    }

    fn bucket(&self, pos: &ChessBoard) -> (b: u8) {
        Self::bucket_of_occ(pos.occ())
    }
}

impl<const N: usize> OutputBuckets<MarlinFormat> for MaterialCount<N> {
    const BUCKETS: usize = N;

    open spec fn accepts(&self, pos: &MarlinFormat) -> bool {
        Self::covers(marlin_occ(*pos))
    }

    open spec fn bucket_spec(&self, pos: &MarlinFormat) -> int {
        material_bucket_spec(N as int, popcount(marlin_occ(*pos)) as int)
    }

    fn bucket(&self, pos: &MarlinFormat) -> (b: u8) {
        Self::bucket_of_occ(pos.occ())
    }
}

proof fn lemma_material_divisor(n: int)
    requires
        n > 0,
    ensures
        1 <= material_divisor(n) <= 32,
        n * material_divisor(n) >= 32,
{
    let d = material_divisor(n);
    vstd::arithmetic::div_mod::lemma_fundamental_div_mod(32 + n - 1, n);
    vstd::arithmetic::div_mod::lemma_mod_pos_bound(32 + n - 1, n);
    assert(n * d >= 32);
    assert(d >= 1) by (nonlinear_arith)
        requires
            n * d >= 32,
            n > 0,
    ;
    assert(d <= 32) by (nonlinear_arith)
        requires
            n * d <= 32 + n - 1,
            n > 0,
    ;
}

/// Taking the lowest one out of the binary form of a number takes one off its count of ones, and
/// zero has none.
pub proof fn law_popcount_counts_ones(x: u64)
    ensures
        popcount(0) == 0,
        x > 0 ==> popcount(x & (x - 1) as u64) + 1 == popcount(x),
    decreases x,
{
    if x > 0 {
        let y = x / 2;
        let rest = x & (x - 1) as u64;
        if x % 2 == 1 {
            assert(rest == x - 1 && rest / 2 == y && rest % 2 == 0) by (bit_vector)
                requires
                    x % 2 == 1,
                    y == x / 2,
                    rest == x & (x - 1) as u64,
            ;
        } else {
            assert(y > 0);
            law_popcount_counts_ones(y);
            let half = y & (y - 1) as u64;
            assert(rest / 2 == half && rest % 2 == 0) by (bit_vector)
                requires
                    x % 2 == 0,
                    x > 0,
                    y == x / 2,
                    rest == x & (x - 1) as u64,
                    half == y & (y - 1) as u64,
            ;
        }
    }
}

/// The buckets have one width, the least that lets `n` of them hold 32 pieces, and the first starts
/// at two pieces.
pub proof fn law_material_buckets_have_one_width(n: int, pieces: int, width: int)
    requires
        n > 0,
        pieces >= 2,
        width * n >= 32,
        (width - 1) * n < 32,
    ensures
        material_bucket_spec(n, pieces) >= 0,
        material_bucket_spec(n, pieces) * width <= pieces - 2,
        pieces - 2 < (material_bucket_spec(n, pieces) + 1) * width,
{
    let d = material_divisor(n);
    lemma_material_divisor(n);
    vstd::arithmetic::div_mod::lemma_fundamental_div_mod(32 + n - 1, n);
    vstd::arithmetic::div_mod::lemma_mod_pos_bound(32 + n - 1, n);
    assert(width == d) by (nonlinear_arith)
        requires
            width * n >= 32,
            (width - 1) * n < 32,
            n * d >= 32,
            n * d <= 32 + n - 1,
            n > 0,
    ;
    let b = material_bucket_spec(n, pieces);
    vstd::arithmetic::div_mod::lemma_fundamental_div_mod(pieces - 2, d);
    vstd::arithmetic::div_mod::lemma_mod_pos_bound(pieces - 2, d);
    vstd::arithmetic::div_mod::lemma_div_pos_is_pos(pieces - 2, d);
    assert(b * d == d * b && (b + 1) * d == d * b + d) by (nonlinear_arith);
}

/// Boards and Marlin records are put in their buckets by how many squares are occupied, and by
/// nothing else; from two pieces on, every one has a bucket.
pub proof fn law_material_rule_counts_pieces<const N: usize>(
    rule: MaterialCount<N>,
    board: &ChessBoard,
    record: &MarlinFormat,
)
    ensures
        <MaterialCount<N> as OutputBuckets<ChessBoard>>::BUCKETS == N,
        <MaterialCount<N> as OutputBuckets<MarlinFormat>>::BUCKETS == N,
        OutputBuckets::<ChessBoard>::accepts(&rule, board) <==> N > 0 && popcount(board.occ) >= 2,
        OutputBuckets::<MarlinFormat>::accepts(&rule, record) <==> N > 0 && popcount(
            marlin_occ(*record),
        ) >= 2,
        OutputBuckets::<ChessBoard>::bucket_spec(&rule, board) == material_bucket_spec(
            N as int,
            popcount(board.occ) as int,
        ),
        popcount(board.occ) == popcount(marlin_occ(*record)) ==> OutputBuckets::<
            ChessBoard,
        >::bucket_spec(&rule, board) == OutputBuckets::<MarlinFormat>::bucket_spec(&rule, record),
{
}

/// A chess position, which has 2 to 32 pieces, always lands in one of the `n` buckets, and more
/// pieces never mean a lower bucket.
pub proof fn law_material_bucket_in_range(n: int, fewer: int, more: int)
    requires
        n > 0,
        2 <= fewer <= more <= 32,
    ensures
        0 <= material_bucket_spec(n, fewer) <= material_bucket_spec(n, more) < n,
{
    lemma_material_divisor(n);
    let d = material_divisor(n);
    vstd::arithmetic::div_mod::lemma_div_is_ordered(fewer - 2, more - 2, d);
    vstd::arithmetic::div_mod::lemma_div_pos_is_pos(fewer - 2, d);
    vstd::arithmetic::div_mod::lemma_fundamental_div_mod(more - 2, d);
    vstd::arithmetic::div_mod::lemma_mod_pos_bound(more - 2, d);
    let b = (more - 2) / d;
    assert(b < n) by (nonlinear_arith)
        requires
            d * b <= 30,
            n * d >= 32,
            d > 0,
    ;
}

// ---------------------------------------------------------------------------------------------
// Shogi: king ranks
// ---------------------------------------------------------------------------------------------

/// A packed shogi position together with the board that it decodes to.
#[derive(Clone, Copy, Debug)]
pub struct ShogiPosition {
    pub packed: PackedSfenValue,
    pub board: ShogiBoard,
}

/// The third of the board that a relative rank lies in, from the far side on.
pub open spec fn rank_zone(rank: int) -> int {
    rank / 3
}

/// The bucket of a board when there are `n` buckets: a 3 x 3 table of the zones of both kings,
/// each king's rank as its own player sees it, cut off at the last bucket.
///
/// ```text
///                enemy 0-2   enemy 3-5   enemy 6-8
/// friend 0-2:        0           1           2
/// friend 3-5:        3           4           5
/// friend 6-8:        6           7           8
/// ```
pub open spec fn king_rank_bucket_spec(n: int, board: &ShogiBoard) -> int {
    let full = 3 * rank_zone(board.friend_rank()) + rank_zone(board.enemy_rank());
    if full < n - 1 {
        full
    } else {
        n - 1
    }
}

/// Buckets by the relative ranks of both kings.
#[derive(Clone, Copy, Default)]
pub struct ShogiKingRankBucket<const N: usize>;

impl<const N: usize> ShogiKingRankBucket<N> {
    /// The bucket of a decoded board.
    pub fn bucket_of_board(board: &ShogiBoard) -> (b: u8)
        requires
            N > 0,
            board.wf(),
        ensures
            b == king_rank_bucket_spec(N as int, board),
            b <= 8,
            b < N,
    {
        let f_rank: u8 = board.king_rank_of_mover();
        let e_rank: u8 = board.king_rank_of_opponent();
        let full: u8 = 3 * (f_rank / 3) + e_rank / 3;
        if (full as usize) < N - 1 {
            full
        } else {
            (N - 1) as u8
        }
    }
}

impl<const N: usize> OutputBuckets<ShogiPosition> for ShogiKingRankBucket<N> {
    const BUCKETS: usize = N;

    open spec fn accepts(&self, pos: &ShogiPosition) -> bool {
        N > 0 && pos.board.wf()
    }

    open spec fn bucket_spec(&self, pos: &ShogiPosition) -> int {
        king_rank_bucket_spec(N as int, &pos.board)
    }

    fn bucket(&self, pos: &ShogiPosition) -> (b: u8) {
        Self::bucket_of_board(&pos.board)
    }
}

/// The bucket of nine is the cell of the 3 x 3 table, from which the zones of both kings can be
/// read back.
pub proof fn law_king_rank_bucket_is_the_table_cell(board: &ShogiBoard)
    requires
        board.wf(),
    ensures
        0 <= board.friend_rank() < 9,
        0 <= board.enemy_rank() < 9,
        king_rank_bucket_spec(9, board) == 3 * rank_zone(board.friend_rank()) + rank_zone(
            board.enemy_rank(),
        ),
        king_rank_bucket_spec(9, board) / 3 == rank_zone(board.friend_rank()),
        king_rank_bucket_spec(9, board) % 3 == rank_zone(board.enemy_rank()),
        0 <= king_rank_bucket_spec(9, board) < 9,
{
}

/// Ranks 0 to 2, 3 to 5 and 6 to 8 are the three zones: with nine buckets the mover's king stands
/// in the zone of the bucket's row and the other king in that of its column. With fewer buckets,
/// those past the last one fall into it.
pub proof fn law_king_rank_bucket_is_told_by_the_ranks(board: &ShogiBoard, n: int)
    requires
        board.wf(),
        n > 0,
    ensures
        ({
            let b = king_rank_bucket_spec(9, board);
            &&& 3 * (b / 3) <= board.friend_rank() < 3 * (b / 3) + 3
            &&& 3 * (b % 3) <= board.enemy_rank() < 3 * (b % 3) + 3
            &&& b < n ==> king_rank_bucket_spec(n, board) == b
            &&& b >= n ==> king_rank_bucket_spec(n, board) == n - 1
        }),
{
}

/// The same, said of the squares of the kings and of the rule: Black sees its own king's rank as it
/// is, and White counts from the other end.
pub proof fn law_king_rank_rule_looks_at_both_kings(
    rule: ShogiKingRankBucket<9>,
    pos: &ShogiPosition,
)
    requires
        pos.board.black_king.rank < 9,
        pos.board.white_king.rank < 9,
    ensures
        rule.accepts(pos),
        ({
            let b = rule.bucket_spec(pos);
            let (black, white) = (pos.board.black_king.rank as int, 8 - pos.board.white_king.rank);
            let (friend, enemy) = if pos.board.side_to_move is Black {
                (black, white)
            } else {
                (white, black)
            };
            &&& 0 <= b < 9
            &&& 3 * (b / 3) <= friend < 3 * (b / 3) + 3
            &&& 3 * (b % 3) <= enemy < 3 * (b % 3) + 3
        }),
{
}

/// With `N` buckets the rule puts a position where it does with nine, or in the last bucket.
pub proof fn law_king_rank_rule_is_cut_off<const N: usize>(
    rule: ShogiKingRankBucket<N>,
    nine: ShogiKingRankBucket<9>,
    pos: &ShogiPosition,
)
    requires
        N > 0,
        pos.board.black_king.rank < 9,
        pos.board.white_king.rank < 9,
    ensures
        <ShogiKingRankBucket<N> as OutputBuckets<ShogiPosition>>::BUCKETS == N,
        rule.accepts(pos),
        nine.bucket_spec(pos) < N ==> rule.bucket_spec(pos) == nine.bucket_spec(pos),
        nine.bucket_spec(pos) >= N ==> rule.bucket_spec(pos) == N - 1,
{
}

/// Whatever the number of buckets is, the bucket is one of them.
pub proof fn law_king_rank_bucket_in_range(n: int, board: &ShogiBoard)
    requires
        n > 0,
        board.wf(),
    ensures
        0 <= king_rank_bucket_spec(n, board) < n,
{
}

/// Turning the board round and handing the move over leaves the bucket as it was: the rule looks
/// at both kings from their own sides only.
pub proof fn law_king_rank_bucket_is_relative(n: int, a: &ShogiBoard, b: &ShogiBoard)
    requires
        a.wf(),
        b.wf(),
        b.side_to_move == a.side_to_move.opponent_spec(),
        b.black_king.rank == 8 - a.white_king.rank,
        b.white_king.rank == 8 - a.black_king.rank,
    ensures
        king_rank_bucket_spec(n, a) == king_rank_bucket_spec(n, b),
{
}

// ---------------------------------------------------------------------------------------------
// Shogi: ply
// ---------------------------------------------------------------------------------------------

/// The usual ply bounds: bucket 0 up to ply 30, bucket 1 up to 44, and so on; bucket 8 from 139.
pub const SHOGI_PLY_BUCKET9_DEFAULT_BOUNDS: [u16; 8] = [30, 44, 58, 72, 86, 100, 116, 138];

/// The first index from `from` on whose bound is at least `ply`, or the number of bounds.
pub open spec fn first_bound_from(bounds: Seq<u16>, ply: int, from: int) -> int
    decreases bounds.len() - from,
{
    if from < 0 || from >= bounds.len() {
        bounds.len() as int
    } else if ply <= bounds[from] {
        from
    } else {
        first_bound_from(bounds, ply, from + 1)
    }
}

/// The ply bucket: bucket `i` takes the plies up to bound `i` that no earlier bucket takes, and
/// the bucket after the last bound takes the rest.
pub open spec fn ply_bucket_spec(bounds: Seq<u16>, ply: int) -> int {
    first_bound_from(bounds, ply, 0)
}

/// `b` is the first index whose bound is at least `ply`.
proof fn lemma_first_bound(bounds: Seq<u16>, ply: int, from: int)
    requires
        0 <= from <= bounds.len(),
    ensures
        from <= first_bound_from(bounds, ply, from) <= bounds.len(),
        forall|j: int| from <= j < first_bound_from(bounds, ply, from) ==> bounds[j] < ply,
        first_bound_from(bounds, ply, from) < bounds.len() ==> ply <= bounds[first_bound_from(
            bounds,
            ply,
            from,
        )],
    decreases bounds.len() - from,
{
    if from < bounds.len() && ply > bounds[from] {
        lemma_first_bound(bounds, ply, from + 1);
    }
}

/// Finds the ply bucket among eight bounds.
fn find_ply_bucket(bounds: &[u16; 8], ply: u16) -> (b: u8)
    ensures
        b == ply_bucket_spec(bounds@, ply as int),
        b <= 8,
        forall|j: int| 0 <= j < b ==> bounds@[j] < ply,
        b < 8 ==> ply <= bounds@[b as int],
{
    let mut i: usize = 0;
    while i < 8
        invariant
            i <= 8,
            forall|j: int| 0 <= j < i ==> bounds@[j] < ply,
            ply_bucket_spec(bounds@, ply as int) == first_bound_from(bounds@, ply as int, i as int),
        decreases 8 - i,
    {
        if ply <= bounds[i] {
            return i as u8;
        }
        i += 1;
    }
    8
}

/// Buckets by the ply number, with nine buckets between eight bounds.
#[derive(Clone, Copy)]
pub struct ShogiPlyBucket9 {
    pub bounds: [u16; 8],
}

impl Default for ShogiPlyBucket9 {
    fn default() -> (b: ShogiPlyBucket9)
        ensures
            b.bounds == SHOGI_PLY_BUCKET9_DEFAULT_BOUNDS,
    {
        ShogiPlyBucket9 { bounds: SHOGI_PLY_BUCKET9_DEFAULT_BOUNDS }
    }
}

impl OutputBuckets<PackedSfenValue> for ShogiPlyBucket9 {
    const BUCKETS: usize = 9;

    open spec fn accepts(&self, pos: &PackedSfenValue) -> bool {
        true
    }

    open spec fn bucket_spec(&self, pos: &PackedSfenValue) -> int {
        ply_bucket_spec(self.bounds@, pos.game_ply_spec() as int)
    }

    fn bucket(&self, pos: &PackedSfenValue) -> (b: u8)
        ensures
            b <= 8,
            forall|j: int| 0 <= j < b ==> self.bounds@[j] < pos.game_ply_spec(),
            b < 8 ==> pos.game_ply_spec() <= self.bounds@[b as int],
    {
        find_ply_bucket(&self.bounds, pos.game_ply())
    }
}

impl OutputBuckets<ShogiPosition> for ShogiPlyBucket9 {
    const BUCKETS: usize = 9;

    open spec fn accepts(&self, pos: &ShogiPosition) -> bool {
        true
    }

    open spec fn bucket_spec(&self, pos: &ShogiPosition) -> int {
        ply_bucket_spec(self.bounds@, pos.packed.game_ply_spec() as int)
    }

    fn bucket(&self, pos: &ShogiPosition) -> (b: u8)
        ensures
            b <= 8,
            forall|j: int| 0 <= j < b ==> self.bounds@[j] < pos.packed.game_ply_spec(),
            b < 8 ==> pos.packed.game_ply_spec() <= self.bounds@[b as int],
    {
        find_ply_bucket(&self.bounds, pos.packed.game_ply())
    }
}

/// Whatever order the bounds are in, the bucket is the first one whose bound is at least the ply,
/// or the one after the last bound where no bound is.
pub proof fn law_ply_bucket_is_the_first_bound(bounds: Seq<u16>, ply: int, i: int)
    requires
        0 <= i <= bounds.len(),
    ensures
        ply_bucket_spec(bounds, ply) == i <==> (forall|j: int| 0 <= j < i ==> bounds[j] < ply) && (i
            < bounds.len() ==> ply <= bounds[i]),
{
    lemma_first_bound(bounds, ply, 0);
    let b = ply_bucket_spec(bounds, ply);
    if b < i && (forall|j: int| 0 <= j < i ==> bounds[j] < ply) {
        assert(bounds[b] < ply);
    }
}

/// The rule takes any record, alone or with its board, and goes by the bounds and by the ply that
/// the record holds in its bytes 36 and 37: bucket `i` is the first whose bound the ply does not
/// exceed.
pub proof fn law_ply_rule_reads_the_ply(rule: ShogiPlyBucket9, pos: &ShogiPosition)
    ensures
        <ShogiPlyBucket9 as OutputBuckets<PackedSfenValue>>::BUCKETS == 9,
        <ShogiPlyBucket9 as OutputBuckets<ShogiPosition>>::BUCKETS == 9,
        OutputBuckets::<PackedSfenValue>::accepts(&rule, &pos.packed),
        OutputBuckets::<ShogiPosition>::accepts(&rule, pos),
        OutputBuckets::<PackedSfenValue>::bucket_spec(&rule, &pos.packed) == OutputBuckets::<
            ShogiPosition,
        >::bucket_spec(&rule, pos),
        ({
            let b = OutputBuckets::<ShogiPosition>::bucket_spec(&rule, pos);
            let ply = pos.packed.bytes@[36] + pos.packed.bytes@[37] * 256;
            &&& 0 <= b <= 8
            &&& forall|j: int| 0 <= j < b ==> rule.bounds@[j] < ply
            &&& b < 8 ==> ply <= rule.bounds@[b]
        }),
{
    lemma_first_bound(rule.bounds@, pos.packed.game_ply_spec() as int, 0);
}

/// The usual bounds grow by 14 plies up to ply 100, then by 16 and by 22.
pub proof fn law_default_bounds(i: int)
    ensures
        SHOGI_PLY_BUCKET9_DEFAULT_BOUNDS@.len() == 8,
        0 <= i <= 5 ==> SHOGI_PLY_BUCKET9_DEFAULT_BOUNDS@[i] == 30 + 14 * i,
        SHOGI_PLY_BUCKET9_DEFAULT_BOUNDS@[6] == 116,
        SHOGI_PLY_BUCKET9_DEFAULT_BOUNDS@[7] == 138,
{
}

/// A later ply never falls in an earlier bucket, whatever the bounds are, and the bucket is
/// one of `bounds.len() + 1`.
pub proof fn law_ply_bucket_is_monotone(bounds: Seq<u16>, earlier: int, later: int)
    requires
        earlier <= later,
    ensures
        0 <= ply_bucket_spec(bounds, earlier) <= ply_bucket_spec(bounds, later) <= bounds.len(),
{
    lemma_first_bound(bounds, earlier, 0);
    lemma_first_bound(bounds, later, 0);
    let b = ply_bucket_spec(bounds, later);
    if b < ply_bucket_spec(bounds, earlier) {
        assert(bounds[b] < earlier);
    }
}

/// With bounds in ascending order, bucket `i` is exactly the plies above bound `i - 1` and up to
/// bound `i`.
pub proof fn law_ply_bucket_is_an_interval(bounds: Seq<u16>, ply: int, i: int)
    requires
        0 <= i <= bounds.len(),
        forall|a: int, b: int| 0 <= a < b < bounds.len() ==> bounds[a] <= bounds[b],
    ensures
        ply_bucket_spec(bounds, ply) == i <==> (i > 0 ==> bounds[i - 1] < ply) && (i < bounds.len()
            ==> ply <= bounds[i]),
{
    lemma_first_bound(bounds, ply, 0);
    let b = ply_bucket_spec(bounds, ply);
    if b < i {
        assert(bounds[b] <= bounds[i - 1]);
    }
    if b > i {
        assert(bounds[i] < ply);
    }
}

// ---------------------------------------------------------------------------------------------
// Shogi: progress
// ---------------------------------------------------------------------------------------------

/// Number of features of the progress model.
pub const SHOGI_PROGRESS8_NUM_FEATURES: usize = 6;

/// Number of buckets of the progress model.
pub const SHOGI_PROGRESS8_NUM_BUCKETS: usize = 8;

/// The names of the progress features, in order.
pub const SHOGI_PROGRESS8_FEATURE_ORDER: [&'static str; 6] = [
    "x_board_non_king",
    "x_hand_total",
    "x_major_board",
    "x_promoted_board",
    "x_stm_king_rank_rel",
    "x_ntm_king_rank_rel",
];

/// There are six features, named in the order in which they are extracted.
pub proof fn law_feature_names()
    ensures
        SHOGI_PROGRESS8_NUM_FEATURES == 6,
        SHOGI_PROGRESS8_FEATURE_ORDER@.len() == 6,
        SHOGI_PROGRESS8_FEATURE_ORDER@[0]@ == "x_board_non_king"@,
        SHOGI_PROGRESS8_FEATURE_ORDER@[1]@ == "x_hand_total"@,
        SHOGI_PROGRESS8_FEATURE_ORDER@[2]@ == "x_major_board"@,
        SHOGI_PROGRESS8_FEATURE_ORDER@[3]@ == "x_promoted_board"@,
        SHOGI_PROGRESS8_FEATURE_ORDER@[4]@ == "x_stm_king_rank_rel"@,
        SHOGI_PROGRESS8_FEATURE_ORDER@[5]@ == "x_ntm_king_rank_rel"@,
{
}

/// How many squares of the board hold a piece that satisfies `p`.
pub open spec fn squares_where(board: &ShogiBoard, p: spec_fn(PieceType) -> bool) -> nat {
    crate::counting::count_upto(81, |i: int| p(board.board@[i]))
}

/// How many pieces a hand holds.
pub open spec fn hand_size(hand: Seq<u8>) -> nat {
    crate::counting::sum_upto(hand.len(), |i: int| hand[i] as nat)
}

/// The features of a board, in the order of [`SHOGI_PROGRESS8_FEATURE_ORDER`].
pub open spec fn progress_features_spec(board: &ShogiBoard) -> Seq<int> {
    seq![
        squares_where(board, |t: PieceType| t.is_non_king_spec()) as int,
        (hand_size(board.black_hand@) + hand_size(board.white_hand@)) as int,
        squares_where(board, |t: PieceType| t.is_major_spec()) as int,
        squares_where(board, |t: PieceType| t.is_promoted_spec()) as int,
        board.friend_rank(),
        board.enemy_rank(),
    ]
}

/// The pieces of the board counted by kind.
fn count_pieces(board: &ShogiBoard) -> (counts: (u32, u32, u32))
    ensures
        counts.0 == squares_where(board, |t: PieceType| t.is_non_king_spec()),
        counts.1 == squares_where(board, |t: PieceType| t.is_major_spec()),
        counts.2 == squares_where(board, |t: PieceType| t.is_promoted_spec()),
        counts.0 <= 81,
        counts.1 <= 81,
        counts.2 <= 81,
{
    let mut non_king: u32 = 0;
    let mut major: u32 = 0;
    let mut promoted: u32 = 0;
    let ghost p = |t: PieceType| t.is_non_king_spec();
    let ghost q = |t: PieceType| t.is_major_spec();
    let ghost r = |t: PieceType| t.is_promoted_spec();
    let mut i: usize = 0;
    while i < 81
        invariant
            i <= 81,
            p == (|t: PieceType| t.is_non_king_spec()),
            q == (|t: PieceType| t.is_major_spec()),
            r == (|t: PieceType| t.is_promoted_spec()),
            non_king == crate::counting::count_upto(i as nat, |k: int| p(board.board@[k])),
            major == crate::counting::count_upto(i as nat, |k: int| q(board.board@[k])),
            promoted == crate::counting::count_upto(i as nat, |k: int| r(board.board@[k])),
            non_king <= i,
            major <= i,
            promoted <= i,
        decreases 81 - i,
    {
        let piece = board.board[i];
        if piece.is_non_king() {
            non_king += 1;
        }
        if piece.is_major() {
            major += 1;
        }
        if piece.is_promoted() {
            promoted += 1;
        }
        i += 1;
    }
    (non_king, major, promoted)
}

/// Counts the pieces in a hand.
fn count_hand(hand: &[u8; 7]) -> (n: u32)
    ensures
        n == hand_size(hand@),
        n <= 7 * 255,
{
    let mut n: u32 = 0;
    let mut i: usize = 0;
    while i < 7
        invariant
            i <= 7,
            n == crate::counting::sum_upto(i as nat, |k: int| hand@[k] as nat),
            n <= 255 * i,
        decreases 7 - i,
    {
        n += hand[i] as u32;
        i += 1;
    }
    n
}

/// One summand of the progress model's logit: `weight * ((feature - mean) / std)`, where a `std`
/// that is not positive stands for one. See [`exact_term`].
#[derive(Clone, Copy, Debug)]
pub struct ProgressTerm<L> {
    pub weight: L,
    pub feature: u32,
    pub mean: L,
    pub std: L,
}

/// The progress model applied to one board: the logistic function of the bias and the terms,
/// added up in order and clamped to the range that the two ends of `z_clip` span. See
/// [`exact_logit`].
#[derive(Clone, Copy, Debug)]
pub struct ProgressLogit<L> {
    pub bias: L,
    pub terms: [ProgressTerm<L>; 6],
    pub z_clip: [L; 2],
}

/// What a feature is divided by in exact arithmetic.
pub open spec fn exact_scale(std: real) -> real {
    if std > 0 as real {
        std
    } else {
        1 as real
    }
}

/// What a term comes to in exact arithmetic.
pub open spec fn exact_term(t: ProgressTerm<real>) -> real {
    t.weight * ((t.feature as real - t.mean) / exact_scale(t.std))
}

/// The bias and the first `n` terms, added up.
pub open spec fn exact_sum(bias: real, terms: Seq<ProgressTerm<real>>, n: nat) -> real
    decreases n,
{
    if n == 0 {
        bias
    } else {
        exact_sum(bias, terms, (n - 1) as nat) + exact_term(terms[n - 1])
    }
}

/// The number closest to `z` between `a` and `b`, whichever of them is the smaller.
pub open spec fn clamped_between(z: real, a: real, b: real) -> real {
    let low = if a <= b {
        a
    } else {
        b
    };
    let high = if a <= b {
        b
    } else {
        a
    };
    if z < low {
        low
    } else if z > high {
        high
    } else {
        z
    }
}

/// What the logistic function is applied to, in exact arithmetic: the sum of all terms, clamped.
pub open spec fn exact_logit(logit: ProgressLogit<real>) -> real {
    clamped_between(
        exact_sum(logit.bias, logit.terms@, SHOGI_PROGRESS8_NUM_FEATURES as nat),
        logit.z_clip@[0],
        logit.z_clip@[1],
    )
}

/// The progress in exact arithmetic, over the function `sigmoid`.
pub open spec fn exact_progress(
    sigmoid: spec_fn(real) -> real,
    logit: ProgressLogit<real>,
) -> real {
    sigmoid(exact_logit(logit))
}

/// Eight buckets by game progress, a logistic regression over six features. `L` is the number
/// type of the coefficients.
#[derive(Clone, Copy, Debug)]
pub struct ShogiProgressBucket8<L> {
    pub mean: [L; 6],
    pub std: [L; 6],
    pub weights: [L; 6],
    pub bias: L,
    pub z_clip: [L; 2],
}

impl<L: Copy> ShogiProgressBucket8<L> {
    pub fn new(mean: [L; 6], std: [L; 6], weights: [L; 6], bias: L, z_clip: [L; 2]) -> (m: Self)
        ensures
            m.mean == mean,
            m.std == std,
            m.weights == weights,
            m.bias == bias,
            m.z_clip == z_clip,
    {
        ShogiProgressBucket8 { mean, std, weights, bias, z_clip }
    }

    /// Extracts the features of a board.
    pub fn extract_features(board: &ShogiBoard) -> (x: [u32; 6])
        requires
            board.wf(),
        ensures
            forall|i: int|
                0 <= i < 6 ==> #[trigger] x@[i] as int == progress_features_spec(board)[i],
    {
        let (non_king, major, promoted) = count_pieces(board);
        let hands: u32 = count_hand(&board.black_hand) + count_hand(&board.white_hand);
        [
            non_king,
            hands,
            major,
            promoted,
            board.king_rank_of_mover() as u32,
            board.king_rank_of_opponent() as u32,
        ]
    }

    /// `logit` is this model applied to `board`.
    pub open spec fn is_progress(&self, board: &ShogiBoard, logit: ProgressLogit<L>) -> bool {
        &&& logit.bias == self.bias
        &&& logit.z_clip == self.z_clip
        &&& forall|i: int|
            #![trigger logit.terms@[i]]
            0 <= i < 6 ==> {
                &&& logit.terms@[i].weight == self.weights@[i]
                &&& logit.terms@[i].feature as int == progress_features_spec(board)[i]
                &&& logit.terms@[i].mean == self.mean@[i]
                &&& logit.terms@[i].std == self.std@[i]
            }
    }

    fn term(&self, x: &[u32; 6], i: usize) -> (t: ProgressTerm<L>)
        requires
            i < 6,
        ensures
            t.weight == self.weights@[i as int],
            t.feature == x@[i as int],
            t.mean == self.mean@[i as int],
            t.std == self.std@[i as int],
    {
        ProgressTerm {
            weight: self.weights[i],
            feature: x[i],
            mean: self.mean[i],
            std: self.std[i],
        }
    }

    /// Applies the model to a board, up to the arithmetic on `L`.
    pub fn progress(&self, board: &ShogiBoard) -> (logit: ProgressLogit<L>)
        requires
            board.wf(),
        ensures
            self.is_progress(board, logit),
    {
        let x = Self::extract_features(board);
        let terms = [
            self.term(&x, 0),
            self.term(&x, 1),
            self.term(&x, 2),
            self.term(&x, 3),
            self.term(&x, 4),
            self.term(&x, 5),
        ];
        ProgressLogit { bias: self.bias, terms, z_clip: self.z_clip }
    }
}

/// The bucket of a progress whose eightfold, rounded down, is `eighths`.
pub open spec fn progress_bucket_spec(eighths: int) -> int {
    if eighths < 0 {
        0
    } else if eighths > 7 {
        7
    } else {
        eighths
    }
}

/// Finds the bucket of a progress `p` from `floor(8 * p)`.
pub fn progress_bucket(eighths: i32) -> (b: u8)
    ensures
        b == progress_bucket_spec(eighths as int),
        b < SHOGI_PROGRESS8_NUM_BUCKETS,
{
    if eighths < 0 {
        0
    } else if eighths > 7 {
        7
    } else {
        eighths as u8
    }
}

/// The bucket of the progress `p` in exact arithmetic.
pub open spec fn exact_progress_bucket(p: real) -> int {
    progress_bucket_spec((p * (8 as real)).floor())
}

/// The buckets cut the progress into eighths, and the last one takes the end as well. A later
/// progress never falls in an earlier bucket.
pub proof fn law_progress_buckets_are_eighths(p: real, later: real)
    requires
        0 as real <= p,
        p <= later,
        later <= 1 as real,
    ensures
        ({
            let b = exact_progress_bucket(p);
            &&& 0 <= b <= 7
            &&& b as real <= p * (8 as real)
            &&& b < 7 ==> p * (8 as real) < (b + 1) as real
            &&& b <= exact_progress_bucket(later)
        }),
{
    let x = p * (8 as real);
    let y = later * (8 as real);
    assert(0 as real <= x && x <= y && y <= 8 as real);
    assert(x.floor() as real <= x && x < (x.floor() + 1) as real);
    assert(y.floor() as real <= y && y < (y.floor() + 1) as real);
}

/// One square changes the first, third and fourth feature by the piece that leaves it and the one
/// that comes to it: any piece but a king counts in the first, a bishop, rook, horse or dragon in
/// the third, and a promoted piece in the fourth. It changes no other feature.
pub proof fn law_features_follow_each_square(a: &ShogiBoard, b: &ShogiBoard, k: int)
    requires
        0 <= k < 81,
        forall|i: int| 0 <= i < 81 && i != k ==> #[trigger] a.board@[i] == b.board@[i],
        a.side_to_move == b.side_to_move,
        a.black_hand == b.black_hand,
        a.white_hand == b.white_hand,
        a.black_king.rank == b.black_king.rank,
        a.white_king.rank == b.white_king.rank,
    ensures
        ({
            let (x, y) = (progress_features_spec(a), progress_features_spec(b));
            let (left, came) = (a.board@[k], b.board@[k]);
            let one = |holds: bool|
                if holds {
                    1int
                } else {
                    0
                };
            let piece = |t: PieceType| !(t is Empty) && !(t is King);
            let major = |t: PieceType| t is Bishop || t is Rook || t is Horse || t is Dragon;
            let promoted = |t: PieceType|
                t is ProPawn || t is ProLance || t is ProKnight || t is ProSilver || t is Horse
                    || t is Dragon;
            &&& x.len() == 6 && y.len() == 6
            &&& y[0] - x[0] == one(piece(came)) - one(piece(left))
            &&& y[1] == x[1]
            &&& y[2] - x[2] == one(major(came)) - one(major(left))
            &&& y[3] - x[3] == one(promoted(came)) - one(promoted(left))
            &&& y[4] == x[4]
            &&& y[5] == x[5]
        }),
{
    let p = |t: PieceType| t.is_non_king_spec();
    let q = |t: PieceType| t.is_major_spec();
    let r = |t: PieceType| t.is_promoted_spec();
    crate::counting::law_count_changes_at_one_number(
        81,
        |i: int| p(a.board@[i]),
        |i: int| p(b.board@[i]),
        k,
    );
    crate::counting::law_count_changes_at_one_number(
        81,
        |i: int| q(a.board@[i]),
        |i: int| q(b.board@[i]),
        k,
    );
    crate::counting::law_count_changes_at_one_number(
        81,
        |i: int| r(a.board@[i]),
        |i: int| r(b.board@[i]),
        k,
    );
}

/// A change in one kind of piece in one hand changes the second feature by as much, and no other.
pub proof fn law_features_follow_each_hand(a: &ShogiBoard, b: &ShogiBoard, k: int)
    requires
        0 <= k < 7,
        a.board == b.board,
        a.side_to_move == b.side_to_move,
        a.black_king.rank == b.black_king.rank,
        a.white_king.rank == b.white_king.rank,
        (forall|i: int| 0 <= i < 7 && i != k ==> #[trigger] a.black_hand@[i] == b.black_hand@[i])
            && a.white_hand == b.white_hand || (forall|i: int|
            0 <= i < 7 && i != k ==> #[trigger] a.white_hand@[i] == b.white_hand@[i])
            && a.black_hand == b.black_hand,
    ensures
        ({
            let (x, y) = (progress_features_spec(a), progress_features_spec(b));
            &&& y[1] - x[1] == (b.black_hand@[k] - a.black_hand@[k]) + (b.white_hand@[k]
                - a.white_hand@[k])
            &&& y[0] == x[0] && y[2] == x[2] && y[3] == x[3] && y[4] == x[4] && y[5] == x[5]
        }),
{
    if a.white_hand == b.white_hand && (forall|i: int|
        0 <= i < 7 && i != k ==> #[trigger] a.black_hand@[i] == b.black_hand@[i]) {
        crate::counting::law_sum_changes_by_one_summand(
            7,
            |i: int| a.black_hand@[i] as nat,
            |i: int| b.black_hand@[i] as nat,
            k,
        );
    } else {
        crate::counting::law_sum_changes_by_one_summand(
            7,
            |i: int| a.white_hand@[i] as nat,
            |i: int| b.white_hand@[i] as nat,
            k,
        );
    }
}

/// An empty board with empty hands has no feature but the ranks of the kings. On any board these
/// are the last two features: the mover's king first, each rank as its own player sees it.
pub proof fn law_features_of_kings_and_of_an_empty_board(board: &ShogiBoard)
    ensures
        ({
            let x = progress_features_spec(board);
            let (black, white) = (board.black_king.rank as int, 8 - board.white_king.rank);
            &&& board.side_to_move is Black ==> x[4] == black && x[5] == white
            &&& board.side_to_move is White ==> x[4] == white && x[5] == black
            &&& (forall|i: int| 0 <= i < 81 ==> #[trigger] board.board@[i] is Empty) && (forall|
                i: int,
            |
                0 <= i < 7 ==> #[trigger] board.black_hand@[i] == 0) && (forall|i: int|
                0 <= i < 7 ==> #[trigger] board.white_hand@[i] == 0) ==> x[0] == 0 && x[1] == 0
                && x[2] == 0 && x[3] == 0
        }),
{
    if (forall|i: int| 0 <= i < 81 ==> #[trigger] board.board@[i] is Empty) && (forall|i: int|
        0 <= i < 7 ==> #[trigger] board.black_hand@[i] == 0) && (forall|i: int|
        0 <= i < 7 ==> #[trigger] board.white_hand@[i] == 0) {
        let p = |t: PieceType| t.is_non_king_spec();
        let q = |t: PieceType| t.is_major_spec();
        let r = |t: PieceType| t.is_promoted_spec();
        crate::counting::lemma_count_of_none(81, |i: int| p(board.board@[i]));
        crate::counting::lemma_count_of_none(81, |i: int| q(board.board@[i]));
        crate::counting::lemma_count_of_none(81, |i: int| r(board.board@[i]));
        crate::counting::law_sum_of_zeros(7, |i: int| board.black_hand@[i] as nat);
        crate::counting::law_sum_of_zeros(7, |i: int| board.white_hand@[i] as nat);
    }
}

/// A model is applied to a board coefficient by coefficient: term `i` has weight, mean and deviation
/// number `i` and feature number `i`, and bias and clamp are the model's.
pub proof fn law_model_is_applied_term_by_term<L: Copy>(
    model: ShogiProgressBucket8<L>,
    board: &ShogiBoard,
    logit: ProgressLogit<L>,
    i: int,
)
    requires
        model.is_progress(board, logit),
        0 <= i < 6,
    ensures
        logit.bias == model.bias,
        logit.z_clip@[0] == model.z_clip@[0],
        logit.z_clip@[1] == model.z_clip@[1],
        logit.terms@[i].weight == model.weights@[i],
        logit.terms@[i].mean == model.mean@[i],
        logit.terms@[i].std == model.std@[i],
        logit.terms@[i].feature as int == progress_features_spec(board)[i],
{
}

/// A term is the weighted distance of the feature from the mean, in deviations, and the logit is
/// the bias and the six terms together where the clamp leaves room.
pub proof fn law_logit_adds_up_its_terms(logit: ProgressLogit<real>, t: ProgressTerm<real>)
    requires
        t.std > 0 as real,
    ensures
        exact_term(t) * t.std == t.weight * (t.feature as real - t.mean),
        ({
            let sum = logit.bias + exact_term(logit.terms@[0]) + exact_term(logit.terms@[1])
                + exact_term(logit.terms@[2]) + exact_term(logit.terms@[3]) + exact_term(
                logit.terms@[4],
            ) + exact_term(logit.terms@[5]);
            logit.z_clip@[0] <= sum && sum <= logit.z_clip@[1] ==> exact_logit(logit) == sum
        }),
{
    let (w, x, s) = (t.weight, t.feature as real - t.mean, t.std);
    assert((w * (x / s)) * s == w * x) by (nonlinear_arith)
        requires
            s > 0 as real,
    ;
    reveal_with_fuel(exact_sum, 7);
}

/// A progress of `k` eighths and a bit falls in bucket `k`, and there are no buckets below the first
/// or above the eighth.
pub proof fn law_progress_bucket_counts_eighths(k: int)
    ensures
        SHOGI_PROGRESS8_NUM_BUCKETS == 8,
        0 <= k <= 7 ==> progress_bucket_spec(k) == k,
        k < 0 ==> progress_bucket_spec(k) == 0,
        k > 7 ==> progress_bucket_spec(k) == 7,
{
}

/// Every feature of a board is bounded, and major and promoted pieces are pieces other than kings.
pub proof fn law_progress_features_are_bounded(board: &ShogiBoard)
    requires
        board.wf(),
    ensures
        ({
            let x = progress_features_spec(board);
            &&& 0 <= x[2] <= x[0] <= 81
            &&& 0 <= x[3] <= x[0]
            &&& 0 <= x[1]
            &&& 0 <= x[4] < 9
            &&& 0 <= x[5] < 9
        }),
{
    let p = |t: PieceType| t.is_non_king_spec();
    let q = |t: PieceType| t.is_major_spec();
    let r = |t: PieceType| t.is_promoted_spec();
    crate::counting::lemma_count_is_monotone(
        81,
        |i: int| q(board.board@[i]),
        |i: int| p(board.board@[i]),
    );
    crate::counting::lemma_count_is_monotone(
        81,
        |i: int| r(board.board@[i]),
        |i: int| p(board.board@[i]),
    );
}

/// The two ends of the clamp may come in either order: exchanging them changes nothing.
pub proof fn law_clip_ends_may_be_exchanged(a: ProgressLogit<real>, b: ProgressLogit<real>)
    requires
        b.bias == a.bias,
        b.terms == a.terms,
        b.z_clip@[0] == a.z_clip@[1],
        b.z_clip@[1] == a.z_clip@[0],
    ensures
        exact_logit(b) == exact_logit(a),
{
}

/// The logit lies between the two ends of the clamp, and it is the sum where the sum does.
pub proof fn law_logit_is_clamped(logit: ProgressLogit<real>)
    ensures
        ({
            let (a, b) = (logit.z_clip@[0], logit.z_clip@[1]);
            let sum = exact_sum(logit.bias, logit.terms@, 6);
            let z = exact_logit(logit);
            &&& (a <= z && z <= b) || (b <= z && z <= a)
            &&& (a <= sum && sum <= b) || (b <= sum && sum <= a) ==> z == sum
        }),
{
}

/// A `std` that is not positive counts as one.
pub proof fn law_std_defaults_to_one(t: ProgressTerm<real>)
    requires
        t.std <= 0 as real,
    ensures
        exact_term(t) == exact_term(ProgressTerm { std: 1 as real, ..t }),
        exact_term(t) == t.weight * (t.feature as real - t.mean),
{
    let x = t.feature as real - t.mean;
    assert(x / (1 as real) == x) by (nonlinear_arith);
}

/// A model applied to two boards with the same features gives the same logit.
pub proof fn law_logit_follows_features(
    model: ShogiProgressBucket8<real>,
    a: &ShogiBoard,
    b: &ShogiBoard,
    of_a: ProgressLogit<real>,
    of_b: ProgressLogit<real>,
)
    requires
        progress_features_spec(a) == progress_features_spec(b),
        model.is_progress(a, of_a),
        model.is_progress(b, of_b),
    ensures
        exact_logit(of_a) == exact_logit(of_b),
{
    assert(of_a.terms@ =~= of_b.terms@) by {
        assert forall|i: int| 0 <= i < 6 implies of_a.terms@[i] == of_b.terms@[i] by {
            assert(of_a.terms@[i].feature == of_b.terms@[i].feature);
        }
    }
}

/// The progress is the sigmoid of the clamped sum and lies between 0 and 1. Its bucket is the one
/// that [`progress_bucket`] finds from eight times the progress, rounded down, and is no higher
/// than that.
pub proof fn law_progress_has_a_bucket(
    sigmoid: spec_fn(real) -> real,
    logit: ProgressLogit<real>,
    eighths: int,
)
    requires
        is_sigmoid(sigmoid),
        eighths == (exact_progress(sigmoid, logit) * (8 as real)).floor(),
    ensures
        exact_progress(sigmoid, logit) == sigmoid(exact_logit(logit)),
        in_unit_interval(exact_progress(sigmoid, logit)),
        progress_bucket_spec(eighths) == exact_progress_bucket(exact_progress(sigmoid, logit)),
        0 <= progress_bucket_spec(eighths) <= 7,
        progress_bucket_spec(eighths) == (if eighths < 7 {
            eighths
        } else {
            7
        }),
{
    let p = exact_progress(sigmoid, logit);
    law_progress_buckets_are_eighths(p, p);
    assert(eighths >= 0) by {
        assert(0 as real <= p * (8 as real));
    }
}

/// A higher logit never leads to an earlier bucket.
pub proof fn law_progress_follows_the_logit(
    sigmoid: spec_fn(real) -> real,
    a: ProgressLogit<real>,
    b: ProgressLogit<real>,
)
    requires
        is_sigmoid(sigmoid),
        exact_logit(a) <= exact_logit(b),
    ensures
        exact_progress(sigmoid, a) <= exact_progress(sigmoid, b),
        exact_progress_bucket(exact_progress(sigmoid, a)) <= exact_progress_bucket(
            exact_progress(sigmoid, b),
        ),
{
    law_progress_buckets_are_eighths(exact_progress(sigmoid, a), exact_progress(sigmoid, b));
}

// ---------------------------------------------------------------------------------------------
// Shogi: one of the rules, chosen at run time
// ---------------------------------------------------------------------------------------------

/// Buckets of the layer stack.
pub const SHOGI_LAYER_STACK_BUCKETS: usize = 9;

/// A nine-bucket rule that is chosen at run time.
#[derive(Clone, Copy, Debug)]
pub enum ShogiLayerStackBucket9<L> {
    KingRank9,
    Ply9([u16; 8]),
    Progress8(ShogiProgressBucket8<L>),
}

/// A bucket, or the progress that [`progress_bucket`] finds it from.
#[derive(Clone, Copy, Debug)]
pub enum BucketChoice<L> {
    Bucket(u8),
    Progress(ProgressLogit<L>),
}

/// The bucket that a choice comes to in exact arithmetic, over the function `sigmoid`.
pub open spec fn exact_bucket(sigmoid: spec_fn(real) -> real, choice: BucketChoice<real>) -> int {
    match choice {
        BucketChoice::Bucket(b) => b as int,
        BucketChoice::Progress(logit) => exact_progress_bucket(exact_progress(sigmoid, logit)),
    }
}

impl<L> Default for ShogiLayerStackBucket9<L> {
    fn default() -> (b: ShogiLayerStackBucket9<L>)
        ensures
            b == ShogiLayerStackBucket9::<L>::KingRank9,
    {
        ShogiLayerStackBucket9::KingRank9
    }
}

impl<L: Copy> ShogiLayerStackBucket9<L> {
    /// `choice` is what the chosen rule makes of `pos`.
    pub open spec fn is_choice(&self, pos: &ShogiPosition, choice: BucketChoice<L>) -> bool {
        match (*self, choice) {
            (ShogiLayerStackBucket9::KingRank9, BucketChoice::Bucket(b)) => b
                == king_rank_bucket_spec(9, &pos.board),
            (ShogiLayerStackBucket9::Ply9(bounds), BucketChoice::Bucket(b)) => b
                == ply_bucket_spec(bounds@, pos.packed.game_ply_spec() as int),
            (ShogiLayerStackBucket9::Progress8(model), BucketChoice::Progress(logit)) =>
                model.is_progress(&pos.board, logit),
            _ => false,
        }
    }

    /// Sorts a position by the chosen rule.
    pub fn bucket(&self, pos: &ShogiPosition) -> (choice: BucketChoice<L>)
        requires
            !(self is Ply9) ==> pos.board.wf(),
        ensures
            self.is_choice(pos, choice),
            choice matches BucketChoice::Bucket(b) ==> b < SHOGI_LAYER_STACK_BUCKETS,
    {
        match self {
            ShogiLayerStackBucket9::KingRank9 => {
                BucketChoice::Bucket(ShogiKingRankBucket::<9>::bucket_of_board(&pos.board))
            },
            ShogiLayerStackBucket9::Ply9(bounds) => {
                BucketChoice::Bucket(find_ply_bucket(bounds, pos.packed.game_ply()))
            },
            ShogiLayerStackBucket9::Progress8(model) => {
                BucketChoice::Progress(model.progress(&pos.board))
            },
        }
    }
}

/// The rule chosen at run time does what that rule does by itself.
pub proof fn law_layer_stack_is_the_chosen_rule<L: Copy>(
    rule: ShogiLayerStackBucket9<L>,
    pos: &ShogiPosition,
    choice: BucketChoice<L>,
)
    requires
        rule.is_choice(pos, choice),
    ensures
        SHOGI_LAYER_STACK_BUCKETS == 9,
        rule is KingRank9 ==> {
            &&& choice matches BucketChoice::Bucket(b)
            &&& b == (ShogiKingRankBucket::<9>).bucket_spec(pos)
        },
        rule matches ShogiLayerStackBucket9::Ply9(bounds) ==> {
            &&& choice matches BucketChoice::Bucket(b)
            &&& b == (ShogiPlyBucket9 { bounds }).bucket_spec(pos)
        },
        rule matches ShogiLayerStackBucket9::Progress8(model) ==> {
            &&& choice matches BucketChoice::Progress(logit)
            &&& model.is_progress(&pos.board, logit)
        },
{
}

/// Whichever rule is chosen, a position comes to one of the layer stack's nine buckets, and under
/// the progress rule not to the last of them.
pub proof fn law_layer_stack_bucket_in_range(
    sigmoid: spec_fn(real) -> real,
    rule: ShogiLayerStackBucket9<real>,
    pos: &ShogiPosition,
    choice: BucketChoice<real>,
)
    requires
        is_sigmoid(sigmoid),
        !(rule is Ply9) ==> pos.board.wf(),
        rule.is_choice(pos, choice),
    ensures
        0 <= exact_bucket(sigmoid, choice) < SHOGI_LAYER_STACK_BUCKETS,
        rule is Progress8 ==> exact_bucket(sigmoid, choice) <= 7,
{
    match rule {
        ShogiLayerStackBucket9::KingRank9 => {
            law_king_rank_bucket_in_range(9, &pos.board);
        },
        ShogiLayerStackBucket9::Ply9(bounds) => {
            let ply = pos.packed.game_ply_spec() as int;
            law_ply_bucket_is_monotone(bounds@, ply, ply);
        },
        ShogiLayerStackBucket9::Progress8(_) => {},
    }
}

/// The progress rule leaves bucket 8 of the layer stack unused, and a later progress never falls
/// in an earlier bucket.
pub proof fn law_progress_bucket_in_range(earlier: int, later: int)
    requires
        earlier <= later,
    ensures
        0 <= progress_bucket_spec(earlier) <= progress_bucket_spec(later) <= 7,
{
}

} // verus!
