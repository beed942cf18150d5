//! Shogi positions: the packed record of a training file and the board that it stands for.
use vstd::prelude::*;

verus! {

/// Bytes of one packed position record.
pub const PSV_RECORD_SIZE: usize = 40;

/// The side of a player. Black moves first.
#[derive(Clone, Copy, Debug, PartialEq, Eq, Structural)]
pub enum Color {
    Black,
    White,
}

impl Color {
    pub open spec fn opponent_spec(self) -> Color {
        match self {
            Color::Black => Color::White,
            Color::White => Color::Black,
        }
    }

    /// The other side.
    pub fn opponent(self) -> (c: Color)
        ensures
            c == self.opponent_spec(),
    {
        match self {
            Color::Black => Color::White,
            Color::White => Color::Black,
        }
    }
}

/// What stands on a square.
#[derive(Clone, Copy, Debug, PartialEq, Eq, Structural)]
pub enum PieceType {
    Empty,
    Pawn,
    Lance,
    Knight,
    Silver,
    Gold,
    Bishop,
    Rook,
    King,
    ProPawn,
    ProLance,
    ProKnight,
    ProSilver,
    Horse,
    Dragon,
}

impl PieceType {
    /// A piece that is not a king.
    pub open spec fn is_non_king_spec(self) -> bool {
        self != PieceType::Empty && self != PieceType::King
    }

    /// A bishop or a rook, promoted or not.
    pub open spec fn is_major_spec(self) -> bool {
        self == PieceType::Bishop || self == PieceType::Rook || self == PieceType::Horse || self
            == PieceType::Dragon
    }

    /// A piece on its promoted side.
    pub open spec fn is_promoted_spec(self) -> bool {
        self == PieceType::ProPawn || self == PieceType::ProLance || self == PieceType::ProKnight
            || self == PieceType::ProSilver || self == PieceType::Horse || self
            == PieceType::Dragon
    }

    pub fn is_non_king(self) -> (b: bool)
        ensures
            b == self.is_non_king_spec(),
    {
        self != PieceType::Empty && self != PieceType::King
    }

    pub fn is_major(self) -> (b: bool)
        ensures
            b == self.is_major_spec(),
    {
        matches!(self, PieceType::Bishop | PieceType::Rook | PieceType::Horse | PieceType::Dragon)
    }

    pub fn is_promoted(self) -> (b: bool)
        ensures
            b == self.is_promoted_spec(),
    {
        matches!(
            self,
            PieceType::ProPawn
                | PieceType::ProLance
                | PieceType::ProKnight
                | PieceType::ProSilver
                | PieceType::Horse
                | PieceType::Dragon
        )
    }
}

/// A square by its file and rank, both counted from zero. Rank 0 is White's back rank.
#[derive(Clone, Copy, Debug, PartialEq, Eq, Structural)]
pub struct Square {
    pub file: u8,
    pub rank: u8,
}

impl Square {
    /// The rank is one of the board's nine. No rule looks at the file.
    pub open spec fn wf(self) -> bool {
        self.rank < 9
    }

    /// The rank as the player of `color` sees it: 0 is the far rank, 8 the player's own back rank.
    pub open spec fn relative_rank(self, color: Color) -> int {
        match color {
            Color::Black => self.rank as int,
            Color::White => 8 - self.rank,
        }
    }
}

/// A decoded position, as far as buckets are chosen by it.
#[derive(Clone, Copy, Debug)]
pub struct ShogiBoard {
    pub side_to_move: Color,
    pub board: [PieceType; 81],
    pub black_hand: [u8; 7],
    pub white_hand: [u8; 7],
    pub black_king: Square,
    pub white_king: Square,
}

impl ShogiBoard {
    /// Both kings stand on a rank of the board.
    pub open spec fn wf(&self) -> bool {
        self.black_king.wf() && self.white_king.wf()
    }

    pub open spec fn king_square_spec(&self, color: Color) -> Square {
        match color {
            Color::Black => self.black_king,
            Color::White => self.white_king,
        }
    }

    /// The square of the king of `color`.
    pub fn king_square(&self, color: Color) -> (sq: Square)
        ensures
            sq == self.king_square_spec(color),
    {
        match color {
            Color::Black => self.black_king,
            Color::White => self.white_king,
        }
    }

    /// The rank of the mover's king as the mover sees it.
    pub open spec fn friend_rank(&self) -> int {
        self.king_square_spec(self.side_to_move).relative_rank(self.side_to_move)
    }

    /// The rank of the other king as its own player sees it.
    pub open spec fn enemy_rank(&self) -> int {
        let enemy = self.side_to_move.opponent_spec();
        self.king_square_spec(enemy).relative_rank(enemy)
    }

    /// Computes [`ShogiBoard::friend_rank`].
    pub fn king_rank_of_mover(&self) -> (rank: u8)
        requires
            self.wf(),
        ensures
            rank == self.friend_rank(),
            rank < 9,
    {
        let king = self.king_square(self.side_to_move);
        match self.side_to_move {
            Color::Black => king.rank,
            Color::White => 8 - king.rank,
        }
    }

    /// Computes [`ShogiBoard::enemy_rank`].
    pub fn king_rank_of_opponent(&self) -> (rank: u8)
        requires
            self.wf(),
        ensures
            rank == self.enemy_rank(),
            rank < 9,
    {
        let king = self.king_square(self.side_to_move.opponent());
        match self.side_to_move {
            Color::Black => 8 - king.rank,
            Color::White => king.rank,
        }
    }
}

/// One record of a training file, as its bytes.
#[derive(Clone, Copy, Debug)]
pub struct PackedSfenValue {
    pub bytes: [u8; 40],
}

impl PackedSfenValue {
    /// The ply number that the record holds, little endian, in bytes 36 and 37.
    pub open spec fn game_ply_spec(&self) -> u16 {
        (self.bytes@[36] + 256 * self.bytes@[37]) as u16
    }

    /// The ply number of the position within its game.
    pub fn game_ply(&self) -> (ply: u16)
        ensures
            ply == self.game_ply_spec(),
            ply == self.bytes@[36] + 256 * self.bytes@[37],
    {
        self.bytes[36] as u16 + 256 * (self.bytes[37] as u16)
    }

    /// The record's bytes, to be filled.
    pub fn as_bytes_mut(&mut self) -> (bytes: &mut [u8; 40])
        ensures
            *bytes == old(self).bytes,
            final(self).bytes == *final(bytes),
    {
        &mut self.bytes
    }
}

impl Default for PackedSfenValue {
    /// A record of zero bytes.
    fn default() -> (psv: PackedSfenValue)
        ensures
            psv.bytes@ == Seq::new(40, |i: int| 0u8),
    {
        PackedSfenValue { bytes: [0u8; 40] }
    }
}

/// The opponent of a player is the other one, and the opponent's opponent the player again.
pub proof fn law_opponent_is_the_other_side(c: Color)
    ensures
        c.opponent_spec() != c,
        c.opponent_spec().opponent_spec() == c,
{
}

/// Of the pieces, the bishop and the rook and their promoted sides are major; the promoted ones are
/// those that have another piece behind them; and all but the empty square and the king are
/// pieces other than kings.
pub proof fn law_kinds_of_pieces(t: PieceType)
    ensures
        t is Bishop || t is Rook || t is Horse || t is Dragon <==> t.is_major_spec(),
        t is ProPawn || t is ProLance || t is ProKnight || t is ProSilver || t is Horse
            || t is Dragon <==> t.is_promoted_spec(),
        t is Empty || t is King <==> !t.is_non_king_spec(),
{
}

/// Each king's rank is seen from its own player's side: Black counts ranks from White's back rank
/// on, and White the other way round.
pub proof fn law_ranks_are_seen_from_the_kings_own_side(board: &ShogiBoard)
    ensures
        board.side_to_move is Black ==> board.friend_rank() == board.black_king.rank
            && board.enemy_rank() + board.white_king.rank == 8,
        board.side_to_move is White ==> board.friend_rank() + board.white_king.rank == 8
            && board.enemy_rank() == board.black_king.rank,
        board.king_square_spec(Color::Black) == board.black_king,
        board.king_square_spec(Color::White) == board.white_king,
{
}

/// The ply is the two bytes at 36, the first counting ones and the second counting 256s.
pub proof fn law_ply_is_little_endian(psv: &PackedSfenValue)
    ensures
        psv.game_ply_spec() as int == psv.bytes@[36] + psv.bytes@[37] * 256,
{
}

} // verus!
