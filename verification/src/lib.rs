use vstd::prelude::*;

pub mod text;
pub mod types;
pub mod bitboard;
pub mod piece;
pub mod hand;
pub mod moves;
pub mod attacks;
pub mod position;
pub mod movegen;
pub mod mate1ply;
pub mod sfen;
pub mod sfen_laws;
pub mod eval_params;
pub mod eval;
pub mod tt;
pub mod ordering;
pub mod trace;
pub mod search;
pub mod usi;
pub mod book;

pub use types::{Color, File, Rank, Square, SquareDelta};
pub use bitboard::Bitboard;
pub use piece::{Piece, PieceType, HandPiece, piece_value};
pub use hand::Hand;
pub use moves::Move;
pub use position::Position;

verus! {

} // verus!
