//! The weights of the evaluation function.
use vstd::prelude::*;

verus! {

/// The weights of `Position::evaluate_improved`, in centipawn-like units.
#[derive(Clone, Copy, Debug)]
pub struct EvalParams {
    /// Value of each piece in hand, by kind.
    pub hand_pawn: i32,
    pub hand_lance: i32,
    pub hand_knight: i32,
    pub hand_silver: i32,
    pub hand_gold: i32,
    pub hand_bishop: i32,
    pub hand_rook: i32,
    /// Weight of a piece's closeness to the enemy king, per step under 14.
    pub rook_proximity_weight: i32,
    pub bishop_proximity_weight: i32,
    pub gold_proximity_weight: i32,
    /// Bonus for a piece inside the enemy camp.
    pub enemy_zone_gold: i32,
    pub enemy_zone_horse: i32,
    pub enemy_zone_dragon: i32,
    pub enemy_zone_rook: i32,
    pub enemy_zone_bishop: i32,
    pub enemy_zone_pawn: i32,
    /// Bonus for a piece on the three central files.
    pub center_rook: i32,
    pub center_bishop: i32,
    pub center_gold: i32,
    /// Value of having the move.
    pub tempo_value: i32,
    /// Value of each guard next to one's own king, and of the king's file.
    pub king_safety_gold: i32,
    pub king_safety_silver: i32,
    pub king_safety_propawn: i32,
    pub king_safety_pawn: i32,
    pub king_edge_bonus: i32,
    pub king_center_penalty: i32,
    /// Half-width of the random noise added to the score (0 for none).
    pub eval_noise: i32,
}

impl Default for EvalParams {
    /// The built-in weights.
    fn default() -> (r: EvalParams)
        ensures
            r == (EvalParams {
                hand_pawn: 100,
                hand_lance: 350,
                hand_knight: 450,
                hand_silver: 550,
                hand_gold: 600,
                hand_bishop: 950,
                hand_rook: 1100,
                rook_proximity_weight: 4,
                bishop_proximity_weight: 4,
                gold_proximity_weight: 3,
                enemy_zone_gold: 15,
                enemy_zone_horse: 20,
                enemy_zone_dragon: 20,
                enemy_zone_rook: 25,
                enemy_zone_bishop: 25,
                enemy_zone_pawn: 10,
                center_rook: 10,
                center_bishop: 8,
                center_gold: 5,
                tempo_value: 20,
                king_safety_gold: 15,
                king_safety_silver: 10,
                king_safety_propawn: 12,
                king_safety_pawn: 5,
                king_edge_bonus: 15,
                king_center_penalty: -15i32,
                eval_noise: 0,
            }),
    {
        EvalParams {
            hand_pawn: 100,
            hand_lance: 350,
            hand_knight: 450,
            hand_silver: 550,
            hand_gold: 600,
            hand_bishop: 950,
            hand_rook: 1100,
            rook_proximity_weight: 4,
            bishop_proximity_weight: 4,
            gold_proximity_weight: 3,
            enemy_zone_gold: 15,
            enemy_zone_horse: 20,
            enemy_zone_dragon: 20,
            enemy_zone_rook: 25,
            enemy_zone_bishop: 25,
            enemy_zone_pawn: 10,
            center_rook: 10,
            center_bishop: 8,
            center_gold: 5,
            tempo_value: 20,
            king_safety_gold: 15,
            king_safety_silver: 10,
            king_safety_propawn: 12,
            king_safety_pawn: 5,
            king_edge_bonus: 15,
            king_center_penalty: -15,
            eval_noise: 0,
        }
    }
}

} // verus!
