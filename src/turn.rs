use core::cmp::Ordering;
use vstd::prelude::*;

verus! {

/// The whole turn, if any, to add to a remainder to bring it into the
/// canonical range.
#[derive(Clone, Copy, Debug, PartialEq, Eq, Structural)]
pub enum TurnCorrection {
    /// The remainder lies above the half turn: take one full turn away.
    SubtractTurn,
    /// The remainder lies at or below the negative half turn: add one full turn.
    AddTurn,
    /// The remainder is already canonical, or is not comparable at all.
    Keep,
}

/// The correction for a remainder, given how it compares with the half turn
/// and with the negative half turn (`None` where it compares with neither,
/// as a NaN does).
///
/// The upper end of the range is closed and the lower end open: a remainder
/// equal to the half turn is kept, one equal to the negative half turn is
/// moved up to the half turn.
pub open spec fn correction_of(
    to_half_turn: Option<Ordering>,
    to_neg_half_turn: Option<Ordering>,
) -> TurnCorrection {
    if to_half_turn == Some(Ordering::Greater) {
        TurnCorrection::SubtractTurn
    } else if to_neg_half_turn == Some(Ordering::Less) || to_neg_half_turn == Some(
        Ordering::Equal,
    ) {
        TurnCorrection::AddTurn
    } else {
        TurnCorrection::Keep
    }
}

/// Decides the second step of normalisation for a remainder, from how it
/// compares with the half turn and with the negative half turn.
pub fn turn_correction(
    to_half_turn: Option<Ordering>,
    to_neg_half_turn: Option<Ordering>,
) -> (c: TurnCorrection)
    ensures
        c == correction_of(to_half_turn, to_neg_half_turn),
        c == TurnCorrection::SubtractTurn <==> to_half_turn == Some(Ordering::Greater),
        c == TurnCorrection::AddTurn <==> (to_half_turn != Some(Ordering::Greater) && (
        to_neg_half_turn == Some(Ordering::Less) || to_neg_half_turn == Some(Ordering::Equal))),
{
    match to_half_turn {
        Some(Ordering::Greater) => TurnCorrection::SubtractTurn,
        _ => match to_neg_half_turn {
            Some(Ordering::Less) | Some(Ordering::Equal) => TurnCorrection::AddTurn,
            _ => TurnCorrection::Keep,
        },
    }
}

} // verus!
