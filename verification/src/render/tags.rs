//! How the boolean operators of an `{% if %}` condition combine their operands. An operand that
//! could not be evaluated is `None`.
use vstd::prelude::*;

verus! {

/// `left and right`: an operand that could not be evaluated counts as false.
pub fn eval_and(left: Option<bool>, right: Option<bool>) -> (r: Option<bool>)
    ensures
        r == Some(left.unwrap_or(false) && right.unwrap_or(false)),
{
    let left = match left {
        Some(left) => left,
        None => false,
    };
    let right = match right {
        Some(right) => right,
        None => false,
    };
    if !left {
        Some(false)
    } else {
        Some(right)
    }
}

/// `left or right`: false when the left operand could not be evaluated, whatever the right one
/// is; otherwise a right operand that could not be evaluated counts as false.
pub fn eval_or(left: Option<bool>, right: Option<bool>) -> (r: Option<bool>)
    ensures
        r == Some(
            match left {
                None => false,
                Some(l) => l || right.unwrap_or(false),
            },
        ),
{
    match left {
        None => Some(false),
        Some(left) => {
            if left {
                Some(true)
            } else {
                match right {
                    Some(right) => Some(right),
                    None => Some(false),
                }
            }
        },
    }
}

/// `not operand`: true only when the operand evaluated to false.
pub fn eval_not(operand: Option<bool>) -> (r: Option<bool>)
    ensures
        r == Some(operand == Some(false)),
{
    match operand {
        None => Some(false),
        Some(true) => Some(false),
        Some(false) => Some(true),
    }
}

} // verus!
