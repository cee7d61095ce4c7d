//! The linear cooling schedule. Temperatures are exact fractions.

use crate::error::GroupingError;
use vstd::prelude::*;

verus! {

/// A temperature `numerator / denominator`, in the unit of the bounds it was
/// computed from.
#[derive(Clone, Copy, Debug, PartialEq, Eq, Structural)]
pub struct Temperature {
    pub numerator: i128,
    pub denominator: i128,
}

/// `steps` times the temperature at `step`:
/// `max_temp - (max_temp - min_temp) * step / steps`, scaled by `steps`.
pub open spec fn scaled_temperature(max_temp: int, min_temp: int, steps: int, step: int) -> int {
    max_temp * steps - (max_temp - min_temp) * step
}

/// The temperature at `step` of `steps`, falling linearly from `max_temp` to
/// `min_temp`. Fails on a schedule of zero steps.
pub fn change_temp(max_temp: i64, min_temp: i64, steps: i32, step: i32) -> (r: Result<
    Temperature,
    GroupingError,
>)
    ensures
        steps == 0 <==> r.is_err(),
        r matches Err(e) ==> e == GroupingError::InvalidStepCount,
        r matches Ok(t) ==> t.denominator == steps && t.numerator == scaled_temperature(
            max_temp as int,
            min_temp as int,
            steps as int,
            step as int,
        ),
{
    linear_change_temp(max_temp, min_temp, steps, step)
}

fn linear_change_temp(max_temp: i64, min_temp: i64, steps: i32, step: i32) -> (r: Result<
    Temperature,
    GroupingError,
>)
    ensures
        steps == 0 <==> r.is_err(),
        r matches Err(e) ==> e == GroupingError::InvalidStepCount,
        r matches Ok(t) ==> t.denominator == steps && t.numerator == scaled_temperature(
            max_temp as int,
            min_temp as int,
            steps as int,
            step as int,
        ),
{
    if steps == 0 {
        return Err(GroupingError::InvalidStepCount);
    }
    let delta: i128 = max_temp as i128 - min_temp as i128;
    let hi = max_temp as i128;
    let n = steps as i128;
    let k = step as i128;
    proof {
        let (h, d) = (hi as int, delta as int);
        assert(-0x8000_0000_0000_0000 <= h < 0x8000_0000_0000_0000);
        assert(-0x1_0000_0000_0000_0000 < d < 0x1_0000_0000_0000_0000);
        assert(-0x8000_0000 <= n < 0x8000_0000 && -0x8000_0000 <= k < 0x8000_0000);
        assert(-0x4000_0000_0000_0000_0000_0000 <= h * n <= 0x4000_0000_0000_0000_0000_0000)
            by (nonlinear_arith)
            requires
                -0x8000_0000_0000_0000 <= h < 0x8000_0000_0000_0000,
                -0x8000_0000 <= n < 0x8000_0000,
        ;
        assert(-0x8000_0000_0000_0000_0000_0000 <= d * k <= 0x8000_0000_0000_0000_0000_0000)
            by (nonlinear_arith)
            requires
                -0x1_0000_0000_0000_0000 < d < 0x1_0000_0000_0000_0000,
                -0x8000_0000 <= k < 0x8000_0000,
        ;
    }
    Ok(Temperature { numerator: hi * n - delta * k, denominator: n })
}

/// At the first step the schedule gives `max_temp`; at step `steps` it gives
/// `min_temp`.
pub proof fn lemma_schedule_endpoints(max_temp: int, min_temp: int, steps: int)
    requires
        steps != 0,
    ensures
        scaled_temperature(max_temp, min_temp, steps, 0) == max_temp * steps,
        scaled_temperature(max_temp, min_temp, steps, steps) == min_temp * steps,
{
    assert((max_temp - min_temp) * steps == max_temp * steps - min_temp * steps)
        by (nonlinear_arith);
}

/// With `max_temp >= min_temp` the temperature never rises from one step to
/// a later one.
pub proof fn lemma_schedule_non_increasing(
    max_temp: int,
    min_temp: int,
    steps: int,
    step1: int,
    step2: int,
)
    requires
        steps > 0,
        max_temp >= min_temp,
        step1 <= step2,
    ensures
        scaled_temperature(max_temp, min_temp, steps, step1) >= scaled_temperature(
            max_temp,
            min_temp,
            steps,
            step2,
        ),
{
    assert((max_temp - min_temp) * step1 <= (max_temp - min_temp) * step2) by (nonlinear_arith)
        requires
            max_temp >= min_temp,
            step1 <= step2,
    ;
}

} // verus!
