use vstd::prelude::*;

verus! {

/// The effective usage percentage for a configured one.
pub open spec fn clamp_spec(pct: int) -> int {
    if pct > 100 {
        100
    } else if pct < 1 {
        10
    } else {
        pct
    }
}

/// The number of workers: `ceil(cores * clamp(pct) / 100)`.
pub open spec fn workers_spec(cores: int, pct: int) -> int {
    (cores * clamp_spec(pct) + 99) / 100
}

/// Maps a configured usage percentage into `[1, 100]`: above 100 is 100,
/// below 1 falls back to 10.
pub fn clamp_percentage(pct: usize) -> (r: usize)
    ensures
        r as int == clamp_spec(pct as int),
        1 <= r <= 100,
{
    if pct > 100 {
        100
    } else if pct < 1 {
        10
    } else {
        pct
    }
}

/// How many worker threads to start on a machine with `cores` threads of
/// parallelism and a configured usage percentage `pct`.
pub fn worker_count(cores: usize, pct: usize) -> (r: usize)
    ensures
        r as int == workers_spec(cores as int, pct as int),
        r <= cores,
        cores >= 1 ==> r >= 1,
{
    let c = clamp_percentage(pct);
    let hundreds: usize = cores / 100;
    let rest: usize = cores % 100;
    proof {
        assert(hundreds * c <= hundreds * 100) by (nonlinear_arith)
            requires
                c <= 100,
        ;
        assert(hundreds * 100 + rest == cores);
        assert(rest * c <= 99 * 100) by (nonlinear_arith)
            requires
                rest < 100,
                c <= 100,
        ;
    }
    let part: usize = (rest * c + 99) / 100;
    proof {
        assert(part <= rest) by (nonlinear_arith)
            requires
                part == (rest * c + 99) / 100,
                c <= 100,
                rest < 100,
        ;
        assert(hundreds * c + part == (cores * c + 99) / 100) by (nonlinear_arith)
            requires
                cores == hundreds * 100 + rest,
                part == (rest * c + 99) / 100,
        ;
        assert(cores >= 1 ==> (cores * c + 99) / 100 >= 1) by (nonlinear_arith)
            requires
                c >= 1,
        ;
    }
    hundreds * c + part
}

} // verus!
