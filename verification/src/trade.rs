//! Pool-pair snapshots and the two-hop trade simulation.
//!
//! `trade_simulate` takes one immutable pair of reserve snapshots, asks the
//! engine for the optimal input amount, and chains the swap-output formula
//! twice (sell into pool A, route the proceeds through pool B) to obtain
//! the simulated round trip. `simulate` maps a batch of candidate pairs to
//! the matches that produced a result, and `approval` checks a match's
//! profit against the gas cost expressed in the quote asset.

use vstd::prelude::*;
use crate::ArbitrageError;
use crate::unipool::optimal_ay_in;
use crate::unipool::get_y_out;
use crate::unipool::optimal_spec;
use crate::unipool::swap_out;
use crate::unipool::derive_spec;
use crate::unipool::pool_k;
use crate::unipool::coef_a;
use crate::unipool::coef_b;
use crate::unipool::cross_c1;
use crate::unipool::cross_c2;
use crate::unipool::coef_limit;
use crate::unipool::POOL_FEE_BASIS_POINTS;

verus! {

/// `a - b`, saturated at zero.
pub open spec fn sat_sub(a: int, b: int) -> int {
    if a >= b {
        a - b
    } else {
        0
    }
}

/// A token, by contract address, with its display metadata.
#[derive(Clone)]
pub struct Coin {
    pub contract_address: String,
    pub symbol: String,
    pub decimals: i32,
}

/// A constant-product pool between two coins.
#[derive(Clone)]
pub struct Pool {
    pub contract_address: String,
    pub coin0: Coin,
    pub coin1: Coin,
}

/// A point-in-time balance pair of one pool.
pub struct Reserve {
    pub contract_address: String,
    pub x: u128,
    pub y: u128,
    pub block_number: u32,
    pub block_timestamp: u32,
}

/// A pool together with the reserve snapshot the simulation is based on.
pub struct PoolSnapshot {
    pub pool: Pool,
    pub reserve: Reserve,
}

/// Two pools trading the same asset pair; `pool0` is the one whose
/// second-asset price is currently lower.
pub struct Pair {
    pub pool0: PoolSnapshot,
    pub pool1: PoolSnapshot,
}

/// The outcome of simulating one arbitrage round trip on a pair.
pub struct Match {
    pub pair: Pair,
    pub pool0_ay_in: u128,
    pub pool0_ax_out: u128,
    pub pool1_ay_out: u128,
}

/// Value-level description of the two-hop simulation: the optimal input,
/// the intermediate amount bought from pool A, and the amount of the
/// original asset recovered from pool B. A zero optimal input
/// short-circuits the swap chain.
pub open spec fn trade_spec(ax: int, ay: int, bx: int, by: int) -> Result<
    (u128, u128, u128),
    ArbitrageError,
> {
    match optimal_spec(ax, ay, bx, by) {
        Err(e) => Err(e),
        Ok(ay_in) => if ay_in == 0 {
            Ok((0, 0, 0))
        } else {
            let s1 = swap_out(ay_in as int, ay, ax);
            let s2 = swap_out(s1, bx, by);
            Ok((ay_in, s1 as u128, s2 as u128))
        },
    }
}

/// The match that `trade_simulate` produces for a pair, if any.
pub open spec fn match_of(p: Pair) -> Option<Match> {
    match trade_spec(
        p.pool0.reserve.x as int,
        p.pool0.reserve.y as int,
        p.pool1.reserve.x as int,
        p.pool1.reserve.y as int,
    ) {
        Err(_) => None,
        Ok((ay_in, ax_out, ay_out)) => Some(
            Match { pair: p, pool0_ay_in: ay_in, pool0_ax_out: ax_out, pool1_ay_out: ay_out },
        ),
    }
}

/// The matches of a batch of pairs, in order, skipping failed pairs.
pub open spec fn simulate_spec(ps: Seq<Pair>) -> Seq<Match>
    decreases ps.len(),
{
    if ps.len() == 0 {
        Seq::empty()
    } else {
        let rest = simulate_spec(ps.drop_first());
        match match_of(ps[0]) {
            None => rest,
            Some(m) => seq![m] + rest,
        }
    }
}

impl Match {
    /// Realized profit of the round trip, saturated at zero: a non-positive
    /// true profit means "no viable arbitrage", never negative currency.
    pub fn profit(&self) -> (r: u128)
        ensures
            r == sat_sub(self.pool1_ay_out as int, self.pool0_ay_in as int),
    {
        if self.pool1_ay_out >= self.pool0_ay_in {
            self.pool1_ay_out - self.pool0_ay_in
        } else {
            0
        }
    }
}

/// Simulates the arbitrage trade on one pair of reserve snapshots.
///
/// Upstream failures and a zero optimal input short-circuit the swap chain;
/// otherwise the optimal amount is sold into pool A and the proceeds are
/// routed through pool B, purely on the immutable snapshots.
pub fn trade_simulate(pair: Pair) -> (r: Result<Match, ArbitrageError>)
    ensures
        ({
            let expected = trade_spec(
                pair.pool0.reserve.x as int,
                pair.pool0.reserve.y as int,
                pair.pool1.reserve.x as int,
                pair.pool1.reserve.y as int,
            );
            match r {
                Ok(m) => expected == Ok::<(u128, u128, u128), ArbitrageError>(
                    (m.pool0_ay_in, m.pool0_ax_out, m.pool1_ay_out),
                ) && m.pair == pair,
                Err(e) => expected == Err::<(u128, u128, u128), ArbitrageError>(e),
            }
        }),
{
    let ax = pair.pool0.reserve.x;
    let ay = pair.pool0.reserve.y;
    let bx = pair.pool1.reserve.x;
    let by = pair.pool1.reserve.y;
    let oay_in = match optimal_ay_in(ax, ay, bx, by) {
        Err(e) => {
            return Err(e);
        },
        Ok(v) => v,
    };
    if oay_in == 0 {
        return Ok(Match { pair, pool0_ay_in: 0, pool0_ax_out: 0, pool1_ay_out: 0 });
    }
    let s1_adx = match get_y_out(oay_in, ay, ax) {
        Err(e) => {
            proof {
                assert(false);
            }
            return Err(e);
        },
        Ok(v) => v,
    };
    let s2_ady = match get_y_out(s1_adx, bx, by) {
        Err(e) => {
            proof {
                assert(false);
            }
            return Err(e);
        },
        Ok(v) => v,
    };
    Ok(Match { pair, pool0_ay_in: oay_in, pool0_ax_out: s1_adx, pool1_ay_out: s2_ady })
}

/// Maps each candidate pair independently to its match; a pair on which
/// the engine reports a failure is skipped and affects no other pair.
pub fn simulate(pairs: Vec<Pair>) -> (r: Vec<Match>)
    ensures
        r@ == simulate_spec(pairs@),
{
    let mut rest = pairs;
    let mut matches: Vec<Match> = Vec::new();
    proof {
        assert(matches@ + simulate_spec(rest@) =~= simulate_spec(rest@));
    }
    while rest.len() > 0
        invariant
            simulate_spec(pairs@) == matches@ + simulate_spec(rest@),
        decreases rest.len(),
    {
        let ghost rest0 = rest@;
        let ghost matches0 = matches@;
        let pair = rest.remove(0);
        proof {
            assert(rest@ =~= rest0.drop_first());
            assert(pair == rest0[0]);
        }
        match trade_simulate(pair) {
            Ok(m) => {
                proof {
                    assert(match_of(rest0[0]) == Some(m));
                    assert(matches0 + simulate_spec(rest0) =~= matches0.push(m) + simulate_spec(
                        rest@,
                    ));
                }
                matches.push(m);
            },
            Err(_) => {
                proof {
                    assert(match_of(rest0[0]) is None);
                }
            },
        }
    }
    proof {
        assert(simulate_spec(rest@) =~= Seq::<Match>::empty());
        assert(matches@ + Seq::<Match>::empty() =~= matches@);
    }
    matches
}

/// Whether a match's profit exceeds the gas cost of executing it, with the
/// gas cost converted into the quote asset through pool A's own price.
pub fn approval(m: &Match, gas_cost_wei: u128) -> (r: bool)
    ensures
        gas_cost_wei > 0 || m.pair.pool0.reserve.x > 0 ==> r == (sat_sub(
            m.pool1_ay_out as int,
            m.pool0_ay_in as int,
        ) > swap_out(
            gas_cost_wei as int,
            m.pair.pool0.reserve.x as int,
            m.pair.pool0.reserve.y as int,
        )),
        gas_cost_wei == 0 && m.pair.pool0.reserve.x == 0 ==> r == false,
{
    match get_y_out(gas_cost_wei, m.pair.pool0.reserve.x, m.pair.pool0.reserve.y) {
        Err(_) => false,
        Ok(gas_cost_coin1) => m.profit() > gas_cost_coin1,
    }
}

/// Round trip: on a pair where pool A's price `ay/ax` is strictly below
/// pool B's price `by/bx`, the simulation reports either a no-arbitrage
/// outcome or a trade whose saturated profit is non-negative — never a
/// degenerate-input or overflow failure. The reserves must be positive and
/// large enough that the leading coefficient does not vanish, and the
/// derived coefficients must fit the working width.
pub proof fn lemma_simulate_round_trip(ax: u128, ay: u128, bx: u128, by: u128)
    requires
        ax > 0,
        ay > 0,
        bx > 0,
        by > 0,
        (ay as int) * (bx as int) < (by as int) * (ax as int),
        pool_k(ax as int, bx as int, POOL_FEE_BASIS_POINTS as int) > 0,
        coef_a(ax as int, bx as int, POOL_FEE_BASIS_POINTS as int) < coef_limit(),
        coef_b(ax as int, ay as int, bx as int, POOL_FEE_BASIS_POINTS as int) < coef_limit(),
        cross_c1(ay as int, bx as int) <= cross_c2(
            ax as int,
            ay as int,
            bx as int,
            by as int,
            POOL_FEE_BASIS_POINTS as int,
        ) ==> cross_c2(ax as int, ay as int, bx as int, by as int, POOL_FEE_BASIS_POINTS as int)
            - cross_c1(ay as int, bx as int) < coef_limit(),
    ensures
        trade_spec(ax as int, ay as int, bx as int, by as int) matches Err(e) ==> (e
            == ArbitrageError::NoArbitrage || e == ArbitrageError::NoArbitrageAfterFee),
        trade_spec(ax as int, ay as int, bx as int, by as int) matches Ok(t) ==> sat_sub(
            t.2 as int,
            t.0 as int,
        ) >= 0,
{
    let k = pool_k(ax as int, bx as int, POOL_FEE_BASIS_POINTS as int);
    assert(k * k > 0) by (nonlinear_arith)
        requires
            k > 0,
    ;
}

} // verus!
