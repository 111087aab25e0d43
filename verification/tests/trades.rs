//! Tests of the trade simulation, the match bookkeeping, and the
//! wide-integer building blocks.

use gofi::bignum::BigUint;
use gofi::trade::{approval, simulate, trade_simulate, Coin, Match, Pair, Pool, PoolSnapshot, Reserve};

fn snapshot(address: &str, x: u128, y: u128) -> PoolSnapshot {
    let coin0 = Coin {
        contract_address: "C0".to_string(),
        symbol: "C0".to_string(),
        decimals: 18,
    };
    let coin1 = Coin {
        contract_address: "C1".to_string(),
        symbol: "C1".to_string(),
        decimals: 6,
    };
    PoolSnapshot {
        pool: Pool {
            contract_address: address.to_string(),
            coin0,
            coin1,
        },
        reserve: Reserve {
            contract_address: address.to_string(),
            x,
            y,
            block_number: 1,
            block_timestamp: 1,
        },
    }
}

#[test]
fn test_approval() {
    // this much setup means refactoring is needed
    let coin0 = Coin {
        contract_address: "COIN0".to_owned(),
        symbol: "C0".to_owned(),
        decimals: 18,
    };
    let coin1 = Coin {
        contract_address: "COIN1".to_owned(),
        symbol: "C0".to_owned(),
        decimals: 6,
    };
    let m = Match {
        pair: Pair {
            pool0: PoolSnapshot {
                pool: Pool {
                    contract_address: "POOL-A0".to_owned(),
                    coin0: coin0.clone(),
                    coin1: coin1.clone(),
                },
                reserve: Reserve {
                    contract_address: "POOL-A1".to_owned(),
                    x: 37407681086137164,
                    y: 135629089,
                    block_number: 1,
                    block_timestamp: 1,
                },
            },
            pool1: PoolSnapshot {
                pool: Pool {
                    contract_address: "POOL-B0".to_owned(),
                    coin0: coin0.clone(),
                    coin1: coin1.clone(),
                },
                reserve: Reserve {
                    contract_address: "POOL-B1".to_owned(),
                    x: 276578510416029,
                    y: 1320886,
                    block_number: 1,
                    block_timestamp: 1,
                },
            },
        },
        pool0_ay_in: 144457,
        pool0_ax_out: 1,
        pool1_ay_out: 165295, // profit 20838
    };
    let gas_cost_wei = 1;
    assert!(approval(&m, gas_cost_wei));
}

#[test]
fn simulated_trade_reproduces_the_optimal_vector() {
    let pair = Pair {
        pool0: snapshot("POOL-A", 310000, 210000),
        pool1: snapshot("POOL-B", 220000, 320000),
    };
    let m = trade_simulate(pair).unwrap();
    assert_eq!(m.pool0_ay_in, 40371);
    assert_eq!(m.pool1_ay_out - m.pool0_ay_in, 18608);
    assert_eq!(m.profit(), 18608);
}

#[test]
fn mispriced_pair_yields_non_negative_profit() {
    let pair = Pair {
        pool0: snapshot("POOL-A", 37407681086137164, 135629089),
        pool1: snapshot("POOL-B", 276578510416029, 1320886),
    };
    let m = trade_simulate(pair).unwrap();
    assert_eq!(m.pool0_ay_in, 144457);
    assert_eq!(m.profit(), 20838);
}

#[test]
fn failed_pairs_are_skipped_and_isolate_the_rest() {
    let good = Pair {
        pool0: snapshot("POOL-A", 310000, 210000),
        pool1: snapshot("POOL-B", 220000, 320000),
    };
    let balanced = Pair {
        pool0: snapshot("POOL-C", 220000, 320000),
        pool1: snapshot("POOL-D", 310000, 210000),
    };
    let degenerate = Pair {
        pool0: snapshot("POOL-E", 0, 210000),
        pool1: snapshot("POOL-F", 220000, 320000),
    };
    let matches = simulate(vec![balanced, good, degenerate]);
    assert_eq!(matches.len(), 1);
    assert_eq!(matches[0].pair.pool0.pool.contract_address, "POOL-A");
    assert_eq!(matches[0].pool0_ay_in, 40371);
}

#[test]
fn profit_is_saturated_at_zero() {
    let m = Match {
        pair: Pair {
            pool0: snapshot("POOL-A", 10, 10),
            pool1: snapshot("POOL-B", 10, 10),
        },
        pool0_ay_in: 100,
        pool0_ax_out: 1,
        pool1_ay_out: 40,
    };
    assert_eq!(m.profit(), 0);
}

#[test]
fn approval_rejects_gas_costs_above_profit() {
    let m = Match {
        pair: Pair {
            pool0: snapshot("POOL-A", 37407681086137164, 135629089),
            pool1: snapshot("POOL-B", 276578510416029, 1320886),
        },
        pool0_ay_in: 144457,
        pool0_ax_out: 1,
        pool1_ay_out: 165295,
    };
    // Converting this much gas through pool A costs more than the profit.
    assert!(!approval(&m, 10_000_000_000_000_000));
    // A degenerate snapshot cannot price the gas at all: never approved.
    let degenerate = Match {
        pair: Pair {
            pool0: snapshot("POOL-A", 0, 135629089),
            pool1: snapshot("POOL-B", 276578510416029, 1320886),
        },
        pool0_ay_in: 0,
        pool0_ax_out: 0,
        pool1_ay_out: 1000,
    };
    assert!(!approval(&degenerate, 0));
}

#[test]
fn big_integers_parse_compare_and_saturate() {
    assert!(BigUint::from_decimal(b"").is_none());
    assert!(BigUint::from_decimal(b"12a3").is_none());
    assert_eq!(
        BigUint::from_decimal(b"340282366920938463463374607431768211455").unwrap(),
        BigUint::from_u128(u128::MAX)
    );
    assert_eq!(BigUint::from_u64(5), BigUint::from_u128(5));
    assert!(BigUint::from_u64(5).lt(&BigUint::from_u64(6)));
    assert!(!BigUint::from_u64(6).lt(&BigUint::from_u64(6)));

    let max = BigUint::from_u128(u128::MAX);
    assert_eq!(max.to_u128_saturating(), u128::MAX);
    let above = max.add(&BigUint::from_u64(1));
    assert_eq!(above.to_u128_saturating(), u128::MAX);
    assert_eq!(above.sub(&BigUint::from_u64(1)).to_u128_saturating(), u128::MAX);

    let a = BigUint::from_decimal(b"123456789012345678901234567890").unwrap();
    let b = BigUint::from_decimal(b"987654321098765432109876543210").unwrap();
    assert_eq!(
        a.mul(&b),
        BigUint::from_decimal(b"121932631137021795226185032733622923332237463801111263526900")
            .unwrap()
    );
    assert_eq!(a.add(&b), BigUint::from_decimal(b"1111111110111111111011111111100").unwrap());
    assert_eq!(b.sub(&a), BigUint::from_decimal(b"864197532086419753208641975320").unwrap());
    assert_eq!(b.div_floor(&a), BigUint::from_u64(8));
    assert_eq!(
        BigUint::from_decimal(b"121932631137021795226185032733622923332237463801111263526900")
            .unwrap()
            .isqrt(),
        BigUint::from_decimal(b"349188532367576176715724425687").unwrap()
    );
    assert_eq!(BigUint::from_u64(99).isqrt(), BigUint::from_u64(9));
    assert_eq!(BigUint::from_u64(100).isqrt(), BigUint::from_u64(10));
}
