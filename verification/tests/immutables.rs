use alloy_primitives::{I256 as AI256, U256 as AU256};
use llamma_math::immutables::{extract_immutables, is_power_of_10};
use llamma_math::uint::U256;

fn u(x: AU256) -> U256 {
    U256::from_limbs(x.into_limbs())
}

fn au(x: U256) -> AU256 {
    AU256::from_limbs(x.into_limbs())
}

fn make_bytecode(words: &[AU256]) -> Vec<u8> {
    let mut bytes = vec![0u8; 1000];
    for w in words {
        bytes.extend_from_slice(&w.to_be_bytes::<32>());
    }
    bytes
}

fn log_of(x: llamma_math::uint::I256) -> AI256 {
    AI256::from_raw(AU256::from_limbs(x.into_raw_limbs()))
}

#[test]
fn extract_weth_crvusd_v1() {
    let words = vec![
        AU256::from_str_radix("c02aaa39b223fe8d0a0e5c4f27ead9083c756cc2", 16).unwrap(),
        AU256::from(1u64),
        AU256::from(1891729517225194179952u128),
        AU256::from(100u64),
        AU256::from(99u64),
        AU256::from(10000u64),
        AU256::from(9801u64),
        AU256::from(1005037815259212075u128),
        AU256::from(10050335853501431u128),
        AU256::from(1652875986403404071u128),
    ];
    let bytecode = make_bytecode(&words);

    let result = extract_immutables(&bytecode, u(AU256::from(100u64))).unwrap();
    assert_eq!(au(result.a), AU256::from(100u64));
    assert_eq!(log_of(result.log_a_ratio), AI256::try_from(10050335853501431i128).unwrap());
    assert_eq!(au(result.max_oracle_dn_pow), AU256::from(1652875986403404071u128));
    assert_eq!(au(result.collateral_precision), AU256::from(1u64));
}

#[test]
fn extract_wbtc_crvusd_v1() {
    let words = vec![
        AU256::from_str_radix("2260fac5e5542a773aa44fbcfedf7c193bc2c599", 16).unwrap(),
        AU256::from(10_000_000_000u64),
        AU256::from(30494600536592806208414u128),
        AU256::from(100u64),
        AU256::from(99u64),
        AU256::from(10000u64),
        AU256::from(9801u64),
        AU256::from(1005037815259212075u128),
        AU256::from(10050335853501431u128),
        AU256::from(1652875986403404071u128),
    ];
    let bytecode = make_bytecode(&words);

    let result = extract_immutables(&bytecode, u(AU256::from(100u64))).unwrap();
    assert_eq!(au(result.collateral_precision), AU256::from(10_000_000_000u64));
}

#[test]
fn immutables_extract_crv_llamalend() {
    let words = vec![
        AU256::from(1u64),
        AU256::from(832536689573559988u128),
        AU256::from(30u64),
        AU256::from(29u64),
        AU256::from(900u64),
        AU256::from(841u64),
        AU256::from(1017095255431215574u128),
        AU256::from(33901551675681339u128),
        AU256::from(5447068553010022855u128),
        AU256::from_str_radix("e1ccf80a66f9d04c2d73b3f23fc5e33c", 16).unwrap(),
    ];
    let bytecode = make_bytecode(&words);

    let result = extract_immutables(&bytecode, u(AU256::from(30u64))).unwrap();
    assert_eq!(au(result.a), AU256::from(30u64));
    assert_eq!(log_of(result.log_a_ratio), AI256::try_from(33901551675681339i128).unwrap());
    assert_eq!(au(result.max_oracle_dn_pow), AU256::from(5447068553010022855u128));
    assert_eq!(au(result.collateral_precision), AU256::from(1u64));
}

#[test]
fn extract_rejects_bad_bytecode() {
    let words = vec![AU256::ZERO; 10];
    let bytecode = make_bytecode(&words);
    assert!(extract_immutables(&bytecode, u(AU256::from(100u64))).is_none());
}

#[test]
fn extract_rejects_too_short() {
    let bytecode = vec![0u8; 100];
    assert!(extract_immutables(&bytecode, u(AU256::from(100u64))).is_none());
}

#[test]
fn extract_detects_version_from_prefix() {
    let words = vec![
        AU256::from(1u64),
        AU256::from(832536689573559988u128),
        AU256::from(30u64),
        AU256::from(29u64),
        AU256::from(900u64),
        AU256::from(841u64),
        AU256::from(1017095255431215574u128),
        AU256::from(33901551675681339u128),
        AU256::from(5447068553010022855u128),
        AU256::ZERO,
    ];
    let mut bytecode = make_bytecode(&words);
    assert!(extract_immutables(&bytecode, u(AU256::from(30u64))).unwrap().static_antifee);
    bytecode[0] = 0x5f;
    assert!(!extract_immutables(&bytecode, u(AU256::from(30u64))).unwrap().static_antifee);
}

#[test]
fn extract_rejects_bad_fields() {
    let good = vec![
        AU256::from(1u64),
        AU256::ZERO,
        AU256::from(30u64),
        AU256::from(29u64),
        AU256::from(900u64),
        AU256::from(841u64),
        AU256::ZERO,
        AU256::from(33901551675681339u128),
        AU256::from(5447068553010022855u128),
        AU256::ZERO,
    ];
    assert!(extract_immutables(&make_bytecode(&good), u(AU256::from(30u64))).is_some());
    // wrong A^2
    let mut bad_sq = good.clone();
    bad_sq[4] = AU256::from(901u64);
    assert!(extract_immutables(&make_bytecode(&bad_sq), u(AU256::from(30u64))).is_none());
    // precision not a power of ten
    let mut bad_prec = good.clone();
    bad_prec[0] = AU256::from(3u64);
    assert!(extract_immutables(&make_bytecode(&bad_prec), u(AU256::from(30u64))).is_none());
    // LOG_A_RATIO out of range
    let mut bad_log = good.clone();
    bad_log[7] = AU256::from(300_000_000_000_000_001u128);
    assert!(extract_immutables(&make_bytecode(&bad_log), u(AU256::from(30u64))).is_none());
    let mut zero_log = good.clone();
    zero_log[7] = AU256::ZERO;
    assert!(extract_immutables(&make_bytecode(&zero_log), u(AU256::from(30u64))).is_none());
    // A too close to the end for MAX_ORACLE_DN_POW
    let late: Vec<AU256> = good[..6].to_vec();
    assert!(extract_immutables(&make_bytecode(&late), u(AU256::from(30u64))).is_none());
}

#[test]
fn is_power_of_10_values() {
    assert!(is_power_of_10(u(AU256::from(1u64))));
    assert!(is_power_of_10(u(AU256::from(10_000_000_000u64))));
    assert!(is_power_of_10(u(AU256::from(10u64).pow(AU256::from(18)))));
    assert!(!is_power_of_10(u(AU256::from(10u64).pow(AU256::from(19)))));
    assert!(!is_power_of_10(u(AU256::ZERO)));
    assert!(!is_power_of_10(u(AU256::from(20u64))));
}
