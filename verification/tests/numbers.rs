use midnight_run_tools::double::round;
use midnight_run_tools::order::order_by;
use midnight_run_tools::single::{divide, divide_values, gap, multiply, plus, round_ratio, round_signed, scale, HALF, ONE};
use midnight_run_tools::text::{
    chars_of, copy, int_text, join, letter, nat_text, push_int, replace_tabs, to_upper, upper_letters,
};

fn units(v: f32) -> u128 {
    (v as f64 * 4503599627370496.0) as u128
}

fn next(seed: &mut u64) -> u64 {
    *seed = seed.wrapping_mul(6364136223846793005).wrapping_add(1442695040888963407);
    *seed >> 33
}

#[test]
fn one_and_a_half() {
    assert_eq!(ONE, units(1.0));
    assert_eq!(HALF, units(0.5));
}

#[test]
fn rounding_keeps_24_bits_ties_to_even() {
    assert_eq!(round_ratio(0x100_0001, 1), 0x100_0000);
    assert_eq!(round_ratio(0x100_0003, 1), 0x100_0004);
    assert_eq!(round_ratio(0x100_0002, 1), 0x100_0002);
    assert_eq!(round_ratio(7, 2), 4);
    assert_eq!(round_ratio(5, 2), 2);
    assert_eq!(round_ratio(0, 9), 0);
}

#[test]
fn products_agree_with_single_precision() {
    let shares: [f32; 12] = [0.45, 1.65, 0.55, 1.15, 0.04, 0.96, 0.15, 0.85, 0.08, 0.34, 1.45, 0.003];
    for share in shares {
        for i in 0..4000u64 {
            assert_eq!(scale(i, units(share)), units(i as f32 * share), "{i} {share}");
        }
    }
    let mut seed = 7u64;
    for _ in 0..20000 {
        let i = next(&mut seed) % 0x4000_0000;
        let share = (1 + next(&mut seed) % 10_000) as f32 / 7001.0;
        assert_eq!(scale(i, units(share)), units(i as f32 * share));
    }
}

#[test]
fn quotients_agree_with_single_precision() {
    let mut seed = 11u64;
    for _ in 0..20000 {
        let n = 1 + next(&mut seed) % 100_000;
        let d = 1 + next(&mut seed) % 100_000;
        assert_eq!(divide(n, d), units(n as f32 / d as f32));
    }
    assert_eq!(divide(1, 3), units(1.0 / 3.0));
    assert_eq!(divide(5, 5), ONE);
}

#[test]
fn values_agree_with_single_precision() {
    let mut seed = 13u64;
    for _ in 0..20000 {
        let a = (1 + next(&mut seed) % 100_000) as f32 / 331.0;
        let b = (1 + next(&mut seed) % 100_000) as f32 / 877.0;
        assert_eq!(multiply(units(a), units(b)), units(a * b));
        assert_eq!(plus(units(a), units(b)), units(a + b));
        assert_eq!(gap(units(a), units(b)), units((a - b).abs()));
        assert_eq!(divide_values(units(a), units(b)), units(a / b));
        let d = a - b;
        let got = round_signed(units(a) as i128 - units(b) as i128);
        assert_eq!(got < 0, d < 0.0);
        assert_eq!(got.unsigned_abs(), units(d.abs()));
    }
}

#[test]
fn order_is_stable() {
    assert_eq!(order_by(&vec![3, 1, 2, 1, 3]), vec![1, 3, 2, 0, 4]);
    assert_eq!(order_by(&vec![]), Vec::<usize>::new());
    assert_eq!(order_by(&vec![5]), vec![0]);
    let keys: Vec<u128> = (0..50).map(|i| (i * 37 % 11) as u128).collect();
    let mut want: Vec<usize> = (0..50).collect();
    want.sort_by_key(|&i| keys[i]);
    assert_eq!(order_by(&keys), want);
}

#[test]
fn numbers_in_decimal() {
    assert_eq!(nat_text(0), "0");
    assert_eq!(nat_text(u64::MAX), u64::MAX.to_string());
    assert_eq!(int_text(-7), "-7");
    assert_eq!(int_text(i32::MIN), i32::MIN.to_string());
    let mut s = String::from("x=");
    push_int(&mut s, -120);
    assert_eq!(s, "x=-120");
}

#[test]
fn texts_and_letters() {
    assert_eq!(chars_of("a\u{e9}z"), vec!['a', '\u{e9}', 'z']);
    assert_eq!(copy("same"), "same");
    assert!(letter('q') && letter('Q') && !letter('1') && !letter('\u{e9}'));
    assert_eq!(to_upper('q'), 'Q');
    assert_eq!(to_upper('-'), '-');
    assert_eq!(upper_letters("a-B c1"), vec!['A', 'B', 'C']);
}

#[test]
fn joining_and_tabs() {
    let items = vec![String::from("a"), String::new(), String::from("c")];
    assert_eq!(join(&items, '\t'), "a\t\tc");
    assert_eq!(join(&vec![], ';'), "");
    assert_eq!(replace_tabs("a\tb\t"), "a b ");
    let cells = vec![replace_tabs("x\ty"), String::from("z")];
    assert_eq!(join(&cells, '\t').split('\t').count(), 2);
}

#[test]
fn double_precision_seconds() {
    let secs = |v: f64| (v * 2f64.powi(82)) as u128;
    for (a, b) in [(1.28, 1.1), (0.1, 0.05), (123456.789012345, 0.75), (2.45, 3.0), (1e-9, 1e9), (86400.000000001, 0.18)] {
        assert_eq!(round(secs(a) + secs(b)), secs(a + b));
        let d: f64 = a - b;
        assert_eq!(round(secs(a).abs_diff(secs(b))), secs(d.abs()));
    }
    assert_eq!(round(0), 0);
}
