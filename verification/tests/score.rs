use vmstat_valkey::score::{available_kb, cpu_score, plan_score, MemMode, ScorePlan};
use vmstat_valkey::tuning::{Ceilings, VmstatSample};

fn idle() -> VmstatSample {
    VmstatSample {
        r: 1,
        b: 0,
        free: 100,
        buff: 20,
        cache: 3,
        so: 0,
        cs: 500,
        input_in: 400,
        id: 95,
        wa: 0,
        st: 2,
    }
}

const CEILINGS: Ceilings = Ceilings { max_r: 4, max_cs: 15000, max_in: 15000 };

#[test]
fn plan_of_an_idle_host() {
    assert_eq!(
        plan_score(&idle(), &CEILINGS),
        ScorePlan {
            cpu_score: 91,
            available_kb: 123,
            mem_mode: MemMode::TrustedIdle,
            thrashing: false,
        }
    );
}

#[test]
fn memory_is_trusted_on_three_conditions() {
    let mode = |v: VmstatSample| plan_score(&v, &CEILINGS).mem_mode;
    assert_eq!(mode(VmstatSample { r: 3, ..idle() }), MemMode::TrustedIdle);
    assert_eq!(mode(VmstatSample { r: 4, ..idle() }), MemMode::Raw);
    assert_eq!(mode(VmstatSample { wa: 1, ..idle() }), MemMode::Raw);
    assert_eq!(mode(VmstatSample { so: 1, ..idle() }), MemMode::Raw);
    assert_eq!(MemMode::Raw.label(), "Raw");
    assert_eq!(MemMode::TrustedIdle.label(), "Trusted-Idle");
}

#[test]
fn thrashing_takes_swap_and_wait() {
    let thrashes = |so, wa| plan_score(&VmstatSample { so, wa, ..idle() }, &CEILINGS).thrashing;
    assert!(thrashes(1, 6));
    assert!(!thrashes(0, 6));
    assert!(!thrashes(1, 5));
}

#[test]
fn trusted_host_does_not_thrash() {
    for so in 0..3 {
        for wa in 0..8 {
            let p = plan_score(&VmstatSample { so, wa, ..idle() }, &CEILINGS);
            assert!(!(p.thrashing && p.mem_mode == MemMode::TrustedIdle));
        }
    }
}

#[test]
fn available_memory_is_a_sum() {
    assert_eq!(available_kb(&idle()), Some(123));
    assert_eq!(available_kb(&VmstatSample { free: u64::MAX, ..idle() }), None);
    assert_eq!(available_kb(&VmstatSample { buff: u64::MAX, ..idle() }), None);
    assert_eq!(
        available_kb(&VmstatSample { free: u64::MAX, buff: 0, cache: 0, ..idle() }),
        Some(u64::MAX)
    );
}

fn clamp(v: f64, min: f64, max: f64) -> f64 {
    if v < min {
        min
    } else if v > max {
        max
    } else {
        v
    }
}

#[test]
fn cpu_score_is_that_of_doubles() {
    let big = 1u64 << 60;
    let near: Vec<u64> = (0..300).map(|d| big + 128 * d).collect();
    let mut pairs: Vec<(u64, u64)> = vec![(u64::MAX, 0), (0, u64::MAX), (u64::MAX, u64::MAX / 2)];
    for id in 0..130 {
        for st in 0..80 {
            pairs.push((id, st));
        }
    }
    for a in &near {
        pairs.push((*a + 37, big / 2));
        pairs.push((*a, big / 2 + 64));
    }
    for d in 0..300 {
        pairs.push(((1 << 53) + d, 1 << 52));
        pairs.push(((1 << 54) + d, (1 << 53) - d));
    }
    for (id, st) in pairs {
        let v = VmstatSample { id, st, ..idle() };
        let expected = clamp(id as f64 - (st as f64 * 2.0), 0.0, 100.0);
        assert_eq!(cpu_score(&v) as f64, expected, "{} {}", id, st);
    }
}

#[test]
fn cpu_score_of_percentages() {
    assert_eq!(cpu_score(&VmstatSample { id: 100, st: 0, ..idle() }), 100);
    assert_eq!(cpu_score(&VmstatSample { id: 50, st: 25, ..idle() }), 0);
    assert_eq!(cpu_score(&VmstatSample { id: 50, st: 26, ..idle() }), 0);
    assert_eq!(cpu_score(&VmstatSample { id: 50, st: 10, ..idle() }), 30);
}
