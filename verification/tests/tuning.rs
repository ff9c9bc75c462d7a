use vmstat_valkey::double::nearest;
use vmstat_valkey::tuning::{
    get_ceilings, idle_total, raised_limit, update_dynamic_ceilings, CeilingField, CeilingUpdate,
    Ceilings, VmstatSample,
};

fn sample(cs: u64, ints: u64, id: u64) -> VmstatSample {
    VmstatSample {
        r: 0,
        b: 0,
        free: 0,
        buff: 0,
        cache: 0,
        so: 0,
        cs,
        input_in: ints,
        id,
        wa: 0,
        st: 0,
    }
}

fn ceilings() -> Ceilings {
    Ceilings { max_r: 8, max_cs: 15000, max_in: 15000 }
}

/// Numbers around every power of two, and some in between.
fn numbers() -> Vec<u64> {
    let mut out = vec![];
    for e in 0..64 {
        let p = 1u64 << e;
        for d in 0..40 {
            out.push(p.wrapping_add(d));
            out.push(p.wrapping_sub(d));
            out.push(p.wrapping_add(p / 3).wrapping_add(d * 7));
        }
    }
    let mut x = 88172645463325252u64;
    for i in 0..20000 {
        x ^= x << 13;
        x ^= x >> 7;
        x ^= x << 17;
        out.push(x >> (i % 64));
    }
    out
}

#[test]
fn nearest_is_the_conversion_to_double() {
    for n in numbers() {
        assert_eq!(nearest(n as u128), (n as f64) as u128, "{}", n);
    }
    assert_eq!(nearest((1 << 53) + 1), 1 << 53);
    assert_eq!(nearest((1 << 53) + 3), (1 << 53) + 4);
}

#[test]
fn ceiling_is_the_product_of_doubles() {
    for n in numbers() {
        assert_eq!(raised_limit(n), (n as f64 * 1.2) as u64, "{}", n);
    }
    assert_eq!(raised_limit(u64::MAX), u64::MAX);
}

#[test]
fn ceiling_is_six_fifths() {
    for n in (0..5000).chain([15001, 1_000_000, 4503599627370496 * 5 / 6 - 1]) {
        assert_eq!(raised_limit(n), n * 6 / 5);
    }
}

#[test]
fn ceiling_covers_the_peak() {
    for n in numbers() {
        assert!(raised_limit(n) >= n);
    }
}

#[test]
fn ceilings_from_entries() {
    let c = get_ceilings(&[], 12);
    assert_eq!(c, Ceilings { max_r: 12, max_cs: 15000, max_in: 15000 });
    let entries = vec![
        ("max-in".to_string(), 3),
        ("other".to_string(), 9),
        ("max-r".to_string(), 1),
        ("max-cs".to_string(), 2),
    ];
    assert_eq!(get_ceilings(&entries, 12), Ceilings { max_r: 1, max_cs: 2, max_in: 3 });
    assert_eq!(get_ceilings(&entries[..1], 5), Ceilings { max_r: 5, max_cs: 15000, max_in: 3 });
}

#[test]
fn idle_time_is_added_up() {
    assert_eq!(idle_total(&[]), Some(0));
    assert_eq!(idle_total(&[sample(0, 0, 30), sample(0, 0, 12)]), Some(42));
    assert_eq!(idle_total(&[sample(0, 0, u64::MAX), sample(0, 0, 1)]), None);
    assert_eq!(idle_total(&[sample(0, 0, u64::MAX), sample(0, 0, 0)]), Some(u64::MAX));
}

#[test]
fn ceilings_follow_the_peaks() {
    let mut c = ceilings();
    let samples = [sample(20000, 10, 50), sample(16000, 15001, 50), sample(1, 2, 50)];
    let out = update_dynamic_ceilings(&samples, &mut c);
    assert_eq!(
        out,
        vec![
            CeilingUpdate { field: CeilingField::MaxCs, value: 24000 },
            CeilingUpdate { field: CeilingField::MaxIn, value: 18001 },
        ]
    );
    assert_eq!(c, Ceilings { max_r: 8, max_cs: 24000, max_in: 18001 });
    assert_eq!(CeilingField::MaxCs.name(), "max-cs");
    assert_eq!(CeilingField::MaxIn.name(), "max-in");
}

#[test]
fn ceilings_settle() {
    let mut c = ceilings();
    let samples = [sample(20000, 90000, 50)];
    update_dynamic_ceilings(&samples, &mut c);
    let settled = c;
    assert_eq!(update_dynamic_ceilings(&samples, &mut c), vec![]);
    assert_eq!(c, settled);
}

#[test]
fn ceilings_never_fall() {
    let mut c = ceilings();
    assert_eq!(update_dynamic_ceilings(&[sample(15000, 0, 100)], &mut c), vec![]);
    assert_eq!(c, ceilings());
    assert_eq!(update_dynamic_ceilings(&[], &mut c), vec![]);
    assert_eq!(c, ceilings());
}

#[test]
fn busy_host_teaches_nothing() {
    let mut c = ceilings();
    let busy = [sample(20000, 20000, 20), sample(20000, 20000, 19)];
    assert_eq!(update_dynamic_ceilings(&busy, &mut c), vec![]);
    assert_eq!(c, ceilings());
    let idle = [sample(20000, 20000, 21), sample(20000, 20000, 19)];
    assert_eq!(update_dynamic_ceilings(&idle, &mut c).len(), 2);
    let mut c = Ceilings { max_r: 8, max_cs: 15000, max_in: 30000 };
    assert_eq!(update_dynamic_ceilings(&idle, &mut c).len(), 1);
}

#[test]
fn average_is_compared_as_doubles_are() {
    for len in 1..61usize {
        for sum in (20 * len as u64 - 2)..(20 * len as u64 + 3) {
            let mut samples = vec![sample(20000, 0, 0); len];
            samples[0].id = sum;
            let mut c = ceilings();
            let busy = sum as f64 / (len as f64) < 20.0;
            assert_eq!(update_dynamic_ceilings(&samples, &mut c).is_empty(), busy);
        }
    }
}
