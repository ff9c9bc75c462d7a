use vmstat_valkey::cycle::{rest_ns, Cycle, Outcome, CANDIDATE_SET, HISTORY_FIRST, HISTORY_LAST};

const OUTCOMES: [Outcome; 5] = [
    Outcome::Failed,
    Outcome::Done,
    Outcome::MaintenanceNear,
    Outcome::NoRows,
    Outcome::InBand,
];

fn round(outcomes: &[Outcome]) -> Vec<Cycle> {
    let mut c = Cycle::Name;
    let mut trace = vec![c];
    for o in outcomes {
        c = c.next(*o);
        trace.push(c);
    }
    trace
}

#[test]
fn ordinary_round() {
    assert_eq!(
        round(&[
            Outcome::Done,
            Outcome::Done,
            Outcome::Done,
            Outcome::Done,
            Outcome::Done,
            Outcome::InBand,
            Outcome::Done,
            Outcome::Done,
        ]),
        [
            Cycle::Name,
            Cycle::Window,
            Cycle::Connect,
            Cycle::Ceilings,
            Cycle::History,
            Cycle::Rate,
            Cycle::Tune,
            Cycle::Publish,
            Cycle::Rest,
        ]
    );
    assert_eq!(Cycle::Rate.next(Outcome::Done), Cycle::Publish);
}

#[test]
fn maintenance_rates_zero() {
    assert_eq!(
        round(&[Outcome::Done, Outcome::MaintenanceNear, Outcome::Done]),
        [Cycle::Name, Cycle::Window, Cycle::PublishZero, Cycle::Rest]
    );
}

#[test]
fn nothing_is_published_without_rows() {
    assert_eq!(Cycle::History.next(Outcome::NoRows), Cycle::Rest);
    for c in [
        Cycle::Name,
        Cycle::Window,
        Cycle::PublishZero,
        Cycle::Connect,
        Cycle::Ceilings,
        Cycle::History,
        Cycle::Rate,
        Cycle::Tune,
        Cycle::Publish,
        Cycle::Rest,
    ] {
        assert_eq!(c.next(Outcome::Failed), Cycle::Rest);
    }
}

#[test]
fn round_ends_and_publishes_once() {
    for n in 0..390625u32 {
        let mut c = Cycle::Name;
        let mut published = 0;
        let mut rest = n;
        for _ in 0..8 {
            if c == Cycle::Publish || c == Cycle::PublishZero {
                published += 1;
            }
            c = c.next(OUTCOMES[(rest % 5) as usize]);
            rest /= 5;
        }
        assert_eq!(c, Cycle::Rest);
        assert!(published <= 1);
    }
}

#[test]
fn rest_up_to_the_next_second() {
    assert_eq!(rest_ns(0), 1_001_000_000);
    assert_eq!(rest_ns(999_999_999), 1_000_001);
    assert_eq!(rest_ns(1_000_000_000), 1_000_000);
}

#[test]
fn keys_of_the_scorer() {
    assert_eq!(CANDIDATE_SET, "RSE^worker-node-candidates");
    assert_eq!((HISTORY_FIRST, HISTORY_LAST), (0, 59));
}
