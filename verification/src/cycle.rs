//! One round of the scorer: what it does in which order, and how long it rests behind it.
use vstd::prelude::*;

verus! {

/// The sorted set that hosts are rated in.
pub const CANDIDATE_SET: &'static str = "RSE^worker-node-candidates";

/// The first element of the list of rows that a round reads.
pub const HISTORY_FIRST: i64 = 0;

/// The last element of the list of rows that a round reads.
pub const HISTORY_LAST: i64 = 59;

/// Where a round stands: what is to be done next.
#[derive(Clone, Copy, Debug, PartialEq, Eq, Structural)]
pub enum Cycle {
    /// Find out the name of the host.
    Name,
    /// Find out whether maintenance is near.
    Window,
    /// Rate the host at zero.
    PublishZero,
    /// Connect to the server.
    Connect,
    /// Read the ceilings.
    Ceilings,
    /// Read the list of rows.
    History,
    /// Rate the rows.
    Rate,
    /// Let the ceilings follow the rows.
    Tune,
    /// Publish the rating.
    Publish,
    /// Rest until the next second.
    Rest,
}

/// What came of that which was to be done.
#[derive(Clone, Copy, Debug, PartialEq, Eq, Structural)]
pub enum Outcome {
    /// It failed.
    Failed,
    /// It is done.
    Done,
    /// Maintenance is near.
    MaintenanceNear,
    /// The list of rows is empty.
    NoRows,
    /// The rating lies in the band in which ceilings are tuned.
    InBand,
}

impl Cycle {
    /// What follows an outcome.
    pub open spec fn then_on(self, outcome: Outcome) -> Cycle {
        if outcome is Failed {
            Cycle::Rest
        } else {
            match self {
                Cycle::Name => Cycle::Window,
                Cycle::Window => if outcome is MaintenanceNear {
                    Cycle::PublishZero
                } else {
                    Cycle::Connect
                },
                Cycle::Connect => Cycle::Ceilings,
                Cycle::Ceilings => Cycle::History,
                Cycle::History => if outcome is NoRows {
                    Cycle::Rest
                } else {
                    Cycle::Rate
                },
                Cycle::Rate => if outcome is InBand {
                    Cycle::Tune
                } else {
                    Cycle::Publish
                },
                Cycle::Tune => Cycle::Publish,
                Cycle::PublishZero => Cycle::Rest,
                Cycle::Publish => Cycle::Rest,
                Cycle::Rest => Cycle::Rest,
            }
        }
    }

    /// Decides what follows an outcome.
    pub fn next(self, outcome: Outcome) -> (r: Cycle)
        ensures
            r == self.then_on(outcome),
    {
        match (self, outcome) {
            (_, Outcome::Failed) => Cycle::Rest,
            (Cycle::Name, _) => Cycle::Window,
            (Cycle::Window, Outcome::MaintenanceNear) => Cycle::PublishZero,
            (Cycle::Window, _) => Cycle::Connect,
            (Cycle::Connect, _) => Cycle::Ceilings,
            (Cycle::Ceilings, _) => Cycle::History,
            (Cycle::History, Outcome::NoRows) => Cycle::Rest,
            (Cycle::History, _) => Cycle::Rate,
            (Cycle::Rate, Outcome::InBand) => Cycle::Tune,
            (Cycle::Rate, _) => Cycle::Publish,
            (Cycle::Tune, _) => Cycle::Publish,
            _ => Cycle::Rest,
        }
    }

    /// Where a round stands behind a run of outcomes.
    pub open spec fn behind(self, outcomes: Seq<Outcome>) -> Cycle
        decreases outcomes.len(),
    {
        if outcomes.len() == 0 {
            self
        } else {
            self.then_on(outcomes[0]).behind(outcomes.skip(1))
        }
    }

    /// How often the host is rated on the server during a run of outcomes.
    pub open spec fn publications(self, outcomes: Seq<Outcome>) -> nat
        decreases outcomes.len(),
    {
        if outcomes.len() == 0 {
            0
        } else {
            self.then_on(outcomes[0]).publications(outcomes.skip(1)) + (if self is Publish
                || self is PublishZero {
                1nat
            } else {
                0
            })
        }
    }
}

spec fn rank(c: Cycle) -> nat {
    match c {
        Cycle::Name => 8,
        Cycle::Window => 7,
        Cycle::Connect => 6,
        Cycle::Ceilings => 5,
        Cycle::History => 4,
        Cycle::Rate => 3,
        Cycle::Tune => 2,
        Cycle::Publish | Cycle::PublishZero => 1,
        Cycle::Rest => 0,
    }
}

proof fn lemma_rank(c: Cycle, outcomes: Seq<Outcome>)
    ensures
        outcomes.len() >= rank(c) ==> c.behind(outcomes) is Rest,
        c.publications(outcomes) <= 1,
        c is Rest ==> c.publications(outcomes) == 0,
    decreases outcomes.len(),
{
    if outcomes.len() > 0 {
        lemma_rank(c.then_on(outcomes[0]), outcomes.skip(1));
    }
}

/// A round is over behind eight outcomes, and rates the host on the server once at most.
pub proof fn law_round_ends(outcomes: Seq<Outcome>)
    ensures
        outcomes.len() >= 8 ==> Cycle::Name.behind(outcomes) is Rest,
        Cycle::Name.publications(outcomes) <= 1,
{
    lemma_rank(Cycle::Name, outcomes);
}

/// When maintenance is near, a round rates the host at zero and does nothing else.
pub proof fn law_maintenance_rates_zero(outcome: Outcome)
    ensures
        Cycle::Window.then_on(Outcome::MaintenanceNear) == Cycle::PublishZero,
        Cycle::PublishZero.then_on(outcome) == Cycle::Rest,
        forall|c: Cycle, o: Outcome|
            c.then_on(o) is PublishZero ==> c is Window && o is MaintenanceNear,
{
}

/// Nothing is published of a host without rows, or once something has failed.
pub proof fn law_nothing_published_without_rows(c: Cycle, outcomes: Seq<Outcome>)
    ensures
        Cycle::History.then_on(Outcome::NoRows).publications(outcomes) == 0,
        c.then_on(Outcome::Failed).publications(outcomes) == 0,
{
    lemma_rank(Cycle::Rest, outcomes);
}

/// The nanoseconds of a second.
pub const SECOND_NS: u32 = 1_000_000_000;

/// How long a round is put off behind the start of a second, so that it falls into that second.
pub const MARGIN_NS: u64 = 1_000_000;

/// How long to rest, in nanoseconds, when `now_ns` of the current second are over: up to the next
/// second and a little longer.
pub fn rest_ns(now_ns: u32) -> (r: u64)
    requires
        now_ns <= SECOND_NS,
    ensures
        r == SECOND_NS - now_ns + MARGIN_NS,
        now_ns + r == 1_001_000_000,
{
    (SECOND_NS - now_ns) as u64 + MARGIN_NS
}

/// A round does one thing after the other, in this order, whatever comes of each of them, with these
/// exceptions: it ends at once where something failed or where there are no rows, it rates the host at
/// zero where maintenance is near, and it tunes the ceilings just where the rating lies in the band.
pub proof fn law_round_step_by_step(o: Outcome)
    requires
        !(o is Failed),
    ensures
        Cycle::Name.then_on(o) == Cycle::Window,
        Cycle::Window.then_on(o) is PublishZero <==> o is MaintenanceNear,
        !(o is MaintenanceNear) ==> Cycle::Window.then_on(o) == Cycle::Connect,
        Cycle::PublishZero.then_on(o) == Cycle::Rest,
        Cycle::Connect.then_on(o) == Cycle::Ceilings,
        Cycle::Ceilings.then_on(o) == Cycle::History,
        Cycle::History.then_on(o) is Rest <==> o is NoRows,
        !(o is NoRows) ==> Cycle::History.then_on(o) == Cycle::Rate,
        Cycle::Rate.then_on(o) is Tune <==> o is InBand,
        !(o is InBand) ==> Cycle::Rate.then_on(o) == Cycle::Publish,
        Cycle::Tune.then_on(o) == Cycle::Publish,
        Cycle::Publish.then_on(o) == Cycle::Rest,
        Cycle::Rest.then_on(o) == Cycle::Rest,
{
}

/// Whatever fails, the round is over.
pub proof fn law_failure_ends_the_round(c: Cycle)
    ensures
        c.then_on(Outcome::Failed) == Cycle::Rest,
{
}

/// A round reads the elements for all sixty seconds and rates the host in one set for all hosts.
pub proof fn law_what_a_round_reads_and_rates()
    ensures
        HISTORY_FIRST == 0,
        HISTORY_LAST - HISTORY_FIRST + 1 == 60,
        CANDIDATE_SET@ == "RSE^worker-node-candidates"@,
{
}

} // verus!
