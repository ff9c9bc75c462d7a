//! What the rating of a sample rests on, as far as it is whole numbers and decisions.
use vstd::prelude::*;

use crate::double::{
    law_nearest_double, lemma_nearest, lemma_rounding_is_small, lemma_spacing, nearest,
    nearest_double,
};
use crate::tuning::{Ceilings, VmstatSample};

verus! {

/// The memory that a process could get: free, cached and buffered.
pub open spec fn available(v: VmstatSample) -> int {
    v.free + v.cache + v.buff
}

/// The memory that a process could get, in kilobytes; `None` where the sum does not fit.
pub fn available_kb(v: &VmstatSample) -> (r: Option<u64>)
    ensures
        match r {
            Some(n) => n == available(*v),
            None => available(*v) > u64::MAX,
        },
        r is Some <==> v.free + v.cache + v.buff <= u64::MAX,
        r matches Some(n) ==> n - v.free - v.cache == v.buff,
{
    match v.free.checked_add(v.cache) {
        Some(n) => n.checked_add(v.buff),
        None => None,
    }
}

/// `n` held between zero and a hundred.
pub open spec fn percent(n: int) -> int {
    if n < 0 {
        0
    } else if n > 100 {
        100
    } else {
        n
    }
}

/// The score of the processors: the idle percentage less twice the stolen one, both as doubles.
pub open spec fn cpu_part(v: VmstatSample) -> int {
    percent(nearest_double(v.id as nat) - 2 * nearest_double(v.st as nat))
}

fn rounded(n: u64) -> (r: i128)
    ensures
        r == nearest_double(n as nat),
        0 <= r <= 0x20000000000000000,
{
    proof {
        lemma_nearest(n as nat, 0);
        lemma_spacing(n as nat);
    }
    nearest(n as u128) as i128
}

/// The score of the processors, between zero and a hundred.
pub fn cpu_score(v: &VmstatSample) -> (r: u64)
    ensures
        r == cpu_part(*v),
        r <= 100,
{
    let n: i128 = rounded(v.id) - 2 * rounded(v.st);
    if n < 0 {
        0
    } else if n > 100 {
        100
    } else {
        n as u64
    }
}

/// How the memory of a host is rated.
#[derive(Clone, Copy, Debug, PartialEq, Eq, Structural)]
pub enum MemMode {
    /// By the memory that is available.
    Raw,
    /// As the processors are: the host is idle, and its memory is trusted to be in order.
    TrustedIdle,
}

impl MemMode {
    /// What the mode is called in reports.
    pub open spec fn label_text(self) -> Seq<char> {
        match self {
            MemMode::Raw => "Raw"@,
            MemMode::TrustedIdle => "Trusted-Idle"@,
        }
    }

    /// What the mode is called in reports.
    pub fn label(self) -> (r: &'static str)
        ensures
            r@ == self.label_text(),
    {
        match self {
            MemMode::Raw => "Raw",
            MemMode::TrustedIdle => "Trusted-Idle",
        }
    }
}

/// Whether the memory of a host is trusted: fewer processes run than it has room for, none waits
/// for a device, and nothing is swapped out.
pub open spec fn trusts_memory(v: VmstatSample, c: Ceilings) -> bool {
    v.r < c.max_r && v.wa < 1 && v.so == 0
}

/// Whether a host swaps out while it waits for its devices, which costs it nine tenths of its score.
pub open spec fn thrashes(v: VmstatSample) -> bool {
    v.so > 0 && v.wa > 5
}

/// What the rating of a sample rests on.
#[derive(Clone, Copy, Debug, PartialEq, Eq, Structural)]
pub struct ScorePlan {
    /// The score of the processors, between zero and a hundred.
    pub cpu_score: u64,
    /// The memory that a process could get, in kilobytes.
    pub available_kb: u64,
    /// How the memory is rated.
    pub mem_mode: MemMode,
    /// Whether the host swaps out while it waits for its devices.
    pub thrashing: bool,
}

/// Decides what the rating of a sample rests on.
pub fn plan_score(v: &VmstatSample, c: &Ceilings) -> (r: ScorePlan)
    requires
        available(*v) <= u64::MAX,
    ensures
        r.cpu_score == cpu_part(*v),
        r.available_kb == available(*v),
        r.mem_mode == (if trusts_memory(*v, *c) {
            MemMode::TrustedIdle
        } else {
            MemMode::Raw
        }),
        r.thrashing == thrashes(*v),
        r.available_kb - v.free - v.cache == v.buff,
        r.mem_mode is TrustedIdle <==> v.r < c.max_r && v.wa == 0 && v.so == 0,
        r.thrashing <==> v.so >= 1 && v.wa >= 6,
{
    let mem_mode = if v.r < c.max_r && v.wa < 1 && v.so == 0 {
        MemMode::TrustedIdle
    } else {
        MemMode::Raw
    };
    ScorePlan {
        cpu_score: cpu_score(v),
        available_kb: v.free + v.cache + v.buff,
        mem_mode,
        thrashing: v.so > 0 && v.wa > 5,
    }
}

/// A host whose memory is trusted does not thrash.
pub proof fn law_trusted_host_does_not_thrash(v: VmstatSample, c: Ceilings)
    ensures
        !(trusts_memory(v, c) && thrashes(v)),
{
}

/// For percentages, which no rounding touches, the score of the processors is the idle one less
/// twice the stolen one, and zero where that is negative.
pub proof fn law_cpu_score_of_percentages(v: VmstatSample)
    requires
        v.id <= 100,
        v.st <= 100,
    ensures
        cpu_part(v) == (if v.id < 2 * v.st {
            0
        } else {
            v.id - 2 * v.st
        }),
{
    lemma_nearest(v.id as nat, v.id as nat);
    lemma_nearest(v.st as nat, v.st as nat);
}

/// Free, cached and buffered memory are available, each of them in full: take two of them away, and
/// the third is left; with more of any of them, so much more is available.
pub proof fn law_all_memory_is_available(v: VmstatSample, w: VmstatSample)
    ensures
        available(v) - v.free - v.cache == v.buff,
        available(w) - available(v) == (w.free - v.free) + (w.cache - v.cache) + (w.buff - v.buff),
{
}

/// The score of the processors is what the idle percentage has over twice the stolen one, held
/// between zero and a hundred, for all numbers up to 2^53.
pub proof fn law_cpu_score_up_to_the_limit(v: VmstatSample)
    requires
        v.id < 0x20_0000_0000_0000,
        v.st < 0x20_0000_0000_0000,
    ensures
        0 <= v.id - 2 * v.st <= 100 ==> cpu_part(v) == v.id - 2 * v.st,
        v.id < 2 * v.st ==> cpu_part(v) == 0,
        v.id - 2 * v.st > 100 ==> cpu_part(v) == 100,
{
    law_nearest_double(v.id as nat, 0);
    law_nearest_double(v.st as nat, 0);
}

/// For numbers of any size, the score of the processors is a hundred where the idle percentage is
/// clearly more than a hundred above twice the stolen one, and zero where it is clearly below: by more
/// than the rounding of the two to doubles can make up.
pub proof fn law_cpu_score_of_any_size(v: VmstatSample)
    ensures
        0 <= cpu_part(v) <= 100,
        (v.id - 2 * v.st - 100) * 0x20_0000_0000_0000 >= v.id + 2 * v.st ==> cpu_part(v) == 100,
        (2 * v.st - v.id) * 0x20_0000_0000_0000 >= v.id + 2 * v.st ==> cpu_part(v) == 0,
{
    lemma_rounding_is_small(v.id as nat);
    lemma_rounding_is_small(v.st as nat);
}

/// Memory is trusted just where fewer processes run than there is room for, none waits and nothing is
/// swapped out; a host thrashes just where something is swapped out and the wait is above five percent.
/// None of it rests on anything else of the sample.
pub proof fn law_what_trust_rests_on(v: VmstatSample, c: Ceilings)
    ensures
        trusts_memory(v, c) ==> v.r < c.max_r,
        trusts_memory(v, c) ==> v.wa == 0 && v.so == 0,
        v.wa == 0 && v.so == 0 && !trusts_memory(v, c) ==> v.r >= c.max_r,
        thrashes(v) ==> v.so >= 1 && v.wa >= 6,
        !thrashes(v) && v.so >= 1 ==> v.wa <= 5,
        !thrashes(v) && v.wa >= 6 ==> v.so == 0,
{
}

/// For numbers of any size, what is held between zero and a hundred is what the double nearest to the
/// idle percentage has over twice the one nearest to the stolen percentage.
pub proof fn law_cpu_score_of_doubles(v: VmstatSample)
    ensures
        ({
            let over = nearest_double(v.id as nat) - 2 * nearest_double(v.st as nat);
            &&& 0 <= over <= 100 ==> cpu_part(v) == over
            &&& over < 0 ==> cpu_part(v) == 0
            &&& over > 100 ==> cpu_part(v) == 100
        }),
{
}

} // verus!
