//! The ceilings that samples are rated against, and how they follow the load.
use vstd::arithmetic::power2::{lemma2_to64, lemma2_to64_rest, pow2};
use vstd::prelude::*;

use crate::double::{
    lemma_nearest, lemma_rounding_is_small, lemma_spacing, lemma_spacing_divides, nearest,
    nearest_double, spacing, EXACT_LIMIT, FRACTION_SCALE,
};
use crate::text::same_text;

verus! {

/// One row of `vmstat` as the scorer reads it.
#[derive(Clone, Copy, Debug, PartialEq, Eq, Structural)]
pub struct VmstatSample {
    /// Processes that run or wait to run.
    pub r: u64,
    /// Processes that are blocked.
    pub b: u64,
    /// Idle memory, in kilobytes.
    pub free: u64,
    /// Memory in buffers, in kilobytes.
    pub buff: u64,
    /// Memory in the page cache, in kilobytes.
    pub cache: u64,
    /// Memory swapped out in the second.
    pub so: u64,
    /// Context switches in the second.
    pub cs: u64,
    /// Interrupts in the second.
    pub input_in: u64,
    /// Time spent idle, in percent.
    pub id: u64,
    /// Time spent waiting for devices, in percent.
    pub wa: u64,
    /// Time stolen by the hypervisor, in percent.
    pub st: u64,
}

/// What counts as a full load.
#[derive(Clone, Copy, Debug, PartialEq, Eq, Structural)]
pub struct Ceilings {
    pub max_r: u64,
    pub max_cs: u64,
    pub max_in: u64,
}

/// The double nearest to one and a fifth, times two to the power of 52.
pub const ONE_AND_A_FIFTH: u128 = 5404319552844595;

/// The ceiling for a peak: the peak times one and a fifth, multiplied as doubles are, cut off to a
/// whole number and held to the range of the type.
pub open spec fn raised(peak: u64) -> int {
    let product = nearest_double(nearest_double(peak as nat) * ONE_AND_A_FIFTH as nat)
        / FRACTION_SCALE as nat;
    if product > u64::MAX {
        u64::MAX as int
    } else {
        product as int
    }
}

/// The ceiling for a peak: the peak times one and a fifth.
pub fn raised_limit(peak: u64) -> (r: u64)
    ensures
        r == raised(peak),
{
    let near: u128 = nearest(peak as u128);
    proof {
        lemma_nearest(peak as nat, 0);
        lemma_spacing(peak as nat);
        assert(near <= 0x40000000000000000);
        assert(near * ONE_AND_A_FIFTH <= 0x40000000000000000 * ONE_AND_A_FIFTH) by (nonlinear_arith)
            requires
                near <= 0x40000000000000000,
        ;
    }
    let product: u128 = nearest(near * ONE_AND_A_FIFTH) / FRACTION_SCALE;
    if product > u64::MAX as u128 {
        u64::MAX
    } else {
        product as u64
    }
}

/// A ceiling is never below the peak that it is for.
pub proof fn law_ceiling_covers_peak(peak: u64)
    ensures
        raised(peak) >= peak,
{
    let p = peak as nat;
    let near = nearest_double(p);
    let x = near * ONE_AND_A_FIFTH as nat;
    let y = nearest_double(x);
    lemma_nearest(p, p);
    lemma_spacing(p);
    lemma_nearest(x, x);
    lemma_spacing(x);
    if p < FRACTION_SCALE {
        assert(spacing(p) == 1);
        assert(near == p);
    }
    assert(32 * near >= 31 * p);
    if x < FRACTION_SCALE {
        assert(spacing(x) == 1);
        assert(y == x);
    }
    assert(32 * y >= 31 * x);
    assert(y >= p * FRACTION_SCALE) by (nonlinear_arith)
        requires
            32 * near >= 31 * p,
            x == near * 5404319552844595,
            32 * y >= 31 * x,
            FRACTION_SCALE == 4503599627370496,
    ;
    assert(y / FRACTION_SCALE as nat >= p) by (nonlinear_arith)
        requires
            y >= p * FRACTION_SCALE,
            FRACTION_SCALE == 4503599627370496,
    ;
}

/// While it stays below 2^52, a ceiling is six fifths of the peak, cut off to a whole number.
pub proof fn law_ceiling_is_six_fifths(peak: u64)
    requires
        6 * peak < 5 * FRACTION_SCALE,
    ensures
        raised(peak) == 6 * peak / 5,
{
    let p = peak as nat;
    let scale = FRACTION_SCALE as nat;
    let a = 6 * p / 5;
    let b = 6 * p % 5;
    lemma_spacing(p);
    assert(spacing(p) == 1);
    assert(nearest_double(p) == p);
    let x = p * ONE_AND_A_FIFTH as nat;
    let u = spacing(x);
    let y = nearest_double(x);
    assert(5 * x == 6 * p * scale - p) by (nonlinear_arith)
        requires
            x == p * 5404319552844595,
            scale == 4503599627370496,
    ;
    assert(5 * x == 5 * (a * scale) + b * scale - p) by (nonlinear_arith)
        requires
            5 * x == 6 * p * scale - p,
            6 * p == 5 * a + b,
    ;
    lemma_spacing(x);
    lemma2_to64();
    lemma2_to64_rest();
    assert(pow2(51) == 2251799813685248);
    let k = lemma_spacing_divides(x, 51);
    assert(u <= 2251799813685248) by (nonlinear_arith)
        requires
            k * u == 2251799813685248,
            k >= 0,
            u >= 1,
    ;
    let lower = 2 * k * a;
    let upper = 2 * k * (a + 1);
    assert(lower * u == a * scale) by (nonlinear_arith)
        requires
            lower == 2 * k * a,
            k * u == 2251799813685248,
            scale == 4503599627370496,
    ;
    assert(upper * u == a * scale + scale) by (nonlinear_arith)
        requires
            upper == 2 * k * (a + 1),
            k * u == 2251799813685248,
            scale == 4503599627370496,
    ;
    lemma_nearest(x, lower);
    lemma_nearest(x, upper);
    if b == 0 {
        if p > 0 {
            assert(2 * (a * scale - x) < u) by {
                assert(5 * (a * scale - x) == p);
                assert(x < u * EXACT_LIMIT);
            }
            assert(y >= a * scale);
        }
    } else {
        assert(x >= a * scale);
        assert(2 * (a * scale + scale - x) > u);
    }
    assert(a * scale <= y < a * scale + scale);
    assert(y / scale == a) by (nonlinear_arith)
        requires
            a * scale <= y < a * scale + scale,
            scale == 4503599627370496,
    ;
}

/// The key of the hash that holds the ceilings.
pub const CEILINGS_KEY: &'static str = "RSE^vmstat^ceilings";

/// The ceiling for context switches and for interrupts where none is stored.
pub const DEFAULT_RATE: u64 = 15000;

/// The number that the first entry for `name` holds; `default` where there is no entry.
pub open spec fn entry_or(entries: Seq<(String, u64)>, name: Seq<char>, default: u64) -> u64
    decreases entries.len(),
{
    if entries.len() == 0 {
        default
    } else if entries[0].0@ == name {
        entries[0].1
    } else {
        entry_or(entries.skip(1), name, default)
    }
}

fn find_entry(entries: &[(String, u64)], name: &str, default: u64) -> (r: u64)
    ensures
        r == entry_or(entries@, name@, default),
{
    let mut i: usize = 0;
    proof {
        assert(entries@.skip(0) == entries@);
    }
    while i < entries.len()
        invariant
            i <= entries@.len(),
            entry_or(entries@.skip(i as int), name@, default) == entry_or(
                entries@,
                name@,
                default,
            ),
        decreases entries@.len() - i,
    {
        proof {
            assert(entries@.skip(i as int)[0] == entries@[i as int]);
            assert(entries@.skip(i as int).skip(1) == entries@.skip(i + 1));
        }
        if same_text(entries[i].0.as_str(), name) {
            return entries[i].1;
        }
        i += 1;
    }
    default
}

/// The ceilings that a stored hash holds, given as its entries. A ceiling that is not stored is the
/// number of processors for processes, and `DEFAULT_RATE` for the rates.
pub fn get_ceilings(entries: &[(String, u64)], nproc: u64) -> (r: Ceilings)
    ensures
        r.max_r == entry_or(entries@, "max-r"@, nproc),
        r.max_cs == entry_or(entries@, "max-cs"@, DEFAULT_RATE),
        r.max_in == entry_or(entries@, "max-in"@, DEFAULT_RATE),
        (forall|i: int| 0 <= i < entries@.len() ==> (#[trigger] entries@[i]).0@ != "max-cs"@)
            ==> r.max_cs == 15000,
        (forall|i: int| 0 <= i < entries@.len() ==> (#[trigger] entries@[i]).0@ != "max-in"@)
            ==> r.max_in == 15000,
{
    proof {
        law_entry_by_name(entries@, "max-cs"@, DEFAULT_RATE, 0);
        law_entry_by_name(entries@, "max-in"@, DEFAULT_RATE, 0);
    }
    Ceilings {
        max_r: find_entry(entries, "max-r", nproc),
        max_cs: find_entry(entries, "max-cs", DEFAULT_RATE),
        max_in: find_entry(entries, "max-in", DEFAULT_RATE),
    }
}

/// The idle percentages of the samples, added up.
pub open spec fn idle_sum(samples: Seq<VmstatSample>) -> int
    decreases samples.len(),
{
    if samples.len() == 0 {
        0
    } else {
        idle_sum(samples.drop_last()) + samples.last().id
    }
}

/// The idle percentages of the samples, added up; `None` where the sum does not fit.
pub fn idle_total(samples: &[VmstatSample]) -> (r: Option<u64>)
    ensures
        match r {
            Some(n) => n == idle_sum(samples@),
            None => idle_sum(samples@) > u64::MAX,
        },
{
    let mut sum: u64 = 0;
    let mut i: usize = 0;
    while i < samples.len()
        invariant
            i <= samples@.len(),
            sum == idle_sum(samples@.take(i as int)),
        decreases samples@.len() - i,
    {
        proof {
            assert(samples@.take(i + 1).drop_last() == samples@.take(i as int));
        }
        match sum.checked_add(samples[i].id) {
            Some(n) => {
                sum = n;
            },
            None => {
                proof {
                    lemma_idle_sum_grows(samples@, i + 1);
                }
                return None;
            },
        }
        i += 1;
    }
    proof {
        assert(samples@.take(i as int) == samples@);
    }
    Some(sum)
}

proof fn lemma_idle_sum_grows(samples: Seq<VmstatSample>, n: int)
    requires
        0 <= n <= samples.len(),
    ensures
        idle_sum(samples.take(n)) <= idle_sum(samples),
    decreases samples.len(),
{
    if n == samples.len() {
        assert(samples.take(n) == samples);
    } else {
        lemma_idle_sum_grows(samples.drop_last(), n);
        assert(samples.drop_last().take(n) == samples.take(n));
    }
}

/// The largest of the numbers; zero where there is none.
pub open spec fn peak(numbers: Seq<u64>) -> u64
    decreases numbers.len(),
{
    if numbers.len() == 0 {
        0
    } else {
        let before = peak(numbers.drop_last());
        if numbers.last() > before {
            numbers.last()
        } else {
            before
        }
    }
}

/// No number is above the peak, and the peak is one of the numbers if there are any.
pub proof fn lemma_peak(numbers: Seq<u64>)
    ensures
        forall|i: int| 0 <= i < numbers.len() ==> #[trigger] numbers[i] <= peak(numbers),
        numbers.len() > 0 ==> numbers.contains(peak(numbers)),
    decreases numbers.len(),
{
    if numbers.len() > 0 {
        let before = numbers.drop_last();
        lemma_peak(before);
        assert forall|i: int| 0 <= i < numbers.len() implies #[trigger] numbers[i] <= peak(
            numbers,
        ) by {
            if i < before.len() {
                assert(before[i] <= peak(before));
            }
        }
        if numbers.last() > peak(before) || before.len() == 0 {
            assert(numbers[numbers.len() - 1] == peak(numbers));
        } else {
            let i = choose|i: int| 0 <= i < before.len() && before[i] == peak(before);
            assert(numbers[i] == peak(numbers));
        }
    }
}

/// The context switches of the samples.
pub open spec fn switches(samples: Seq<VmstatSample>) -> Seq<u64> {
    samples.map_values(|s: VmstatSample| s.cs)
}

/// The interrupts of the samples.
pub open spec fn interrupts(samples: Seq<VmstatSample>) -> Seq<u64> {
    samples.map_values(|s: VmstatSample| s.input_in)
}

fn peaks(samples: &[VmstatSample]) -> (r: (u64, u64))
    ensures
        r.0 == peak(switches(samples@)),
        r.1 == peak(interrupts(samples@)),
{
    let mut cs: u64 = 0;
    let mut ints: u64 = 0;
    let mut i: usize = 0;
    while i < samples.len()
        invariant
            i <= samples@.len(),
            cs == peak(switches(samples@).take(i as int)),
            ints == peak(interrupts(samples@).take(i as int)),
        decreases samples@.len() - i,
    {
        proof {
            assert(switches(samples@).take(i + 1).drop_last() == switches(samples@).take(i as int));
            assert(interrupts(samples@).take(i + 1).drop_last() == interrupts(samples@).take(
                i as int,
            ));
        }
        if samples[i].cs > cs {
            cs = samples[i].cs;
        }
        if samples[i].input_in > ints {
            ints = samples[i].input_in;
        }
        i += 1;
    }
    proof {
        assert(switches(samples@).take(i as int) == switches(samples@));
        assert(interrupts(samples@).take(i as int) == interrupts(samples@));
    }
    (cs, ints)
}

/// A ceiling that follows the load.
#[derive(Clone, Copy, Debug, PartialEq, Eq, Structural)]
pub enum CeilingField {
    MaxCs,
    MaxIn,
}

impl CeilingField {
    /// The name of the field in the stored hash.
    pub open spec fn field_name(self) -> Seq<char> {
        match self {
            CeilingField::MaxCs => "max-cs"@,
            CeilingField::MaxIn => "max-in"@,
        }
    }

    /// The name of the field in the stored hash.
    pub fn name(self) -> (r: &'static str)
        ensures
            r@ == self.field_name(),
    {
        match self {
            CeilingField::MaxCs => "max-cs",
            CeilingField::MaxIn => "max-in",
        }
    }
}

/// A ceiling that was raised, to be stored.
#[derive(Clone, Copy, Debug, PartialEq, Eq, Structural)]
pub struct CeilingUpdate {
    pub field: CeilingField,
    pub value: u64,
}

/// A ceiling behind a peak: raised where the peak is above it, unchanged otherwise.
pub open spec fn follow(limit: u64, peak: u64) -> u64 {
    if peak > limit {
        raised(peak) as u64
    } else {
        limit
    }
}

/// The share of idle time, in percent, below which a host counts as too busy to learn from.
pub const IDLE_TO_LEARN: u64 = 20;

/// Whether the samples are idle enough, on average, to learn from.
pub open spec fn learns_from(samples: Seq<VmstatSample>) -> bool {
    idle_sum(samples) >= IDLE_TO_LEARN * samples.len()
}

/// The ceilings behind the samples.
pub open spec fn tuned(samples: Seq<VmstatSample>, c: Ceilings) -> Ceilings {
    if learns_from(samples) {
        Ceilings {
            max_r: c.max_r,
            max_cs: follow(c.max_cs, peak(switches(samples))),
            max_in: follow(c.max_in, peak(interrupts(samples))),
        }
    } else {
        c
    }
}

/// The updates to store behind the samples: one for each ceiling that a peak was above, context
/// switches first.
pub open spec fn updates(samples: Seq<VmstatSample>, c: Ceilings) -> Seq<CeilingUpdate> {
    let cs = peak(switches(samples));
    let ints = peak(interrupts(samples));
    if learns_from(samples) {
        (if cs > c.max_cs {
            seq![CeilingUpdate { field: CeilingField::MaxCs, value: raised(cs) as u64 }]
        } else {
            Seq::empty()
        }) + (if ints > c.max_in {
            seq![CeilingUpdate { field: CeilingField::MaxIn, value: raised(ints) as u64 }]
        } else {
            Seq::empty()
        })
    } else {
        Seq::empty()
    }
}

/// Raises the ceilings that the samples exceed, unless the host was too busy, and returns what is
/// to be stored.
pub fn update_dynamic_ceilings(samples: &[VmstatSample], c: &mut Ceilings) -> (r: Vec<CeilingUpdate>)
    requires
        idle_sum(samples@) <= u64::MAX,
    ensures
        *final(c) == tuned(samples@, *old(c)),
        r@ == updates(samples@, *old(c)),
{
    let mut out: Vec<CeilingUpdate> = Vec::new();
    let idle: u64 = match idle_total(samples) {
        Some(n) => n,
        None => 0,
    };
    if (idle as u128) < IDLE_TO_LEARN as u128 * samples.len() as u128 {
        return out;
    }
    let (cs, ints) = peaks(samples);
    let ghost before = *c;
    if cs > c.max_cs {
        let value: u64 = raised_limit(cs);
        out.push(CeilingUpdate { field: CeilingField::MaxCs, value });
        c.max_cs = value;
    }
    if ints > c.max_in {
        let value: u64 = raised_limit(ints);
        out.push(CeilingUpdate { field: CeilingField::MaxIn, value });
        c.max_in = value;
    }
    proof {
        assert(out@ == updates(samples@, before));
    }
    out
}

/// Ceilings never fall, and the one for processes stays as it is.
pub proof fn law_ceilings_never_fall(samples: Seq<VmstatSample>, c: Ceilings)
    ensures
        tuned(samples, c).max_r == c.max_r,
        tuned(samples, c).max_cs >= c.max_cs,
        tuned(samples, c).max_in >= c.max_in,
{
    law_ceiling_covers_peak(peak(switches(samples)));
    law_ceiling_covers_peak(peak(interrupts(samples)));
}

/// Once the ceilings have followed samples that they learn from, none of these samples is above
/// them, and following the same samples again changes nothing.
pub proof fn law_ceilings_settle(samples: Seq<VmstatSample>, c: Ceilings)
    requires
        learns_from(samples),
    ensures
        forall|i: int|
            0 <= i < samples.len() ==> (#[trigger] samples[i]).cs <= tuned(samples, c).max_cs
                && samples[i].input_in <= tuned(samples, c).max_in,
        tuned(samples, tuned(samples, c)) == tuned(samples, c),
        updates(samples, tuned(samples, c)) == Seq::<CeilingUpdate>::empty(),
{
    let cs = switches(samples);
    let ints = interrupts(samples);
    law_ceiling_covers_peak(peak(cs));
    law_ceiling_covers_peak(peak(ints));
    lemma_peak(cs);
    lemma_peak(ints);
    assert forall|i: int| 0 <= i < samples.len() implies (#[trigger] samples[i]).cs <= tuned(
        samples,
        c,
    ).max_cs && samples[i].input_in <= tuned(samples, c).max_in by {
        assert(cs[i] <= peak(cs));
        assert(ints[i] <= peak(ints));
    }
    assert(updates(samples, tuned(samples, c)) == Seq::<CeilingUpdate>::empty());
}

/// What is stored under a name is the number of the first entry of that name; where there is no such
/// entry it is the number given for that.
pub proof fn law_entry_by_name(
    entries: Seq<(String, u64)>,
    name: Seq<char>,
    default: u64,
    k: int,
)
    ensures
        0 <= k < entries.len() && entries[k].0@ == name && (forall|i: int|
            0 <= i < k ==> (#[trigger] entries[i]).0@ != name) ==> entry_or(entries, name, default)
            == entries[k].1,
        (forall|i: int| 0 <= i < entries.len() ==> (#[trigger] entries[i]).0@ != name) ==> entry_or(
            entries,
            name,
            default,
        ) == default,
    decreases entries.len(),
{
    if entries.len() > 0 {
        let others = entries.skip(1);
        law_entry_by_name(others, name, default, k - 1);
        if 0 < k < entries.len() && entries[k].0@ == name && (forall|i: int|
            0 <= i < k ==> (#[trigger] entries[i]).0@ != name) {
            assert(entries[0].0@ != name);
            assert(others[k - 1] == entries[k]);
            assert forall|i: int| 0 <= i < k - 1 implies (#[trigger] others[i]).0@ != name by {
                assert(entries[i + 1].0@ != name);
            }
        }
        if forall|i: int| 0 <= i < entries.len() ==> (#[trigger] entries[i]).0@ != name {
            assert(entries[0].0@ != name);
            assert forall|i: int| 0 <= i < others.len() implies (#[trigger] others[i]).0@
                != name by {
                assert(entries[i + 1].0@ != name);
            }
        }
    }
}

/// The idle percentages of samples are added up over all of them.
pub proof fn law_idle_sum_over_all_samples(samples: Seq<VmstatSample>)
    ensures
        idle_sum(samples) == samples.fold_left(0int, |sum: int, s: VmstatSample| sum + s.id),
    decreases samples.len(),
{
    if samples.len() > 0 {
        law_idle_sum_over_all_samples(samples.drop_last());
    }
}

proof fn lemma_peak_at(numbers: Seq<u64>, k: int)
    requires
        0 <= k < numbers.len(),
        forall|i: int| 0 <= i < numbers.len() ==> #[trigger] numbers[i] <= numbers[k],
    ensures
        peak(numbers) == numbers[k],
{
    lemma_peak(numbers);
    let i = choose|i: int| 0 <= i < numbers.len() && numbers[i] == peak(numbers);
    assert(numbers[i] <= numbers[k]);
    assert(numbers[k] <= peak(numbers));
}

/// Samples whose idle percentages come to twenty or more on average are learnt from. Where the most
/// context switches of a sample, those of sample `k`, are above the ceiling, the ceiling becomes six
/// fifths of them, and that is stored under `max-cs`, first of all; where they are not, the ceiling
/// stays, and nothing is stored under that name.
pub proof fn law_ceiling_follows_most_switches(samples: Seq<VmstatSample>, c: Ceilings, k: int)
    requires
        samples.fold_left(0int, |sum: int, s: VmstatSample| sum + s.id) >= 20 * samples.len(),
        0 <= k < samples.len(),
        forall|i: int| 0 <= i < samples.len() ==> (#[trigger] samples[i]).cs <= samples[k].cs,
    ensures
        samples[k].cs > c.max_cs && 6 * samples[k].cs < 5 * 0x10_0000_0000_0000 ==> {
            &&& tuned(samples, c).max_cs == 6 * samples[k].cs / 5
            &&& updates(samples, c).len() > 0
            &&& updates(samples, c)[0].field.field_name() == "max-cs"@
            &&& updates(samples, c)[0].value == 6 * samples[k].cs / 5
        },
        samples[k].cs > c.max_cs ==> {
            &&& tuned(samples, c).max_cs == raised(samples[k].cs)
            &&& updates(samples, c).len() > 0
            &&& updates(samples, c)[0] == (CeilingUpdate {
                field: CeilingField::MaxCs,
                value: tuned(samples, c).max_cs,
            })
        },
        samples[k].cs <= c.max_cs ==> {
            &&& tuned(samples, c).max_cs == c.max_cs
            &&& forall|j: int|
                0 <= j < updates(samples, c).len() ==> !((#[trigger] updates(samples, c)[j]).field is MaxCs)
        },
{
    let cs = switches(samples);
    law_idle_sum_over_all_samples(samples);
    assert forall|i: int| 0 <= i < cs.len() implies #[trigger] cs[i] <= cs[k] by {
        assert(samples[i].cs <= samples[k].cs);
    }
    lemma_peak_at(cs, k);
    if 6 * samples[k].cs < 5 * 0x10_0000_0000_0000 {
        law_ceiling_is_six_fifths(samples[k].cs);
    }
}

/// The same of interrupts, which are stored under `max-in`, behind context switches.
pub proof fn law_ceiling_follows_most_interrupts(samples: Seq<VmstatSample>, c: Ceilings, k: int)
    requires
        samples.fold_left(0int, |sum: int, s: VmstatSample| sum + s.id) >= 20 * samples.len(),
        0 <= k < samples.len(),
        forall|i: int|
            0 <= i < samples.len() ==> (#[trigger] samples[i]).input_in <= samples[k].input_in,
    ensures
        samples[k].input_in > c.max_in && 6 * samples[k].input_in < 5 * 0x10_0000_0000_0000 ==> {
            &&& tuned(samples, c).max_in == 6 * samples[k].input_in / 5
            &&& updates(samples, c).len() > 0
            &&& updates(samples, c).last().field.field_name() == "max-in"@
            &&& updates(samples, c).last().value == 6 * samples[k].input_in / 5
        },
        samples[k].input_in > c.max_in ==> {
            &&& tuned(samples, c).max_in == raised(samples[k].input_in)
            &&& updates(samples, c).len() > 0
            &&& updates(samples, c).last() == (CeilingUpdate {
                field: CeilingField::MaxIn,
                value: tuned(samples, c).max_in,
            })
        },
        samples[k].input_in <= c.max_in ==> {
            &&& tuned(samples, c).max_in == c.max_in
            &&& forall|j: int|
                0 <= j < updates(samples, c).len() ==> !((#[trigger] updates(samples, c)[j]).field is MaxIn)
        },
{
    let ints = interrupts(samples);
    law_idle_sum_over_all_samples(samples);
    assert forall|i: int| 0 <= i < ints.len() implies #[trigger] ints[i] <= ints[k] by {
        assert(samples[i].input_in <= samples[k].input_in);
    }
    lemma_peak_at(ints, k);
    if 6 * samples[k].input_in < 5 * 0x10_0000_0000_0000 {
        law_ceiling_is_six_fifths(samples[k].input_in);
    }
}

/// One update is to be stored for each ceiling that changed, and no other; the ceiling for processes
/// never changes.
pub proof fn law_one_update_for_each_change(samples: Seq<VmstatSample>, c: Ceilings)
    ensures
        updates(samples, c).len() == (if tuned(samples, c).max_cs != c.max_cs {
            1int
        } else {
            0
        }) + (if tuned(samples, c).max_in != c.max_in {
            1int
        } else {
            0
        }),
        tuned(samples, c).max_r == c.max_r,
{
    law_ceiling_covers_peak(peak(switches(samples)));
    law_ceiling_covers_peak(peak(interrupts(samples)));
}

/// Samples whose idle percentages come to less than twenty on average change nothing, and neither do
/// no samples.
pub proof fn law_busy_samples_change_nothing(samples: Seq<VmstatSample>, c: Ceilings)
    requires
        samples.len() == 0 || samples.fold_left(0int, |sum: int, s: VmstatSample| sum + s.id) < 20
            * samples.len(),
    ensures
        tuned(samples, c) == c,
        updates(samples, c) == Seq::<CeilingUpdate>::empty(),
{
    law_idle_sum_over_all_samples(samples);
    if samples.len() == 0 {
        assert(switches(samples).len() == 0);
        assert(interrupts(samples).len() == 0);
        assert(updates(samples, c) == Seq::<CeilingUpdate>::empty());
    }
}

/// Of peaks of any size, a ceiling is six fifths to fifteen digits: it is off by eleven parts in
/// five times 2^52 at most, besides being cut off to a whole number. Where six fifths do not fit 64
/// bits, it is the largest number that does.
pub proof fn law_ceiling_is_near_six_fifths(peak: u64)
    ensures
        5 * raised(peak) * 0x10_0000_0000_0000 <= 6 * peak * 0x10_0000_0000_0000 + 11 * peak,
        raised(peak) < u64::MAX ==> (5 * raised(peak) + 5) * 0x10_0000_0000_0000 > 6 * peak
            * 0x10_0000_0000_0000 - 11 * peak,
        6 * peak * 0x10_0000_0000_0000 - 11 * peak >= 5 * 0x1_0000_0000_0000_0000 * 0x10_0000_0000_0000
            ==> raised(peak) == u64::MAX,
{
    let p = peak as nat;
    let near = nearest_double(p);
    let x = near * ONE_AND_A_FIFTH as nat;
    let y = nearest_double(x);
    lemma_rounding_is_small(p);
    lemma_rounding_is_small(x);
    assert(5 * x == 6 * (near * 0x10_0000_0000_0000) - near) by (nonlinear_arith)
        requires
            x == near * 5404319552844595,
    ;
    let product = y / FRACTION_SCALE as nat;
    assert(product * 0x10_0000_0000_0000 <= y < product * 0x10_0000_0000_0000
        + 0x10_0000_0000_0000);
    assert(5 * y <= 6 * p * 0x10_0000_0000_0000 + 11 * p);
    assert(5 * y >= 6 * p * 0x10_0000_0000_0000 - 11 * p);
}

/// The ceilings are stored under one key, and each of them under a name of its own.
pub proof fn law_where_ceilings_are_stored(field: CeilingField)
    ensures
        CEILINGS_KEY@ == "RSE^vmstat^ceilings"@,
        field is MaxCs <==> field.field_name() == "max-cs"@,
        field is MaxIn <==> field.field_name() == "max-in"@,
{
    reveal_strlit("max-cs");
    reveal_strlit("max-in");
    assert("max-cs"@[4] != "max-in"@[4]);
}

/// A ceiling is the whole part of the product of two doubles, the one nearest to the peak and the one
/// nearest to one and a fifth: 2^52 times the product lies between that many times the ceiling and that
/// many times the next number. Where the product does not fit 64 bits, the ceiling is the largest
/// number that does.
pub proof fn law_ceiling_is_a_product_of_doubles(peak: u64)
    ensures
        ({
            let product = nearest_double(nearest_double(peak as nat) * 5404319552844595);
            &&& raised(peak) * 0x10_0000_0000_0000 <= product
            &&& raised(peak) < u64::MAX ==> product < (raised(peak) + 1) * 0x10_0000_0000_0000
            &&& 0 <= raised(peak) <= u64::MAX
        }),
{
}

} // verus!
