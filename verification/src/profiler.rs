//! Heap statistics of a second allocator, for profiling.
//!
//! What the allocator reports changes from one moment to the next. Each reading is taken by
//! one function, and what is made of readings stands in functions that take them as
//! arguments.

use crate::framework::AllocStats;
use crate::text::{decimal, decimal_text};
use crate::tlsf::model::{lemma_magnitude_is, magnitude};
use vstd::arithmetic::power2::pow2;
use vstd::prelude::*;
use vstd::string::{StrSliceExecFns, StringExecFns, StringSliceAdditionalSpecFns};

verus! {

/// [`tikv_jemalloc_ctl::epoch::advance`]: makes the statistics current. The result is the
/// number of the epoch, if the allocator has one; nothing is promised of it. Each reading
/// below is asked for with the epoch that it is to be taken in, so that none is taken before
/// the statistics were made current.
#[verifier::external_body]
fn advance_epoch() -> (r: Option<u64>) {
    tikv_jemalloc_ctl::epoch::advance().ok()
}

/// [`tikv_jemalloc_ctl::stats::allocated::read`]: bytes handed out at this moment, if the
/// allocator tells. Nothing is promised of them.
#[verifier::external_body]
fn read_allocated(_epoch: Option<u64>) -> (r: Option<u64>) {
    tikv_jemalloc_ctl::stats::allocated::read().ok().map(|n| n as u64)
}

/// [`tikv_jemalloc_ctl::stats::active::read`]: bytes in pages in use at this moment, if the
/// allocator tells. Nothing is promised of them.
#[verifier::external_body]
fn read_active(_epoch: Option<u64>) -> (r: Option<u64>) {
    tikv_jemalloc_ctl::stats::active::read().ok().map(|n| n as u64)
}

/// [`tikv_jemalloc_ctl::stats::resident::read`]: bytes in memory at this moment, if the
/// allocator tells. Nothing is promised of them.
#[verifier::external_body]
fn read_resident(_epoch: Option<u64>) -> (r: Option<u64>) {
    tikv_jemalloc_ctl::stats::resident::read().ok().map(|n| n as u64)
}

/// [`tikv_jemalloc_ctl::stats::mapped::read`]: bytes mapped at this moment, if the allocator
/// tells. Nothing is promised of them.
#[verifier::external_body]
fn read_mapped(_epoch: Option<u64>) -> (r: Option<u64>) {
    tikv_jemalloc_ctl::stats::mapped::read().ok().map(|n| n as u64)
}

/// [`tikv_jemalloc_ctl::Access::read`] on a key with a value of eight bytes: its value at
/// this moment, if there is such a key. Nothing is promised of it.
#[verifier::external_body]
fn read_key(_epoch: Option<u64>, key: &str) -> (r: Option<u64>)
    requires
        is_key(key@),
{
    let name = tikv_jemalloc_ctl::AsName::name(key);
    tikv_jemalloc_ctl::Access::<u64>::read(name).ok()
}

/// [`tikv_jemalloc_ctl::Access::read`] on a key with a value of four bytes: its value at
/// this moment, if there is such a key. Nothing is promised of it.
#[verifier::external_body]
fn read_short_key(_epoch: Option<u64>, key: &str) -> (r: Option<u32>)
    requires
        is_key(key@),
{
    let name = tikv_jemalloc_ctl::AsName::name(key);
    tikv_jemalloc_ctl::Access::<u32>::read(name).ok()
}

/// [`tikv_jemalloc_ctl::Access::write`] of a number to a key that takes one. Tells whether
/// the allocator took it; nothing is promised of that. Keys that take anything else are left
/// out: there the number would be used as an address.
#[verifier::external_body]
fn write_key(key: &str, value: u64) -> (ok: bool)
    requires
        takes_number(key@),
{
    let name = tikv_jemalloc_ctl::AsName::name(key);
    tikv_jemalloc_ctl::Access::<u64>::write(name, value).is_ok()
}

/// [`tikv_jemalloc_ctl::Access::write`] of a switch to a key that takes one. Tells whether the
/// allocator took it; nothing is promised of that.
#[verifier::external_body]
fn write_switch(key: &str, value: bool) -> (ok: bool)
    requires
        takes_switch(key@),
{
    let name = tikv_jemalloc_ctl::AsName::name(key);
    tikv_jemalloc_ctl::Access::<bool>::write(name, value).is_ok()
}

/// Keys end in a null character.
pub open spec fn is_key(key: Seq<char>) -> bool {
    key.len() > 0 && key.last() == '\0'
}

/// The key of the sampling interval takes a number.
pub open spec fn takes_number(key: Seq<char>) -> bool {
    key == "prof.lg_sample\0"@
}

/// The key of the profiler takes a switch.
pub open spec fn takes_switch(key: Seq<char>) -> bool {
    key == "prof.active\0"@
}

/// Making the statistics current can give `e`: the allocator decides which it is.
pub closed spec fn epoch_advanced(e: Option<u64>) -> bool {
    call_ensures(advance_epoch, (), e)
}

/// Reading the four figures of a snapshot in epoch `e` can give these: the allocator decides
/// which they are.
pub closed spec fn figures_read(
    e: Option<u64>,
    allocated: Option<u64>,
    active: Option<u64>,
    resident: Option<u64>,
    mapped: Option<u64>,
) -> bool {
    &&& call_ensures(read_allocated, (e,), allocated)
    &&& call_ensures(read_active, (e,), active)
    &&& call_ensures(read_resident, (e,), resident)
    &&& call_ensures(read_mapped, (e,), mapped)
}

/// Reading the number behind `key` in epoch `e` can give `r`: the allocator decides which it
/// is.
pub closed spec fn number_read(e: Option<u64>, key: Seq<char>, r: Option<u64>) -> bool {
    exists|k: &str| k@ == key && #[trigger] call_ensures(read_key, (e, k), r)
}

/// Reading the short number behind `key` in epoch `e` can give `r`: the allocator decides
/// which it is.
pub closed spec fn short_number_read(e: Option<u64>, key: Seq<char>, r: Option<u32>) -> bool {
    exists|k: &str| k@ == key && #[trigger] call_ensures(read_short_key, (e, k), r)
}

/// Reading the bytes handed out in epoch `e` can give `r`: the allocator decides which it is.
pub closed spec fn allocated_read(e: Option<u64>, r: Option<u64>) -> bool {
    call_ensures(read_allocated, (e,), r)
}

/// Writing the number `value` to `key` can end in `ok`: the allocator decides which it is.
pub closed spec fn number_written(key: &str, value: u64, ok: bool) -> bool {
    call_ensures(write_key, (key, value), ok)
}

/// Writing the switch `value` to `key` can end in `ok`: the allocator decides which it is.
pub closed spec fn switch_written(key: &str, value: bool, ok: bool) -> bool {
    call_ensures(write_switch, (key, value), ok)
}

/// A reading, or zero where there is none.
pub open spec fn zero_if_none(r: Option<u64>) -> u64 {
    match r {
        Some(v) => v,
        None => 0,
    }
}

/// What is over of `a` after taking `b` away, zero if nothing is.
pub open spec fn less(a: int, b: int) -> int {
    if a > b {
        a - b
    } else {
        0
    }
}

/// One reading of the statistics.
#[derive(Debug, Clone, Copy, PartialEq, Eq, Structural)]
pub struct Readings {
    /// Bytes handed out.
    pub allocated: u64,
    /// Bytes in pages in use.
    pub active: u64,
    /// Bytes in memory.
    pub resident: u64,
    /// Bytes mapped.
    pub mapped: u64,
}

/// What was read of the four figures, zero where the allocator gave none.
pub open spec fn readings_of(
    allocated: Option<u64>,
    active: Option<u64>,
    resident: Option<u64>,
    mapped: Option<u64>,
) -> Readings {
    Readings {
        allocated: zero_if_none(allocated),
        active: zero_if_none(active),
        resident: zero_if_none(resident),
        mapped: zero_if_none(mapped),
    }
}

/// `n` is a reading of the bytes handed out, taken after the statistics were made current, or
/// zero where the allocator gave none.
pub open spec fn baseline_read(n: u64) -> bool {
    exists|e: Option<u64>, r: Option<u64>|
        epoch_advanced(e) && #[trigger] allocated_read(e, r) && n == zero_if_none(r)
}

/// `n` is what a reading of the bytes handed out, taken after the statistics were made
/// current, has on top of `start`.
pub open spec fn growth_read(start: u64, n: u64) -> bool {
    exists|e: Option<u64>, r: Option<u64>|
        epoch_advanced(e) && #[trigger] allocated_read(e, r) && n == less(
            zero_if_none(r) as int,
            start as int,
        )
}

/// The counters that a reading stands for. Calls are not counted.
pub open spec fn counters_of(r: Readings) -> AllocStats {
    AllocStats {
        total_bytes: r.mapped,
        used_bytes: r.allocated,
        free_bytes: less(r.active as int, r.allocated as int) as u64,
        alloc_count: 0,
        dealloc_count: 0,
        peak_bytes: r.resident,
    }
}

/// The counters that a reading stands for.
pub fn counters(r: Readings) -> (s: AllocStats)
    ensures
        s == counters_of(r),
{
    AllocStats {
        total_bytes: r.mapped,
        used_bytes: r.allocated,
        free_bytes: r.active.saturating_sub(r.allocated),
        alloc_count: 0,
        dealloc_count: 0,
        peak_bytes: r.resident,
    }
}

/// Bytes that came on top of `start`, zero if there are fewer now.
pub fn growth(start: u64, now: u64) -> (n: u64)
    ensures
        n == less(now as int, start as int),
        now >= start ==> n + start == now,
        now < start ==> n == 0,
{
    now.saturating_sub(start)
}

/// The base-two logarithm of an interval, rounded down.
pub fn sample_exponent(sample_bytes: u64) -> (lg: u64)
    requires
        sample_bytes > 0,
    ensures
        lg == magnitude(sample_bytes as int),
        pow2(lg as nat) <= sample_bytes < pow2((lg + 1) as nat),
{
    let zeros: u32 = sample_bytes.leading_zeros();
    proof {
        vstd::std_specs::bits::axiom_u64_leading_zeros(sample_bytes);
    }
    let lg: u64 = 63 - zeros as u64;
    proof {
        let x = sample_bytes;
        assert(x >> lg == 1) by (bit_vector)
            requires
                lg <= 63,
                lg < 63 ==> x >> ((lg + 1) as u64) == 0,
                (x >> lg) & 1 != 0,
        ;
        vstd::bits::lemma_u64_shr_is_div(x, lg);
        let p = pow2(lg as nat) as int;
        vstd::arithmetic::power2::lemma_pow2_pos(lg as nat);
        vstd::arithmetic::power2::lemma_pow2_unfold((lg + 1) as nat);
        assert(p <= x < 2 * p) by (nonlinear_arith)
            requires
                x as int / p == 1,
                p > 0,
        ;
        lemma_magnitude_is(x as int, lg as int);
    }
    lg
}

/// What comes of switching sampling on, by whether the interval was taken and whether the
/// profiler was switched on.
pub open spec fn sampling_error(interval_set: bool, active: bool) -> Option<Seq<char>> {
    if !interval_set {
        Some("failed to set prof.lg_sample — is jemalloc built with --enable-prof?"@)
    } else if !active {
        Some("failed to activate profiler"@)
    } else {
        None
    }
}

/// What comes of switching sampling on.
pub fn sampling_outcome(interval_set: bool, active: bool) -> (r: Result<(), &'static str>)
    ensures
        match r {
            Ok(_) => sampling_error(interval_set, active) is None,
            Err(e) => sampling_error(interval_set, active) == Some(e@),
        },
{
    if !interval_set {
        Err("failed to set prof.lg_sample — is jemalloc built with --enable-prof?")
    } else if !active {
        Err("failed to activate profiler")
    } else {
        Ok(())
    }
}

/// A handle to the statistics.
pub struct HeapProfiler {
    /// Bytes that were handed out when the handle was made.
    pub baseline_alloc: u64,
}

impl HeapProfiler {
    /// A handle that counts from now on: makes the statistics current and starts from a
    /// reading, or from zero where the allocator gives none.
    pub fn new() -> (p: Self)
        ensures
            baseline_read(p.baseline_alloc),
    {
        let e: Option<u64> = advance_epoch();
        assert(epoch_advanced(e));
        let r: Option<u64> = read_allocated(e);
        assert(allocated_read(e, r));
        HeapProfiler { baseline_alloc: or_zero(r) }
    }

    /// The counters at this moment: makes the statistics current and takes one reading of
    /// each figure, zero where the allocator gives none.
    pub fn snapshot(&self) -> (s: AllocStats)
        ensures
            exists|
                e: Option<u64>,
                allocated: Option<u64>,
                active: Option<u64>,
                resident: Option<u64>,
                mapped: Option<u64>,
            |
                epoch_advanced(e) && #[trigger] figures_read(e, allocated, active, resident, mapped)
                    && s == counters_of(readings_of(allocated, active, resident, mapped)),
    {
        let e: Option<u64> = advance_epoch();
        assert(epoch_advanced(e));
        let allocated: Option<u64> = read_allocated(e);
        let active: Option<u64> = read_active(e);
        let resident: Option<u64> = read_resident(e);
        let mapped: Option<u64> = read_mapped(e);
        assert(figures_read(e, allocated, active, resident, mapped));
        let r = Readings {
            allocated: or_zero(allocated),
            active: or_zero(active),
            resident: or_zero(resident),
            mapped: or_zero(mapped),
        };
        counters(r)
    }

    /// Samples allocations, about one in `sample_bytes` bytes: hands the allocator the
    /// logarithm of the interval and, once it took that, switches its profiler on. Whether
    /// it takes either is its own affair.
    pub fn enable_sampling(&self, sample_bytes: u64) -> (r: Result<(), &'static str>)
        requires
            sample_bytes > 0,
        ensures
            exists|interval_set: bool, active: bool|
                #![trigger sampling_error(interval_set, active)]
                number_written(
                    "prof.lg_sample\0",
                    magnitude(sample_bytes as int) as u64,
                    interval_set,
                ) && (interval_set ==> switch_written("prof.active\0", true, active)) && match r {
                    Ok(_) => sampling_error(interval_set, active) is None,
                    Err(e) => sampling_error(interval_set, active) == Some(e@),
                },
    {
        let lg: u64 = sample_exponent(sample_bytes);
        let interval_set: bool = write_key("prof.lg_sample\0", lg);
        let active: bool = if interval_set {
            write_switch("prof.active\0", true)
        } else {
            false
        };
        assert(number_written("prof.lg_sample\0", lg, interval_set));
        assert(interval_set ==> switch_written("prof.active\0", true, active));
        sampling_outcome(interval_set, active)
    }

    /// Bytes handed out since the handle was made, zero if fewer are now: makes the statistics
    /// current and compares a reading with the one that it started from.
    pub fn bytes_allocated_since_new(&self) -> (n: u64)
        ensures
            growth_read(self.baseline_alloc, n),
    {
        let e: Option<u64> = advance_epoch();
        assert(epoch_advanced(e));
        let r: Option<u64> = read_allocated(e);
        assert(allocated_read(e, r));
        growth(self.baseline_alloc, or_zero(r))
    }
}

impl Default for HeapProfiler {
    /// As [`HeapProfiler::new`].
    fn default() -> (p: Self)
        ensures
            baseline_read(p.baseline_alloc),
    {
        HeapProfiler::new()
    }
}

/// A reading, or zero where there is none.
fn or_zero(r: Option<u64>) -> (n: u64)
    ensures
        n == zero_if_none(r),
{
    match r {
        Some(v) => v,
        None => 0,
    }
}

/// The path as the allocator wants it, with a null byte behind it.
pub fn dump_path(path: &str) -> (bytes: Vec<u8>)
    ensures
        bytes@ == path.spec_bytes().push(0),
{
    let mut bytes: Vec<u8> = path.as_bytes_vec();
    bytes.push(0);
    bytes
}

/// The key of a figure of arena `i`.
pub open spec fn arena_key_text(i: int, figure: Seq<char>) -> Seq<char> {
    "stats.arenas."@ + decimal_text(i) + "."@ + figure + "\0"@
}

/// The key of a figure of arena `i`.
pub fn arena_key(i: u64, figure: &str) -> (key: String)
    ensures
        key@ == arena_key_text(i as int, figure@),
        key@ == "stats.arenas."@ + decimal_text(i as int) + "."@ + figure@ + "\0"@,
        is_key(key@),
{
    let mut key: String = String::from_str("stats.arenas.");
    key.append(decimal(i).as_str());
    key.append(".");
    key.append(figure);
    key.append("\0");
    proof {
        reveal_strlit("\0");
    }
    key
}

/// Figures of one arena.
#[derive(Debug, Clone, Copy, PartialEq, Eq, Structural)]
pub struct ArenaStats {
    /// Number of the arena.
    pub arena_index: u64,
    /// Bytes in small blocks.
    pub small_allocated: u64,
    /// Bytes in large blocks.
    pub large_allocated: u64,
    /// Pages that were written and are not in use.
    pub dirty_pages: u64,
    /// Pages that are about to be given back.
    pub muzzy_pages: u64,
}

/// What was read of one arena.
#[derive(Debug, Clone, Copy, PartialEq, Eq, Structural)]
pub struct ArenaReadings {
    /// Bytes in small blocks.
    pub small: Option<u64>,
    /// Bytes in large blocks.
    pub large: Option<u64>,
    /// Pages that were written and are not in use.
    pub dirty: Option<u64>,
    /// Pages that are about to be given back.
    pub muzzy: Option<u64>,
}

/// The figures of arena `i`, if all of them could be read.
pub open spec fn arena_of(i: int, r: ArenaReadings) -> Option<ArenaStats> {
    if r.small is Some && r.large is Some && r.dirty is Some && r.muzzy is Some {
        Some(
            ArenaStats {
                arena_index: i as u64,
                small_allocated: r.small->0,
                large_allocated: r.large->0,
                dirty_pages: r.dirty->0,
                muzzy_pages: r.muzzy->0,
            },
        )
    } else {
        None
    }
}

/// The figures of the arenas that could be read in full, in order.
pub open spec fn arenas_of(r: Seq<ArenaReadings>) -> Seq<ArenaStats>
    decreases r.len(),
{
    if r.len() == 0 {
        Seq::empty()
    } else {
        match arena_of(r.len() - 1, r.last()) {
            Some(a) => arenas_of(r.drop_last()).push(a),
            None => arenas_of(r.drop_last()),
        }
    }
}

/// The figures of the arenas that could be read in full, in order.
pub fn arenas(r: &Vec<ArenaReadings>) -> (a: Vec<ArenaStats>)
    ensures
        a@ == arenas_of(r@),
{
    let mut a: Vec<ArenaStats> = Vec::new();
    let mut i: usize = 0;
    assert(r@.take(0) =~= Seq::empty());
    while i < r.len()
        invariant
            i <= r@.len(),
            a@ == arenas_of(r@.take(i as int)),
        decreases r@.len() - i,
    {
        let one: ArenaReadings = r[i];
        proof {
            assert(r@.take(i + 1).drop_last() =~= r@.take(i as int));
            assert(r@.take(i + 1).last() == one);
        }
        match (one.small, one.large, one.dirty, one.muzzy) {
            (Some(small), Some(large), Some(dirty), Some(muzzy)) => {
                a.push(
                    ArenaStats {
                        arena_index: i as u64,
                        small_allocated: small,
                        large_allocated: large,
                        dirty_pages: dirty,
                        muzzy_pages: muzzy,
                    },
                );
            },
            _ => {},
        }
        i = i + 1;
    }
    assert(r@.take(i as int) =~= r@);
    a
}

/// Reading the four figures of arena `i` in epoch `e` can give `r`: the allocator decides which
/// they are.
pub open spec fn arena_read(e: Option<u64>, i: int, r: ArenaReadings) -> bool {
    &&& number_read(e, arena_key_text(i, "small.allocated"@), r.small)
    &&& number_read(e, arena_key_text(i, "large.allocated"@), r.large)
    &&& number_read(e, arena_key_text(i, "pdirty"@), r.dirty)
    &&& number_read(e, arena_key_text(i, "pmuzzy"@), r.muzzy)
}

/// Reading the number of arenas in epoch `e`, and the figures of each, can give `r`: no arena
/// where the allocator does not tell how many there are.
pub open spec fn arenas_read(e: Option<u64>, r: Seq<ArenaReadings>) -> bool {
    &&& exists|n: Option<u32>| #[trigger]
        short_number_read(e, "opt.narenas\0"@, n) && r.len() == (match n {
            Some(n) => n,
            None => 0,
        })
    &&& forall|i: int| 0 <= i < r.len() ==> arena_read(e, i, #[trigger] r[i])
}

/// The figure `figure` of arena `i` in epoch `e`, if the allocator tells.
fn read_figure(e: Option<u64>, i: u32, figure: &str) -> (r: Option<u64>)
    ensures
        number_read(e, arena_key_text(i as int, figure@), r),
{
    let key: String = arena_key(i as u64, figure);
    let k: &str = key.as_str();
    let r: Option<u64> = read_key(e, k);
    assert(call_ensures(read_key, (e, k), r));
    r
}

/// The figures of all arenas that could be read in full: makes the statistics current, reads
/// how many arenas there are, and reads the figures of each.
pub fn arena_stats() -> (a: Vec<ArenaStats>)
    ensures
        exists|e: Option<u64>, r: Seq<ArenaReadings>|
            epoch_advanced(e) && #[trigger] arenas_read(e, r) && a@ == arenas_of(r),
{
    let e: Option<u64> = advance_epoch();
    assert(epoch_advanced(e));
    proof {
        reveal_strlit("opt.narenas\0");
    }
    let n: Option<u32> = read_short_key(e, "opt.narenas\0");
    assert(short_number_read(e, "opt.narenas\0"@, n)) by {
        assert(call_ensures(read_short_key, (e, "opt.narenas\0"), n));
    }
    let narenas: u32 = match n {
        Some(n) => n,
        None => 0,
    };
    let mut r: Vec<ArenaReadings> = Vec::new();
    let mut i: u32 = 0;
    while i < narenas
        invariant
            i <= narenas,
            r@.len() == i,
            forall|j: int| 0 <= j < i ==> arena_read(e, j, #[trigger] r@[j]),
        decreases narenas - i,
    {
        let small: Option<u64> = read_figure(e, i, "small.allocated");
        let large: Option<u64> = read_figure(e, i, "large.allocated");
        let dirty: Option<u64> = read_figure(e, i, "pdirty");
        let muzzy: Option<u64> = read_figure(e, i, "pmuzzy");
        r.push(ArenaReadings { small, large, dirty, muzzy });
        i = i + 1;
    }
    assert(arenas_read(e, r@));
    arenas(&r)
}

/// A span of the program whose allocations are counted.
pub struct ScopedAlloc {
    /// What the span is called.
    pub name: &'static str,
    /// Bytes that were handed out when it began.
    pub start: u64,
    /// The handle that it counts with.
    pub profiler: HeapProfiler,
}

impl ScopedAlloc {
    /// A span that begins now, with a handle of its own.
    pub fn new(name: &'static str) -> (s: Self)
        ensures
            s.name@ == name@,
            baseline_read(s.profiler.baseline_alloc),
            growth_read(s.profiler.baseline_alloc, s.start),
    {
        let profiler: HeapProfiler = HeapProfiler::new();
        let start: u64 = profiler.bytes_allocated_since_new();
        ScopedAlloc { name, start, profiler }
    }

    /// Bytes handed out since it began, zero if fewer are now.
    pub fn delta(&self) -> (n: u64)
        ensures
            exists|now: u64| #[trigger]
                growth_read(self.profiler.baseline_alloc, now) && n == less(
                    now as int,
                    self.start as int,
                ),
    {
        let now: u64 = self.profiler.bytes_allocated_since_new();
        assert(growth_read(self.profiler.baseline_alloc, now));
        growth(self.start, now)
    }
}

/// What is handed out and what is free make up what is in use, unless less is in use than is
/// handed out, and then nothing is free; what is mapped is the total and what is in memory
/// the peak. A figure that the allocator did not give counts as zero.
pub proof fn law_counters(
    allocated: Option<u64>,
    active: Option<u64>,
    resident: Option<u64>,
    mapped: Option<u64>,
)
    ensures
        ({
            let s = counters_of(readings_of(allocated, active, resident, mapped));
            let used: u64 = if allocated is Some {
                allocated->0
            } else {
                0
            };
            let in_use: u64 = if active is Some {
                active->0
            } else {
                0
            };
            &&& s.used_bytes == used
            &&& used <= in_use ==> s.used_bytes + s.free_bytes == in_use
            &&& used > in_use ==> s.free_bytes == 0
            &&& mapped is Some ==> s.total_bytes == mapped->0
            &&& mapped is None ==> s.total_bytes == 0
            &&& resident is Some ==> s.peak_bytes == resident->0
            &&& resident is None ==> s.peak_bytes == 0
            &&& s.alloc_count == 0
            &&& s.dealloc_count == 0
        }),
{
}

/// Sampling is on exactly if the interval was taken and the profiler was switched on; what is
/// said of an interval that was not taken does not depend on the profiler.
pub proof fn law_sampling(interval_set: bool, active: bool, other: bool)
    ensures
        sampling_error(interval_set, active) is None <==> interval_set && active,
        sampling_error(false, active) == sampling_error(false, other),
        sampling_error(false, active) == Some(
            "failed to set prof.lg_sample — is jemalloc built with --enable-prof?"@,
        ),
        sampling_error(true, false) == Some("failed to activate profiler"@),
{
}

/// The figures are those of the arenas of which all four could be read, each under the number
/// of its arena, by rising number.
pub proof fn law_arenas(r: Seq<ArenaReadings>)
    requires
        r.len() <= u64::MAX,
    ensures
        forall|a: ArenaStats| #[trigger]
            arenas_of(r).contains(a) <==> {
                let i = a.arena_index as int;
                &&& i < r.len()
                &&& r[i].small == Some(a.small_allocated)
                &&& r[i].large == Some(a.large_allocated)
                &&& r[i].dirty == Some(a.dirty_pages)
                &&& r[i].muzzy == Some(a.muzzy_pages)
            },
        forall|j: int, k: int|
            0 <= j < k < arenas_of(r).len() ==> (#[trigger] arenas_of(r)[j]).arena_index < (
            #[trigger] arenas_of(r)[k]).arena_index,
    decreases r.len(),
{
    if r.len() > 0 {
        let rest = r.drop_last();
        let n = r.len() - 1;
        law_arenas(rest);
        let before = arenas_of(rest);
        let after = arenas_of(r);
        assert forall|j: int| 0 <= j < before.len() implies (#[trigger] before[j]).arena_index < n by {
            assert(before.contains(before[j]));
        }
        assert forall|a: ArenaStats| #[trigger] after.contains(a) <==> before.contains(a)
            || arena_of(n, r.last()) == Some(a) by {
            if before.contains(a) {
                let j = choose|j: int| 0 <= j < before.len() && before[j] == a;
                assert(after[j] == a);
            }
            if arena_of(n, r.last()) == Some(a) {
                assert(after[before.len() as int] == a);
            }
            if after.contains(a) {
                let j = choose|j: int| 0 <= j < after.len() && after[j] == a;
                if j < before.len() {
                    assert(before[j] == a);
                }
            }
        }
        assert forall|a: ArenaStats| #[trigger] after.contains(a) <==> {
            let i = a.arena_index as int;
            &&& i < r.len()
            &&& r[i].small == Some(a.small_allocated)
            &&& r[i].large == Some(a.large_allocated)
            &&& r[i].dirty == Some(a.dirty_pages)
            &&& r[i].muzzy == Some(a.muzzy_pages)
        } by {
            let i = a.arena_index as int;
            assert(before.contains(a) ==> i < n);
            if i < n {
                assert(rest[i] == r[i]);
            }
        }
    } else {
        assert forall|a: ArenaStats| !#[trigger] arenas_of(r).contains(a) by {}
    }
}

/// A reading stands for a call of the allocator that gave it.
proof fn law_readings(
    e: Option<u64>,
    allocated: Option<u64>,
    active: Option<u64>,
    resident: Option<u64>,
    mapped: Option<u64>,
)
    ensures
        epoch_advanced(e) ==> call_ensures(advance_epoch, (), e),
        allocated_read(e, allocated) ==> call_ensures(read_allocated, (e,), allocated),
        figures_read(e, allocated, active, resident, mapped) ==> {
            &&& call_ensures(read_allocated, (e,), allocated)
            &&& call_ensures(read_active, (e,), active)
            &&& call_ensures(read_resident, (e,), resident)
            &&& call_ensures(read_mapped, (e,), mapped)
        },
{
}

/// A number behind a key stands for a call of the allocator with that key.
proof fn law_keys(e: Option<u64>, key: Seq<char>, r: Option<u64>, n: Option<u32>)
    ensures
        number_read(e, key, r) ==> exists|k: &str|
            k@ == key && #[trigger] call_ensures(read_key, (e, k), r),
        short_number_read(e, key, n) ==> exists|k: &str|
            k@ == key && #[trigger] call_ensures(read_short_key, (e, k), n),
{
}

/// A write stands for a call of the allocator with what is written.
proof fn law_writes(key: &str, value: u64, switch: bool, ok: bool)
    ensures
        number_written(key, value, ok) ==> call_ensures(write_key, (key, value), ok),
        switch_written(key, switch, ok) ==> call_ensures(write_switch, (key, switch), ok),
{
}

/// What a handle starts from and what it counts rest on a reading that was taken once the
/// statistics were current.
pub proof fn law_growth(start: u64, n: u64)
    ensures
        baseline_read(n) ==> exists|e: Option<u64>, r: Option<u64>|
            epoch_advanced(e) && #[trigger] allocated_read(e, r) && (r is Some ==> n == r->0) && (r
                is None ==> n == 0),
        growth_read(start, n) ==> exists|e: Option<u64>, r: Option<u64>|
            epoch_advanced(e) && #[trigger] allocated_read(e, r) && (r is Some && r->0 >= start ==> n
                + start == r->0) && (r is None || r->0 < start ==> n == 0),
{
    if baseline_read(n) {
        let (e, r) = choose|e: Option<u64>, r: Option<u64>|
            epoch_advanced(e) && #[trigger] allocated_read(e, r) && n == zero_if_none(r);
        assert(allocated_read(e, r));
    }
    if growth_read(start, n) {
        let (e, r) = choose|e: Option<u64>, r: Option<u64>|
            epoch_advanced(e) && #[trigger] allocated_read(e, r) && n == less(
                zero_if_none(r) as int,
                start as int,
            );
        assert(allocated_read(e, r));
    }
}

/// The readings of the arenas are as many as the allocator says that there are, none where it
/// does not say, and each arena is asked for its four figures by its own number.
pub proof fn law_arenas_read(e: Option<u64>, r: Seq<ArenaReadings>, i: int)
    requires
        arenas_read(e, r),
    ensures
        exists|n: Option<u32>| #[trigger]
            short_number_read(e, "opt.narenas\0"@, n) && (n is Some ==> r.len() == n->0) && (n
                is None ==> r.len() == 0),
        0 <= i < r.len() ==> {
            let key = "stats.arenas."@ + decimal_text(i) + "."@;
            &&& number_read(e, key + "small.allocated"@ + "\0"@, r[i].small)
            &&& number_read(e, key + "large.allocated"@ + "\0"@, r[i].large)
            &&& number_read(e, key + "pdirty"@ + "\0"@, r[i].dirty)
            &&& number_read(e, key + "pmuzzy"@ + "\0"@, r[i].muzzy)
        },
{
    let n = choose|n: Option<u32>| #[trigger]
        short_number_read(e, "opt.narenas\0"@, n) && r.len() == (match n {
            Some(n) => n,
            None => 0,
        });
    assert(short_number_read(e, "opt.narenas\0"@, n));
    if 0 <= i < r.len() {
        assert(arena_read(e, i, r[i]));
    }
}

/// The exponent of an interval is the largest whose power of two does not exceed it.
pub proof fn law_exponent(sample_bytes: u64, lg: u64)
    requires
        sample_bytes > 0,
        call_ensures(sample_exponent, (sample_bytes,), lg),
    ensures
        pow2(lg as nat) <= sample_bytes < 2 * pow2(lg as nat),
        lg < 64,
{
    vstd::arithmetic::power2::lemma_pow2_unfold((lg + 1) as nat);
    vstd::arithmetic::power2::lemma2_to64();
    if lg >= 64 {
        if lg > 64 {
            vstd::arithmetic::power2::lemma_pow2_strictly_increases(64, lg as nat);
        }
        assert(pow2(64) == 0x1_0000_0000_0000_0000);
    }
}

/// What grew between two readings is no more than what grew between the first and a later one
/// that has at least as much.
pub proof fn law_growth_monotone(start: u64, now: u64, later: u64, n: u64, m: u64)
    requires
        now <= later,
        call_ensures(growth, (start, now), n),
        call_ensures(growth, (start, later), m),
    ensures
        n <= m,
        start <= now ==> m - n == later - now,
        now <= start ==> n == 0,
{
}

} // verus!
