use crusty_os::framework::AllocStats;
use crusty_os::profiler::{
    arena_key, arena_stats, arenas, counters, dump_path, growth, sample_exponent,
    sampling_outcome, ArenaReadings, HeapProfiler, Readings, ScopedAlloc,
};
use crusty_os::workloads::{
    churn, churn_line, entry_key, mixed_line, mixed_size_workload, payload, shared_data,
    shared_line, stats_line, sum, ENTRIES, SHARED_VEC_LEN,
};

#[test]
fn readings_become_counters() {
    let s = counters(Readings { allocated: 100, active: 4096, resident: 9000, mapped: 20000 });
    assert_eq!(s.total_bytes, 20000);
    assert_eq!(s.used_bytes, 100);
    assert_eq!(s.free_bytes, 3996);
    assert_eq!((s.alloc_count, s.dealloc_count), (0, 0));
    assert_eq!(s.peak_bytes, 9000);
    let s = counters(Readings { allocated: 5000, active: 4096, resident: 0, mapped: 0 });
    assert_eq!(s.free_bytes, 0);
    assert_eq!(growth(10, 25), 15);
    assert_eq!(growth(25, 10), 0);
}

#[test]
fn intervals_are_rounded_down() {
    assert_eq!(sample_exponent(1), 0);
    assert_eq!(sample_exponent(512 * 1024), 19);
    assert_eq!(sample_exponent(512 * 1024 + 1), 19);
    assert_eq!(sample_exponent(u64::MAX), 63);
}

#[test]
fn sampling_can_fail_in_two_ways() {
    assert_eq!(sampling_outcome(true, true), Ok(()));
    assert_eq!(
        sampling_outcome(false, true),
        Err("failed to set prof.lg_sample — is jemalloc built with --enable-prof?")
    );
    assert_eq!(sampling_outcome(true, false), Err("failed to activate profiler"));
}

#[test]
fn the_profiler_reads_something() {
    let p = HeapProfiler::new();
    let s = p.snapshot();
    assert_eq!((s.alloc_count, s.dealloc_count), (0, 0));
    // the allocator maps memory for itself before anything is asked of it
    assert!(s.total_bytes > 0);
    assert!(s.peak_bytes > 0);
    let _ = p.bytes_allocated_since_new();
    let scope = ScopedAlloc::new("parse");
    assert_eq!(scope.name, "parse");
    let _ = scope.delta();
}

#[test]
fn sampling_needs_a_profiling_build() {
    let p = HeapProfiler::default();
    assert_eq!(
        p.enable_sampling(512 * 1024),
        Err("failed to set prof.lg_sample — is jemalloc built with --enable-prof?")
    );
}

#[test]
fn arenas_are_listed() {
    assert_eq!(arena_key(0, "pdirty"), "stats.arenas.0.pdirty\0");
    assert_eq!(arena_key(17, "small.allocated"), "stats.arenas.17.small.allocated\0");
    let full = |n| ArenaReadings { small: Some(n), large: Some(n + 1), dirty: Some(n + 2), muzzy: Some(n + 3) };
    let mut broken = full(5);
    broken.muzzy = None;
    let a = arenas(&vec![full(1), broken, full(20)]);
    assert_eq!(a.len(), 2);
    assert_eq!((a[0].arena_index, a[0].small_allocated), (0, 1));
    assert_eq!((a[1].arena_index, a[1].large_allocated), (2, 21));
    assert_eq!((a[1].dirty_pages, a[1].muzzy_pages), (22, 23));
    // the first arena exists from the start
    let real = arena_stats();
    assert!(!real.is_empty());
    assert!(real.windows(2).all(|w| w[0].arena_index < w[1].arena_index));
}

#[test]
fn paths_end_in_a_null_byte() {
    assert_eq!(dump_path("a.heap"), b"a.heap\0".to_vec());
    assert_eq!(dump_path(""), vec![0]);
}

#[test]
fn boxes_are_churned_in_batches() {
    let left = churn(130, 3);
    let values: Vec<u64> = left.iter().map(|b| **b).collect();
    assert_eq!(values, vec![128 ^ 3, 129 ^ 3]);
    assert!(churn(128, 1).is_empty());
    assert!(churn(0, 1).is_empty());
}

#[test]
fn entries_have_keys_and_payloads() {
    assert_eq!(entry_key(0), "key-00000000");
    assert_eq!(entry_key(0xdead_beef), "key-deadbeef");
    assert_eq!(entry_key(99_999), "key-0001869f");
    let mut keys: Vec<String> = (0..5000).map(|i| entry_key(i * 857_321)).collect();
    keys.sort();
    keys.dedup();
    assert_eq!(keys.len(), 5000);
    assert_eq!(payload(0), vec![0u8; 16]);
    assert_eq!(payload(239).len(), 255);
    assert_eq!(payload(240), vec![240u8; 16]);
    assert_eq!(payload(256), vec![0u8; 32]);
}

#[test]
fn the_checksum_of_the_mixed_workload() {
    assert_eq!(mixed_size_workload(0), 0);
    assert_eq!(mixed_size_workload(8), 7);
    assert_eq!(mixed_size_workload(15), 7 ^ 14);
    let expected = (0..ENTRIES).step_by(7).fold(0u64, |c, i| c ^ (i as u8) as u64);
    assert_eq!(mixed_size_workload(ENTRIES), expected);
}

#[test]
fn shared_numbers_add_up() {
    let data = shared_data(SHARED_VEC_LEN);
    assert_eq!(data.len(), 1024);
    assert_eq!(sum(&data), 1024 * 1023 / 2);
    assert_eq!(sum(&vec![]), 0);
}

#[test]
fn what_the_workloads_print() {
    assert_eq!(
        churn_line("12.5"),
        "[small_object_churn] 8 threads × 500000 allocs = 12.5 M alloc/s\n"
    );
    assert_eq!(
        mixed_line(100_000, 0xab, "1.50ms"),
        "[mixed_size_workload] 100000 entries, checksum=0xab, elapsed=1.50ms\n"
    );
    assert_eq!(
        shared_line(4, 523776, "2.00µs"),
        "[cross_thread_arc] 4 consumers, sum=523776, elapsed=2.00µs\n"
    );
    let s = AllocStats {
        total_bytes: 4096,
        used_bytes: 1023,
        free_bytes: 2048,
        alloc_count: 3,
        dealloc_count: 2,
        peak_bytes: 1024,
    };
    assert_eq!(
        stats_line("heap", &s, "75.0"),
        "[stats:heap] total=4 KiB  used=0 KiB  free=2 KiB  allocs=3  deallocs=2  peak=1 KiB  \
         frag=75.0%\n"
    );
}
