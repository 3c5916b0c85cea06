//! Workloads that exercise an allocator, and what they print.
//!
//! Times and ratios are measured elsewhere and come in as text.

use crate::framework::AllocStats;
use crate::text::{
    decimal, decimal_text, digit, digit_str, hex, hex_text, law_digit, value_in,
};
use vstd::prelude::*;
use vstd::string::StringExecFns;

verus! {

/// Threads of the churn.
pub const THREADS: u64 = 8;

/// Allocations of each of them.
pub const ALLOCS_EACH: u64 = 500_000;

/// Boxes that are kept before they are all dropped.
pub const BATCH: u64 = 64;

/// Entries of the mixed workload.
pub const ENTRIES: u32 = 100_000;

/// Every how manyth entry is read back.
pub const STRIDE: u32 = 7;

/// Numbers that are shared between threads.
pub const SHARED_VEC_LEN: u64 = 1024;

/// Threads that read them.
pub const CONSUMERS: u64 = 4;

/// What one thread allocates as number `i`.
pub open spec fn churned(i: int, thread: u64) -> u64 {
    (i as u64) ^ thread
}

/// Allocates `allocs` boxes, dropping them in batches. The result is what is left at the end:
/// those behind the last full batch.
pub fn churn(allocs: u64, thread: u64) -> (left: Vec<Box<u64>>)
    ensures
        left@.len() == allocs % BATCH,
        forall|j: int|
            0 <= j < left@.len() ==> *#[trigger] left@[j] == churned(
                allocs - allocs % BATCH + j,
                thread,
            ),
{
    let mut v: Vec<Box<u64>> = Vec::new();
    let mut i: u64 = 0;
    while i < allocs
        invariant
            i <= allocs,
            v@.len() == i % BATCH,
            forall|j: int|
                0 <= j < v@.len() ==> *#[trigger] v@[j] == churned(i - i % BATCH + j, thread),
        decreases allocs - i,
    {
        v.push(Box::new(i ^ thread));
        if v.len() == BATCH as usize {
            v.clear();
        }
        i = i + 1;
    }
    v
}

/// The last `w` digits of `n` in base sixteen.
pub open spec fn last_digits(n: int, w: int) -> Seq<char>
    decreases w,
{
    if w <= 0 {
        Seq::empty()
    } else {
        last_digits(n / 16, w - 1).push(digit(n % 16))
    }
}

/// The key of entry `i`.
pub open spec fn key_text(i: u32) -> Seq<char> {
    "key-"@ + last_digits(i as int, 8)
}

/// The last `w` digits start with the one that the others do not hold.
proof fn lemma_split_digits(n: int, w: int)
    requires
        w > 0,
        0 <= n,
    ensures
        last_digits(n, w) == seq![digit(n / pow16(w - 1) % 16)] + last_digits(n, w - 1),
    decreases w,
{
    if w == 1 {
        assert(pow16(0) == 1);
        assert(last_digits(n / 16, 0) =~= Seq::empty());
        assert(last_digits(n, 1) =~= seq![digit(n % 16)] + last_digits(n, 0));
    } else {
        lemma_split_digits(n / 16, w - 1);
        lemma_pow16(w - 2);
        vstd::arithmetic::div_mod::lemma_div_denominator(n, 16, pow16(w - 2));
        assert(pow16(w - 1) == 16 * pow16(w - 2));
        assert(last_digits(n, w) =~= seq![digit(n / pow16(w - 1) % 16)] + last_digits(n, w - 1));
    }
}

/// Sixteen to the power of `w`.
spec fn pow16(w: int) -> int
    decreases w,
{
    if w <= 0 {
        1
    } else {
        16 * pow16(w - 1)
    }
}

proof fn lemma_pow16(w: int)
    ensures
        pow16(w) >= 1,
    decreases w,
{
    if w > 0 {
        lemma_pow16(w - 1);
    }
}

/// The key of entry `i`.
pub fn entry_key(i: u32) -> (key: String)
    ensures
        key@ == key_text(i),
{
    let mut key: String = String::from_str("key-");
    let mut w: u32 = 8;
    let mut unit: u32 = 0x1000_0000;
    proof {
        reveal_with_fuel(pow16, 8);
        assert(pow16(7) == 0x1000_0000);
    }
    while w > 0
        invariant
            w <= 8,
            w > 0 ==> unit == pow16(w - 1),
            unit > 0,
            key@ + last_digits(i as int, w as int) == key_text(i),
        decreases w,
    {
        let d: u32 = i / unit % 16;
        let ghost before = key@;
        key.append(digit_str(d as u64));
        proof {
            lemma_split_digits(i as int, w as int);
            assert(key@ + last_digits(i as int, w - 1) =~= before + last_digits(i as int, w as int));
            if w > 1 {
                assert(pow16(w - 1) == 16 * pow16(w - 2));
            }
        }
        w = w - 1;
        if w > 0 {
            unit = unit / 16;
        }
    }
    assert(key@ + last_digits(i as int, 0) =~= key@);
    key
}

/// Different entries have different keys, so that a look-up finds the entry it asks for.
pub proof fn law_keys_distinct(i: u32, j: u32)
    requires
        i != j,
    ensures
        key_text(i) != key_text(j),
{
    if key_text(i) == key_text(j) {
        let a = last_digits(i as int, 8);
        let b = last_digits(j as int, 8);
        assert(a =~= key_text(i).skip("key-"@.len() as int));
        assert(b =~= key_text(j).skip("key-"@.len() as int));
        reveal_with_fuel(pow16, 9);
        assert(pow16(8) == 0x1_0000_0000);
        lemma_digits_injective(i as int, j as int, 8);
    }
}

proof fn lemma_digits_injective(a: int, b: int, w: int)
    requires
        0 <= a < pow16(w),
        0 <= b < pow16(w),
        last_digits(a, w) == last_digits(b, w),
    ensures
        a == b,
    decreases w,
{
    if w > 0 {
        let x = last_digits(a / 16, w - 1);
        let y = last_digits(b / 16, w - 1);
        assert(last_digits(a, w).drop_last() =~= x);
        assert(last_digits(b, w).drop_last() =~= y);
        assert(last_digits(a, w).last() == digit(a % 16));
        assert(last_digits(b, w).last() == digit(b % 16));
        lemma_digits_injective(a / 16, b / 16, w - 1);
    }
}

/// Bytes of the payload of entry `i`.
pub open spec fn payload_len(i: u32) -> int {
    16 + i % 240
}

/// What the payload of entry `i` is filled with.
pub open spec fn payload_byte(i: u32) -> u8 {
    (i % 256) as u8
}

/// The payload of entry `i`.
pub fn payload(i: u32) -> (p: Vec<u8>)
    ensures
        p@ == Seq::new(payload_len(i) as nat, |j: int| payload_byte(i)),
{
    let b: u8 = (i % 256) as u8;
    let n: usize = 16 + (i % 240) as usize;
    let p: Vec<u8> = vec![b; n];
    assert(p@ =~= Seq::new(payload_len(i) as nat, |j: int| payload_byte(i)));
    p
}

/// The first bytes of every [`STRIDE`]th payload below `n`, one laid over the other.
pub open spec fn checksum_of(n: int) -> u64
    decreases n,
{
    if n <= 0 {
        0
    } else if (n - 1) % (STRIDE as int) == 0 {
        checksum_of(n - 1) ^ (payload_byte((n - 1) as u32) as u64)
    } else {
        checksum_of(n - 1)
    }
}

proof fn lemma_between(n: int, m: int)
    requires
        0 <= n <= m,
        forall|k: int| n <= k < m ==> #[trigger] (k % (STRIDE as int)) != 0,
    ensures
        checksum_of(m) == checksum_of(n),
    decreases m - n,
{
    if n < m {
        lemma_between(n, m - 1);
        assert((m - 1) % (STRIDE as int) != 0);
    }
}

/// Reading one entry back takes the checksum to the next one that is, or to the end.
proof fn lemma_stride(n: int, entries: int)
    requires
        0 <= n < entries <= u32::MAX - STRIDE,
        n % (STRIDE as int) == 0,
    ensures
        (n + STRIDE) % (STRIDE as int) == 0,
        checksum_of(
            if n + STRIDE <= entries {
                n + STRIDE
            } else {
                entries
            },
        ) == checksum_of(n) ^ (payload_byte(n as u32) as u64),
{
    let end = if n + STRIDE <= entries {
        n + STRIDE
    } else {
        entries
    };
    assert(checksum_of(n + 1) == checksum_of(n) ^ (payload_byte(n as u32) as u64));
    lemma_between(n + 1, end);
}

/// Makes `entries` payloads, each under its key, and reads every [`STRIDE`]th back by its key.
pub fn mixed_size_workload(entries: u32) -> (checksum: u64)
    requires
        entries <= u32::MAX - STRIDE,
    ensures
        checksum == checksum_of(entries as int),
{
    let mut store: Vec<(String, Vec<u8>)> = Vec::new();
    let mut i: u32 = 0;
    while i < entries
        invariant
            i <= entries,
            store@.len() == i,
            forall|j: int|
                0 <= j < i ==> (#[trigger] store@[j]).0@ == key_text(j as u32) && store@[j].1@
                    == Seq::new(payload_len(j as u32) as nat, |k: int| payload_byte(j as u32)),
        decreases entries - i,
    {
        store.push((entry_key(i), payload(i)));
        i = i + 1;
    }
    let mut checksum: u64 = 0;
    let mut n: u32 = 0;
    while n < entries
        invariant
            entries <= u32::MAX - STRIDE,
            n <= entries + STRIDE,
            n % STRIDE == 0,
            store@.len() == entries,
            forall|j: int|
                0 <= j < entries ==> (#[trigger] store@[j]).0@ == key_text(j as u32) && store@[j].1@
                    == Seq::new(payload_len(j as u32) as nat, |k: int| payload_byte(j as u32)),
            checksum == checksum_of(
                if n <= entries {
                    n as int
                } else {
                    entries as int
                },
            ),
        decreases entries + STRIDE - n,
    {
        let key: String = entry_key(n);
        if store[n as usize].0 == key {
            checksum = checksum ^ (store[n as usize].1[0] as u64);
        }
        proof {
            lemma_stride(n as int, entries as int);
        }
        n = n + STRIDE;
    }
    checksum
}

/// The sum of `data`.
pub open spec fn sum_of(data: Seq<u64>) -> int
    decreases data.len(),
{
    if data.len() == 0 {
        0
    } else {
        sum_of(data.drop_last()) + data.last()
    }
}

/// The numbers below `len`.
pub open spec fn counted(len: int) -> Seq<u64> {
    Seq::new(len as nat, |i: int| i as u64)
}

/// The numbers below `len`.
pub fn shared_data(len: u64) -> (data: Vec<u64>)
    ensures
        data@ == counted(len as int),
{
    let mut data: Vec<u64> = Vec::new();
    let mut i: u64 = 0;
    while i < len
        invariant
            i <= len,
            data@ =~= counted(i as int),
        decreases len - i,
    {
        data.push(i);
        i = i + 1;
    }
    data
}

proof fn lemma_sum_grows(data: Seq<u64>, i: int)
    requires
        0 <= i <= data.len(),
    ensures
        0 <= sum_of(data.take(i)) <= sum_of(data),
    decreases data.len() - i, i,
{
    lemma_sum_positive(data.take(i));
    if i < data.len() {
        lemma_sum_grows(data, i + 1);
        assert(data.take(i + 1).drop_last() =~= data.take(i));
    } else {
        assert(data.take(i) =~= data);
    }
}

proof fn lemma_sum_positive(data: Seq<u64>)
    ensures
        0 <= sum_of(data),
    decreases data.len(),
{
    if data.len() > 0 {
        lemma_sum_positive(data.drop_last());
    }
}

/// The sum of `data`.
pub fn sum(data: &Vec<u64>) -> (s: u64)
    requires
        sum_of(data@) <= u64::MAX,
    ensures
        s == sum_of(data@),
{
    let mut s: u64 = 0;
    let mut i: usize = 0;
    assert(data@.take(0) =~= Seq::empty());
    while i < data.len()
        invariant
            i <= data@.len(),
            sum_of(data@) <= u64::MAX,
            s == sum_of(data@.take(i as int)),
        decreases data@.len() - i,
    {
        proof {
            assert(data@.take(i + 1).drop_last() =~= data@.take(i as int));
            lemma_sum_grows(data@, i + 1);
        }
        s = s + data[i];
        i = i + 1;
    }
    assert(data@.take(i as int) =~= data@);
    s
}

/// The numbers below `len` add up to half of `len` times the number before it.
pub proof fn law_shared_sum(len: int)
    requires
        0 <= len <= u64::MAX,
    ensures
        2 * sum_of(counted(len)) == len * (len - 1),
    decreases len,
{
    if len > 0 {
        law_shared_sum(len - 1);
        assert(counted(len).drop_last() =~= counted(len - 1));
        assert(counted(len).last() == len - 1);
        assert(sum_of(counted(len)) == sum_of(counted(len - 1)) + (len - 1));
        assert(len * (len - 1) == (len - 1) * (len - 1 - 1) + 2 * (len - 1)) by (nonlinear_arith);
    } else {
        assert(len * (len - 1) == 0) by (nonlinear_arith)
            requires
                len == 0,
        ;
    }
}

/// What the churn prints, with the rate in millions per second.
pub fn churn_line(rate: &str) -> (s: String)
    ensures
        s@ == "[small_object_churn] "@ + decimal_text(THREADS as int) + " threads × "@
            + decimal_text(ALLOCS_EACH as int) + " allocs = "@ + rate@ + " M alloc/s\n"@,
{
    let mut s: String = String::from_str("[small_object_churn] ");
    s.append(decimal(THREADS).as_str());
    s.append(" threads × ");
    s.append(decimal(ALLOCS_EACH).as_str());
    s.append(" allocs = ");
    s.append(rate);
    s.append(" M alloc/s\n");
    s
}

/// What the mixed workload prints, with the time that it took.
pub fn mixed_line(entries: u32, checksum: u64, elapsed: &str) -> (s: String)
    ensures
        s@ == "[mixed_size_workload] "@ + decimal_text(entries as int) + " entries, checksum="@
            + hex_text(checksum as int) + ", elapsed="@ + elapsed@ + "\n"@,
{
    let mut s: String = String::from_str("[mixed_size_workload] ");
    s.append(decimal(entries as u64).as_str());
    s.append(" entries, checksum=");
    s.append(hex(checksum).as_str());
    s.append(", elapsed=");
    s.append(elapsed);
    s.append("\n");
    s
}

/// What the shared workload prints, with the time that it took.
pub fn shared_line(consumers: u64, total: u64, elapsed: &str) -> (s: String)
    ensures
        s@ == "[cross_thread_arc] "@ + decimal_text(consumers as int) + " consumers, sum="@
            + decimal_text(total as int) + ", elapsed="@ + elapsed@ + "\n"@,
{
    let mut s: String = String::from_str("[cross_thread_arc] ");
    s.append(decimal(consumers).as_str());
    s.append(" consumers, sum=");
    s.append(decimal(total).as_str());
    s.append(", elapsed=");
    s.append(elapsed);
    s.append("\n");
    s
}

/// What is printed of counters, with the share that is not in use.
pub fn stats_line(label: &str, stats: &AllocStats, frag: &str) -> (s: String)
    ensures
        s@ == "[stats:"@ + label@ + "] total="@ + decimal_text(stats.total_bytes as int / 1024)
            + " KiB  used="@ + decimal_text(stats.used_bytes as int / 1024) + " KiB  free="@
            + decimal_text(stats.free_bytes as int / 1024) + " KiB  allocs="@ + decimal_text(
            stats.alloc_count as int,
        ) + "  deallocs="@ + decimal_text(stats.dealloc_count as int) + "  peak="@ + decimal_text(
            stats.peak_bytes as int / 1024,
        ) + " KiB  frag="@ + frag@ + "%\n"@,
{
    let mut s: String = String::from_str("[stats:");
    s.append(label);
    s.append("] total=");
    s.append(decimal(stats.total_bytes / 1024).as_str());
    s.append(" KiB  used=");
    s.append(decimal(stats.used_bytes / 1024).as_str());
    s.append(" KiB  free=");
    s.append(decimal(stats.free_bytes / 1024).as_str());
    s.append(" KiB  allocs=");
    s.append(decimal(stats.alloc_count).as_str());
    s.append("  deallocs=");
    s.append(decimal(stats.dealloc_count).as_str());
    s.append("  peak=");
    s.append(decimal(stats.peak_bytes / 1024).as_str());
    s.append(" KiB  frag=");
    s.append(frag);
    s.append("%\n");
    s
}

/// What a thread allocates tells it back: laid over with the number of the thread once more,
/// it is the number that it was allocated as.
pub proof fn law_churned(i: u64, thread: u64)
    ensures
        churned(i as int, thread) ^ thread == i,
        churned(thread as int, i) == churned(i as int, thread),
{
    assert((i ^ thread) ^ thread == i) by (bit_vector);
    assert(i ^ thread == thread ^ i) by (bit_vector);
}

/// A key is a fixed word and the number of its entry in eight digits of base sixteen.
pub proof fn law_key(i: u32)
    ensures
        key_text(i).len() == 12,
        key_text(i).take(4) == "key-"@,
        value_in(key_text(i).skip(4), 16) == i,
{
    reveal_strlit("key-");
    let d = last_digits(i as int, 8);
    reveal_with_fuel(pow16, 9);
    assert(pow16(8) == 0x1_0000_0000);
    lemma_last_value(i as int, 8);
    assert(key_text(i).take(4) =~= "key-"@);
    assert(key_text(i).skip(4) =~= d);
}

/// The last digits of a number that has no more stand for it.
proof fn lemma_last_value(n: int, w: int)
    requires
        0 <= w,
        0 <= n < pow16(w),
    ensures
        last_digits(n, w).len() == w,
        value_in(last_digits(n, w), 16) == n,
    decreases w,
{
    if w > 0 {
        lemma_last_value(n / 16, w - 1);
        law_digit(n % 16);
        assert(last_digits(n, w).drop_last() =~= last_digits(n / 16, w - 1));
    }
}

/// Payloads have from 16 to 255 bytes, one more from each entry to the next until they start
/// over; what they are filled with goes up by one likewise.
pub proof fn law_payload(i: u32)
    ensures
        payload_len(0) == 16,
        payload_byte(0) == 0,
        16 <= payload_len(i) <= 255,
        i < u32::MAX ==> payload_len((i + 1) as u32) == (if payload_len(i) == 255 {
            16
        } else {
            payload_len(i) + 1
        }),
        i < u32::MAX ==> payload_byte((i + 1) as u32) == (if payload_byte(i) == 255 {
            0int
        } else {
            payload_byte(i) + 1
        }),
{
}

/// From one entry that is read back to the next, the first byte of its payload is laid over
/// the checksum, and nothing else happens to it.
pub proof fn law_checksum(n: int, r: int)
    requires
        0 <= n <= u32::MAX,
        n % 7 == 0,
        1 <= r <= 7,
    ensures
        checksum_of(0) == 0,
        checksum_of(n + r) == checksum_of(n) ^ (payload_byte(n as u32) as u64),
{
    lemma_between(n + 1, n + r);
    assert(checksum_of(n + 1) == checksum_of(n) ^ (payload_byte(n as u32) as u64));
}

/// A sum is that of one part and that of the other; of one number it is that number.
pub proof fn law_sum(a: Seq<u64>, b: Seq<u64>, x: u64)
    ensures
        sum_of(a + b) == sum_of(a) + sum_of(b),
        sum_of(seq![x]) == x,
        sum_of(Seq::empty()) == 0,
    decreases b.len(),
{
    assert(seq![x].drop_last() =~= Seq::empty());
    assert(sum_of(seq![x].drop_last()) == 0);
    if b.len() == 0 {
        assert(a + b =~= a);
    } else {
        law_sum(a, b.drop_last(), x);
        assert((a + b).drop_last() =~= a + b.drop_last());
    }
}

/// How much the workloads do.
pub proof fn law_loads()
    ensures
        THREADS == 8,
        ALLOCS_EACH == 500_000,
        BATCH == 64,
        ENTRIES == 100_000,
        STRIDE == 7,
        SHARED_VEC_LEN == 1024,
        CONSUMERS == 4,
        2 * sum_of(counted(SHARED_VEC_LEN as int)) == 1024 * 1023,
{
    law_shared_sum(SHARED_VEC_LEN as int);
}

/// The numbers that are shared are those below their count, in order.
pub proof fn law_counted(len: int, i: int)
    requires
        0 <= i < len <= u64::MAX,
    ensures
        counted(len).len() == len,
        counted(len)[i] == i,
{
}

} // verus!
