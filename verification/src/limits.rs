//! Locating a span of a session: which takes hold a start and a stop
//! position, counted in samples over all channels, and how much of each take
//! is read.

use vstd::prelude::*;
use crate::log::LogData;

verus! {

/// Sum of the first `i` take sizes.
pub open spec fn prefix_sum(sizes: Seq<u32>, i: int) -> int
    decreases i,
{
    if i <= 0 {
        0
    } else {
        prefix_sum(sizes, i - 1) + sizes[i - 1]
    }
}

/// The scan for position `t` over the first `n` takes indexes only existing
/// take sizes, and its running sum never leaves `u32`: every take that the
/// scan reaches (those that start at or before `t`) exists and ends within
/// `u32::MAX`.
pub open spec fn scan_safe(sizes: Seq<u32>, n: int, t: int) -> bool {
    forall|j: int|
        0 <= j < n && t >= #[trigger] prefix_sum(sizes, j) ==> j < sizes.len() && prefix_sum(sizes, j + 1)
            <= u32::MAX
}

/// The first take from `i` on, among the first `n`, that ends after
/// position `t`; 0 where there is none.
pub open spec fn locate_from(sizes: Seq<u32>, n: int, t: int, i: int) -> int
    decreases n - i,
{
    if i >= n {
        0
    } else if t < prefix_sum(sizes, i + 1) {
        i
    } else {
        locate_from(sizes, n, t, i + 1)
    }
}

/// The take, among the first `n`, that holds position `t`: the first one
/// that ends after `t`, or 0 where `t` lies past all of them.
pub open spec fn locate_take(sizes: Seq<u32>, n: int, t: int) -> int {
    locate_from(sizes, n, t, 0)
}

/// How many samples of take `i` are read, for a span that starts at `s`
/// in take `start_take` and stops at `e` in take `end_take`.
pub open spec fn take_length(i: int, start_take: int, sizes: Seq<u32>, end_take: int, s: int, e: int) -> int {
    if i == start_take {
        if i == end_take {
            e - s
        } else {
            sizes[i] - s
        }
    } else if i == end_take {
        e
    } else {
        sizes[i] as int
    }
}

/// What is read of each take of a span, case by case: the start take that
/// is also the stop take gives the stop less the start position; any other
/// start take gives its own size less the start position; a stop take that
/// is not the start take gives the stop position; every other take, wherever
/// it lies, gives its own whole size.
pub proof fn lemma_take_length_cases(i: int, start_take: int, sizes: Seq<u32>, end_take: int, s: int, e: int)
    ensures
        i == start_take && i == end_take ==> take_length(i, start_take, sizes, end_take, s, e) == e - s,
        i == start_take && i != end_take ==> take_length(i, start_take, sizes, end_take, s, e) == sizes[i]
            - s,
        i != start_take && i == end_take ==> take_length(i, start_take, sizes, end_take, s, e) == e,
        i != start_take && i != end_take ==> take_length(i, start_take, sizes, end_take, s, e)
            == sizes[i],
{
}

/// Take sizes only add up.
pub proof fn lemma_prefix_monotone(sizes: Seq<u32>, i: int, j: int)
    requires
        0 <= i <= j,
    ensures
        prefix_sum(sizes, i) <= prefix_sum(sizes, j),
    decreases j - i,
{
    if i < j {
        lemma_prefix_monotone(sizes, i, j - 1);
    }
}

proof fn lemma_locate_from(sizes: Seq<u32>, n: int, t: int, i: int)
    requires
        0 <= i <= n,
        t >= prefix_sum(sizes, i),
    ensures
        t < prefix_sum(sizes, n) ==> {
            let r: int = locate_from(sizes, n, t, i);
            &&& i <= r < n
            &&& prefix_sum(sizes, r) <= t < prefix_sum(sizes, r + 1)
        },
        t >= prefix_sum(sizes, n) ==> locate_from(sizes, n, t, i) == 0,
    decreases n - i,
{
    if i < n {
        if t < prefix_sum(sizes, i + 1) {
            if t >= prefix_sum(sizes, n) {
                lemma_prefix_monotone(sizes, i + 1, n);
            }
        } else {
            lemma_locate_from(sizes, n, t, i + 1);
        }
    }
}

/// The located take holds the position: where `t` lies within the first `n`
/// takes, the take found starts at or before `t` and ends after it; where `t`
/// lies past them all, the take found is the first.
pub proof fn lemma_locate_take(sizes: Seq<u32>, n: int, t: int)
    requires
        0 <= n,
        0 <= t,
    ensures
        t < prefix_sum(sizes, n) ==> {
            let r: int = locate_take(sizes, n, t);
            &&& 0 <= r < n
            &&& prefix_sum(sizes, r) <= t < prefix_sum(sizes, r + 1)
        },
        t >= prefix_sum(sizes, n) ==> locate_take(sizes, n, t) == 0,
{
    lemma_locate_from(sizes, n, t, 0);
}

/// A span never starts in a later take than it stops: for positions
/// `s <= e` with `e` within the first `n` takes, the take that holds `s`
/// comes no later than the take that holds `e`.
pub proof fn lemma_start_take_before_end_take(sizes: Seq<u32>, n: int, s: int, e: int)
    requires
        0 <= n,
        0 <= s <= e,
        e < prefix_sum(sizes, n),
    ensures
        locate_take(sizes, n, s) <= locate_take(sizes, n, e),
{
    lemma_locate_take(sizes, n, s);
    lemma_locate_take(sizes, n, e);
    let rs: int = locate_take(sizes, n, s);
    let re: int = locate_take(sizes, n, e);
    if rs > re {
        lemma_prefix_monotone(sizes, re + 1, rs);
    }
}

/// A span that lies within the first take is read exactly: both ends are
/// located in take 0, and the length read from it is the stop position less
/// the start position. (Past the first take, `take_skip` and `calc_take_len`
/// count the start skip and the stop length from the start of the session,
/// not of their take; `span_plan` counts each part from its own take.)
pub proof fn lemma_span_in_first_take(sizes: Seq<u32>, n: int, s: int, e: int)
    requires
        1 <= n,
        1 <= sizes.len(),
        0 <= s <= e < sizes[0],
    ensures
        locate_take(sizes, n, s) == 0,
        locate_take(sizes, n, e) == 0,
        take_length(0, locate_take(sizes, n, s), sizes, locate_take(sizes, n, e), s, e) == e - s,
{
    assert(prefix_sum(sizes, 0) == 0);
    assert(prefix_sum(sizes, 1) == sizes[0]);
}

/// Finds the take that holds position `t`, scanning the first `n` take sizes.
fn find_take(sizes: &Vec<u32>, n: u32, t: u32) -> (res: usize)
    requires
        scan_safe(sizes@, n as int, t as int),
    ensures
        res == locate_take(sizes@, n as int, t as int),
{
    let mut time_compare: u32 = 0;
    let mut i: u32 = 0;
    while i < n
        invariant
            i <= n,
            scan_safe(sizes@, n as int, t as int),
            time_compare == prefix_sum(sizes@, i as int),
            t >= time_compare,
            locate_take(sizes@, n as int, t as int) == locate_from(sizes@, n as int, t as int, i as int),
        decreases n - i,
    {
        assert(t >= prefix_sum(sizes@, i as int));
        time_compare = time_compare + sizes[i as usize];
        if t < time_compare {
            return i as usize;
        }
        i = i + 1;
    }
    0
}

/// Tells whether the scan for position `t` over the first `n` take sizes
/// stays within the table and within `u32` (see `scan_safe`).
pub fn check_scan_safe(sizes: &Vec<u32>, n: u32, t: u32) -> (res: bool)
    ensures
        res == scan_safe(sizes@, n as int, t as int),
{
    let mut acc: u64 = 0;
    let mut i: u32 = 0;
    while i < n
        invariant
            i <= n,
            i <= sizes@.len(),
            acc == prefix_sum(sizes@, i as int),
            acc <= u32::MAX,
            t >= acc,
        decreases n - i,
    {
        if i as usize >= sizes.len() {
            assert(t >= prefix_sum(sizes@, i as int));
            return false;
        }
        acc = acc + sizes[i as usize] as u64;
        if acc > u32::MAX as u64 {
            assert(t >= prefix_sum(sizes@, i as int));
            return false;
        }
        if (t as u64) < acc {
            proof {
                assert forall|j: int|
                    0 <= j < n && t >= #[trigger] prefix_sum(sizes@, j) implies j < sizes@.len()
                        && prefix_sum(sizes@, j + 1) <= u32::MAX by {
                    if j > i {
                        lemma_prefix_monotone(sizes@, i as int + 1, j);
                    } else {
                        lemma_prefix_monotone(sizes@, j + 1, i as int + 1);
                    }
                }
            }
            return true;
        }
        i = i + 1;
    }
    proof {
        assert forall|j: int|
            0 <= j < n && t >= #[trigger] prefix_sum(sizes@, j) implies j < sizes@.len()
                && prefix_sum(sizes@, j + 1) <= u32::MAX by {
            lemma_prefix_monotone(sizes@, j + 1, n as int);
        }
    }
    true
}

/// Where a span given in seconds starts and stops: the take that holds the
/// start, the take that holds the stop, and both positions counted in
/// samples over all channels (seconds times sample rate times channels).
pub fn calc_limits_time(start_time: u32, stop_time: u32, log_data: &LogData) -> (res: (
    usize,
    usize,
    u32,
    u32,
))
    requires
        start_time * log_data.sample_rate <= u32::MAX,
        start_time * log_data.sample_rate * log_data.no_channels <= u32::MAX,
        stop_time * log_data.sample_rate <= u32::MAX,
        stop_time * log_data.sample_rate * log_data.no_channels <= u32::MAX,
        scan_safe(
            log_data.take_size@,
            log_data.no_takes as int,
            start_time * log_data.sample_rate * log_data.no_channels,
        ),
        scan_safe(
            log_data.take_size@,
            log_data.no_takes as int,
            stop_time * log_data.sample_rate * log_data.no_channels,
        ),
    ensures
        res.2 == start_time * log_data.sample_rate * log_data.no_channels,
        res.3 == stop_time * log_data.sample_rate * log_data.no_channels,
        res.0 == locate_take(log_data.take_size@, log_data.no_takes as int, res.2 as int),
        res.1 == locate_take(log_data.take_size@, log_data.no_takes as int, res.3 as int),
        res.2 < prefix_sum(log_data.take_size@, log_data.no_takes as int) ==> res.0 < log_data.no_takes
            && prefix_sum(log_data.take_size@, res.0 as int) <= res.2 < prefix_sum(log_data.take_size@, res.0 + 1),
        res.2 >= prefix_sum(log_data.take_size@, log_data.no_takes as int) ==> res.0 == 0,
        res.3 < prefix_sum(log_data.take_size@, log_data.no_takes as int) ==> res.1 < log_data.no_takes
            && prefix_sum(log_data.take_size@, res.1 as int) <= res.3 < prefix_sum(log_data.take_size@, res.1 + 1),
        res.3 >= prefix_sum(log_data.take_size@, log_data.no_takes as int) ==> res.1 == 0,
{
    proof {
        lemma_locate_take(
            log_data.take_size@,
            log_data.no_takes as int,
            start_time * log_data.sample_rate * log_data.no_channels,
        );
        lemma_locate_take(
            log_data.take_size@,
            log_data.no_takes as int,
            stop_time * log_data.sample_rate * log_data.no_channels,
        );
    }
    let s_time_x_ch: u32 = start_time * log_data.sample_rate * log_data.no_channels;
    let start_take: usize = find_take(&log_data.take_size, log_data.no_takes, s_time_x_ch);
    let e_time_x_ch: u32 = stop_time * log_data.sample_rate * log_data.no_channels;
    let end_take: usize = find_take(&log_data.take_size, log_data.no_takes, e_time_x_ch);
    (start_take, end_take, s_time_x_ch, e_time_x_ch)
}

/// Where a span between two markers starts and stops: the take that holds
/// each marker, and both positions counted in samples over all channels
/// (marker position times channels).
pub fn calc_limits_marker(start_marker: usize, stop_marker: usize, log_data: &LogData) -> (res: (
    usize,
    usize,
    u32,
    u32,
))
    requires
        start_marker < log_data.take_markers@.len(),
        stop_marker < log_data.take_markers@.len(),
        log_data.take_markers@[start_marker as int] * log_data.no_channels <= u32::MAX,
        log_data.take_markers@[stop_marker as int] * log_data.no_channels <= u32::MAX,
        scan_safe(
            log_data.take_size@,
            log_data.no_takes as int,
            log_data.take_markers@[start_marker as int] * log_data.no_channels,
        ),
        scan_safe(
            log_data.take_size@,
            log_data.no_takes as int,
            log_data.take_markers@[stop_marker as int] * log_data.no_channels,
        ),
    ensures
        res.2 == log_data.take_markers@[start_marker as int] * log_data.no_channels,
        res.3 == log_data.take_markers@[stop_marker as int] * log_data.no_channels,
        res.0 == locate_take(log_data.take_size@, log_data.no_takes as int, res.2 as int),
        res.1 == locate_take(log_data.take_size@, log_data.no_takes as int, res.3 as int),
        res.2 < prefix_sum(log_data.take_size@, log_data.no_takes as int) ==> res.0 < log_data.no_takes
            && prefix_sum(log_data.take_size@, res.0 as int) <= res.2 < prefix_sum(log_data.take_size@, res.0 + 1),
        res.2 >= prefix_sum(log_data.take_size@, log_data.no_takes as int) ==> res.0 == 0,
        res.3 < prefix_sum(log_data.take_size@, log_data.no_takes as int) ==> res.1 < log_data.no_takes
            && prefix_sum(log_data.take_size@, res.1 as int) <= res.3 < prefix_sum(log_data.take_size@, res.1 + 1),
        res.3 >= prefix_sum(log_data.take_size@, log_data.no_takes as int) ==> res.1 == 0,
{
    proof {
        lemma_locate_take(
            log_data.take_size@,
            log_data.no_takes as int,
            log_data.take_markers@[start_marker as int] * log_data.no_channels,
        );
        lemma_locate_take(
            log_data.take_size@,
            log_data.no_takes as int,
            log_data.take_markers@[stop_marker as int] * log_data.no_channels,
        );
    }
    let s_time_x_ch: u32 = log_data.take_markers[start_marker] * log_data.no_channels;
    let start_take: usize = find_take(&log_data.take_size, log_data.no_takes, s_time_x_ch);
    let e_time_x_ch: u32 = log_data.take_markers[stop_marker] * log_data.no_channels;
    let end_take: usize = find_take(&log_data.take_size, log_data.no_takes, e_time_x_ch);
    (start_take, end_take, s_time_x_ch, e_time_x_ch)
}

/// How far into take `i` reading starts: in the start take, the start
/// position in bytes (four per sample); in any other take nothing is skipped.
pub fn take_skip(i: usize, start_take: usize, s_time_x_ch: u32) -> (res: Option<i64>)
    requires
        i == start_take ==> s_time_x_ch * 4 <= u32::MAX,
    ensures
        res == (if i == start_take {
            Some((s_time_x_ch * 4) as i64)
        } else {
            None::<i64>
        }),
{
    if i == start_take {
        Some((s_time_x_ch * 4) as i64)
    } else {
        None
    }
}

/// How many samples of take `i` are read: in the start take, up to the stop
/// position (where it is also the stop take) or to its end, less the start
/// position; in the stop take, the stop position; in any other, the whole take.
pub fn calc_take_len(
    i: usize,
    start_take: usize,
    take_size: &[u32],
    end_take: usize,
    s_time_x_ch: u32,
    e_time_x_ch: u32,
) -> (res: u32)
    requires
        i == start_take && i == end_take ==> s_time_x_ch <= e_time_x_ch,
        i == start_take && i != end_take ==> i < take_size@.len() && s_time_x_ch <= take_size@[i as int],
        i != start_take && i != end_take ==> i < take_size@.len(),
    ensures
        res == take_length(
            i as int,
            start_take as int,
            take_size@,
            end_take as int,
            s_time_x_ch as int,
            e_time_x_ch as int,
        ),
        i == start_take && i == end_take ==> res == e_time_x_ch - s_time_x_ch,
        i == start_take && i != end_take ==> res == take_size@[i as int] - s_time_x_ch,
        i != start_take && i == end_take ==> res == e_time_x_ch,
        i != start_take && i != end_take ==> res == take_size@[i as int],
{
    proof {
        lemma_take_length_cases(
            i as int,
            start_take as int,
            take_size@,
            end_take as int,
            s_time_x_ch as int,
            e_time_x_ch as int,
        );
    }
    if i == start_take {
        if i == end_take {
            e_time_x_ch - s_time_x_ch
        } else {
            take_size[i] - s_time_x_ch
        }
    } else if i == end_take {
        e_time_x_ch
    } else {
        take_size[i]
    }
}

/// The larger of two numbers.
pub open spec fn max_int(a: int, b: int) -> int {
    if a >= b { a } else { b }
}

/// The smaller of two numbers.
pub open spec fn min_int(a: int, b: int) -> int {
    if a <= b { a } else { b }
}

/// The part of the span `[s, e)` (positions over the session, in samples
/// over all channels) that lies in takes `i` to `n - 1`: for each take that
/// the span meets, in order, the take, how many samples into the take the
/// part starts, and how many samples long it is.
pub open spec fn plan_from(sizes: Seq<u32>, n: int, s: int, e: int, i: int) -> Seq<(usize, u32, u32)>
    decreases n - i,
{
    if i >= n {
        Seq::empty()
    } else {
        let lo = max_int(s, prefix_sum(sizes, i));
        let hi = min_int(e, prefix_sum(sizes, i + 1));
        if lo < hi {
            seq![(i as usize, (lo - prefix_sum(sizes, i)) as u32, (hi - lo) as u32)] + plan_from(
                sizes,
                n,
                s,
                e,
                i + 1,
            )
        } else {
            plan_from(sizes, n, s, e, i + 1)
        }
    }
}

/// The takes that the span `[s, e)` meets among the first `n`, each with
/// the start and length of its part, relative to the take.
pub open spec fn span_plan_spec(sizes: Seq<u32>, n: int, s: int, e: int) -> Seq<(usize, u32, u32)> {
    plan_from(sizes, n, s, e, 0)
}

/// The number of samples a plan reads.
pub open spec fn plan_sum(plan: Seq<(usize, u32, u32)>) -> int
    decreases plan.len(),
{
    if plan.len() == 0 {
        0
    } else {
        plan[0].2 + plan_sum(plan.drop_first())
    }
}

/// Which takes a span `[s, e)` reads, and which part of each: for every take
/// among the first `no_takes` that the span meets, in order, the take, the
/// start of its part relative to the take, and the part's length.
pub fn span_plan(take_size: &Vec<u32>, no_takes: u32, s: u32, e: u32) -> (res: Vec<(usize, u32, u32)>)
    requires
        no_takes <= take_size@.len(),
    ensures
        res@ == span_plan_spec(take_size@, no_takes as int, s as int, e as int),
        forall|k: int, l: int| 0 <= k < l < res@.len() ==> (#[trigger] res@[k]).0 < (#[trigger] res@[l]).0,
        forall|k: int|
            0 <= k < res@.len() ==> {
                let p = #[trigger] res@[k];
                &&& 0 <= p.0 < no_takes
                &&& p.2 > 0
                &&& p.1 + p.2 <= take_size@[p.0 as int]
                &&& prefix_sum(take_size@, p.0 as int) + p.1 == max_int(s as int, prefix_sum(take_size@, p.0 as int))
                &&& prefix_sum(take_size@, p.0 as int) + p.1 + p.2 == min_int(
                    e as int,
                    prefix_sum(take_size@, p.0 + 1),
                )
            },
        forall|t: int|
            0 <= t < no_takes && #[trigger] span_meets_take(take_size@, s as int, e as int, t) ==> exists|
                k: int,
            |
                0 <= k < res@.len() && (#[trigger] res@[k]).0 == t,
{
    let mut plan: Vec<(usize, u32, u32)> = Vec::new();
    let mut start: u64 = 0;
    let mut i: u32 = 0;
    while i < no_takes
        invariant
            i <= no_takes,
            no_takes <= take_size@.len(),
            start == prefix_sum(take_size@, i as int),
            start <= i * 4294967295,
            plan@ + plan_from(take_size@, no_takes as int, s as int, e as int, i as int) == plan_from(
                take_size@,
                no_takes as int,
                s as int,
                e as int,
                0,
            ),
        decreases no_takes - i,
    {
        let size: u32 = take_size[i as usize];
        let end: u64 = start + size as u64;
        let lo: u64 = if (s as u64) > start {
            s as u64
        } else {
            start
        };
        let hi: u64 = if (e as u64) < end {
            e as u64
        } else {
            end
        };
        let ghost before = plan@;
        let ghost rest = plan_from(take_size@, no_takes as int, s as int, e as int, i + 1);
        if lo < hi {
            let entry: (usize, u32, u32) = (i as usize, (lo - start) as u32, (hi - lo) as u32);
            plan.push(entry);
            proof {
                assert(before + (seq![entry] + rest) =~= plan@ + rest);
            }
        }
        start = end;
        i = i + 1;
    }
    proof {
        assert(plan@ =~= plan@ + plan_from(take_size@, no_takes as int, s as int, e as int, i as int));
        lemma_plan_order(take_size@, no_takes as int, s as int, e as int);
        lemma_plan_parts_in_takes(take_size@, no_takes as int, s as int, e as int);
    }
    plan
}

/// The number of samples that `plan` reads, over all its takes.
pub fn plan_total(plan: &Vec<(usize, u32, u32)>) -> (res: u128)
    ensures
        res == plan_sum(plan@),
{
    let mut acc: u128 = 0;
    proof {
        assert(plan@.skip(0) =~= plan@);
    }
    let mut k: usize = 0;
    while k < plan.len()
        invariant
            k <= plan@.len(),
            acc <= k * 4294967295,
            acc + plan_sum(plan@.skip(k as int)) == plan_sum(plan@),
        decreases plan@.len() - k,
    {
        proof {
            assert(plan@.skip(k as int).drop_first() =~= plan@.skip(k + 1));
        }
        acc = acc + plan[k].2 as u128;
        k = k + 1;
    }
    proof {
        assert(plan@.skip(k as int) =~= Seq::<(usize, u32, u32)>::empty());
    }
    acc
}

proof fn lemma_plan_from_sum(sizes: Seq<u32>, n: int, s: int, e: int, i: int)
    requires
        0 <= i <= n,
    ensures
        plan_sum(plan_from(sizes, n, s, e, i)) == max_int(
            0,
            min_int(e, prefix_sum(sizes, n)) - max_int(s, prefix_sum(sizes, i)),
        ),
    decreases n - i,
{
    if i < n {
        lemma_plan_from_sum(sizes, n, s, e, i + 1);
        lemma_prefix_monotone(sizes, i, i + 1);
        lemma_prefix_monotone(sizes, i + 1, n);
        let lo = max_int(s, prefix_sum(sizes, i));
        let hi = min_int(e, prefix_sum(sizes, i + 1));
        if lo < hi {
            let entry = (i as usize, (lo - prefix_sum(sizes, i)) as u32, (hi - lo) as u32);
            let rest = plan_from(sizes, n, s, e, i + 1);
            assert((seq![entry] + rest).drop_first() =~= rest);
            assert(hi - lo <= sizes[i]);
        }
    }
}

/// The parts of a plan add up to the span: for a span `[s, e)` within the
/// first `n` takes, the lengths read add up to `e - s`; in general, to the
/// length of the span cut to the takes, or 0.
pub proof fn lemma_plan_covers_span(sizes: Seq<u32>, n: int, s: int, e: int)
    requires
        0 <= n,
        0 <= s,
    ensures
        plan_sum(span_plan_spec(sizes, n, s, e)) == max_int(0, min_int(e, prefix_sum(sizes, n)) - min_int(s, prefix_sum(sizes, n))),
        s <= e <= prefix_sum(sizes, n) ==> plan_sum(span_plan_spec(sizes, n, s, e)) == e - s,
{
    lemma_plan_from_sum(sizes, n, s, e, 0);
    assert(prefix_sum(sizes, 0) == 0);
}

proof fn lemma_plan_from_parts(sizes: Seq<u32>, n: int, s: int, e: int, i: int)
    requires
        0 <= i <= n,
        n <= sizes.len(),
        n <= u32::MAX,
    ensures
        forall|k: int|
            0 <= k < plan_from(sizes, n, s, e, i).len() ==> {
                let p = #[trigger] plan_from(sizes, n, s, e, i)[k];
                &&& i <= p.0 < n
                &&& p.2 > 0
                &&& p.1 + p.2 <= sizes[p.0 as int]
                &&& prefix_sum(sizes, p.0 as int) + p.1 == max_int(s, prefix_sum(sizes, p.0 as int))
                &&& prefix_sum(sizes, p.0 as int) + p.1 + p.2 == min_int(e, prefix_sum(sizes, p.0 + 1))
            },
    decreases n - i,
{
    if i < n {
        lemma_plan_from_parts(sizes, n, s, e, i + 1);
        let lo = max_int(s, prefix_sum(sizes, i));
        let hi = min_int(e, prefix_sum(sizes, i + 1));
        let rest = plan_from(sizes, n, s, e, i + 1);
        lemma_prefix_monotone(sizes, i + 1, n);
        if lo < hi {
            let entry = (i as usize, (lo - prefix_sum(sizes, i)) as u32, (hi - lo) as u32);
            assert(0 <= lo - prefix_sum(sizes, i) < sizes[i]);
            assert(0 < hi - lo <= sizes[i]);
            assert(entry.0 as int == i);
            assert(entry.1 == lo - prefix_sum(sizes, i));
            assert(entry.2 == hi - lo);
            let all = plan_from(sizes, n, s, e, i);
            assert(all == seq![entry] + rest);
            assert forall|k: int| 0 <= k < all.len() implies {
                let p = #[trigger] all[k];
                &&& i <= p.0 < n
                &&& p.2 > 0
                &&& p.1 + p.2 <= sizes[p.0 as int]
                &&& prefix_sum(sizes, p.0 as int) + p.1 == max_int(s, prefix_sum(sizes, p.0 as int))
                &&& prefix_sum(sizes, p.0 as int) + p.1 + p.2 == min_int(e, prefix_sum(sizes, p.0 + 1))
            } by {
                if k > 0 {
                    assert(all[k] == rest[k - 1]);
                } else {
                    assert(all[0] == entry);
                }
            }
        }
    }
}

/// Every part of a plan lies inside its take and is not empty, the takes
/// come from the first `n`, and each part starts where the span starts or at
/// the start of its take, whichever is later, and ends where the span ends or
/// at the end of its take, whichever is earlier.
pub proof fn lemma_plan_parts_in_takes(sizes: Seq<u32>, n: int, s: int, e: int)
    requires
        0 <= n <= sizes.len(),
        n <= u32::MAX,
    ensures
        forall|k: int|
            0 <= k < span_plan_spec(sizes, n, s, e).len() ==> {
                let p = #[trigger] span_plan_spec(sizes, n, s, e)[k];
                &&& 0 <= p.0 < n
                &&& p.2 > 0
                &&& p.1 + p.2 <= sizes[p.0 as int]
                &&& prefix_sum(sizes, p.0 as int) + p.1 == max_int(s, prefix_sum(sizes, p.0 as int))
                &&& prefix_sum(sizes, p.0 as int) + p.1 + p.2 == min_int(e, prefix_sum(sizes, p.0 + 1))
            },
{
    lemma_plan_from_parts(sizes, n, s, e, 0);
}

/// Whether the span `[s, e)` meets take `t`: it starts before the take ends
/// and stops after the take starts, with something of the take in between.
pub open spec fn span_meets_take(sizes: Seq<u32>, s: int, e: int, t: int) -> bool {
    max_int(s, prefix_sum(sizes, t)) < min_int(e, prefix_sum(sizes, t + 1))
}

proof fn lemma_plan_from_order(sizes: Seq<u32>, n: int, s: int, e: int, i: int)
    requires
        0 <= i <= n,
        n <= u32::MAX,
    ensures
        forall|k: int, l: int|
            0 <= k < l < plan_from(sizes, n, s, e, i).len() ==> (#[trigger] plan_from(sizes, n, s, e, i)[k]).0
                < (#[trigger] plan_from(sizes, n, s, e, i)[l]).0,
        forall|k: int|
            0 <= k < plan_from(sizes, n, s, e, i).len() ==> i <= (#[trigger] plan_from(sizes, n, s, e, i)[k]).0
                < n && span_meets_take(sizes, s, e, plan_from(sizes, n, s, e, i)[k].0 as int),
        forall|t: int|
            i <= t < n && #[trigger] span_meets_take(sizes, s, e, t) ==> exists|k: int|
                0 <= k < plan_from(sizes, n, s, e, i).len() && (#[trigger] plan_from(sizes, n, s, e, i)[k]).0
                    == t,
    decreases n - i,
{
    if i < n {
        lemma_plan_from_order(sizes, n, s, e, i + 1);
        let plan = plan_from(sizes, n, s, e, i);
        let rest = plan_from(sizes, n, s, e, i + 1);
        let lo = max_int(s, prefix_sum(sizes, i));
        let hi = min_int(e, prefix_sum(sizes, i + 1));
        if lo < hi {
            let entry = (i as usize, (lo - prefix_sum(sizes, i)) as u32, (hi - lo) as u32);
            assert(entry.0 as int == i);
            assert(plan == seq![entry] + rest);
            assert(plan[0] == entry);
            assert forall|k: int| 0 < k < plan.len() implies #[trigger] plan[k] == rest[k - 1] by {}
            assert forall|k: int, l: int| 0 <= k < l < plan.len() implies (#[trigger] plan[k]).0 < (
            #[trigger] plan[l]).0 by {
                assert(plan[l] == rest[l - 1]);
                if k > 0 {
                    assert(plan[k] == rest[k - 1]);
                }
            }
            assert forall|k: int| 0 <= k < plan.len() implies i <= (#[trigger] plan[k]).0 < n
                && span_meets_take(sizes, s, e, plan[k].0 as int) by {
                if k > 0 {
                    assert(plan[k] == rest[k - 1]);
                }
            }
            assert forall|t: int| i <= t < n && #[trigger] span_meets_take(sizes, s, e, t) implies exists|
                k: int,
            |
                0 <= k < plan.len() && (#[trigger] plan[k]).0 == t by {
                if t == i {
                    assert(plan[0].0 == t);
                } else {
                    let k2 = choose|k2: int| 0 <= k2 < rest.len() && (#[trigger] rest[k2]).0 == t;
                    assert(plan[k2 + 1] == rest[k2]);
                    assert(plan[k2 + 1].0 == t);
                }
            }
        } else {
            assert(plan == rest);
            assert(!span_meets_take(sizes, s, e, i));
        }
    }
}

/// A plan reads the takes in order, each at most once, and exactly those
/// that the span meets: for `k < l` the part `k` comes from an earlier take
/// than the part `l`, every part comes from a take among the first `n` that
/// the span meets, and every such take has a part. This holds for every
/// span, also one that stops past the end of the session.
pub proof fn lemma_plan_order(sizes: Seq<u32>, n: int, s: int, e: int)
    requires
        0 <= n <= u32::MAX,
    ensures
        forall|k: int, l: int|
            0 <= k < l < span_plan_spec(sizes, n, s, e).len() ==> (#[trigger] span_plan_spec(
                sizes,
                n,
                s,
                e,
            )[k]).0 < (#[trigger] span_plan_spec(sizes, n, s, e)[l]).0,
        forall|k: int|
            0 <= k < span_plan_spec(sizes, n, s, e).len() ==> 0 <= (#[trigger] span_plan_spec(
                sizes,
                n,
                s,
                e,
            )[k]).0 < n && span_meets_take(sizes, s, e, span_plan_spec(sizes, n, s, e)[k].0 as int),
        forall|t: int|
            0 <= t < n && #[trigger] span_meets_take(sizes, s, e, t) ==> exists|k: int|
                0 <= k < span_plan_spec(sizes, n, s, e).len() && (#[trigger] span_plan_spec(
                    sizes,
                    n,
                    s,
                    e,
                )[k]).0 == t,
{
    lemma_plan_from_order(sizes, n, s, e, 0);
}

} // verus!
