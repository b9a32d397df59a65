//! Reading a span from the take files: where in its take file each part of
//! a plan lies, how many samples per channel a span holds, and the proof that
//! the parts read from the take files give each channel exactly the samples
//! of the span.

use vstd::prelude::*;
use crate::limits::{
    lemma_plan_covers_span, lemma_plan_parts_in_takes, lemma_prefix_monotone, max_int, min_int,
    plan_from, plan_sum, prefix_sum, span_plan_spec,
};
use crate::wave::{
    channel_samples, lemma_channel_samples_concat, lemma_frames_fit_aligned, lemma_sub_aligned,
};

verus! {

/// Byte offset of the audio in a take file: the words follow a 32 KiB header.
pub const TAKE_AUDIO_START: u64 = 32768;

/// Byte offset, in its take file, of a part that starts `skip` samples into the take.
pub open spec fn part_offset(skip: int) -> int {
    TAKE_AUDIO_START + 4 * skip
}

/// The bytes of a take file that a part reads: `len` words from `skip` on.
pub open spec fn part_bytes(take: Seq<u8>, skip: int, len: int) -> Seq<u8> {
    take.subrange(part_offset(skip), part_offset(skip) + 4 * len)
}

/// The audio of a take of `size` samples: its words after the header.
pub open spec fn take_audio(take: Seq<u8>, size: int) -> Seq<u8> {
    take.subrange(TAKE_AUDIO_START as int, TAKE_AUDIO_START + 4 * size)
}

/// The audio of takes `i` to `n - 1`, one after the other.
pub open spec fn audio_from(takes: Seq<Seq<u8>>, sizes: Seq<u32>, n: int, i: int) -> Seq<u8>
    decreases n - i,
{
    if i >= n {
        Seq::empty()
    } else {
        take_audio(takes[i], sizes[i] as int) + audio_from(takes, sizes, n, i + 1)
    }
}

/// The audio of the session: the audio of its first `n` takes, one after the other.
pub open spec fn session_audio(takes: Seq<Seq<u8>>, sizes: Seq<u32>, n: int) -> Seq<u8> {
    audio_from(takes, sizes, n, 0)
}

/// Each of the first `n` take files holds the audio that the take size table announces.
pub open spec fn takes_hold_audio(takes: Seq<Seq<u8>>, sizes: Seq<u32>, n: int) -> bool {
    &&& n <= takes.len()
    &&& n <= sizes.len()
    &&& forall|i: int| 0 <= i < n ==> TAKE_AUDIO_START + 4 * sizes[i] <= #[trigger] takes[i].len()
}

/// The bytes that a plan reads from the take files, part after part.
pub open spec fn plan_bytes(takes: Seq<Seq<u8>>, plan: Seq<(usize, u32, u32)>) -> Seq<u8>
    decreases plan.len(),
{
    if plan.len() == 0 {
        Seq::empty()
    } else {
        part_bytes(takes[plan[0].0 as int], plan[0].1 as int, plan[0].2 as int) + plan_bytes(
            takes,
            plan.drop_first(),
        )
    }
}

/// What channel `channel` gets when each part of a plan is read from its
/// take file and de-interleaved, part after part.
pub open spec fn plan_channel_samples(
    takes: Seq<Seq<u8>>,
    plan: Seq<(usize, u32, u32)>,
    no_channels: int,
    channel: int,
) -> Seq<u8>
    decreases plan.len(),
{
    if plan.len() == 0 {
        Seq::empty()
    } else {
        channel_samples(
            part_bytes(takes[plan[0].0 as int], plan[0].1 as int, plan[0].2 as int),
            no_channels,
            channel,
        ) + plan_channel_samples(takes, plan.drop_first(), no_channels, channel)
    }
}

/// Where a part of a plan is read: its byte offset in the take file, and its
/// length in samples.
pub fn part_location(part: (usize, u32, u32)) -> (res: (u64, u32))
    ensures
        res.0 == part_offset(part.1 as int),
        res.1 == part.2,
{
    (TAKE_AUDIO_START + 4 * (part.1 as u64), part.2)
}

/// The number of samples per channel that a plan reads, which every WAV
/// header of the span declares; None where it does not fit in `u32`.
pub fn span_samples_per_channel(plan: &Vec<(usize, u32, u32)>, no_channels: u32) -> (res: Option<u32>)
    requires
        no_channels >= 1,
    ensures
        res == (if plan_sum(plan@) / (no_channels as int) <= u32::MAX {
            Some((plan_sum(plan@) / (no_channels as int)) as u32)
        } else {
            None::<u32>
        }),
{
    let total: u128 = crate::limits::plan_total(plan);
    let per_channel: u128 = total / (no_channels as u128);
    if per_channel <= u32::MAX as u128 {
        Some(per_channel as u32)
    } else {
        None
    }
}

/// A span within the session holds `(e - s) / no_channels` samples per channel.
pub proof fn lemma_span_samples(sizes: Seq<u32>, n: int, s: int, e: int, no_channels: int)
    requires
        0 <= n,
        0 <= s <= e <= prefix_sum(sizes, n),
        no_channels >= 1,
    ensures
        plan_sum(span_plan_spec(sizes, n, s, e)) / no_channels == (e - s) / no_channels,
{
    lemma_plan_covers_span(sizes, n, s, e);
}

proof fn lemma_audio_from_len(takes: Seq<Seq<u8>>, sizes: Seq<u32>, n: int, i: int)
    requires
        0 <= i <= n,
        takes_hold_audio(takes, sizes, n),
    ensures
        audio_from(takes, sizes, n, i).len() == 4 * (prefix_sum(sizes, n) - prefix_sum(sizes, i)),
    decreases n - i,
{
    if i < n {
        lemma_audio_from_len(takes, sizes, n, i + 1);
        assert(TAKE_AUDIO_START + 4 * sizes[i] <= takes[i].len());
    }
}

#[verifier::spinoff_prover]
#[verifier::rlimit(50)]
proof fn lemma_plan_bytes_from(takes: Seq<Seq<u8>>, sizes: Seq<u32>, n: int, s: int, e: int, i: int)
    requires
        0 <= i <= n,
        n <= u32::MAX,
        takes_hold_audio(takes, sizes, n),
        0 <= s <= e <= prefix_sum(sizes, n),
    ensures
        plan_bytes(takes, plan_from(sizes, n, s, e, i)) == audio_from(takes, sizes, n, i).subrange(
            4 * (max_int(s, prefix_sum(sizes, i)) - prefix_sum(sizes, i)),
            4 * (max_int(max_int(s, prefix_sum(sizes, i)), e) - prefix_sum(sizes, i)),
        ),
    decreases n - i,
{
    let pi = prefix_sum(sizes, i);
    let a = audio_from(takes, sizes, n, i);
    lemma_audio_from_len(takes, sizes, n, i);
    lemma_prefix_monotone(sizes, i, n);
    if i == n {
        assert(a.subrange(0, 0) =~= Seq::<u8>::empty());
    } else {
        let pj = prefix_sum(sizes, i + 1);
        lemma_prefix_monotone(sizes, i + 1, n);
        lemma_plan_bytes_from(takes, sizes, n, s, e, i + 1);
        lemma_audio_from_len(takes, sizes, n, i + 1);
        let t = take_audio(takes[i], sizes[i] as int);
        let r = audio_from(takes, sizes, n, i + 1);
        assert(TAKE_AUDIO_START + 4 * sizes[i] <= takes[i].len());
        assert(t.len() == 4 * sizes[i]);
        assert(a == t + r);
        let lo = max_int(s, pi);
        let hi = min_int(e, pj);
        let lo2 = max_int(s, pj);
        let rest = plan_from(sizes, n, s, e, i + 1);
        let rest_bytes = plan_bytes(takes, rest);
        assert(rest_bytes == r.subrange(4 * (lo2 - pj), 4 * (max_int(lo2, e) - pj)));
        if lo < hi {
            let entry = (i as usize, (lo - pi) as u32, (hi - lo) as u32);
            assert(entry.0 as int == i);
            assert(entry.1 == lo - pi);
            assert(entry.2 == hi - lo);
            let plan = plan_from(sizes, n, s, e, i);
            assert(plan == seq![entry] + rest);
            assert(plan.drop_first() =~= rest);
            assert(plan[0] == entry);
            let part = part_bytes(takes[i], lo - pi, hi - lo);
            assert(part =~= t.subrange(4 * (lo - pi), 4 * (hi - pi)));
            assert(plan_bytes(takes, plan) == part + rest_bytes);
            if e <= pj {
                assert(rest_bytes =~= Seq::<u8>::empty());
                assert(part + rest_bytes =~= a.subrange(4 * (lo - pi), 4 * (e - pi)));
            } else {
                assert(lo2 == pj);
                assert(part + rest_bytes =~= a.subrange(4 * (lo - pi), 4 * (e - pi)));
            }
        } else {
            assert(plan_from(sizes, n, s, e, i) == rest);
            if lo >= e {
                assert(rest_bytes =~= Seq::<u8>::empty());
                assert(a.subrange(4 * (lo - pi), 4 * (lo - pi)) =~= Seq::<u8>::empty());
            } else {
                assert(lo2 == lo);
                assert(rest_bytes =~= a.subrange(4 * (lo - pi), 4 * (e - pi)));
            }
        }
    }
}

/// A plan reads exactly the span: the bytes of its parts, read from the take
/// files at `part_offset` for four bytes per sample of the part's length,
/// are, one after the other, the session's audio words from `s` to `e`.
pub proof fn lemma_plan_reads_span(takes: Seq<Seq<u8>>, sizes: Seq<u32>, n: int, s: int, e: int)
    requires
        0 <= n <= u32::MAX,
        takes_hold_audio(takes, sizes, n),
        0 <= s <= e <= prefix_sum(sizes, n),
    ensures
        plan_bytes(takes, span_plan_spec(sizes, n, s, e)) == session_audio(takes, sizes, n).subrange(
            4 * s,
            4 * e,
        ),
{
    lemma_plan_bytes_from(takes, sizes, n, s, e, 0);
    assert(prefix_sum(sizes, 0) == 0);
}

/// The sum of two multiples of `step` is a multiple of `step`.
proof fn lemma_add_aligned(a: int, b: int, step: int)
    requires
        step > 0,
        a % step == 0,
        b % step == 0,
    ensures
        (a + b) % step == 0,
{
    vstd::arithmetic::div_mod::lemma_fundamental_div_mod(a, step);
    vstd::arithmetic::div_mod::lemma_fundamental_div_mod(b, step);
    assert(a + b == (a / step + b / step) * step) by (nonlinear_arith)
        requires
            a == step * (a / step) + a % step,
            b == step * (b / step) + b % step,
            a % step == 0,
            b % step == 0,
    ;
    vstd::arithmetic::div_mod::lemma_mod_multiples_basic(a / step + b / step, step);
}

/// Four times a multiple of `m` is a multiple of `4 * m`.
proof fn lemma_times_four_aligned(x: int, m: int)
    requires
        m > 0,
        x % m == 0,
    ensures
        (4 * x) % (4 * m) == 0,
{
    vstd::arithmetic::div_mod::lemma_fundamental_div_mod(x, m);
    assert(4 * x == (x / m) * (4 * m)) by (nonlinear_arith)
        requires
            x == m * (x / m) + x % m,
            x % m == 0,
    ;
    vstd::arithmetic::div_mod::lemma_mod_multiples_basic(x / m, 4 * m);
}

proof fn lemma_prefix_aligned(sizes: Seq<u32>, n: int, m: int, j: int)
    requires
        m > 0,
        0 <= j <= n,
        forall|i: int| 0 <= i < n ==> (#[trigger] sizes[i] as int) % m == 0,
    ensures
        prefix_sum(sizes, j) % m == 0,
    decreases j,
{
    if j > 0 {
        lemma_prefix_aligned(sizes, n, m, j - 1);
        assert((sizes[j - 1] as int) % m == 0);
        lemma_add_aligned(prefix_sum(sizes, j - 1), sizes[j - 1] as int, m);
    } else {
        assert(prefix_sum(sizes, 0) == 0);
    }
}

/// Reading a plan part by part and de-interleaving each part gives a channel
/// the samples of all the parts' bytes, where every part holds whole frames.
pub proof fn lemma_plan_channel_samples(
    takes: Seq<Seq<u8>>,
    plan: Seq<(usize, u32, u32)>,
    no_channels: int,
    channel: int,
)
    requires
        0 <= channel < no_channels,
        forall|k: int|
            0 <= k < plan.len() ==> {
                let p = #[trigger] plan[k];
                &&& p.0 < takes.len()
                &&& part_offset(p.1 as int) + 4 * p.2 <= takes[p.0 as int].len()
                &&& (p.2 as int) % no_channels == 0
            },
    ensures
        plan_channel_samples(takes, plan, no_channels, channel) == channel_samples(
            plan_bytes(takes, plan),
            no_channels,
            channel,
        ),
        (plan_bytes(takes, plan).len() as int) % (4 * no_channels) == 0,
    decreases plan.len(),
{
    if plan.len() == 0 {
        assert(channel_samples(Seq::<u8>::empty(), no_channels, channel) =~= Seq::<u8>::empty());
    } else {
        let p = plan[0];
        let rest = plan.drop_first();
        assert forall|k: int| 0 <= k < rest.len() implies {
            let q = #[trigger] rest[k];
            &&& q.0 < takes.len()
            &&& part_offset(q.1 as int) + 4 * q.2 <= takes[q.0 as int].len()
            &&& (q.2 as int) % no_channels == 0
        } by {
            assert(rest[k] == plan[k + 1]);
        }
        lemma_plan_channel_samples(takes, rest, no_channels, channel);
        let part = part_bytes(takes[p.0 as int], p.1 as int, p.2 as int);
        let rest_bytes = plan_bytes(takes, rest);
        assert(part.len() == 4 * p.2);
        lemma_times_four_aligned(p.2 as int, no_channels);
        lemma_frames_fit_aligned(part.len() as int, no_channels, channel);
        lemma_frames_fit_aligned(rest_bytes.len() as int, no_channels, channel);
        lemma_channel_samples_concat(part, rest_bytes, no_channels, channel);
        lemma_add_aligned(part.len() as int, rest_bytes.len() as int, 4 * no_channels);
    }
}

/// Extracting a span gives each channel exactly its samples of the span:
/// for a span `[s, e)` of whole frames within the session, of takes of whole
/// frames, reading each part of the plan from its take file (at
/// `part_offset` of its skip, for its length) and de-interleaving it gives
/// channel `channel`, part after part, the samples that de-interleaving the
/// session's audio words from `s` to `e` gives it.
pub proof fn lemma_span_channel_samples(
    takes: Seq<Seq<u8>>,
    sizes: Seq<u32>,
    n: int,
    s: int,
    e: int,
    no_channels: int,
    channel: int,
)
    requires
        0 <= channel < no_channels,
        0 <= n <= u32::MAX,
        takes_hold_audio(takes, sizes, n),
        0 <= s <= e <= prefix_sum(sizes, n),
        s % no_channels == 0,
        e % no_channels == 0,
        forall|i: int| 0 <= i < n ==> (#[trigger] sizes[i] as int) % no_channels == 0,
    ensures
        plan_channel_samples(takes, span_plan_spec(sizes, n, s, e), no_channels, channel)
            == channel_samples(
            session_audio(takes, sizes, n).subrange(4 * s, 4 * e),
            no_channels,
            channel,
        ),
{
    let plan = span_plan_spec(sizes, n, s, e);
    lemma_plan_parts_in_takes(sizes, n, s, e);
    assert forall|k: int| 0 <= k < plan.len() implies {
        let p = #[trigger] plan[k];
        &&& p.0 < takes.len()
        &&& part_offset(p.1 as int) + 4 * p.2 <= takes[p.0 as int].len()
        &&& (p.2 as int) % no_channels == 0
    } by {
        let p = plan[k];
        let t = p.0 as int;
        assert(TAKE_AUDIO_START + 4 * sizes[t] <= takes[t].len());
        lemma_prefix_aligned(sizes, n, no_channels, t);
        lemma_prefix_aligned(sizes, n, no_channels, t + 1);
        let lo = max_int(s, prefix_sum(sizes, t));
        let hi = min_int(e, prefix_sum(sizes, t + 1));
        assert(lo % no_channels == 0);
        assert(hi % no_channels == 0);
        assert(p.2 == hi - lo);
        lemma_sub_aligned(hi, lo, no_channels);
    }
    lemma_plan_channel_samples(takes, plan, no_channels, channel);
    lemma_plan_reads_span(takes, sizes, n, s, e);
}

} // verus!
