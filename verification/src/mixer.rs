//! The reduction of the tracks to one master buffer: for every sample
//! index the volume-weighted contributions of all tracks, added up in
//! track order.

use vstd::prelude::*;
use crate::binary32::{
    is_nan, lemma_product_by_one, lemma_sum_with_silence, product, sum, ONE, SIGN,
};
use crate::sample::{sample_at, Track};

verus! {

/// The factor for track `t`: its entry in the list, or 1.0 where the
/// list is too short.
pub open spec fn factor_at(factors: Seq<u32>, t: int) -> u32 {
    if 0 <= t < factors.len() {
        factors[t]
    } else {
        ONE
    }
}

/// What track `t` contributes to master sample `i`.
pub open spec fn contribution(tracks: Seq<Track>, factors: Seq<u32>, i: int, t: int) -> u32 {
    product(sample_at(tracks[t]@, i), factor_at(factors, t))
}

/// Master sample `i` after the first `k` tracks: starting from silence,
/// each track's contribution added in ascending track order.
pub open spec fn mix_prefix(tracks: Seq<Track>, factors: Seq<u32>, i: int, k: nat) -> u32
    decreases k,
{
    if k == 0 {
        0
    } else {
        sum(
            mix_prefix(tracks, factors, i, (k - 1) as nat),
            contribution(tracks, factors, i, k - 1),
        )
    }
}

/// Master sample `i`.
pub open spec fn mixed(tracks: Seq<Track>, factors: Seq<u32>, i: int) -> u32 {
    mix_prefix(tracks, factors, i, tracks.len())
}

/// The length of the longest of the first `k` tracks.
pub open spec fn longest(tracks: Seq<Track>, k: nat) -> nat
    decreases k,
{
    if k == 0 {
        0
    } else {
        let before = longest(tracks, (k - 1) as nat);
        let len = tracks[k - 1]@.len();
        if len > before {
            len
        } else {
            before
        }
    }
}

/// The length of the master buffer: that of the longest track, and zero
/// without tracks.
pub open spec fn master_len(tracks: Seq<Track>) -> nat {
    longest(tracks, tracks.len())
}

/// The length of the longest track.
pub fn max_len(tracks: &Vec<Track>) -> (n: usize)
    ensures
        n == master_len(tracks@),
{
    let mut n: usize = 0;
    let mut t: usize = 0;
    while t < tracks.len()
        invariant
            t <= tracks.len(),
            n == longest(tracks@, t as nat),
        decreases tracks.len() - t,
    {
        let len = tracks[t].len();
        if len > n {
            n = len;
        }
        t = t + 1;
    }
    n
}

/// One master sample: the contributions of all tracks at index `i`.
pub fn mix_sample(tracks: &Vec<Track>, factors: &Vec<u32>, i: usize) -> (s: u32)
    ensures
        s == mixed(tracks@, factors@, i as int),
{
    let mut acc: u32 = 0;
    let mut t: usize = 0;
    while t < tracks.len()
        invariant
            t <= tracks.len(),
            acc == mix_prefix(tracks@, factors@, i as int, t as nat),
        decreases tracks.len() - t,
    {
        let factor: u32 = if t < factors.len() {
            factors[t]
        } else {
            ONE
        };
        let part = crate::binary32::mul(tracks[t].sample(i), factor);
        acc = crate::binary32::add(acc, part);
        t = t + 1;
    }
    acc
}

/// The master samples from index `from` up to `to`.
pub open spec fn mixed_range(tracks: Seq<Track>, factors: Seq<u32>, from: int, to: int) -> Seq<
    u32,
> {
    Seq::new((to - from) as nat, |j: int| mixed(tracks, factors, from + j))
}

/// The master buffer: every sample up to the length of the longest
/// track.
pub open spec fn master(tracks: Seq<Track>, factors: Seq<u32>) -> Seq<u32> {
    mixed_range(tracks, factors, 0, master_len(tracks) as int)
}

/// Mixes the master samples from index `from` up to `to`. Each sample
/// depends on its index alone, so the master buffer can be mixed in
/// ranges, in any order.
pub fn reduce_range(tracks: &Vec<Track>, factors: &Vec<u32>, from: usize, to: usize) -> (part:
    Vec<u32>)
    requires
        from <= to,
    ensures
        part@ == mixed_range(tracks@, factors@, from as int, to as int),
{
    let mut part: Vec<u32> = Vec::new();
    let mut i: usize = from;
    while i < to
        invariant
            from <= i <= to,
            part.len() == i - from,
            forall|j: int| 0 <= j < i - from ==> part@[j] == mixed(tracks@, factors@, from + j),
        decreases to - i,
    {
        part.push(mix_sample(tracks, factors, i));
        i = i + 1;
    }
    assert(part@ =~= mixed_range(tracks@, factors@, from as int, to as int));
    part
}

/// Mixes the tracks into one master buffer as long as the longest track.
/// A shorter track is silent past its end, and a track without a factor
/// plays at 1.0.
pub fn reduce(tracks: &Vec<Track>, factors: &Vec<u32>) -> (master_buffer: Vec<u32>)
    ensures
        master_buffer@ == master(tracks@, factors@),
        master_buffer.len() == master_len(tracks@),
{
    reduce_range(tracks, factors, 0, max_len(tracks))
}

/// However the index range is cut in two, the parts joined are the
/// whole.
pub proof fn lemma_partition_independent(
    tracks: Seq<Track>,
    factors: Seq<u32>,
    from: int,
    mid: int,
    to: int,
)
    requires
        from <= mid <= to,
    ensures
        mixed_range(tracks, factors, from, mid) + mixed_range(tracks, factors, mid, to)
            == mixed_range(tracks, factors, from, to),
{
    assert(mixed_range(tracks, factors, from, mid) + mixed_range(tracks, factors, mid, to)
        =~= mixed_range(tracks, factors, from, to));
}

/// The longest of the first `k` tracks is at least as long as each of
/// them, and as long as one of them.
proof fn lemma_longest(tracks: Seq<Track>, k: nat)
    requires
        k <= tracks.len(),
    ensures
        forall|t: int| 0 <= t < k ==> (#[trigger] tracks[t])@.len() <= longest(tracks, k),
        k > 0 ==> exists|t: int| 0 <= t < k && (#[trigger] tracks[t])@.len() == longest(tracks, k),
        k == 0 ==> longest(tracks, k) == 0,
    decreases k,
{
    if k > 0 {
        lemma_longest(tracks, (k - 1) as nat);
        let before = longest(tracks, (k - 1) as nat);
        let len = tracks[k - 1]@.len();
        if len > before || k == 1 {
            assert(tracks[k - 1]@.len() == longest(tracks, k));
        } else {
            let t = choose|t: int| 0 <= t < k - 1 && (#[trigger] tracks[t])@.len() == before;
            assert(tracks[t]@.len() == longest(tracks, k));
        }
    }
}

/// The master buffer is as long as the longest track: no track is
/// longer, one track is exactly as long, and without tracks it is empty.
pub proof fn lemma_master_len_is_max(tracks: Seq<Track>)
    ensures
        forall|t: int|
            0 <= t < tracks.len() ==> (#[trigger] tracks[t])@.len() <= master_len(tracks),
        tracks.len() > 0 ==> exists|t: int|
            0 <= t < tracks.len() && (#[trigger] tracks[t])@.len() == master_len(tracks),
        tracks.len() == 0 ==> master_len(tracks) == 0,
{
    lemma_longest(tracks, tracks.len());
}

/// A track that has ended contributes what silence contributes, and one
/// that plays at 1.0 contributes its sample unchanged.
pub proof fn lemma_contribution_cases(tracks: Seq<Track>, factors: Seq<u32>, i: int, t: int)
    requires
        0 <= t < tracks.len(),
        0 <= i,
    ensures
        i >= tracks[t]@.len() ==> contribution(tracks, factors, i, t) == product(
            0,
            factor_at(factors, t),
        ),
        i < tracks[t]@.len() && factor_at(factors, t) == ONE && !is_nan(tracks[t]@[i])
            ==> contribution(tracks, factors, i, t) == tracks[t]@[i],
{
    if i < tracks[t]@.len() && !is_nan(tracks[t]@[i]) {
        lemma_product_by_one(tracks[t]@[i]);
    }
}

/// A single track at 1.0 is mixed to itself: every sample that is a
/// number, and not the negative zero that silence turns positive, comes
/// out as it went in.
pub proof fn lemma_single_track_is_unchanged(tracks: Seq<Track>, factors: Seq<u32>, i: int)
    requires
        tracks.len() == 1,
        factor_at(factors, 0) == ONE,
        0 <= i < tracks[0]@.len(),
        !is_nan(tracks[0]@[i]),
        tracks[0]@[i] != SIGN,
    ensures
        master_len(tracks) == tracks[0]@.len(),
        mixed(tracks, factors, i) == tracks[0]@[i],
{
    let s = tracks[0]@[i];
    lemma_product_by_one(s);
    lemma_sum_with_silence(s);
    assert(mix_prefix(tracks, factors, i, 0) == 0);
    assert(mix_prefix(tracks, factors, i, 1) == sum(
        mix_prefix(tracks, factors, i, 0),
        contribution(tracks, factors, i, 0),
    ));
    assert(longest(tracks, 0) == 0);
    assert(longest(tracks, 1) == tracks[0]@.len());
}

} // verus!
