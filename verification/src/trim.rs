//! Trailing-silence trimming: fully silent channels are dropped, the
//! surviving channels are truncated to the shared last-non-silent index.

use crate::interleave::channel_views;
use crate::sample::is_silent;
use crate::sample::sample_silent;
use vstd::prelude::*;

verus! {

/// The greatest index whose sample is outside the threshold band, or 0 when
/// every sample from index 0 on is silent.
pub open spec fn last_sound_index(ch: Seq<i32>, threshold: i32) -> int
    decreases ch.len(),
{
    if ch.len() == 0 {
        0
    } else if !sample_silent(ch.last(), threshold) {
        ch.len() - 1
    } else {
        last_sound_index(ch.drop_last(), threshold)
    }
}

/// A channel is fully silent when its last-sound index is 0 and the sample
/// at index 0 is itself silent (an empty channel counts as fully silent). A
/// channel whose only non-silent sample sits at index 0 is not fully silent.
pub open spec fn fully_silent(ch: Seq<i32>, threshold: i32) -> bool {
    last_sound_index(ch, threshold) == 0 && (ch.len() == 0 || sample_silent(ch[0], threshold))
}

/// The channels that survive trimming: those that are not fully silent, in
/// their original order.
pub open spec fn survivors(channels: Seq<Seq<i32>>, threshold: i32) -> Seq<Seq<i32>>
    decreases channels.len(),
{
    if channels.len() == 0 {
        Seq::empty()
    } else {
        let rest = survivors(channels.drop_last(), threshold);
        if fully_silent(channels.last(), threshold) {
            rest
        } else {
            rest.push(channels.last())
        }
    }
}

/// The greatest last-sound index over a set of channels (0 when there are
/// none).
pub open spec fn max_last_sound(channels: Seq<Seq<i32>>, threshold: i32) -> int
    decreases channels.len(),
{
    if channels.len() == 0 {
        0
    } else {
        let rest = max_last_sound(channels.drop_last(), threshold);
        let last = last_sound_index(channels.last(), threshold);
        if last > rest {
            last
        } else {
            rest
        }
    }
}

/// A channel cut down to its first `k` samples; a channel already shorter
/// than `k` is left whole.
pub open spec fn truncated(ch: Seq<i32>, k: int) -> Seq<i32> {
    if 0 <= k <= ch.len() {
        ch.take(k)
    } else {
        ch
    }
}

/// The trimmed channel set: fully silent channels dropped, every survivor
/// truncated to the greatest surviving last-sound index plus one.
pub open spec fn trim_spec(channels: Seq<Seq<i32>>, threshold: i32) -> Seq<Seq<i32>> {
    let surv = survivors(channels, threshold);
    let k = max_last_sound(surv, threshold) + 1;
    surv.map_values(|ch: Seq<i32>| truncated(ch, k))
}

/// Finds the last-sound index of one channel.
pub fn last_sound(ch: &Vec<i32>, threshold: i32) -> (r: usize)
    requires
        threshold >= 0,
    ensures
        r == last_sound_index(ch@, threshold),
        r == 0 || r < ch@.len(),
{
    let mut r: usize = 0;
    let mut i: usize = 0;
    while i < ch.len()
        invariant
            threshold >= 0,
            i <= ch@.len(),
            r == 0 || r < i,
            r == last_sound_index(ch@.take(i as int), threshold),
        decreases ch@.len() - i,
    {
        if !is_silent(ch[i], threshold) {
            r = i;
        }
        proof {
            let pre = ch@.take(i as int);
            let cur = ch@.take(i + 1);
            assert(cur.drop_last() =~= pre);
            assert(cur.last() == ch@[i as int]);
        }
        i = i + 1;
    }
    proof {
        assert(ch@.take(ch@.len() as int) =~= ch@);
    }
    r
}

/// Drops fully silent channels and truncates the survivors to the shared
/// last-non-silent index.
pub fn trim_channels(channels: &Vec<Vec<i32>>, threshold: i32) -> (r: Vec<Vec<i32>>)
    requires
        threshold >= 0,
    ensures
        channel_views(r@) == trim_spec(channel_views(channels@), threshold),
{
    let ghost views = channel_views(channels@);
    let mut kept: Vec<Vec<i32>> = Vec::new();
    let mut max_sound: usize = 0;
    let mut c: usize = 0;
    while c < channels.len()
        invariant
            threshold >= 0,
            c <= channels@.len(),
            views == channel_views(channels@),
            max_sound < usize::MAX,
            channel_views(kept@) == survivors(views.take(c as int), threshold),
            max_sound == max_last_sound(survivors(views.take(c as int), threshold), threshold),
        decreases channels@.len() - c,
    {
        let ch = &channels[c];
        let last = last_sound(ch, threshold);
        let silent_at_start = ch.len() == 0 || is_silent(ch[0], threshold);
        proof {
            let pre = views.take(c as int);
            let cur = views.take(c + 1);
            assert(cur.drop_last() =~= pre);
            assert(cur.last() == ch@);
        }
        if !(last == 0 && silent_at_start) {
            let mut copy: Vec<i32> = Vec::new();
            let mut j: usize = 0;
            while j < ch.len()
                invariant
                    j <= ch@.len(),
                    copy@ == ch@.take(j as int),
                decreases ch@.len() - j,
            {
                copy.push(ch[j]);
                proof {
                    assert(ch@.take(j + 1) =~= ch@.take(j as int).push(ch@[j as int]));
                }
                j = j + 1;
            }
            proof {
                assert(copy@ =~= ch@);
                let pre = views.take(c as int);
                let cur = views.take(c + 1);
                let old_surv = survivors(pre, threshold);
                assert(survivors(cur, threshold) == old_surv.push(ch@));
                assert(channel_views(kept@.push(copy)) =~= channel_views(kept@).push(ch@));
                // Unfold the maximum over the extended survivor set.
                assert(old_surv.push(ch@).drop_last() =~= old_surv);
                assert(old_surv.push(ch@).last() == ch@);
            }
            kept.push(copy);
            if last > max_sound {
                max_sound = last;
            }
        }
        c = c + 1;
    }
    proof {
        assert(views.take(channels@.len() as int) =~= views);
    }
    // Truncate every survivor to the greatest surviving last-sound index.
    let cut = max_sound + 1;
    let ghost surv = survivors(views, threshold);
    let mut out: Vec<Vec<i32>> = Vec::new();
    let mut d: usize = 0;
    while d < kept.len()
        invariant
            d <= kept@.len(),
            kept@.len() == surv.len(),
            cut == max_last_sound(surv, threshold) + 1,
            forall|e: int| 0 <= e < kept@.len() ==> #[trigger] kept@[e]@ == surv[e],
            out@.len() == d,
            forall|e: int| 0 <= e < d ==> #[trigger] out@[e]@ == truncated(surv[e], cut as int),
        decreases kept@.len() - d,
    {
        let ch = &kept[d];
        let end = if cut < ch.len() {
            cut
        } else {
            ch.len()
        };
        let mut copy: Vec<i32> = Vec::new();
        let mut j: usize = 0;
        while j < end
            invariant
                end <= ch@.len(),
                j <= end,
                copy@ == ch@.take(j as int),
            decreases end - j,
        {
            copy.push(ch[j]);
            proof {
                assert(ch@.take(j + 1) =~= ch@.take(j as int).push(ch@[j as int]));
            }
            j = j + 1;
        }
        proof {
            if cut >= ch@.len() {
                assert(ch@.take(ch@.len() as int) =~= ch@);
            }
            assert(copy@ == truncated(surv[d as int], cut as int));
        }
        out.push(copy);
        d = d + 1;
    }
    proof {
        assert(channel_views(out@) =~= trim_spec(views, threshold));
    }
    out
}

/// The last-sound index is a valid index of a non-empty channel and 0 for an
/// empty one.
pub proof fn lemma_last_sound_bound(ch: Seq<i32>, threshold: i32)
    ensures
        ch.len() == 0 ==> last_sound_index(ch, threshold) == 0,
        ch.len() > 0 ==> 0 <= last_sound_index(ch, threshold) < ch.len(),
    decreases ch.len(),
{
    if ch.len() > 0 {
        lemma_last_sound_bound(ch.drop_last(), threshold);
    }
}

/// Over channels of one shared length, the survivors keep that length, and a
/// zero length leaves no survivor.
proof fn lemma_survivors_uniform(channels: Seq<Seq<i32>>, threshold: i32, m: nat)
    requires
        forall|c: int| 0 <= c < channels.len() ==> (#[trigger] channels[c]).len() == m,
    ensures
        survivors(channels, threshold).len() <= channels.len(),
        forall|e: int|
            0 <= e < survivors(channels, threshold).len() ==> (#[trigger] survivors(
                channels,
                threshold,
            )[e]).len() == m,
        m == 0 ==> survivors(channels, threshold).len() == 0,
    decreases channels.len(),
{
    if channels.len() > 0 {
        lemma_survivors_uniform(channels.drop_last(), threshold, m);
    }
}

/// Over non-empty channels of one shared length, the greatest last-sound
/// index is a valid index.
proof fn lemma_max_last_sound_uniform(surv: Seq<Seq<i32>>, threshold: i32, m: nat)
    requires
        m >= 1,
        forall|e: int| 0 <= e < surv.len() ==> (#[trigger] surv[e]).len() == m,
    ensures
        0 <= max_last_sound(surv, threshold) < m,
    decreases surv.len(),
{
    if surv.len() > 0 {
        lemma_max_last_sound_uniform(surv.drop_last(), threshold, m);
        lemma_last_sound_bound(surv.last(), threshold);
    }
}

/// Trimming equal-length channels yields equal-length channels, each at
/// least one sample long when any survive.
pub proof fn lemma_trim_uniform(channels: Seq<Seq<i32>>, threshold: i32)
    requires
        forall|c: int|
            0 <= c < channels.len() ==> (#[trigger] channels[c]).len() == channels[0].len(),
    ensures
        trim_spec(channels, threshold).len() <= channels.len(),
        forall|e: int|
            0 <= e < trim_spec(channels, threshold).len() ==> (#[trigger] trim_spec(
                channels,
                threshold,
            )[e]).len() == trim_spec(channels, threshold)[0].len(),
        trim_spec(channels, threshold).len() > 0 ==> trim_spec(channels, threshold)[0].len() >= 1,
{
    let m = if channels.len() == 0 {
        0nat
    } else {
        channels[0].len()
    };
    lemma_survivors_uniform(channels, threshold, m);
    let surv = survivors(channels, threshold);
    if surv.len() > 0 {
        lemma_max_last_sound_uniform(surv, threshold, m);
        let k = max_last_sound(surv, threshold) + 1;
        assert forall|e: int| 0 <= e < surv.len() implies (#[trigger] trim_spec(
            channels,
            threshold,
        )[e]).len() == k by {
            assert(trim_spec(channels, threshold)[e] == truncated(surv[e], k));
        }
    }
}

/// A channel that lies entirely within the threshold band is fully silent,
/// and adding it to a channel set leaves the surviving set unchanged: the
/// trimmer drops it from the output.
pub proof fn lemma_silent_channel_dropped(ch: Seq<i32>, threshold: i32, channels: Seq<Seq<i32>>)
    requires
        forall|i: int| 0 <= i < ch.len() ==> sample_silent(#[trigger] ch[i], threshold),
    ensures
        fully_silent(ch, threshold),
        survivors(channels.push(ch), threshold) == survivors(channels, threshold),
    decreases ch.len(),
{
    if ch.len() > 0 {
        lemma_silent_channel_dropped(ch.drop_last(), threshold, channels);
    }
    assert(channels.push(ch).drop_last() =~= channels);
    assert(channels.push(ch).last() == ch);
}

/// When every sample of every channel lies within the threshold band (for a
/// threshold at the maximum representable amplitude this is every input with
/// no clipped sample), trimming yields the empty channel set.
pub proof fn lemma_all_silent_trims_to_empty(channels: Seq<Seq<i32>>, threshold: i32)
    requires
        forall|c: int, i: int|
            0 <= c < channels.len() && 0 <= i < channels[c].len() ==> sample_silent(
                #[trigger] channels[c][i],
                threshold,
            ),
    ensures
        trim_spec(channels, threshold) =~= Seq::<Seq<i32>>::empty(),
    decreases channels.len(),
{
    if channels.len() > 0 {
        lemma_all_silent_trims_to_empty(channels.drop_last(), threshold);
        lemma_silent_channel_dropped(channels.last(), threshold, channels.drop_last());
        assert(channels.drop_last().push(channels.last()) =~= channels);
    }
}

} // verus!
