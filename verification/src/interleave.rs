//! De-interleaving a flat sample stream into per-channel buffers, and the
//! exact inverse operation.

use vstd::arithmetic::div_mod::lemma_fundamental_div_mod;
use vstd::arithmetic::div_mod::lemma_fundamental_div_mod_converse;
use vstd::prelude::*;

verus! {

/// How many flat indices `i < total` satisfy `i % n == c`, for `0 <= c < n`:
/// the length of channel `c` after de-interleaving.
pub open spec fn channel_len(total: int, n: int, c: int) -> int {
    if total > c {
        (total - c - 1) / n + 1
    } else {
        0
    }
}

/// Channel `c` of a flat stream with `n` channels: the samples at flat
/// indices congruent to `c` modulo `n`, in ascending order.
pub open spec fn channel_of(samples: Seq<i32>, n: int, c: int) -> Seq<i32> {
    Seq::new(channel_len(samples.len() as int, n, c) as nat, |j: int| samples[j * n + c])
}

/// All `n` channels of a flat stream.
pub open spec fn channels_of(samples: Seq<i32>, n: int) -> Seq<Seq<i32>> {
    Seq::new(n as nat, |c: int| channel_of(samples, n, c))
}

/// Whether every channel has the same length as the first one.
pub open spec fn equal_lengths(channels: Seq<Seq<i32>>) -> bool {
    forall|c: int| 0 <= c < channels.len() ==> #[trigger] channels[c].len() == channels[0].len()
}

/// The flat stream built from equal-length channels: flat index `i` comes
/// from channel `i % n` at position `i / n`.
pub open spec fn interleaved(channels: Seq<Seq<i32>>) -> Seq<i32> {
    let n = channels.len() as int;
    let m = if n == 0 {
        0int
    } else {
        channels[0].len() as int
    };
    Seq::new((n * m) as nat, |i: int| channels[i % n][i / n])
}

/// The views of a vector of channel buffers.
pub open spec fn channel_views(channels: Seq<Vec<i32>>) -> Seq<Seq<i32>> {
    channels.map_values(|ch: Vec<i32>| ch@)
}

/// Splits a flat interleaved stream into `num_channels` per-channel buffers.
/// A channel count of zero is rejected with `None`.
pub fn de_interleave(samples: &Vec<i32>, num_channels: usize) -> (r: Option<Vec<Vec<i32>>>)
    ensures
        r is None <==> num_channels == 0,
        r matches Some(channels) ==> {
            &&& channels@.len() == num_channels
            &&& channel_views(channels@) == channels_of(samples@, num_channels as int)
        },
{
    if num_channels == 0 {
        return None;
    }
    let n = num_channels;
    let len = samples.len();
    let mut channels: Vec<Vec<i32>> = Vec::new();
    for c in 0..n
        invariant
            n >= 1,
            len == samples@.len(),
            channels@.len() == c,
            forall|d: int|
                0 <= d < c ==> #[trigger] channels@[d]@ == channel_of(samples@, n as int, d),
    {
        let mut ch: Vec<i32> = Vec::new();
        let mut i = c;
        while i < len
            invariant_except_break
                i == ch@.len() * n + c,
            invariant
                n >= 1,
                c < n,
                len == samples@.len(),
                ch@.len() == 0 || (ch@.len() - 1) * (n as int) + c < len,
                forall|j: int| 0 <= j < ch@.len() ==> #[trigger] ch@[j] == samples@[j * (n as int) + c],
            ensures
                ch@.len() * n + c >= len,
                ch@.len() == 0 || (ch@.len() - 1) * (n as int) + c < len,
                forall|j: int| 0 <= j < ch@.len() ==> #[trigger] ch@[j] == samples@[j * (n as int) + c],
            decreases len - i,
        {
            ch.push(samples[i]);
            proof {
                let k = ch@.len() as int;
                assert((k - 1) * (n as int) + c == i);
                assert(k * (n as int) == (k - 1) * (n as int) + n) by (nonlinear_arith);
            }
            if n >= len - i {
                // The next flat index would run past the stream.
                break;
            }
            i = i + n;
        }
        proof {
            // `ch` holds exactly `channel_len(len, n, c)` samples.
            let k = ch@.len() as int;
            if len > c {
                assert(k >= 1) by {
                    if k == 0 {
                        assert(k * (n as int) == 0) by (nonlinear_arith)
                            requires k == 0;
                    }
                }
                // k*n + c >= len and (k-1)*n + c < len pin down the division.
                assert(k * (n as int) == (k - 1) * (n as int) + n) by (nonlinear_arith);
                let r = (len - c - 1) - (k - 1) * (n as int);
                assert(0 <= r < n);
                lemma_fundamental_div_mod_converse(len - c - 1, n as int, k - 1, r);
                assert(channel_len(len as int, n as int, c as int) == k);
            } else {
                assert(k == 0) by {
                    if k >= 1 {
                        assert((k - 1) * (n as int) >= 0) by (nonlinear_arith)
                            requires k >= 1, n >= 1;
                        assert((k - 1) * (n as int) + c < len);
                    }
                }
            }
            assert(ch@ =~= channel_of(samples@, n as int, c as int));
        }
        channels.push(ch);
    }
    proof {
        assert(channel_views(channels@) =~= channels_of(samples@, n as int));
    }
    Some(channels)
}

/// Rebuilds the flat interleaved stream from equal-length channels: the
/// exact inverse of `de_interleave`. Channels of differing lengths are
/// rejected with `None`.
pub fn re_interleave(channels: &Vec<Vec<i32>>) -> (r: Option<Vec<i32>>)
    ensures
        r is Some <==> equal_lengths(channel_views(channels@)),
        r matches Some(flat) ==> flat@ == interleaved(channel_views(channels@)),
{
    let n = channels.len();
    if n == 0 {
        let flat: Vec<i32> = Vec::new();
        proof {
            assert(flat@ =~= interleaved(channel_views(channels@)));
        }
        return Some(flat);
    }
    let m = channels[0].len();
    for c in 0..n
        invariant
            n == channels@.len(),
            m == channels@[0]@.len(),
            forall|d: int| 0 <= d < c ==> #[trigger] channels@[d]@.len() == m,
    {
        if channels[c].len() != m {
            proof {
                assert(channel_views(channels@)[c as int].len() != m);
            }
            return None;
        }
    }
    let mut flat: Vec<i32> = Vec::new();
    let mut s: usize = 0;
    while s < m
        invariant
            n == channels@.len(),
            n >= 1,
            s <= m,
            m == channels@[0]@.len(),
            forall|d: int| 0 <= d < n ==> #[trigger] channels@[d]@.len() == m,
            flat@.len() == s * n,
            forall|i: int|
                0 <= i < flat@.len() ==> #[trigger] flat@[i] == channels@[i % (n as int)]@[i / (n as int)],
        decreases m - s,
    {
        let mut c: usize = 0;
        while c < n
            invariant
                n == channels@.len(),
                n >= 1,
                s < m,
                c <= n,
                m == channels@[0]@.len(),
                forall|d: int| 0 <= d < n ==> #[trigger] channels@[d]@.len() == m,
                flat@.len() == s * n + c,
                forall|i: int|
                    0 <= i < flat@.len() ==> #[trigger] flat@[i] == channels@[i % (n as int)]@[i
                        / (n as int)],
            decreases n - c,
        {
            flat.push(channels[c][s]);
            proof {
                let i = flat@.len() - 1;
                lemma_fundamental_div_mod_converse(i, n as int, s as int, c as int);
                assert(flat@[i] == channels@[i % (n as int)]@[i / (n as int)]);
            }
            c = c + 1;
        }
        proof {
            assert(s * n + n == (s + 1) * n) by (nonlinear_arith);
        }
        s = s + 1;
    }
    proof {
        assert(flat@ =~= interleaved(channel_views(channels@))) by {
            assert(flat@.len() == m * n);
            assert(m * n == n * m) by (nonlinear_arith);
        }
    }
    Some(flat)
}

/// How long each channel is when the flat length is an exact multiple of the
/// channel count: every channel receives `total / n` samples.
pub proof fn lemma_channel_len_exact(total: int, n: int, c: int)
    requires
        1 <= n,
        0 <= c < n,
        total % n == 0,
        total >= 0,
    ensures
        channel_len(total, n, c) == total / n,
{
    if total == 0 {
        assert(channel_len(total, n, c) == 0);
        assert(total / n == 0);
    } else {
        let m = total / n;
        lemma_fundamental_div_mod(total, n);
        assert(total == n * m);
        assert(m >= 1) by (nonlinear_arith)
            requires n >= 1, total >= 1, total == n * m;
        // total - c - 1 == (m - 1) * n + (n - c - 1) with 0 <= n - c - 1 < n
        assert((m - 1) * n == n * m - n) by (nonlinear_arith);
        lemma_fundamental_div_mod_converse(total - c - 1, n, m - 1, n - c - 1);
        assert(channel_len(total, n, c) == m);
    }
}

/// De-interleaving then re-interleaving with an unchanged channel count is
/// the identity, for any channel count of at least one and any sample
/// sequence whose length is a multiple of that count.
pub proof fn lemma_interleave_round_trip(samples: Seq<i32>, n: int)
    requires
        1 <= n,
        samples.len() as int % n == 0,
    ensures
        equal_lengths(channels_of(samples, n)),
        interleaved(channels_of(samples, n)) == samples,
{
    let total = samples.len() as int;
    let m = total / n;
    let chs = channels_of(samples, n);
    assert forall|c: int| 0 <= c < n implies #[trigger] chs[c].len() == m as nat by {
        lemma_channel_len_exact(total, n, c);
    }
    assert(chs[0].len() == m);
    assert(equal_lengths(chs));
    lemma_fundamental_div_mod(total, n);
    assert(n * m == total);
    assert(interleaved(chs).len() == total);
    assert forall|i: int| 0 <= i < total implies #[trigger] interleaved(chs)[i] == samples[i] by {
        let c = i % n;
        let j = i / n;
        lemma_fundamental_div_mod(i, n);
        assert(i == j * n + c) by (nonlinear_arith)
            requires i == n * j + c;
        assert(j < m) by (nonlinear_arith)
            requires i == j * n + c, i < n * m, 0 <= c, n >= 1;
        lemma_channel_len_exact(total, n, c);
        assert(interleaved(chs)[i] == chs[c][j]);
        assert(chs[c][j] == samples[j * n + c]);
    }
    assert(interleaved(chs) =~= samples);
}

} // verus!
