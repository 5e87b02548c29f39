use crate::convert::WavData;
use vstd::prelude::*;

verus! {

/// The largest window (in samples) whose sums of squares are sure to fit in 64 bits.
pub const MAX_WINDOW: u64 = 0x1_0000_0000;

/// Samples per level reading: a tenth of a second over all channels.
pub open spec fn window_of(sample_rate: u32, channels: u16) -> int {
    (sample_rate as int * channels as int) / 10
}

/// The mean of a channel's squares: its sum over its own sample count
/// (zero for a channel that got no sample).
pub open spec fn mean(sum: int, n: int) -> int {
    if n > 0 {
        sum / n
    } else {
        0
    }
}

/// One sample added to the window (count, left count, left sum of squares,
/// right sum of squares). Even positions of a batch are the left channel, odd
/// ones the right. Once the count reaches `per`, the window yields the mean
/// square of each channel over that channel's own samples and starts again
/// from zero.
pub open spec fn step(st: (int, int, int, int), n: int, s: i16, per: int) -> (
    (int, int, int, int),
    Seq<(int, int)>,
) {
    let cnt = st.0 + 1;
    let left = n % 2 == 0;
    let cl = if left {
        st.1 + 1
    } else {
        st.1
    };
    let l = if left {
        st.2 + s * s
    } else {
        st.2
    };
    let r = if left {
        st.3
    } else {
        st.3 + s * s
    };
    if cnt >= per {
        ((0, 0, 0, 0), seq![(mean(l, cl), mean(r, cnt - cl))])
    } else {
        ((cnt, cl, l, r), Seq::empty())
    }
}

/// The window and the readings after a batch, sample by sample.
pub open spec fn feed_spec(st: (int, int, int, int), samples: Seq<i16>, per: int) -> (
    (int, int, int, int),
    Seq<(int, int)>,
)
    decreases samples.len(),
{
    if samples.len() == 0 {
        (st, Seq::empty())
    } else {
        let prev = feed_spec(st, samples.drop_last(), per);
        let nxt = step(prev.0, samples.len() - 1, samples.last(), per);
        (nxt.0, prev.1 + nxt.1)
    }
}

/// Readings as mathematical integers.
pub open spec fn as_ints(r: Seq<(i64, i64)>) -> Seq<(int, int)> {
    r.map_values(|p: (i64, i64)| (p.0 as int, p.1 as int))
}

/// The window state of the level monitor.
pub struct RmsWindow {
    samples_per_update: i64,
    nsamples: i64,
    nsamples_l: i64,
    sum_l: i64,
    sum_r: i64,
}

proof fn lemma_square_bound(s: i16)
    ensures
        0 <= s * s <= 0x4000_0000,
{
    assert(0 <= s * s <= 0x4000_0000) by (nonlinear_arith)
        requires
            -32768 <= s <= 32767,
    ;
}

impl RmsWindow {
    /// (count, left count, left sum of squares, right sum of squares).
    pub closed spec fn state(&self) -> (int, int, int, int) {
        (self.nsamples as int, self.nsamples_l as int, self.sum_l as int, self.sum_r as int)
    }

    pub closed spec fn per(&self) -> int {
        self.samples_per_update as int
    }

    pub closed spec fn wf(&self) -> bool {
        &&& 0 <= self.samples_per_update <= MAX_WINDOW
        &&& 0 <= self.nsamples_l <= self.nsamples
        &&& (self.nsamples < self.samples_per_update || self.nsamples == 0)
        &&& 0 <= self.sum_l <= self.nsamples * 0x4000_0000
        &&& 0 <= self.sum_r <= self.nsamples * 0x4000_0000
    }

    /// An empty window sized for ten readings a second.
    pub fn new(wd: &WavData) -> (r: Self)
        requires
            window_of(wd.sample_rate, wd.channels) <= MAX_WINDOW,
        ensures
            r.wf(),
            r.per() == window_of(wd.sample_rate, wd.channels),
            r.state() == (0int, 0int, 0int, 0int),
    {
        let per = (wd.sample_rate as u64 * wd.channels as u64) / 10;
        RmsWindow { samples_per_update: per as i64, nsamples: 0, nsamples_l: 0, sum_l: 0, sum_r: 0 }
    }

    /// Adds a batch of interleaved stereo samples and returns, for each window
    /// that it completes, the mean square of each channel over that channel's
    /// samples (left, right), in order.
    pub fn feed(&mut self, samples: &[i16]) -> (r: Vec<(i64, i64)>)
        requires
            old(self).wf(),
        ensures
            final(self).wf(),
            final(self).per() == old(self).per(),
            final(self).state() == feed_spec(old(self).state(), samples@, old(self).per()).0,
            as_ints(r@) == feed_spec(old(self).state(), samples@, old(self).per()).1,
    {
        let ghost st0 = self.state();
        let ghost per = self.per();
        let mut out: Vec<(i64, i64)> = Vec::new();
        let mut n: usize = 0;
        while n < samples.len()
            invariant
                n <= samples@.len(),
                self.wf(),
                self.per() == per,
                self.state() == feed_spec(st0, samples@.subrange(0, n as int), per).0,
                as_ints(out@) == feed_spec(st0, samples@.subrange(0, n as int), per).1,
            decreases samples@.len() - n,
        {
            let s = samples[n];
            let ghost pre = samples@.subrange(0, n as int);
            let ghost st = self.state();
            let ghost out0 = out@;
            proof {
                lemma_square_bound(s);
                assert(self.nsamples + 1 <= MAX_WINDOW);
                assert((self.nsamples + 1) * 0x4000_0000 == self.nsamples * 0x4000_0000
                    + 0x4000_0000);
                assert(self.nsamples * 0x4000_0000 <= MAX_WINDOW * 0x4000_0000) by (
                nonlinear_arith)
                    requires
                        self.nsamples <= MAX_WINDOW,
                ;
            }
            let sq: i64 = s as i64 * s as i64;
            self.nsamples = self.nsamples + 1;
            if n % 2 == 0 {
                self.nsamples_l = self.nsamples_l + 1;
                self.sum_l = self.sum_l + sq;
            } else {
                self.sum_r = self.sum_r + sq;
            }
            if self.nsamples >= self.samples_per_update {
                let nr = self.nsamples - self.nsamples_l;
                let ml = if self.nsamples_l > 0 {
                    self.sum_l / self.nsamples_l
                } else {
                    0
                };
                let mr = if nr > 0 {
                    self.sum_r / nr
                } else {
                    0
                };
                out.push((ml, mr));
                self.nsamples = 0;
                self.nsamples_l = 0;
                self.sum_l = 0;
                self.sum_r = 0;
            }
            proof {
                let next = samples@.subrange(0, n + 1);
                assert(next.drop_last() =~= pre);
                assert(next.last() == s);
                let sp = step(st, n as int, s, per);
                assert(self.state() == sp.0);
                let prev_out = feed_spec(st0, pre, per).1;
                assert(feed_spec(st0, next, per).1 == prev_out + sp.1);
                assert(as_ints(out@) =~= as_ints(out0) + sp.1);
            }
            n = n + 1;
        }
        proof {
            assert(samples@.subrange(0, samples@.len() as int) =~= samples@);
        }
        out
    }
}

proof fn lemma_constant_prefix(samples: Seq<i16>, a: int, per: int, m: int)
    requires
        0 <= m <= samples.len(),
        m < per,
        forall|i: int| 0 <= i < samples.len() ==> #[trigger] (samples[i] * samples[i]) == a * a,
    ensures
        feed_spec((0, 0, 0, 0), samples.subrange(0, m), per) == (
            (m, (m + 1) / 2, a * a * ((m + 1) / 2), a * a * (m / 2)),
            Seq::<(int, int)>::empty(),
        ),
    decreases m,
{
    if m > 0 {
        let p = samples.subrange(0, m);
        let k = m - 1;
        assert(p.drop_last() =~= samples.subrange(0, k));
        lemma_constant_prefix(samples, a, per, k);
        let prev = feed_spec((0, 0, 0, 0), p.drop_last(), per);
        let s = p.last();
        assert(s * s == a * a) by {
            assert(s == samples[k]);
        }
        let nxt = step(prev.0, k, s, per);
        assert(feed_spec((0, 0, 0, 0), p, per) == (nxt.0, prev.1 + nxt.1));
        assert(k + 1 < per);
        if k % 2 == 0 {
            assert(a * a * ((k + 2) / 2) == a * a * (k / 2) + a * a) by (nonlinear_arith)
                requires
                    (k + 2) / 2 == k / 2 + 1,
            ;
            assert((k + 1) / 2 == k / 2);
            assert(m / 2 == k / 2);
            assert((m + 1) / 2 == (k + 2) / 2);
            assert(a * a * ((k + 1) / 2) == a * a * (k / 2));
            assert(a * a * ((m + 1) / 2) == a * a * ((k + 2) / 2));
            assert(a * a * (m / 2) == a * a * (k / 2));
        } else {
            assert(a * a * (m / 2) == a * a * ((k - 1) / 2) + a * a) by (nonlinear_arith)
                requires
                    m / 2 == (k - 1) / 2 + 1,
            ;
            assert(k / 2 == (k - 1) / 2);
            assert((m + 1) / 2 == (k + 1) / 2);
            assert(a * a * ((m + 1) / 2) == a * a * ((k + 1) / 2));
            assert(a * a * (k / 2) == a * a * ((k - 1) / 2));
        }
        assert(nxt.0 == (m, (m + 1) / 2, a * a * ((m + 1) / 2), a * a * (m / 2)));
        assert(nxt.1 =~= Seq::<(int, int)>::empty());
        assert(prev.1 + nxt.1 =~= Seq::<(int, int)>::empty());
    } else {
        assert(samples.subrange(0, 0) =~= Seq::<i16>::empty());
        assert(a * a * 0 == 0) by (nonlinear_arith);
        assert((m + 1) / 2 == 0 && m / 2 == 0);
    }
}

/// A window's worth of samples of constant amplitude `a` (each sample `a` or
/// `-a`), fed to an empty window of even size, yields exactly one reading,
/// `a * a` on both channels: the level (its square root) is `|a|`. The window
/// is then empty.
pub proof fn lemma_constant_amplitude(samples: Seq<i16>, a: int, per: int)
    requires
        per >= 2,
        per % 2 == 0,
        samples.len() == per,
        forall|i: int| 0 <= i < samples.len() ==> #[trigger] (samples[i] * samples[i]) == a * a,
    ensures
        feed_spec((0, 0, 0, 0), samples, per) == ((0int, 0int, 0int, 0int), seq![(a * a, a * a)]),
{
    let k = per - 1;
    lemma_constant_prefix(samples, a, per, k);
    assert(samples.drop_last() =~= samples.subrange(0, k));
    assert(samples.last() * samples.last() == a * a) by {
        assert(samples.last() == samples[k]);
    }
    let h = per / 2;
    assert(per == 2 * h);
    assert(k % 2 == 1);
    assert((k + 1) / 2 == h);
    assert(k / 2 == h - 1);
    assert(a * a * (h - 1) + a * a == a * a * h) by (nonlinear_arith);
    assert(a * a * h / h == a * a) by (nonlinear_arith)
        requires
            h >= 1,
    ;
    assert(per - h == h);
    assert(mean(a * a * h, h) == a * a);
    assert(Seq::<(int, int)>::empty() + seq![(a * a, a * a)] =~= seq![(a * a, a * a)]);
}

} // verus!
