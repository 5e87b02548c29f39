use std::collections::VecDeque;
use vstd::prelude::*;

verus! {

/// Length of the container header that precedes the audio in wave format.
pub const WAV_HEADER_LEN: usize = 44;

/// Data length advertised in the wave header: the stream has no end, so the
/// header claims the largest data chunk that keeps the RIFF size in 32 bits.
pub const WAV_STREAM_DATA_LEN: u32 = 0xFFFF_FFD3;

/// Two bytes of one sample: little-endian in wave format, big-endian
/// (network order, as audio/L16 prescribes) otherwise.
pub open spec fn sample_bytes(s: i16, wave: bool) -> Seq<u8> {
    let u = s as u16;
    if wave {
        seq![(u % 256) as u8, (u / 256) as u8]
    } else {
        seq![(u / 256) as u8, (u % 256) as u8]
    }
}

/// The body bytes of a run of samples, in order.
pub open spec fn encode(q: Seq<i16>, wave: bool) -> Seq<u8>
    decreases q.len(),
{
    if q.len() == 0 {
        Seq::empty()
    } else {
        sample_bytes(q[0], wave) + encode(q.drop_first(), wave)
    }
}

/// The last `cap` items of `s` (all of it when it is no longer): what a queue
/// that drops its oldest items keeps.
pub open spec fn bounded(s: Seq<i16>, cap: nat) -> Seq<i16> {
    if s.len() <= cap {
        s
    } else {
        s.subrange(s.len() - cap, s.len() as int)
    }
}

/// The queue after a run of batches, each written in turn.
pub open spec fn after_batches(q: Seq<i16>, bs: Seq<Seq<i16>>, cap: nat) -> Seq<i16>
    decreases bs.len(),
{
    if bs.len() == 0 {
        q
    } else {
        bounded(after_batches(q, bs.drop_last(), cap) + bs.last(), cap)
    }
}

/// All samples of a run of batches, in order.
pub open spec fn flatten(bs: Seq<Seq<i16>>) -> Seq<i16>
    decreases bs.len(),
{
    if bs.len() == 0 {
        Seq::empty()
    } else {
        flatten(bs.drop_last()) + bs.last()
    }
}

/// Silence of `n` samples.
pub open spec fn silence(n: nat) -> Seq<i16> {
    Seq::new(n, |i: int| 0i16)
}

pub open spec fn le16(x: u16) -> Seq<u8> {
    seq![(x % 256) as u8, (x / 256) as u8]
}

pub open spec fn le32(x: u32) -> Seq<u8> {
    seq![(x % 256) as u8, (x / 256 % 256) as u8, (x / 65536 % 256) as u8, (x / 16777216) as u8]
}

pub open spec fn tag(a: u8, b: u8, c: u8, d: u8) -> Seq<u8> {
    seq![a, b, c, d]
}

/// The wave header of a stereo PCM16 stream at `rate` samples per second:
/// "RIFF", its size, "WAVE", a 16-byte "fmt " chunk, then the "data" chunk's size.
pub open spec fn wav_header(rate: u32) -> Seq<u8> {
    tag(82, 73, 70, 70) + le32((WAV_STREAM_DATA_LEN + 36) as u32) + tag(87, 65, 86, 69) + tag(
        102,
        109,
        116,
        32,
    ) + le32(16) + le16(1) + le16(2) + le32(rate) + le32((rate * 4) as u32) + le16(4) + le16(16)
        + tag(100, 97, 116, 97) + le32(WAV_STREAM_DATA_LEN)
}

/// What precedes the first audio byte: the wave header, or nothing for raw PCM.
pub open spec fn framing_header(wave: bool, rate: u32) -> Seq<u8> {
    if wave {
        wav_header(rate)
    } else {
        Seq::empty()
    }
}

proof fn lemma_encode_append(a: Seq<i16>, b: Seq<i16>, wave: bool)
    ensures
        encode(a + b, wave) == encode(a, wave) + encode(b, wave),
    decreases a.len(),
{
    if a.len() == 0 {
        assert(a + b =~= b);
    } else {
        assert((a + b).drop_first() =~= a.drop_first() + b);
        lemma_encode_append(a.drop_first(), b, wave);
    }
}

proof fn lemma_bounded_push(y: Seq<i16>, v: i16, cap: nat)
    ensures
        bounded(bounded(y, cap).push(v), cap) == bounded(y.push(v), cap),
{
    let b = bounded(y, cap);
    if y.len() <= cap {
    } else {
        assert(bounded(b.push(v), cap) =~= bounded(y.push(v), cap));
    }
}

proof fn lemma_encode_empty(q: Seq<i16>, wave: bool)
    requires
        encode(q, wave).len() == 0,
    ensures
        q.len() == 0,
{
}

proof fn lemma_after_batches_fit(q: Seq<i16>, bs: Seq<Seq<i16>>, cap: nat)
    requires
        q.len() + flatten(bs).len() <= cap,
    ensures
        after_batches(q, bs, cap) == q + flatten(bs),
    decreases bs.len(),
{
    if bs.len() > 0 {
        lemma_after_batches_fit(q, bs.drop_last(), cap);
        assert(q + flatten(bs) =~= q + flatten(bs.drop_last()) + bs.last());
    } else {
        assert(q + flatten(bs) =~= q);
    }
}

/// Per-connection adapter: audio batches are pushed in, body bytes are pulled
/// out. Samples wait in a queue of at most `capacity` samples; when a batch
/// does not fit, the oldest samples are dropped, so a slow reader never holds
/// up the writer.
pub struct ChannelStream {
    remote_ip: String,
    use_wave_format: bool,
    sample_rate: u32,
    capacity: usize,
    header: Vec<u8>,
    header_pos: usize,
    carry: Option<u8>,
    fifo: VecDeque<i16>,
}

impl ChannelStream {
    /// The host that the connection comes from, without the port.
    pub closed spec fn ip(&self) -> Seq<char> {
        self.remote_ip@
    }

    /// Whether the output is framed as a wave container rather than raw PCM.
    pub closed spec fn wave(&self) -> bool {
        self.use_wave_format
    }

    pub closed spec fn rate(&self) -> u32 {
        self.sample_rate
    }

    /// Samples waiting to be framed.
    pub closed spec fn queue(&self) -> Seq<i16> {
        self.fifo@
    }

    /// The most samples that wait at one time.
    pub closed spec fn capacity(&self) -> nat {
        self.capacity as nat
    }

    /// Bytes produced but not yet read that precede the queued samples: the
    /// rest of the header and the second byte of a sample that was read in half.
    pub closed spec fn framed(&self) -> Seq<u8> {
        self.header@.subrange(self.header_pos as int, self.header@.len() as int) + match self.carry {
            Some(b) => seq![b],
            None => Seq::empty(),
        }
    }

    /// Every byte that the reader has still to get, in order.
    pub open spec fn output(&self) -> Seq<u8> {
        self.framed() + encode(self.queue(), self.wave())
    }

    /// The output after the batches `bs` are written in turn, none read.
    pub open spec fn output_after(&self, bs: Seq<Seq<i16>>) -> Seq<u8> {
        self.framed() + encode(after_batches(self.queue(), bs, self.capacity()), self.wave())
    }

    pub closed spec fn wf(&self) -> bool {
        &&& self.header_pos <= self.header@.len()
        &&& self.fifo@.len() <= self.capacity
    }

    /// A new adapter for a connection from `remote_ip`. Its output starts with
    /// the framing header (wave format) and holds no audio yet.
    pub fn new(remote_ip: String, use_wave_format: bool, sample_rate: u32, capacity: usize) -> (r:
        Self)
        requires
            use_wave_format ==> sample_rate <= 0x3FFF_FFFF,
        ensures
            r.wf(),
            r.ip() == remote_ip@,
            r.wave() == use_wave_format,
            r.rate() == sample_rate,
            r.capacity() == capacity,
            r.queue() == Seq::<i16>::empty(),
            r.framed() == framing_header(use_wave_format, sample_rate),
            r.output() == framing_header(use_wave_format, sample_rate),
    {
        let header = if use_wave_format {
            wav_header_bytes(sample_rate)
        } else {
            Vec::new()
        };
        let r = ChannelStream {
            remote_ip,
            use_wave_format,
            sample_rate,
            capacity,
            header,
            header_pos: 0,
            carry: None,
            fifo: VecDeque::new(),
        };
        proof {
            assert(r.header@.subrange(0, r.header@.len() as int) =~= r.header@);
            assert(r.framed() =~= framing_header(use_wave_format, sample_rate));
            assert(r.output() =~= r.framed());
        }
        r
    }

    fn push_sample(&mut self, s: i16)
        requires
            old(self).wf(),
        ensures
            final(self).wf(),
            final(self).queue() == bounded(old(self).queue().push(s), old(self).capacity()),
            final(self).framed() == old(self).framed(),
            final(self).capacity() == old(self).capacity(),
            final(self).ip() == old(self).ip(),
            final(self).wave() == old(self).wave(),
            final(self).rate() == old(self).rate(),
    {
        let ghost q = self.fifo@;
        self.fifo.push_back(s);
        if self.fifo.len() > self.capacity {
            let _ = self.fifo.pop_front();
            proof {
                assert(self.fifo@ =~= bounded(q.push(s), self.capacity as nat));
            }
        }
    }

    /// Queues a batch of samples. Where the queue would exceed its capacity,
    /// the oldest samples are dropped.
    pub fn write(&mut self, samples: &[i16])
        requires
            old(self).wf(),
        ensures
            final(self).wf(),
            final(self).queue() == bounded(old(self).queue() + samples@, old(self).capacity()),
            final(self).framed() == old(self).framed(),
            final(self).output() == old(self).output_after(seq![samples@]),
            final(self).capacity() == old(self).capacity(),
            final(self).ip() == old(self).ip(),
            final(self).wave() == old(self).wave(),
            final(self).rate() == old(self).rate(),
    {
        let ghost q0 = self.queue();
        let ghost cap = self.capacity();
        let mut i: usize = 0;
        proof {
            assert(q0 + samples@.subrange(0, 0) =~= q0);
        }
        while i < samples.len()
            invariant
                i <= samples@.len(),
                self.wf(),
                self.capacity() == cap,
                self.queue() == bounded(q0 + samples@.subrange(0, i as int), cap),
                self.framed() == old(self).framed(),
                self.ip() == old(self).ip(),
                self.wave() == old(self).wave(),
                self.rate() == old(self).rate(),
            decreases samples@.len() - i,
        {
            let s = samples[i];
            self.push_sample(s);
            proof {
                let y = q0 + samples@.subrange(0, i as int);
                lemma_bounded_push(y, s, cap);
                assert(y.push(s) =~= q0 + samples@.subrange(0, i + 1));
            }
            i = i + 1;
        }
        proof {
            assert(samples@.subrange(0, samples@.len() as int) =~= samples@);
            assert(seq![samples@].drop_last() =~= Seq::<Seq<i16>>::empty());
            let bs = seq![samples@];
            assert(bs.last() == samples@);
            assert(after_batches(q0, bs.drop_last(), cap) == q0);
            assert(after_batches(q0, bs, cap) == bounded(q0 + samples@, cap));
        }
    }

    /// Queues one second of silent stereo frames (two samples a frame), so a
    /// renderer that probes the stream at once finds audio to read.
    pub fn create_silence(&mut self, sample_rate: u32)
        requires
            old(self).wf(),
        ensures
            final(self).wf(),
            final(self).queue() == bounded(
                old(self).queue() + silence(2 * sample_rate as nat),
                old(self).capacity(),
            ),
            final(self).framed() == old(self).framed(),
            final(self).capacity() == old(self).capacity(),
            final(self).ip() == old(self).ip(),
            final(self).wave() == old(self).wave(),
            final(self).rate() == old(self).rate(),
    {
        let ghost q0 = self.queue();
        let ghost cap = self.capacity();
        let n: u64 = 2 * sample_rate as u64;
        let mut i: u64 = 0;
        proof {
            assert(q0 + silence(0) =~= q0);
        }
        while i < n
            invariant
                i <= n,
                n == 2 * sample_rate as nat,
                self.wf(),
                self.capacity() == cap,
                self.queue() == bounded(q0 + silence(i as nat), cap),
                self.framed() == old(self).framed(),
                self.ip() == old(self).ip(),
                self.wave() == old(self).wave(),
                self.rate() == old(self).rate(),
            decreases n - i,
        {
            self.push_sample(0);
            proof {
                let y = q0 + silence(i as nat);
                lemma_bounded_push(y, 0, cap);
                assert(y.push(0) =~= q0 + silence((i + 1) as nat));
            }
            i = i + 1;
        }
    }

    pub fn remote_ip(&self) -> (r: &String)
        ensures
            r@ == self.ip(),
    {
        &self.remote_ip
    }

    pub fn use_wave_format(&self) -> (r: bool)
        ensures
            r == self.wave(),
    {
        self.use_wave_format
    }

    pub fn sample_rate(&self) -> (r: u32)
        ensures
            r == self.rate(),
    {
        self.sample_rate
    }

    /// Takes up to `max` bytes of output, in order.
    pub fn read(&mut self, max: usize) -> (r: Vec<u8>)
        requires
            old(self).wf(),
        ensures
            final(self).wf(),
            r@.len() == if max < old(self).output().len() {
                max as nat
            } else {
                old(self).output().len()
            },
            r@ == old(self).output().subrange(0, r@.len() as int),
            final(self).output() == old(self).output().subrange(
                r@.len() as int,
                old(self).output().len() as int,
            ),
            final(self).capacity() == old(self).capacity(),
            final(self).ip() == old(self).ip(),
            final(self).wave() == old(self).wave(),
            final(self).rate() == old(self).rate(),
    {
        let mut out: Vec<u8> = Vec::new();
        while out.len() < max
            invariant
                self.wf(),
                out@.len() <= max,
                out@ + self.output() == old(self).output(),
                self.capacity() == old(self).capacity(),
                self.ip() == old(self).ip(),
                self.wave() == old(self).wave(),
                self.rate() == old(self).rate(),
            ensures
                self.wf(),
                out@.len() <= max,
                out@ + self.output() == old(self).output(),
                self.capacity() == old(self).capacity(),
                self.ip() == old(self).ip(),
                self.wave() == old(self).wave(),
                self.rate() == old(self).rate(),
                out@.len() == max || self.output().len() == 0,
            decreases max - out@.len(),
        {
            let ghost before = self.output();
            let ghost out0 = out@;
            if self.header_pos < self.header.len() {
                out.push(self.header[self.header_pos]);
                self.header_pos = self.header_pos + 1;
                proof {
                    assert(before =~= seq![out@.last()] + self.output());
                    assert(out@ + self.output() =~= out0 + before);
                }
            } else if self.carry.is_some() {
                let b = self.carry.unwrap();
                out.push(b);
                self.carry = None;
                proof {
                    assert(before =~= seq![b] + self.output());
                    assert(out@ + self.output() =~= out0 + before);
                }
            } else {
                let ghost q = self.fifo@;
                match self.fifo.pop_front() {
                    Some(s) => {
                        let u = #[verifier::truncate] (s as u16);
                        let lo = (u % 256) as u8;
                        let hi = (u / 256) as u8;
                        if self.use_wave_format {
                            out.push(lo);
                            self.carry = Some(hi);
                        } else {
                            out.push(hi);
                            self.carry = Some(lo);
                        }
                        proof {
                            assert(q.drop_first() =~= self.fifo@);
                            assert(self.header@.subrange(
                                self.header_pos as int,
                                self.header@.len() as int,
                            ) =~= Seq::<u8>::empty());
                            assert(before =~= sample_bytes(s, self.use_wave_format) + encode(
                                self.fifo@,
                                self.use_wave_format,
                            ));
                            assert(before =~= seq![out@.last()] + self.output());
                            assert(out@ + self.output() =~= out0 + before);
                        }
                    },
                    None => {
                        proof {
                            assert(self.header@.subrange(
                                self.header_pos as int,
                                self.header@.len() as int,
                            ) =~= Seq::<u8>::empty());
                            assert(self.output() =~= Seq::<u8>::empty());
                        }
                        break;
                    },
                }
            }
        }
        proof {
            assert(out@ =~= old(self).output().subrange(0, out@.len() as int));
            assert(self.output() =~= old(self).output().subrange(
                out@.len() as int,
                old(self).output().len() as int,
            ));
        }
        out
    }
}

fn push_le16(v: &mut Vec<u8>, x: u16)
    ensures
        final(v)@ == old(v)@ + le16(x),
{
    v.push((x % 256) as u8);
    v.push((x / 256) as u8);
    proof {
        assert(final(v)@ =~= old(v)@ + le16(x));
    }
}

fn push_le32(v: &mut Vec<u8>, x: u32)
    ensures
        final(v)@ == old(v)@ + le32(x),
{
    v.push((x % 256) as u8);
    v.push((x / 256 % 256) as u8);
    v.push((x / 65536 % 256) as u8);
    v.push((x / 16777216) as u8);
    proof {
        assert(final(v)@ =~= old(v)@ + le32(x));
    }
}

fn push_tag(v: &mut Vec<u8>, a: u8, b: u8, c: u8, d: u8)
    ensures
        final(v)@ == old(v)@ + tag(a, b, c, d),
{
    v.push(a);
    v.push(b);
    v.push(c);
    v.push(d);
    proof {
        assert(final(v)@ =~= old(v)@ + tag(a, b, c, d));
    }
}

/// The wave header for a stereo PCM16 stream at `rate` samples per second.
pub fn wav_header_bytes(rate: u32) -> (r: Vec<u8>)
    requires
        rate <= 0x3FFF_FFFF,
    ensures
        r@ == wav_header(rate),
        r@.len() == WAV_HEADER_LEN,
{
    let mut v: Vec<u8> = Vec::new();
    push_tag(&mut v, 82, 73, 70, 70);
    push_le32(&mut v, WAV_STREAM_DATA_LEN + 36);
    push_tag(&mut v, 87, 65, 86, 69);
    push_tag(&mut v, 102, 109, 116, 32);
    push_le32(&mut v, 16);
    push_le16(&mut v, 1);
    push_le16(&mut v, 2);
    push_le32(&mut v, rate);
    push_le32(&mut v, rate * 4);
    push_le16(&mut v, 4);
    push_le16(&mut v, 16);
    push_tag(&mut v, 100, 97, 116, 97);
    push_le32(&mut v, WAV_STREAM_DATA_LEN);
    proof {
        assert(v@ =~= wav_header(rate));
    }
    v
}

/// Two adapters of one format, whose earlier output (header and pre-roll)
/// has been read in full, give byte-identical output for the same batches
/// while none of them is dropped: the bytes of the batches, in order.
pub proof fn lemma_identical_output(a: ChannelStream, b: ChannelStream, bs: Seq<Seq<i16>>)
    requires
        a.output().len() == 0,
        b.output().len() == 0,
        a.wave() == b.wave(),
        flatten(bs).len() <= a.capacity(),
        flatten(bs).len() <= b.capacity(),
    ensures
        a.output_after(bs) == b.output_after(bs),
        a.output_after(bs) == encode(flatten(bs), a.wave()),
{
    lemma_encode_empty(a.queue(), a.wave());
    lemma_encode_empty(b.queue(), b.wave());
    assert(a.queue() =~= Seq::<i16>::empty());
    assert(b.queue() =~= Seq::<i16>::empty());
    lemma_after_batches_fit(a.queue(), bs, a.capacity());
    lemma_after_batches_fit(b.queue(), bs, b.capacity());
    assert(a.framed() =~= Seq::<u8>::empty());
    assert(b.framed() =~= Seq::<u8>::empty());
    assert(a.output_after(bs) =~= encode(flatten(bs), a.wave()));
    assert(b.output_after(bs) =~= encode(flatten(bs), b.wave()));
}

/// Two adapters of one format and one capacity, whose earlier output (header
/// and pre-roll) has been read in full, give byte-identical output for the
/// same batches, whatever the queue drops on the way.
pub proof fn lemma_identical_output_same_capacity(
    a: ChannelStream,
    b: ChannelStream,
    bs: Seq<Seq<i16>>,
)
    requires
        a.output().len() == 0,
        b.output().len() == 0,
        a.wave() == b.wave(),
        a.capacity() == b.capacity(),
    ensures
        a.output_after(bs) == b.output_after(bs),
{
    lemma_encode_empty(a.queue(), a.wave());
    lemma_encode_empty(b.queue(), b.wave());
    assert(a.queue() =~= b.queue());
    assert(a.framed() =~= Seq::<u8>::empty());
    assert(b.framed() =~= Seq::<u8>::empty());
}

/// Writing batches that all fit appends their bytes, in order, to what the
/// reader has still to get: a connection's output keeps the order of its input.
pub proof fn lemma_output_appends(a: ChannelStream, bs: Seq<Seq<i16>>)
    requires
        a.queue().len() + flatten(bs).len() <= a.capacity(),
    ensures
        a.output_after(bs) == a.output() + encode(flatten(bs), a.wave()),
{
    lemma_after_batches_fit(a.queue(), bs, a.capacity());
    lemma_encode_append(a.queue(), flatten(bs), a.wave());
    assert(a.output_after(bs) =~= a.output() + encode(flatten(bs), a.wave()));
}

} // verus!
