use vstd::prelude::*;

verus! {

/// The numeric kind of the samples that the audio device delivers.
#[derive(Debug, Clone, Copy, PartialEq, Eq, Structural)]
pub enum SampleKind {
    F32,
    I16,
    U16,
}

/// What the capture side knows of the selected device.
#[derive(Debug, Clone, Copy)]
pub struct WavData {
    pub sample_format: SampleKind,
    pub sample_rate: u32,
    pub channels: u16,
}

/// An unsigned 16-bit sample recentred on zero: the midpoint 32768 maps to 0.
pub open spec fn u16_as_pcm(x: u16) -> int {
    x as int - 32768
}

/// Converts one unsigned 16-bit sample to signed PCM16.
pub fn u16_to_i16(x: u16) -> (r: i16)
    ensures
        r as int == u16_as_pcm(x),
{
    if x >= 32768 {
        (x - 32768) as i16
    } else {
        (x as i32 - 32768) as i16
    }
}

/// Refills `out` with the PCM16 form of a batch of signed 16-bit samples,
/// which pass through unchanged.
pub fn convert_i16_into(samples: &[i16], out: &mut Vec<i16>)
    ensures
        final(out)@ == samples@,
{
    out.clear();
    let mut i: usize = 0;
    while i < samples.len()
        invariant
            i <= samples@.len(),
            out@ == samples@.subrange(0, i as int),
        decreases samples@.len() - i,
    {
        out.push(samples[i]);
        i = i + 1;
        proof {
            assert(out@ =~= samples@.subrange(0, i as int));
        }
    }
    proof {
        assert(samples@.subrange(0, samples@.len() as int) =~= samples@);
    }
}

/// Refills `out` with the PCM16 form of a batch of unsigned 16-bit samples,
/// each recentred on the midpoint.
pub fn convert_u16_into(samples: &[u16], out: &mut Vec<i16>)
    ensures
        final(out)@.len() == samples@.len(),
        forall|k: int| 0 <= k < samples@.len() ==> final(out)@[k] as int == u16_as_pcm(#[trigger] samples@[k]),
{
    out.clear();
    let mut i: usize = 0;
    while i < samples.len()
        invariant
            i <= samples@.len(),
            out@.len() == i,
            forall|k: int| 0 <= k < i ==> out@[k] as int == u16_as_pcm(#[trigger] samples@[k]),
        decreases samples@.len() - i,
    {
        let v = u16_to_i16(samples[i]);
        out.push(v);
        i = i + 1;
    }
}

} // verus!
