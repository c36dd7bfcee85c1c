//! Sample-rate conversion: the converter's rates, and the layout of samples
//! around the conversion (interleaved frames, per-channel blocks).
use vstd::prelude::*;

verus! {

/// Converts audio from one sample rate to another.
pub struct Resampler {
    input_rate: u32,
    output_rate: u32,
}

impl Resampler {
    /// Rate of the audio handed in.
    pub closed spec fn spec_input_rate(self) -> u32 {
        self.input_rate
    }

    /// Rate of the audio handed out.
    pub closed spec fn spec_output_rate(self) -> u32 {
        self.output_rate
    }

    /// A converter from `input_rate` to `output_rate`.
    pub fn new(input_rate: u32, output_rate: u32) -> (r: Self)
        ensures
            r.spec_input_rate() == input_rate,
            r.spec_output_rate() == output_rate,
    {
        Self { input_rate, output_rate }
    }

    /// Rate of the audio handed in.
    pub fn input_rate(&self) -> (r: u32)
        ensures
            r == self.spec_input_rate(),
    {
        self.input_rate
    }

    /// Rate of the audio handed out.
    pub fn output_rate(&self) -> (r: u32)
        ensures
            r == self.spec_output_rate(),
    {
        self.output_rate
    }
}

// ---------------------------------------------------------------------------
// Interleaved and per-channel layouts
// ---------------------------------------------------------------------------

/// Number of samples of channel `ch` among `len` interleaved samples of `c`
/// channels: the positions `p < len` with `p % c == ch`.
pub open spec fn channel_len(len: int, c: int, ch: int) -> int {
    if ch < len {
        (len - 1 - ch) / c + 1
    } else {
        0
    }
}

/// Channel `ch` of interleaved samples with `c` channels: the samples at
/// positions `ch`, `ch + c`, `ch + 2c`, ...
pub open spec fn channel_of<T>(x: Seq<T>, c: int, ch: int) -> Seq<T> {
    Seq::new(channel_len(x.len() as int, c, ch) as nat, |j: int| x[j * c + ch])
}

/// Interleaved samples split into their `c` channels.
pub open spec fn deinterleaved<T>(x: Seq<T>, c: nat) -> Seq<Seq<T>> {
    Seq::new(c, |ch: int| channel_of(x, c as int, ch))
}

/// Frame `i` of the first `k` channels: sample `i` of each of them, in
/// channel order, skipping channels that have no sample `i`.
pub open spec fn frame_of<T>(chs: Seq<Seq<T>>, i: int, k: int) -> Seq<T>
    decreases k,
{
    if k <= 0 {
        Seq::empty()
    } else {
        frame_of(chs, i, k - 1) + if i < chs[k - 1].len() {
            seq![chs[k - 1][i]]
        } else {
            Seq::empty()
        }
    }
}

/// The first `n` frames of the channels, one after the other.
pub open spec fn interleaved<T>(chs: Seq<Seq<T>>, n: int) -> Seq<T>
    decreases n,
{
    if n <= 0 {
        Seq::empty()
    } else {
        interleaved(chs, n - 1) + frame_of(chs, n - 1, chs.len() as int)
    }
}

/// The contents of each channel.
pub open spec fn channel_views<T>(chs: Seq<Vec<T>>) -> Seq<Seq<T>> {
    chs.map_values(|v: Vec<T>| v@)
}

/// Samples `start..end` of a channel, padded with `pad` up to `size` samples
/// when the range is shorter than `size`.
pub open spec fn padded_block<T>(ch: Seq<T>, start: int, end: int, size: int, pad: T) -> Seq<T> {
    if end - start < size {
        ch.subrange(start, end) + Seq::new((size - (end - start)) as nat, |_j: int| pad)
    } else {
        ch.subrange(start, end)
    }
}

/// Sample `i` of channel `ch` exists exactly when position `i * c + ch` is
/// among the interleaved samples.
pub proof fn lemma_channel_len(len: int, c: int, ch: int, i: int)
    requires
        0 <= ch < c,
        0 <= i,
        0 <= len,
    ensures
        i < channel_len(len, c, ch) <==> i * c + ch < len,
{
    if ch < len {
        let a = len - 1 - ch;
        assert(i <= a / c <==> i * c <= a) by (nonlinear_arith)
            requires a >= 0, c > 0, i >= 0;
    } else {
        assert(i * c >= 0) by (nonlinear_arith)
            requires c > 0, i >= 0;
    }
}

/// Splits interleaved samples into one sequence per channel: sample `i` goes
/// to channel `i % channels`. A trailing partial frame is kept.
pub fn deinterleave<T: Copy>(input: &[T], channels: usize) -> (out: Vec<Vec<T>>)
    requires
        channels > 0,
    ensures
        out@.len() == channels,
        channel_views(out@) == deinterleaved(input@, channels as nat),
{
    let len = input.len();
    let ghost x = input@;
    let ghost c = channels as int;
    let mut out: Vec<Vec<T>> = Vec::new();
    let mut ch: usize = 0;
    while ch < channels
        invariant
            x == input@,
            len == x.len(),
            c == channels,
            channels > 0,
            ch <= channels,
            out@.len() == ch,
            forall|k: int| 0 <= k < ch ==> (#[trigger] out@[k])@ == channel_of(x, c, k),
        decreases channels - ch,
    {
        let count = if ch < len {
            (len - 1 - ch) / channels + 1
        } else {
            0
        };
        let mut col: Vec<T> = Vec::new();
        let mut k: usize = 0;
        while k < count
            invariant
                x == input@,
                len == x.len(),
                c == channels,
                channels > 0,
                ch < channels,
                count == channel_len(len as int, c, ch as int),
                k <= count,
                col@ == channel_of(x, c, ch as int).take(k as int),
            decreases count - k,
        {
            proof {
                lemma_channel_len(len as int, c, ch as int, k as int);
            }
            let j = k * channels + ch;
            col.push(input[j]);
            proof {
                assert(col@ =~= channel_of(x, c, ch as int).take(k + 1));
            }
            k = k + 1;
        }
        proof {
            assert(col@ =~= channel_of(x, c, ch as int));
        }
        out.push(col);
        ch = ch + 1;
    }
    proof {
        assert(channel_views(out@) =~= deinterleaved(x, channels as nat));
    }
    out
}

/// Samples `start..end` of every channel, each padded with `pad` up to
/// `chunk_size` samples when the block is shorter than that.
pub fn padded_chunk<T: Copy>(
    channel_data: &Vec<Vec<T>>,
    start: usize,
    end: usize,
    chunk_size: usize,
    pad: T,
) -> (chunk: Vec<Vec<T>>)
    requires
        start <= end,
        forall|ch: int| 0 <= ch < channel_data@.len() ==> end <= (#[trigger] channel_data@[ch])@.len(),
    ensures
        chunk@.len() == channel_data@.len(),
        forall|ch: int|
            0 <= ch < chunk@.len() ==> (#[trigger] chunk@[ch])@ == padded_block(
                channel_data@[ch]@,
                start as int,
                end as int,
                chunk_size as int,
                pad,
            ),
        forall|ch: int|
            0 <= ch < chunk@.len() ==> {
                let block = (#[trigger] chunk@[ch])@;
                &&& block.len() == vstd::math::max(chunk_size as int, end - start)
                &&& forall|j: int| 0 <= j < end - start ==> block[j] == channel_data@[ch]@[start + j]
                &&& forall|j: int| end - start <= j < block.len() ==> block[j] == pad
            },
{
    let mut chunk: Vec<Vec<T>> = Vec::new();
    let mut ch: usize = 0;
    while ch < channel_data.len()
        invariant
            start <= end,
            forall|c: int| 0 <= c < channel_data@.len() ==> end <= (#[trigger] channel_data@[c])@.len(),
            ch <= channel_data@.len(),
            chunk@.len() == ch,
            forall|c: int|
                0 <= c < ch ==> (#[trigger] chunk@[c])@ == padded_block(
                    channel_data@[c]@,
                    start as int,
                    end as int,
                    chunk_size as int,
                    pad,
                ),
        decreases channel_data@.len() - ch,
    {
        let ghost src = channel_data@[ch as int]@;
        let mut block: Vec<T> = Vec::new();
        let mut j: usize = start;
        while j < end
            invariant
                ch < channel_data@.len(),
                start <= j <= end,
                end <= src.len(),
                src == channel_data@[ch as int]@,
                block@ == src.subrange(start as int, j as int),
            decreases end - j,
        {
            block.push(channel_data[ch][j]);
            proof {
                assert(block@ =~= src.subrange(start as int, j + 1));
            }
            j = j + 1;
        }
        if end - start < chunk_size {
            let ghost body = block@;
            while block.len() < chunk_size
                invariant
                    body == src.subrange(start as int, end as int),
                    block@.len() >= body.len(),
                    block@.len() <= chunk_size,
                    block@ == body + Seq::new((block@.len() - body.len()) as nat, |_j: int| pad),
                decreases chunk_size - block@.len(),
            {
                block.push(pad);
                proof {
                    assert(block@ =~= body + Seq::new((block@.len() - body.len()) as nat, |_j: int| pad));
                }
            }
        }
        proof {
            assert(block@ =~= padded_block(src, start as int, end as int, chunk_size as int, pad));
        }
        chunk.push(block);
        ch = ch + 1;
    }
    proof {
        assert forall|c: int| 0 <= c < chunk@.len() implies {
            let block = (#[trigger] chunk@[c])@;
            &&& block.len() == vstd::math::max(chunk_size as int, end - start)
            &&& forall|j: int| 0 <= j < end - start ==> block[j] == channel_data@[c]@[start + j]
            &&& forall|j: int| end - start <= j < block.len() ==> block[j] == pad
        } by {
            let block = chunk@[c]@;
            let src = channel_data@[c]@;
            assert(block == padded_block(src, start as int, end as int, chunk_size as int, pad));
        }
    }
    chunk
}

/// Joins per-channel samples into interleaved frames, as many frames as the
/// first channel has samples; a channel without sample `i` contributes
/// nothing to frame `i`.
pub fn interleave<T: Copy>(channels: &Vec<Vec<T>>) -> (out: Vec<T>)
    requires
        channels@.len() > 0,
    ensures
        out@ == interleaved(channel_views(channels@), channels@[0]@.len() as int),
{
    let ghost chs = channel_views(channels@);
    let c = channels.len();
    let output_frames = channels[0].len();
    let mut out: Vec<T> = Vec::new();
    let mut i: usize = 0;
    while i < output_frames
        invariant
            chs == channel_views(channels@),
            c == chs.len(),
            i <= output_frames,
            out@ == interleaved(chs, i as int),
        decreases output_frames - i,
    {
        let mut ch: usize = 0;
        while ch < c
            invariant
                chs == channel_views(channels@),
                c == chs.len(),
                ch <= c,
                out@ == interleaved(chs, i as int) + frame_of(chs, i as int, ch as int),
            decreases c - ch,
        {
            let ghost before = out@;
            if i < channels[ch].len() {
                out.push(channels[ch][i]);
            }
            proof {
                assert(chs[ch as int] == channels@[ch as int]@);
                assert(out@ =~= interleaved(chs, i as int) + frame_of(chs, i as int, ch + 1));
            }
            ch = ch + 1;
        }
        i = i + 1;
    }
    out
}

/// Frame `i` of split samples, over the first `k` channels, is the run of
/// interleaved samples from `i * c` of length `k`, cut at the end.
proof fn lemma_frame_of_deinterleaved<T>(x: Seq<T>, c: int, i: int, k: int)
    requires
        c > 0,
        0 <= k <= c,
        0 <= i,
        i * c < x.len(),
    ensures
        frame_of(deinterleaved(x, c as nat), i, k) == x.subrange(
            i * c,
            vstd::math::min(i * c + k, x.len() as int),
        ),
    decreases k,
{
    let d = deinterleaved(x, c as nat);
    if k > 0 {
        lemma_frame_of_deinterleaved(x, c, i, k - 1);
        lemma_channel_len(x.len() as int, c, k - 1, i);
        assert(d[k - 1] == channel_of(x, c, k - 1));
        if i * c + (k - 1) < x.len() {
            assert(d[k - 1][i] == x[i * c + (k - 1)]);
            assert(frame_of(d, i, k) =~= x.subrange(i * c, i * c + k));
        } else {
            assert(frame_of(d, i, k) =~= x.subrange(i * c, x.len() as int));
        }
    }
}

/// The first `i` frames of split samples are the first `i * c` interleaved
/// samples (all of them once past the end).
proof fn lemma_interleaved_prefix<T>(x: Seq<T>, c: int, i: int)
    requires
        c > 0,
        0 <= i <= channel_len(x.len() as int, c, 0),
    ensures
        interleaved(deinterleaved(x, c as nat), i) == x.take(
            vstd::math::min(i * c, x.len() as int),
        ),
    decreases i,
{
    let d = deinterleaved(x, c as nat);
    if i == 0 {
        assert(x.take(0) =~= Seq::<T>::empty());
    } else {
        lemma_interleaved_prefix(x, c, i - 1);
        lemma_channel_len(x.len() as int, c, 0, i - 1);
        assert((i - 1) * c + c == i * c) by (nonlinear_arith);
        assert(d.len() == c);
        lemma_frame_of_deinterleaved(x, c, i - 1, c);
        assert((i - 1) * c < x.len());
        assert(vstd::math::min((i - 1) * c, x.len() as int) == (i - 1) * c);
        assert(interleaved(d, i) == interleaved(d, i - 1) + frame_of(d, i - 1, c));
        assert(frame_of(d, i - 1, c) == x.subrange((i - 1) * c, vstd::math::min(i * c, x.len() as int)));
        assert(x.take((i - 1) * c) + x.subrange((i - 1) * c, vstd::math::min(i * c, x.len() as int))
            =~= x.take(vstd::math::min(i * c, x.len() as int)));
    }
}

/// Splitting interleaved samples into channels and joining them again gives
/// the samples back, a trailing partial frame included.
pub proof fn lemma_interleave_deinterleave<T>(x: Seq<T>, c: nat)
    requires
        c > 0,
    ensures
        interleaved(deinterleaved(x, c), deinterleaved(x, c)[0].len() as int) == x,
{
    let n0 = channel_len(x.len() as int, c as int, 0);
    assert(deinterleaved(x, c)[0].len() == n0);
    lemma_interleaved_prefix(x, c as int, n0);
    // n0 frames cover every sample
    lemma_channel_len(x.len() as int, c as int, 0, n0);
    assert(n0 * c >= x.len());
    assert(x.take(x.len() as int) =~= x);
}

} // verus!
