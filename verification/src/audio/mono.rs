//! Reducing interleaved channels to one.
use vstd::prelude::*;

verus! {

/// The frames of `channels` samples in `samples`; an incomplete one at the end is
/// left out.
pub open spec fn frame_count(samples: Seq<i16>, channels: int) -> int {
    samples.len() as int / channels
}

/// The sample of `channel` in the frame numbered `frame`.
pub open spec fn at_frame(samples: Seq<i16>, channels: int, channel: int, frame: int) -> i16 {
    samples[frame * channels + channel]
}

/// The samples of one channel.
pub open spec fn channel_samples(samples: Seq<i16>, channels: int, channel: int) -> Seq<i16> {
    Seq::new(
        frame_count(samples, channels) as nat,
        |frame: int| at_frame(samples, channels, channel, frame),
    )
}

/// The sum of the squares of `signal`.
pub open spec fn energy(signal: Seq<i16>) -> nat
    decreases signal.len(),
{
    if signal.len() == 0 {
        0
    } else {
        energy(signal.drop_last()) + square(signal.last())
    }
}

/// The square of a sample.
pub open spec fn square(sample: i16) -> nat {
    (sample * sample) as nat
}

/// The energy of a channel, as far as 64 bits hold it.
pub open spec fn loudness(samples: Seq<i16>, channels: int, channel: int) -> u64 {
    let sum = energy(channel_samples(samples, channels, channel));
    if sum <= u64::MAX {
        sum as u64
    } else {
        u64::MAX
    }
}

/// Whether no channel is louder than `channel`, and those behind it are less loud.
pub open spec fn is_strongest(samples: Seq<i16>, channels: int, channel: int) -> bool {
    &&& 0 <= channel < channels
    &&& forall|c: int|
        0 <= c < channels ==> #[trigger] loudness(samples, channels, c) <= loudness(
            samples,
            channels,
            channel,
        )
    &&& forall|c: int|
        channel < c < channels ==> #[trigger] loudness(samples, channels, c) < loudness(
            samples,
            channels,
            channel,
        )
}

/// The loudest channel; of several the last.
pub open spec fn strongest(samples: Seq<i16>, channels: int) -> int {
    choose|channel: int| is_strongest(samples, channels, channel)
}

/// One channel is the strongest.
pub proof fn strongest_is_unique(samples: Seq<i16>, channels: int, a: int, b: int)
    requires
        is_strongest(samples, channels, a),
        is_strongest(samples, channels, b),
    ensures
        a == b,
{
    assert(loudness(samples, channels, a) <= loudness(samples, channels, b));
    assert(loudness(samples, channels, b) <= loudness(samples, channels, a));
}

/// Some channel is the strongest, and it is one of the channels.
pub proof fn strongest_channel_is_a_channel(samples: Seq<i16>, channels: int)
    requires
        channels > 0,
    ensures
        is_strongest(samples, channels, strongest(samples, channels)),
        0 <= strongest(samples, channels) < channels,
{
    let best = strongest_of_first(samples, channels, channels);
    assert(is_strongest(samples, channels, best));
}

/// The strongest of the first `n` channels.
proof fn strongest_of_first(samples: Seq<i16>, channels: int, n: int) -> (best: int)
    requires
        0 < n <= channels,
    ensures
        0 <= best < n,
        forall|c: int|
            0 <= c < n ==> #[trigger] loudness(samples, channels, c) <= loudness(
                samples,
                channels,
                best,
            ),
        forall|c: int|
            best < c < n ==> #[trigger] loudness(samples, channels, c) < loudness(
                samples,
                channels,
                best,
            ),
    decreases n,
{
    if n == 1 {
        0
    } else {
        let best = strongest_of_first(samples, channels, n - 1);
        if loudness(samples, channels, n - 1) >= loudness(samples, channels, best) {
            n - 1
        } else {
            best
        }
    }
}

/// A frame lies within the samples.
proof fn frame_in_bounds(samples: Seq<i16>, channels: int, frame: int)
    requires
        channels > 0,
        0 <= frame < frame_count(samples, channels),
    ensures
        0 <= frame * channels,
        frame * channels + channels <= samples.len(),
{
    let len = samples.len() as int;
    let q = len / channels;
    vstd::arithmetic::div_mod::lemma_fundamental_div_mod(len, channels);
    assert(channels * q <= len);
    assert(frame * channels >= 0) by (nonlinear_arith)
        requires
            frame >= 0,
            channels > 0,
    ;
    assert(frame * channels + channels <= channels * q) by (nonlinear_arith)
        requires
            frame + 1 <= q,
            channels > 0,
    ;
}

/// The samples of one channel of interleaved `samples`.
fn pick_channel(samples: &[i16], channels: usize, channel: usize) -> (r: Vec<i16>)
    requires
        channel < channels,
    ensures
        r@ == channel_samples(samples@, channels as int, channel as int),
{
    let frames: usize = samples.len() / channels;
    let mut picked: Vec<i16> = Vec::new();
    let mut frame: usize = 0;
    let mut start: usize = 0;
    let ghost all = channel_samples(samples@, channels as int, channel as int);
    while frame < frames
        invariant
            channel < channels,
            frames == frame_count(samples@, channels as int),
            frame <= frames,
            start == frame * channels,
            start <= samples.len(),
            all == channel_samples(samples@, channels as int, channel as int),
            picked@ == all.take(frame as int),
        decreases frames - frame,
    {
        proof {
            frame_in_bounds(samples@, channels as int, frame as int);
            assert((frame + 1) * channels == frame * channels + channels) by (nonlinear_arith);
        }
        picked.push(samples[start + channel]);
        assert(all[frame as int] == samples@[start + channel]);
        assert(all.take(frame + 1) =~= all.take(frame as int).push(all[frame as int]));
        start += channels;
        frame += 1;
    }
    assert(all.take(frame as int) =~= all);
    picked
}

/// The sum of the squares of `signal`, as far as 64 bits hold it.
fn bounded_energy(signal: &Vec<i16>) -> (r: u64)
    ensures
        r == if energy(signal@) <= u64::MAX {
            energy(signal@) as u64
        } else {
            u64::MAX
        },
{
    let mut sum: u64 = 0;
    let mut i: usize = 0;
    while i < signal.len()
        invariant
            i <= signal.len(),
            sum == if energy(signal@.take(i as int)) <= u64::MAX {
                energy(signal@.take(i as int)) as u64
            } else {
                u64::MAX
            },
        decreases signal.len() - i,
    {
        let sample: i64 = signal[i] as i64;
        assert(0 <= sample * sample <= 0x4000_0000) by (nonlinear_arith)
            requires
                -0x8000 <= sample <= 0x7fff,
        ;
        assert(signal@.take(i + 1).drop_last() =~= signal@.take(i as int));
        sum = sum.saturating_add((sample * sample) as u64);
        i += 1;
    }
    assert(signal@.take(i as int) =~= signal@);
    sum
}

/// The channel of interleaved `samples` with the most energy; of several the last.
pub fn strongest_channel_index(samples: &[i16], channels: usize) -> (r: usize)
    requires
        channels > 0,
    ensures
        is_strongest(samples@, channels as int, r as int),
        r == strongest(samples@, channels as int),
{
    let mut best: usize = 0;
    let mut most: u64 = bounded_energy(&pick_channel(samples, channels, 0));
    let mut channel: usize = 1;
    while channel < channels
        invariant
            0 <= best < channel <= channels,
            most == loudness(samples@, channels as int, best as int),
            forall|c: int|
                0 <= c < channel ==> #[trigger] loudness(samples@, channels as int, c) <= most,
            forall|c: int|
                best < c < channel ==> #[trigger] loudness(samples@, channels as int, c) < most,
        decreases channels - channel,
    {
        let level: u64 = bounded_energy(&pick_channel(samples, channels, channel));
        assert(level == loudness(samples@, channels as int, channel as int));
        if level >= most {
            best = channel;
            most = level;
        }
        channel += 1;
    }
    proof {
        assert(is_strongest(samples@, channels as int, best as int));
        strongest_is_unique(
            samples@,
            channels as int,
            best as int,
            strongest(samples@, channels as int),
        );
    }
    best
}

/// What remains of interleaved samples once they are reduced to one channel.
pub open spec fn mono(samples: Seq<i16>, channels: int) -> Seq<i16> {
    if channels <= 1 {
        samples
    } else {
        channel_samples(samples, channels, strongest(samples, channels))
    }
}

/// Reduce an interleaved microphone stream to mono by retaining the channel
/// with the strongest signal in this chunk. This handles microphone arrays
/// whose PipeWire positions cannot be remixed to `MONO` (notably Apple T2's
/// AUX0/AUX1/AUX2 array), and is also useful for multichannel audio interfaces
/// where only one input is connected.
pub fn strongest_channel_mono(samples: &[i16], channels: usize) -> (r: Vec<i16>)
    ensures
        r@ == mono(samples@, channels as int),
{
    if channels <= 1 {
        return copied(samples);
    }
    let channel: usize = strongest_channel_index(samples, channels);
    pick_channel(samples, channels, channel)
}

/// A copy of `samples`.
fn copied(samples: &[i16]) -> (r: Vec<i16>)
    ensures
        r@ == samples@,
{
    let mut copy: Vec<i16> = Vec::new();
    append_samples(&mut copy, samples);
    copy
}

/// Adds `samples` behind those in `all`.
fn append_samples(all: &mut Vec<i16>, samples: &[i16])
    ensures
        final(all)@ == old(all)@ + samples@,
{
    let mut i: usize = 0;
    while i < samples.len()
        invariant
            i <= samples.len(),
            all@ == old(all)@ + samples@.take(i as int),
        decreases samples.len() - i,
    {
        all.push(samples[i]);
        assert(samples@.take(i + 1) =~= samples@.take(i as int).push(samples@[i as int]));
        i += 1;
    }
    assert(samples@.take(i as int) =~= samples@);
}

/// The samples of `chunks`, one chunk behind another.
pub open spec fn concatenated(chunks: Seq<Vec<i16>>) -> Seq<i16>
    decreases chunks.len(),
{
    if chunks.len() == 0 {
        Seq::empty()
    } else {
        concatenated(chunks.drop_last()) + chunks.last()@
    }
}

/// All samples of the chunks that a capture left behind.
pub fn collect_samples(chunks: &Vec<Vec<i16>>) -> (r: Vec<i16>)
    ensures
        r@ == concatenated(chunks@),
{
    let mut all: Vec<i16> = Vec::new();
    let mut i: usize = 0;
    while i < chunks.len()
        invariant
            i <= chunks.len(),
            all@ == concatenated(chunks@.take(i as int)),
        decreases chunks.len() - i,
    {
        append_samples(&mut all, chunks[i].as_slice());
        assert(chunks@.take(i + 1).drop_last() =~= chunks@.take(i as int));
        i += 1;
    }
    assert(chunks@.take(i as int) =~= chunks@);
    all
}

/// Stateful downmix for native PipeWire sources.
///
/// An Apple T2 microphone array keeps the channel that was the strongest in its
/// first chunk, so that the filter that conditions the signal afterwards sees one
/// channel throughout. Any other source is reduced to the strongest channel of
/// each chunk.
pub struct PipeWireMonoProcessor {
    channels: usize,
    apple_t2: bool,
    selected_channel: Option<usize>,
}

/// What a [`PipeWireMonoProcessor`] stands for.
pub struct ProcessorView {
    /// The number of interleaved channels.
    pub channels: int,
    /// Whether the source is an Apple T2 microphone array.
    pub apple_t2: bool,
    /// The channel that is kept.
    pub selected: Option<int>,
}

impl View for PipeWireMonoProcessor {
    type V = ProcessorView;

    closed spec fn view(&self) -> ProcessorView {
        ProcessorView {
            channels: self.channels as int,
            apple_t2: self.apple_t2,
            selected: match self.selected_channel {
                Some(channel) => Some(channel as int),
                None => None,
            },
        }
    }
}

impl ProcessorView {
    /// There is a channel, and the selected one is among them.
    pub open spec fn wf(self) -> bool {
        &&& self.channels >= 1
        &&& match self.selected {
            Some(channel) => 0 <= channel < self.channels,
            None => true,
        }
    }
}

/// The channel that an Apple T2 microphone array is reduced to: the selected one,
/// else the strongest.
pub open spec fn kept_channel(p: ProcessorView, samples: Seq<i16>) -> int {
    match p.selected {
        Some(channel) => channel,
        None => strongest(samples, p.channels),
    }
}

/// The processor and the mono signal once `samples` have been reduced.
pub open spec fn downmixed(p: ProcessorView, samples: Seq<i16>) -> (ProcessorView, Seq<i16>) {
    if p.apple_t2 {
        let channel = kept_channel(p, samples);
        (
            ProcessorView { selected: Some(channel), ..p },
            channel_samples(samples, p.channels, channel),
        )
    } else {
        (p, mono(samples, p.channels))
    }
}

impl PipeWireMonoProcessor {
    /// A processor that has seen no samples. Less than one channel counts as one.
    pub fn new(channels: usize, apple_t2: bool) -> (r: Self)
        ensures
            r@.wf(),
            r@ == (ProcessorView {
                channels: if channels == 0 {
                    1
                } else {
                    channels as int
                },
                apple_t2,
                selected: None,
            }),
    {
        PipeWireMonoProcessor {
            channels: if channels == 0 {
                1
            } else {
                channels
            },
            apple_t2,
            selected_channel: None,
        }
    }

    /// Reduces interleaved `samples` to one channel.
    pub fn downmix(&mut self, samples: &[i16]) -> (r: Vec<i16>)
        requires
            old(self)@.wf(),
        ensures
            final(self)@.wf(),
            (final(self)@, r@) == downmixed(old(self)@, samples@),
    {
        if !self.apple_t2 {
            return strongest_channel_mono(samples, self.channels);
        }
        let channel: usize = match self.selected_channel {
            Some(channel) => channel,
            None => strongest_channel_index(samples, self.channels),
        };
        self.selected_channel = Some(channel);
        pick_channel(samples, self.channels, channel)
    }
}

/// An Apple T2 microphone array keeps its channel: the chunk behind one that was
/// reduced is reduced to the same channel, and leaves the processor as it is.
pub proof fn apple_t2_keeps_its_channel(p: ProcessorView, first: Seq<i16>, later: Seq<i16>)
    requires
        p.apple_t2,
    ensures
        ({
            let (q, _) = downmixed(p, first);
            let channel = kept_channel(p, first);
            &&& q.selected == Some(channel)
            &&& downmixed(q, later) == (q, channel_samples(later, p.channels, channel))
        }),
{
}

/// Every frame gives one sample.
pub proof fn downmix_gives_one_sample_per_frame(p: ProcessorView, samples: Seq<i16>)
    requires
        p.wf(),
    ensures
        downmixed(p, samples).1.len() == frame_count(samples, p.channels),
{
    vstd::arithmetic::div_mod::lemma_div_pos_is_pos(samples.len() as int, p.channels);
    if p.channels == 1 {
        assert(samples.len() as int / 1 == samples.len());
    }
}

/// Whether `signal` has one sample of each frame of `samples`, from any channel.
pub open spec fn has_one_of_each_frame(
    signal: Seq<i16>,
    samples: Seq<i16>,
    channels: int,
) -> bool {
    &&& signal.len() == frame_count(samples, channels)
    &&& forall|frame: int|
        0 <= frame < signal.len() ==> is_of_frame(#[trigger] signal[frame], samples, channels, frame)
}

/// Whether `sample` is one of those in the frame numbered `frame`.
pub open spec fn is_of_frame(sample: i16, samples: Seq<i16>, channels: int, frame: int) -> bool {
    exists|c: int|
        0 <= c < channels && sample == #[trigger] at_frame(samples, channels, c, frame)
}

/// Every sample of the mono signal is one of its frame: none is made up, moved or lost.
pub proof fn downmix_takes_one_of_each_frame(p: ProcessorView, samples: Seq<i16>)
    requires
        p.wf(),
    ensures
        has_one_of_each_frame(downmixed(p, samples).1, samples, p.channels),
{
    let signal = downmixed(p, samples).1;
    downmix_gives_one_sample_per_frame(p, samples);
    strongest_channel_is_a_channel(samples, p.channels);
    assert forall|frame: int| 0 <= frame < signal.len() implies is_of_frame(
        #[trigger] signal[frame],
        samples,
        p.channels,
        frame,
    ) by {
        let c = if p.apple_t2 {
            kept_channel(p, samples)
        } else if p.channels == 1 {
            0
        } else {
            strongest(samples, p.channels)
        };
        assert(p.channels == 1 ==> frame * p.channels == frame) by (nonlinear_arith);
        assert(signal[frame] == at_frame(samples, p.channels, c, frame));
    }
}

/// Where the frames of two pieces stand once the pieces are one, the first of which
/// ends with a complete frame.
proof fn frames_of_two_pieces(first: Seq<i16>, second: Seq<i16>, channels: int)
    requires
        channels > 0,
        first.len() as int % channels == 0,
    ensures
        frame_count(first + second, channels) == frame_count(first, channels) + frame_count(
            second,
            channels,
        ),
        forall|frame: int, c: int|
            0 <= frame < frame_count(first, channels) && 0 <= c < channels ==> #[trigger] at_frame(
                first + second,
                channels,
                c,
                frame,
            ) == at_frame(first, channels, c, frame),
        forall|frame: int, c: int|
            frame_count(first, channels) <= frame < frame_count(first + second, channels) && 0 <= c
                < channels ==> #[trigger] at_frame(first + second, channels, c, frame) == at_frame(
                second,
                channels,
                c,
                frame - frame_count(first, channels),
            ),
{
    let len = first.len() as int;
    let q = frame_count(first, channels);
    vstd::arithmetic::div_mod::lemma_fundamental_div_mod(len, channels);
    assert(q * channels == len) by (nonlinear_arith)
        requires
            len == channels * q,
    ;
    vstd::arithmetic::div_mod::lemma_hoist_over_denominator(
        second.len() as int,
        q,
        channels as nat,
    );
    assert forall|frame: int, c: int|
        0 <= frame < q && 0 <= c < channels implies #[trigger] at_frame(
        first + second,
        channels,
        c,
        frame,
    ) == at_frame(first, channels, c, frame) by {
        frame_in_bounds(first, channels, frame);
    }
    assert forall|frame: int, c: int|
        q <= frame < frame_count(first + second, channels) && 0 <= c
            < channels implies #[trigger] at_frame(first + second, channels, c, frame) == at_frame(
        second,
        channels,
        c,
        frame - q,
    ) by {
        frame_in_bounds(second, channels, frame - q);
        assert((frame - q) * channels == frame * channels - q * channels) by (nonlinear_arith);
    }
}

/// A channel can be picked piece by piece, where the first piece ends with a
/// complete frame.
pub proof fn picking_distributes(first: Seq<i16>, second: Seq<i16>, channels: int, channel: int)
    requires
        0 <= channel < channels,
        first.len() as int % channels == 0,
    ensures
        channel_samples(first + second, channels, channel) == channel_samples(
            first,
            channels,
            channel,
        ) + channel_samples(second, channels, channel),
{
    frames_of_two_pieces(first, second, channels);
    vstd::arithmetic::div_mod::lemma_div_pos_is_pos(first.len() as int, channels);
    vstd::arithmetic::div_mod::lemma_div_pos_is_pos(second.len() as int, channels);
    assert(channel_samples(first + second, channels, channel) =~= channel_samples(
        first,
        channels,
        channel,
    ) + channel_samples(second, channels, channel));
}

/// Signals with one sample of each frame of two pieces have, one behind the other,
/// one of each frame of both, where the first piece ends with a complete frame.
pub proof fn signals_join(
    before: Seq<i16>,
    first: Seq<i16>,
    behind: Seq<i16>,
    second: Seq<i16>,
    channels: int,
)
    requires
        channels > 0,
        first.len() as int % channels == 0,
        has_one_of_each_frame(before, first, channels),
        has_one_of_each_frame(behind, second, channels),
    ensures
        has_one_of_each_frame(before + behind, first + second, channels),
{
    let signal = before + behind;
    let samples = first + second;
    let q = frame_count(first, channels);
    frames_of_two_pieces(first, second, channels);
    assert forall|frame: int| 0 <= frame < signal.len() implies is_of_frame(
        #[trigger] signal[frame],
        samples,
        channels,
        frame,
    ) by {
        if frame < q {
            assert(is_of_frame(before[frame], first, channels, frame));
            let c = choose|c: int|
                0 <= c < channels && before[frame] == #[trigger] at_frame(first, channels, c, frame);
            assert(signal[frame] == at_frame(samples, channels, c, frame));
        } else {
            assert(is_of_frame(behind[frame - q], second, channels, frame - q));
            let c = choose|c: int|
                0 <= c < channels && behind[frame - q] == #[trigger] at_frame(
                    second,
                    channels,
                    c,
                    frame - q,
                );
            assert(signal[frame] == at_frame(samples, channels, c, frame));
        }
    }
}

/// The strength of a signal is additive over the signal: a sample alone counts by its
/// square, silence of no length counts nothing, and a signal as much as its parts.
pub proof fn energy_adds_up(first: Seq<i16>, second: Seq<i16>, sample: i16)
    ensures
        energy(first + second) == energy(first) + energy(second),
        energy(seq![sample]) == sample * sample,
        energy(Seq::empty()) == 0,
    decreases second.len(),
{
    if second.len() == 0 {
        assert(first + second =~= first);
        reveal_with_fuel(energy, 2);
        assert(seq![sample].drop_last() =~= Seq::<i16>::empty());
        square_is_product(sample);
    } else {
        energy_adds_up(first, second.drop_last(), sample);
        assert((first + second).drop_last() =~= first + second.drop_last());
    }
}

/// Squares are not negative, and those of samples fit 31 bits.
proof fn square_is_product(sample: i16)
    ensures
        square(sample) == sample * sample,
        0 <= sample * sample <= 0x4000_0000,
{
    assert(0 <= sample * sample <= 0x4000_0000) by (nonlinear_arith)
        requires
            -0x8000 <= sample <= 0x7fff,
    ;
}

/// A signal that is nowhere smaller in magnitude has no less energy; where it is
/// larger in one place, it has more.
pub proof fn larger_signal_has_more_energy(a: Seq<i16>, b: Seq<i16>)
    requires
        a.len() == b.len(),
        forall|i: int| 0 <= i < a.len() ==> magnitude(b[i]) <= magnitude(#[trigger] a[i]),
    ensures
        energy(b) <= energy(a),
        (exists|i: int| 0 <= i < a.len() && magnitude(b[i]) < magnitude(#[trigger] a[i]))
            ==> energy(b) < energy(a),
    decreases a.len(),
{
    if a.len() > 0 {
        let n = a.len() - 1;
        let x = magnitude(a[n]);
        let y = magnitude(b[n]);
        assert forall|i: int| 0 <= i < a.drop_last().len() implies magnitude(b.drop_last()[i])
            <= magnitude(#[trigger] a.drop_last()[i]) by {
            assert(magnitude(b[i]) <= magnitude(a[i]));
        }
        larger_signal_has_more_energy(a.drop_last(), b.drop_last());
        square_is_product(a[n]);
        square_is_product(b[n]);
        assert(y <= x);
        assert(a[n] * a[n] == x * x && b[n] * b[n] == y * y) by (nonlinear_arith)
            requires
                x == a[n] || x == -a[n],
                y == b[n] || y == -b[n],
        ;
        assert(y * y <= x * x && (y < x ==> y * y < x * x)) by (nonlinear_arith)
            requires
                0 <= y <= x,
        ;
        if exists|i: int| 0 <= i < a.len() && magnitude(b[i]) < magnitude(#[trigger] a[i]) {
            let i = choose|i: int| 0 <= i < a.len() && magnitude(b[i]) < magnitude(#[trigger] a[i]);
            if i < n {
                assert(magnitude(b.drop_last()[i]) < magnitude(a.drop_last()[i]));
            }
        }
    }
}

/// How far a sample is from zero.
pub open spec fn magnitude(sample: i16) -> int {
    if sample < 0 {
        -sample
    } else {
        sample as int
    }
}

/// A signal of some length has less energy than 31 bits for each of its samples hold.
proof fn energy_is_bounded(signal: Seq<i16>)
    ensures
        energy(signal) <= 0x4000_0000 * signal.len(),
    decreases signal.len(),
{
    if signal.len() > 0 {
        energy_is_bounded(signal.drop_last());
        square_is_product(signal.last());
    }
}

/// The channel that is selected has the most energy: no channel has more, and those
/// behind it have less. Energies that 64 bits do not hold count as equal.
pub proof fn selected_channel_has_most_energy(samples: Seq<i16>, channels: int, c: int)
    requires
        0 <= c < channels,
    ensures
        ({
            let best = strongest(samples, channels);
            let most = energy(channel_samples(samples, channels, best));
            let other = energy(channel_samples(samples, channels, c));
            &&& 0 <= best < channels
            &&& other <= most || most >= u64::MAX
            &&& c > best ==> other < most && other < u64::MAX
        }),
{
    strongest_channel_is_a_channel(samples, channels);
    let best = strongest(samples, channels);
    assert(loudness(samples, channels, c) <= loudness(samples, channels, best));
    if c > best {
        assert(loudness(samples, channels, c) < loudness(samples, channels, best));
    }
}

/// A channel that another one drowns out, being nowhere smaller in magnitude and
/// somewhere larger, is not selected. This goes for chunks of less than two to the
/// power of 34 frames, whose energies 64 bits hold.
pub proof fn drowned_channel_is_not_selected(
    samples: Seq<i16>,
    channels: int,
    loud: int,
    quiet: int,
    at: int,
)
    requires
        0 <= loud < channels,
        0 <= quiet < channels,
        samples.len() as int / channels < 0x4_0000_0000,
        forall|frame: int|
            0 <= frame < samples.len() as int / channels ==> magnitude(
                #[trigger] at_frame(samples, channels, quiet, frame),
            ) <= magnitude(at_frame(samples, channels, loud, frame)),
        0 <= at < samples.len() as int / channels,
        magnitude(at_frame(samples, channels, quiet, at)) < magnitude(
            at_frame(samples, channels, loud, at),
        ),
    ensures
        strongest(samples, channels) != quiet,
{
    let a = channel_samples(samples, channels, loud);
    let b = channel_samples(samples, channels, quiet);
    assert forall|i: int| 0 <= i < a.len() implies magnitude(b[i]) <= magnitude(#[trigger] a[i]) by {
        assert(b[i] == at_frame(samples, channels, quiet, i));
    }
    assert(magnitude(b[at]) < magnitude(a[at]));
    larger_signal_has_more_energy(a, b);
    energy_is_bounded(a);
    energy_is_bounded(b);
    assert(energy(a) < u64::MAX);
    selected_channel_has_most_energy(samples, channels, loud);
}

/// A sample of a channel stands at the channel's place in its frame, and only
/// complete frames have one.
pub proof fn channels_are_interleaved(samples: Seq<i16>, channels: int, channel: int, frame: int)
    requires
        0 <= channel < channels,
        0 <= frame,
    ensures
        channel_samples(samples, channels, channel).len() == samples.len() as int / channels,
        frame * channels + channels <= samples.len() <==> frame < channel_samples(
            samples,
            channels,
            channel,
        ).len(),
        frame * channels + channels <= samples.len() ==> channel_samples(
            samples,
            channels,
            channel,
        )[frame] == samples[frame * channels + channel],
{
    let len = samples.len() as int;
    let q = len / channels;
    vstd::arithmetic::div_mod::lemma_fundamental_div_mod(len, channels);
    vstd::arithmetic::div_mod::lemma_div_pos_is_pos(len, channels);
    if frame < q {
        frame_in_bounds(samples, channels, frame);
    } else {
        assert(frame * channels + channels > len) by (nonlinear_arith)
            requires
                frame >= q,
                len == channels * q + len % channels,
                len % channels < channels,
                channels > 0,
        ;
    }
}

/// One channel is kept as it is; of several the strongest is kept, and nothing of the
/// others gets into the signal.
pub proof fn mono_is_the_strongest_channel(samples: Seq<i16>, channels: int, frame: int)
    ensures
        channels == 0 || channels == 1 ==> mono(samples, channels) == samples,
        channels > 1 ==> mono(samples, channels).len() == samples.len() as int / channels,
        channels > 1 && 0 <= frame < samples.len() as int / channels ==> mono(
            samples,
            channels,
        )[frame] == samples[frame * channels + strongest(samples, channels)],
{
    if channels > 1 {
        vstd::arithmetic::div_mod::lemma_div_pos_is_pos(samples.len() as int, channels);
    }
}

/// What a processor does with a chunk and with the next: an Apple T2 microphone array
/// takes the strongest channel of its first chunk and stays with it, another source
/// goes by each chunk alone and keeps no memory of it.
pub proof fn processor_selects_once_or_anew(
    channels: int,
    first: Seq<i16>,
    later: Seq<i16>,
    apple_t2: bool,
)
    ensures
        ({
            let fresh = ProcessorView { channels, apple_t2, selected: None };
            let (next, start) = downmixed(fresh, first);
            let (last, rest) = downmixed(next, later);
            &&& next.channels == channels && next.apple_t2 == apple_t2
            &&& apple_t2 ==> {
                let channel = strongest(first, channels);
                &&& start == channel_samples(first, channels, channel)
                &&& rest == channel_samples(later, channels, channel)
                &&& last == next
            }
            &&& !apple_t2 ==> {
                &&& start == mono(first, channels)
                &&& rest == mono(later, channels)
                &&& last == fresh
            }
        }),
{
}

/// Collecting loses nothing and moves nothing: chunks are collected piece by piece, a
/// single one as it is, and none gives no samples.
pub proof fn collecting_joins_chunks(
    first: Seq<Vec<i16>>,
    second: Seq<Vec<i16>>,
    chunk: Vec<i16>,
)
    ensures
        concatenated(first + second) == concatenated(first) + concatenated(second),
        concatenated(seq![chunk]) == chunk@,
        concatenated(Seq::empty()) == Seq::<i16>::empty(),
    decreases second.len(),
{
    if second.len() == 0 {
        assert(first + second =~= first);
        assert(concatenated(first) + concatenated(second) =~= concatenated(first));
        reveal_with_fuel(concatenated, 2);
        assert(seq![chunk].drop_last() =~= Seq::<Vec<i16>>::empty());
        assert(concatenated(seq![chunk]) =~= chunk@);
    } else {
        collecting_joins_chunks(first, second.drop_last(), chunk);
        assert((first + second).drop_last() =~= first + second.drop_last());
        assert(concatenated(first + second) =~= concatenated(first) + concatenated(second));
    }
}

/// A sample of a chunk stands, once collected, as far behind the samples of the chunks
/// before as it stands in its chunk.
pub proof fn collected_samples_stand_in_order(chunks: Seq<Vec<i16>>, i: int, j: int)
    requires
        0 <= i < chunks.len(),
        0 <= j < chunks[i]@.len(),
    ensures
        ({
            let before = concatenated(chunks.take(i)).len();
            &&& concatenated(chunks.take(i + 1)).len() == before + chunks[i]@.len()
            &&& before + j < concatenated(chunks).len()
            &&& concatenated(chunks)[before + j] == chunks[i]@[j]
        }),
{
    let head = chunks.take(i);
    let one = seq![chunks[i]];
    let tail = chunks.skip(i + 1);
    assert(chunks.take(i + 1) =~= head + one);
    assert(chunks =~= head + one + tail);
    collecting_joins_chunks(head, one, chunks[i]);
    collecting_joins_chunks(head + one, tail, chunks[i]);
}

} // verus!
