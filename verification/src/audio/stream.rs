//! The sample stream of `pw-record`.
use vstd::prelude::*;

use crate::audio::layout::PipeWireCaptureLayout;
use crate::audio::mono::{
    channel_samples, downmix_gives_one_sample_per_frame, downmix_takes_one_of_each_frame,
    downmixed, frame_count, has_one_of_each_frame, mono, picking_distributes, signals_join,
    strongest_channel_is_a_channel, PipeWireMonoProcessor, ProcessorView,
};
use crate::audio::samples::{
    decoded, decoding_distributes, delivered, frames_are_even, framing_ignores_piece_bounds, kept_back, whole_frames,
    SampleFramer,
};

verus! {

/// What a read from `pw-record` leads to.
#[derive(Debug, PartialEq, Eq)]
pub enum StreamStep {
    /// The stream has ended.
    End,
    /// No frame is complete yet.
    Wait,
    /// A chunk of mono samples.
    Chunk(Vec<i16>),
}

/// What a [`StreamStep`] stands for.
pub enum StepView {
    End,
    Wait,
    Chunk(Seq<i16>),
}

impl View for StreamStep {
    type V = StepView;

    open spec fn view(&self) -> StepView {
        match self {
            StreamStep::End => StepView::End,
            StreamStep::Wait => StepView::Wait,
            StreamStep::Chunk(samples) => StepView::Chunk(samples@),
        }
    }
}

/// Raw samples on their way to mono chunks.
pub struct PipeWireStream {
    framer: SampleFramer,
    processor: PipeWireMonoProcessor,
}

/// What a [`PipeWireStream`] stands for.
pub struct StreamView {
    /// The bytes that came in and are not part of a chunk.
    pub pending: Seq<u8>,
    /// The downmix.
    pub processor: ProcessorView,
}

impl View for PipeWireStream {
    type V = StreamView;

    closed spec fn view(&self) -> StreamView {
        StreamView { pending: self.framer.pending(), processor: self.processor@ }
    }
}

/// The stream and what it leads to once `bytes` have been read.
pub open spec fn after_read(s: StreamView, bytes: Seq<u8>) -> (StreamView, StepView) {
    let frame = (2 * s.processor.channels) as nat;
    let complete = delivered(s.pending, bytes, frame);
    let pending = kept_back(s.pending, bytes, frame);
    if bytes.len() == 0 {
        (s, StepView::End)
    } else if complete.len() == 0 {
        (StreamView { pending, ..s }, StepView::Wait)
    } else {
        let (processor, mono) = downmixed(s.processor, decoded(complete));
        (StreamView { pending, processor }, StepView::Chunk(mono))
    }
}

impl PipeWireStream {
    /// Frames have the channels that are reduced.
    pub closed spec fn wf(&self) -> bool {
        &&& self.framer.wf()
        &&& self.processor@.wf()
        &&& self.framer.frame() == 2 * self.processor@.channels
    }

    /// A stream of samples in `layout`, before its first byte.
    pub fn new(layout: &PipeWireCaptureLayout) -> (r: Self)
        requires
            layout.channels > 0,
        ensures
            r.wf(),
            r@ == fresh_stream(layout.channels as int, layout.apple_t2),
    {
        PipeWireStream {
            framer: SampleFramer::new(layout.channels),
            processor: PipeWireMonoProcessor::new(layout.channels as usize, layout.apple_t2),
        }
    }

    /// Takes in what one read returned; a read that returned no bytes is the last.
    pub fn on_read(&mut self, bytes: &[u8]) -> (r: StreamStep)
        requires
            old(self).wf(),
        ensures
            final(self).wf(),
            (final(self)@, r@) == after_read(old(self)@, bytes@),
    {
        if bytes.len() == 0 {
            return StreamStep::End;
        }
        match self.framer.push(bytes) {
            Some(samples) => StreamStep::Chunk(self.processor.downmix(samples.as_slice())),
            None => StreamStep::Wait,
        }
    }
}

/// The parts one behind another.
pub open spec fn in_one<T>(parts: Seq<Seq<T>>) -> Seq<T>
    decreases parts.len(),
{
    if parts.len() == 0 {
        Seq::empty()
    } else {
        in_one(parts.drop_last()) + parts.last()
    }
}

/// The stream after all of `reads`, and the chunks that they led to.
pub open spec fn after_reads(s: StreamView, reads: Seq<Seq<u8>>) -> (StreamView, Seq<Seq<i16>>)
    decreases reads.len(),
{
    if reads.len() == 0 {
        (s, Seq::empty())
    } else {
        let (t, chunks) = after_reads(s, reads.drop_last());
        let (u, step) = after_read(t, reads.last());
        match step {
            StepView::Chunk(samples) => (u, chunks.push(samples)),
            _ => (u, chunks),
        }
    }
}

/// A stream in a layout of `channels` channels, before its first byte.
pub open spec fn fresh_stream(channels: int, apple_t2: bool) -> StreamView {
    StreamView {
        pending: Seq::empty(),
        processor: ProcessorView { channels, apple_t2, selected: None },
    }
}

/// Where reads end leaves no trace: for every way of cutting a stream of bytes into
/// reads that return some, no chunk is empty, the chunks hold for each complete frame
/// of the stream one of its samples, an Apple T2 microphone array comes out as the one
/// channel that it keeps, another source of one channel as the samples of the stream,
/// and the read behind them that returns nothing ends it.
pub proof fn chunks_ignore_where_reads_end(channels: int, apple_t2: bool, reads: Seq<Seq<u8>>)
    requires
        channels >= 1,
        forall|i: int| 0 <= i < reads.len() ==> (#[trigger] reads[i]).len() > 0,
    ensures
        ({
            let bytes = in_one(reads);
            let (after, chunks) = after_reads(fresh_stream(channels, apple_t2), reads);
            &&& forall|i: int| 0 <= i < chunks.len() ==> (#[trigger] chunks[i]).len() > 0
            &&& in_one(chunks).len() == bytes.len() as int / 2 / channels
            &&& has_one_of_each_frame(in_one(chunks), decoded(bytes), channels)
            &&& apple_t2 && chunks.len() > 0 ==> {
                &&& after.processor.selected is Some
                &&& 0 <= after.processor.selected->0 < channels
                &&& in_one(chunks) == channel_samples(
                    decoded(bytes),
                    channels,
                    after.processor.selected->0,
                )
            }
            &&& channels == 1 && !apple_t2 ==> in_one(chunks) == decoded(bytes)
            &&& after_read(after, Seq::empty()) == (after, StepView::End)
        }),
{
    let s = fresh_stream(channels, apple_t2);
    let bytes = in_one(reads);
    let frame = (2 * channels) as nat;
    let samples = in_one(after_reads(s, reads).1);
    reads_add_up(s, reads);
    assert(s.pending + bytes =~= bytes);
    let q = bytes.len() as int / 2 / channels;
    let whole = delivered(s.pending, bytes, frame);
    whole_frames_by_count(bytes.len(), channels);
    assert(decoded(whole).len() == q * channels);
    assert(samples.len() == q) by (nonlinear_arith)
        requires
            samples.len() * channels == q * channels,
            channels >= 1,
    ;
    let channel = match after_reads(s, reads).0.processor.selected {
        Some(channel) => channel,
        None => 0,
    };
    rest_adds_nothing(bytes, channels, samples, channel);
    if channels == 1 && !apple_t2 {
        assert(decoded(whole) =~= decoded(bytes));
    }
}

/// The bytes behind the whole frames of a stream add nothing to a channel of it, nor
/// to a signal with one sample of each frame.
proof fn rest_adds_nothing(bytes: Seq<u8>, channels: int, signal: Seq<i16>, channel: int)
    requires
        0 <= channel < channels,
    ensures
        ({
            let whole = decoded(
                bytes.take(whole_frames(bytes.len(), (2 * channels) as nat) as int),
            );
            &&& channel_samples(whole, channels, channel) == channel_samples(
                decoded(bytes),
                channels,
                channel,
            )
            &&& has_one_of_each_frame(signal, whole, channels) ==> has_one_of_each_frame(
                signal,
                decoded(bytes),
                channels,
            )
        }),
{
    let n = whole_frames(bytes.len(), (2 * channels) as nat) as int;
    let whole = decoded(bytes.take(n));
    let rest = decoded(bytes.skip(n));
    let q = bytes.len() as int / 2 / channels;
    whole_frames_by_count(bytes.len(), channels);
    assert(bytes =~= bytes.take(n) + bytes.skip(n));
    decoding_distributes(bytes.take(n), bytes.skip(n));
    assert(whole.len() == q * channels);
    vstd::arithmetic::div_mod::lemma_mod_multiples_basic(q, channels);
    vstd::arithmetic::div_mod::lemma_div_by_multiple(q, channels);
    vstd::arithmetic::div_mod::lemma_div_pos_is_pos(rest.len() as int, channels);
    picking_distributes(whole, rest, channels, channel);
    assert(channel_samples(whole + rest, channels, channel).len() == q);
    assert(frame_count(rest, channels) == 0);
    assert(channel_samples(rest, channels, channel) =~= Seq::<i16>::empty());
    assert(channel_samples(whole, channels, channel) =~= channel_samples(
        whole + rest,
        channels,
        channel,
    ));
    if has_one_of_each_frame(signal, whole, channels) {
        signals_join(signal, whole, Seq::empty(), rest, channels);
        assert(signal + Seq::empty() =~= signal);
    }
}

/// What reads leave pending and what their chunks hold, by the bytes they returned.
proof fn reads_add_up(s: StreamView, reads: Seq<Seq<u8>>)
    requires
        s.processor.wf(),
        s.pending.len() < 2 * s.processor.channels,
        forall|i: int| 0 <= i < reads.len() ==> (#[trigger] reads[i]).len() > 0,
    ensures
        ({
            let p = s.processor;
            let frame = (2 * p.channels) as nat;
            let (t, chunks) = after_reads(s, reads);
            let whole = decoded(delivered(s.pending, in_one(reads), frame));
            &&& t.processor.wf()
            &&& t.processor.channels == p.channels
            &&& t.processor.apple_t2 == p.apple_t2
            &&& t.pending == kept_back(s.pending, in_one(reads), frame)
            &&& forall|i: int| 0 <= i < chunks.len() ==> (#[trigger] chunks[i]).len() > 0
            &&& in_one(chunks).len() * p.channels == whole.len()
            &&& has_one_of_each_frame(in_one(chunks), whole, p.channels)
            &&& p.apple_t2 ==> match t.processor.selected {
                Some(channel) => in_one(chunks) == channel_samples(whole, p.channels, channel),
                None => chunks.len() == 0,
            }
            &&& p.channels == 1 && !p.apple_t2 ==> in_one(chunks) == whole
        }),
    decreases reads.len(),
{
    let p = s.processor;
    let frame = (2 * p.channels) as nat;
    if reads.len() == 0 {
        assert(s.pending + in_one(reads) =~= s.pending);
        vstd::arithmetic::div_mod::lemma_basic_div(s.pending.len() as int, frame as int);
        assert(whole_frames(s.pending.len(), frame) == 0) by (nonlinear_arith)
            requires
                s.pending.len() / frame == 0,
        ;
        assert(s.pending.skip(0) =~= s.pending);
        assert(decoded(delivered(s.pending, in_one(reads), frame)) =~= Seq::<i16>::empty());
        assert(in_one(after_reads(s, reads).1) =~= Seq::<i16>::empty());
        assert(0 * p.channels == 0);
        vstd::arithmetic::div_mod::lemma_basic_div(0, p.channels);
        if let Some(channel) = p.selected {
            assert(channel_samples(Seq::empty(), p.channels, channel) =~= Seq::empty());
        }
    } else {
        let earlier = reads.drop_last();
        let last = reads.last();
        assert forall|i: int| 0 <= i < earlier.len() implies (#[trigger] earlier[i]).len() > 0 by {
            assert(reads[i].len() > 0);
        }
        assert(reads[reads.len() - 1].len() > 0);
        reads_add_up(s, earlier);
        let (t, chunks) = after_reads(s, earlier);
        let complete = delivered(t.pending, last, frame);
        framing_ignores_piece_bounds(s.pending, in_one(earlier), last, frame);
        frames_are_even((t.pending + last).len(), frame);
        let before = decoded(delivered(s.pending, in_one(earlier), frame));
        let whole = decoded(delivered(s.pending, in_one(reads), frame));
        assert(whole == before + decoded(complete));
        if complete.len() == 0 {
            assert(decoded(complete) =~= Seq::<i16>::empty());
            assert(whole =~= before);
        } else {
            chunk_has_one_sample_per_frame(t.processor, t.pending + last);
            let (u, mono) = downmixed(t.processor, decoded(complete));
            let after = chunks.push(mono);
            let so_far = in_one(chunks);
            vstd::arithmetic::div_mod::lemma_mod_multiples_basic(so_far.len() as int, p.channels);
            downmix_takes_one_of_each_frame(t.processor, decoded(complete));
            signals_join(so_far, before, mono, decoded(complete), p.channels);
            if let Some(channel) = u.selected {
                picking_distributes(before, decoded(complete), p.channels, channel);
                if t.processor.selected is None {
                    vstd::arithmetic::div_mod::lemma_basic_div(0, p.channels);
                    assert(so_far =~= channel_samples(before, p.channels, channel));
                }
            }
            assert(after.drop_last() =~= chunks);
            assert(in_one(after) == in_one(chunks) + mono);
            assert((in_one(chunks).len() + mono.len()) * p.channels == in_one(chunks).len()
                * p.channels + mono.len() * p.channels) by (nonlinear_arith);
            assert forall|i: int| 0 <= i < after.len() implies (#[trigger] after[i]).len() > 0 by {
                if i < chunks.len() {
                    assert(after[i] == chunks[i]);
                }
            }
        }
    }
}

/// The bytes of whole frames, by the number of frames.
proof fn whole_frames_by_count(available: nat, channels: int)
    requires
        channels >= 1,
    ensures
        ({
            let frames = available as int / 2 / channels;
            let whole = whole_frames(available, (2 * channels) as nat);
            &&& frames >= 0
            &&& whole == 2 * (frames * channels)
            &&& whole <= available
            &&& whole > 0 ==> frames > 0
            &&& channels == 1 ==> whole / 2 == available / 2
        }),
{
    let n = available as int;
    let f = 2 * channels;
    let q = n / f;
    vstd::arithmetic::div_mod::lemma_div_denominator(n, 2, channels);
    vstd::arithmetic::div_mod::lemma_fundamental_div_mod(n, f);
    vstd::arithmetic::div_mod::lemma_div_pos_is_pos(n, f);
    assert(f * q == q * f && q * f == 2 * (q * channels)) by (nonlinear_arith)
        requires
            f == 2 * channels,
    ;
    assert(whole_frames(available, f as nat) == q * f);
    if q == 0 {
        assert(q * f == 0) by (nonlinear_arith)
            requires
                q == 0,
        ;
    }
}

/// The chunk for the complete frames of `all` holds one sample for each of them.
proof fn chunk_has_one_sample_per_frame(p: ProcessorView, all: Seq<u8>)
    requires
        p.wf(),
        whole_frames(all.len(), (2 * p.channels) as nat) > 0,
    ensures
        ({
            let complete = all.take(whole_frames(all.len(), (2 * p.channels) as nat) as int);
            let (q, mono) = downmixed(p, decoded(complete));
            &&& q.wf()
            &&& mono.len() > 0
            &&& mono.len() * p.channels == decoded(complete).len()
        }),
{
    let frame = (2 * p.channels) as nat;
    let k = all.len() as int / 2 / p.channels;
    let complete = all.take(whole_frames(all.len(), frame) as int);
    let samples = decoded(complete);
    whole_frames_by_count(all.len(), p.channels);
    assert(samples.len() == k * p.channels);
    vstd::arithmetic::div_mod::lemma_div_by_multiple(k, p.channels);
    assert(frame_count(samples, p.channels) == k);
    downmix_gives_one_sample_per_frame(p, samples);
    strongest_channel_is_a_channel(samples, p.channels);
}

/// What one read leads to: its end where it returned nothing; nothing yet where less
/// than a frame has come in; else the chunk that all complete frames give once they are
/// reduced to one channel, with the bytes behind them kept for the next read. A source
/// that is no Apple T2 array is reduced to the strongest channel of just these frames.
pub proof fn reads_lead_to_the_mono_of_their_frames(s: StreamView, bytes: Seq<u8>)
    requires
        s.processor.channels >= 1,
    ensures
        ({
            let all = s.pending + bytes;
            let frame = 2 * s.processor.channels;
            let whole = all.len() as int / frame * frame;
            let (t, step) = after_read(s, bytes);
            if bytes.len() == 0 {
                t == s && step == StepView::End
            } else if all.len() < frame {
                t == (StreamView { pending: all, processor: s.processor }) && step == StepView::Wait
            } else {
                &&& t.pending == all.skip(whole)
                &&& step == StepView::Chunk(
                    downmixed(s.processor, decoded(all.take(whole))).1,
                )
                &&& t.processor == downmixed(s.processor, decoded(all.take(whole))).0
                &&& !s.processor.apple_t2 ==> step == StepView::Chunk(
                    mono(decoded(all.take(whole)), s.processor.channels),
                ) && t.processor == s.processor
            }
        }),
{
    let all = s.pending + bytes;
    let n = all.len() as int;
    let frame = 2 * s.processor.channels;
    if bytes.len() > 0 {
        if n < frame {
            vstd::arithmetic::div_mod::lemma_basic_div(n, frame);
            assert(n / frame * frame == 0) by (nonlinear_arith)
                requires
                    n / frame == 0,
            ;
            assert(all.skip(0) =~= all);
        } else {
            vstd::arithmetic::div_mod::lemma_fundamental_div_mod(n, frame);
            assert(n / frame * frame > 0 && n / frame * frame <= n) by (nonlinear_arith)
                requires
                    n == frame * (n / frame) + n % frame,
                    0 <= n % frame < frame,
                    n >= frame,
                    frame > 0,
            ;
        }
    }
}

/// A step stands for the end, for waiting, or for the samples of its chunk.
pub proof fn steps_stand_for_what_they_hold(step: StreamStep)
    ensures
        step is End <==> step@ is End,
        step is Wait <==> step@ is Wait,
        step matches StreamStep::Chunk(samples) ==> step@ == StepView::Chunk(samples@),
{
}

/// A stream before its first byte has nothing pending and has selected no channel; it has
/// the channels that it was made for, and is that of an Apple T2 array or not as it was
/// made.
pub proof fn streams_begin_with_nothing(channels: int, apple_t2: bool)
    ensures
        fresh_stream(channels, apple_t2).pending.len() == 0,
        fresh_stream(channels, apple_t2).processor.channels == channels,
        fresh_stream(channels, apple_t2).processor.apple_t2 == apple_t2,
        fresh_stream(channels, apple_t2).processor.selected is None,
{
}

} // verus!
