//! Samples of 16 bits: bytes, frames and channels.
use vstd::prelude::*;

verus! {

/// The sample with low byte `low` and high byte `high`.
pub open spec fn sample_of(low: u8, high: u8) -> i16 {
    let n = low + 256 * high;
    if n < 0x8000 {
        n as i16
    } else {
        (n - 0x10000) as i16
    }
}

/// The samples in little-endian `bytes`; an odd byte at the end is left out.
pub open spec fn decoded(bytes: Seq<u8>) -> Seq<i16> {
    Seq::new(bytes.len() / 2, |i: int| sample_of(bytes[2 * i], bytes[2 * i + 1]))
}

/// The low byte of a sample.
pub open spec fn low_byte(sample: i16) -> u8 {
    (sample as int % 256) as u8
}

/// The high byte of a sample.
pub open spec fn high_byte(sample: i16) -> u8 {
    ((sample as int / 256) % 256) as u8
}

/// The little-endian bytes of `samples`.
pub open spec fn encoded(samples: Seq<i16>) -> Seq<u8> {
    Seq::new(
        2 * samples.len(),
        |i: int|
            if i % 2 == 0 {
                low_byte(samples[i / 2])
            } else {
                high_byte(samples[i / 2])
            },
    )
}

/// Decoding gives back the samples that were encoded.
pub proof fn decoding_undoes_encoding(samples: Seq<i16>)
    ensures
        decoded(encoded(samples)) == samples,
{
    assert forall|i: int| 0 <= i < samples.len() implies #[trigger] decoded(encoded(samples))[i]
        == samples[i] by {
        let s = samples[i] as int;
        assert(encoded(samples)[2 * i] == low_byte(samples[(2 * i) / 2]));
        assert(encoded(samples)[2 * i + 1] == high_byte(samples[(2 * i + 1) / 2]));
    }
    assert(decoded(encoded(samples)) =~= samples);
}

/// Bytes of which the first are an even number decode piece by piece.
pub proof fn decoding_distributes(first: Seq<u8>, second: Seq<u8>)
    requires
        first.len() % 2 == 0,
    ensures
        decoded(first + second) == decoded(first) + decoded(second),
{
    let whole = decoded(first + second);
    let parts = decoded(first) + decoded(second);
    assert forall|i: int| 0 <= i < whole.len() implies #[trigger] whole[i] == parts[i] by {
        if i < decoded(first).len() {
            assert((first + second)[2 * i] == first[2 * i]);
            assert((first + second)[2 * i + 1] == first[2 * i + 1]);
        } else {
            let j = i - decoded(first).len();
            assert((first + second)[2 * i] == second[2 * j]);
            assert((first + second)[2 * i + 1] == second[2 * j + 1]);
        }
    }
    assert(whole =~= parts);
}

/// The sample with low byte `low` and high byte `high`.
fn sample_from_bytes(low: u8, high: u8) -> (r: i16)
    ensures
        r == sample_of(low, high),
{
    let n: i32 = low as i32 + 256 * high as i32;
    if n < 0x8000 {
        n as i16
    } else {
        (n - 0x10000) as i16
    }
}

/// How many of `available` bytes make up whole frames of `frame` bytes.
pub open spec fn whole_frames(available: nat, frame: nat) -> nat {
    available / frame * frame
}

/// The bytes that are delivered once `bytes` have come in behind `pending`.
pub open spec fn delivered(pending: Seq<u8>, bytes: Seq<u8>, frame: nat) -> Seq<u8> {
    let all = pending + bytes;
    all.take(whole_frames(all.len(), frame) as int)
}

/// The bytes that are kept once `bytes` have come in behind `pending`.
pub open spec fn kept_back(pending: Seq<u8>, bytes: Seq<u8>, frame: nat) -> Seq<u8> {
    let all = pending + bytes;
    all.skip(whole_frames(all.len(), frame) as int)
}

/// Cuts a stream of bytes into samples, whole frames at a time.
pub struct SampleFramer {
    frame_bytes: usize,
    pending: Vec<u8>,
}

impl SampleFramer {
    /// Less than a frame is pending.
    pub closed spec fn wf(&self) -> bool {
        &&& self.frame_bytes >= 2
        &&& self.frame_bytes % 2 == 0
        &&& self.pending@.len() < self.frame_bytes
    }

    /// The bytes in a frame.
    pub closed spec fn frame(&self) -> nat {
        self.frame_bytes as nat
    }

    /// The bytes that came in and were not delivered.
    pub closed spec fn pending(&self) -> Seq<u8> {
        self.pending@
    }

    /// A framer for interleaved samples of `channels` channels.
    pub fn new(channels: u16) -> (r: Self)
        requires
            channels > 0,
        ensures
            r.wf(),
            r.frame() == 2 * channels,
            r.pending() == Seq::<u8>::empty(),
    {
        SampleFramer { frame_bytes: 2 * channels as usize, pending: Vec::new() }
    }

    /// Takes in `bytes` and hands out the samples of the frames that are complete
    /// with them; nothing where no frame is.
    pub fn push(&mut self, bytes: &[u8]) -> (r: Option<Vec<i16>>)
        requires
            old(self).wf(),
        ensures
            final(self).wf(),
            final(self).frame() == old(self).frame(),
            final(self).pending() == kept_back(old(self).pending(), bytes@, old(self).frame()),
            (match r {
                Some(samples) => {
                    &&& samples@ == decoded(delivered(old(self).pending(), bytes@, old(self).frame()))
                    &&& samples@.len() > 0
                },
                None => delivered(old(self).pending(), bytes@, old(self).frame()).len() == 0,
            }),
    {
        let ghost all = self.pending@ + bytes@;
        let mut i: usize = 0;
        while i < bytes.len()
            invariant
                i <= bytes.len(),
                self.frame_bytes == old(self).frame_bytes,
                self.pending@ == old(self).pending@ + bytes@.take(i as int),
            decreases bytes.len() - i,
        {
            self.pending.push(bytes[i]);
            assert(bytes@.take(i + 1) =~= bytes@.take(i as int).push(bytes@[i as int]));
            i += 1;
        }
        assert(bytes@.take(i as int) =~= bytes@);
        let len: usize = self.pending.len();
        let over: usize = len % self.frame_bytes;
        proof {
            vstd::arithmetic::div_mod::lemma_mod_decreases(len as nat, self.frame_bytes as nat);
        }
        let whole: usize = len - over;
        proof {
            let l = len as int;
            let f = self.frame_bytes as int;
            vstd::arithmetic::div_mod::lemma_fundamental_div_mod(l, f);
            assert(f * (l / f) == l / f * f) by (nonlinear_arith);
            assert(whole == whole_frames(all.len(), self.frame_bytes as nat));
            frames_are_even(len as nat, self.frame_bytes as nat);
        }
        if whole == 0 {
            assert(all.skip(0) =~= all);
            return None;
        }
        let ghost taken = all.take(whole as int);
        let mut samples: Vec<i16> = Vec::new();
        let mut at: usize = 0;
        while at < whole
            invariant
                at <= whole <= self.pending.len(),
                at % 2 == 0,
                whole % 2 == 0,
                self.frame_bytes == old(self).frame_bytes,
                self.pending@ == all,
                taken == all.take(whole as int),
                samples@ == decoded(taken).take(at as int / 2),
            decreases whole - at,
        {
            let sample: i16 = sample_from_bytes(self.pending[at], self.pending[at + 1]);
            assert(decoded(taken)[at as int / 2] == sample);
            samples.push(sample);
            assert(decoded(taken).take((at + 2) as int / 2) =~= decoded(taken).take(
                at as int / 2,
            ).push(sample));
            at += 2;
        }
        assert(decoded(taken).take(at as int / 2) =~= decoded(taken));
        let mut rest: Vec<u8> = Vec::new();
        while at < len
            invariant
                whole <= at <= len,
                len == self.pending.len(),
                self.frame_bytes == old(self).frame_bytes,
                self.pending@ == all,
                rest@ == all.subrange(whole as int, at as int),
            decreases len - at,
        {
            rest.push(self.pending[at]);
            at += 1;
        }
        assert(rest@ =~= all.skip(whole as int));
        self.pending = rest;
        Some(samples)
    }
}

/// Whole frames of an even number of bytes are an even number of bytes.
pub proof fn frames_are_even(available: nat, frame: nat)
    requires
        frame > 0,
        frame % 2 == 0,
    ensures
        whole_frames(available, frame) % 2 == 0,
{
    let q = available / frame;
    let h = frame / 2;
    assert(q * frame == 2 * (q * h)) by (nonlinear_arith)
        requires
            frame == 2 * h,
    ;
}

/// How a stream is cut into pieces does not matter: what is delivered for two
/// pieces one behind the other, and what is then kept, is what one piece made of
/// both gives.
pub proof fn framing_ignores_piece_bounds(
    pending: Seq<u8>,
    first: Seq<u8>,
    second: Seq<u8>,
    frame: nat,
)
    requires
        frame > 0,
        frame % 2 == 0,
    ensures
        decoded(delivered(pending, first, frame)) + decoded(
            delivered(kept_back(pending, first, frame), second, frame),
        ) == decoded(delivered(pending, first + second, frame)),
        kept_back(kept_back(pending, first, frame), second, frame) == kept_back(
            pending,
            first + second,
            frame,
        ),
{
    let all = pending + (first + second);
    let start = pending + first;
    let n = whole_frames(start.len(), frame);
    let rest = kept_back(pending, first, frame) + second;
    let m = whole_frames(rest.len(), frame);
    let f = frame as int;
    let a = start.len() as int;
    vstd::arithmetic::div_mod::lemma_fundamental_div_mod(a, f);
    assert(f * (a / f) == a / f * f) by (nonlinear_arith);
    assert(n <= a);
    assert(rest.len() == all.len() - n);
    assert(rest =~= all.skip(n as int));
    let t = all.len() as int;
    let r = rest.len() as int;
    vstd::arithmetic::div_mod::lemma_hoist_over_denominator(r, a / f, frame);
    assert(t == r + (a / f) * f);
    assert(t / f == r / f + a / f);
    assert((r / f + a / f) * f == r / f * f + a / f * f) by (nonlinear_arith);
    assert(whole_frames(all.len(), frame) == n + m);
    vstd::arithmetic::div_mod::lemma_fundamental_div_mod(r, f);
    assert(f * (r / f) == r / f * f) by (nonlinear_arith);
    assert(m <= r);
    let one = all.take(n as int);
    let two = rest.take(m as int);
    assert(delivered(pending, first, frame) =~= one);
    assert(all.take((n + m) as int) =~= one + two);
    frames_are_even(start.len(), frame);
    decoding_distributes(one, two);
    assert(rest.skip(m as int) =~= all.skip((n + m) as int));
}

/// A sample is what its two bytes stand for, the low one first, in two's complement.
pub proof fn bytes_are_little_endian(bytes: Seq<u8>, i: int)
    requires
        0 <= i,
        2 * i + 1 < bytes.len(),
    ensures
        decoded(bytes).len() == bytes.len() / 2,
        ({
            let sample = decoded(bytes)[i] as int;
            let number = bytes[2 * i] + 256 * bytes[2 * i + 1];
            number == sample || number == sample + 0x10000
        }),
{
}

/// A sample is written in two bytes that stand for it, the low one first, in two's
/// complement.
pub proof fn samples_are_written_little_endian(samples: Seq<i16>, i: int)
    requires
        0 <= i < samples.len(),
    ensures
        encoded(samples).len() == 2 * samples.len(),
        ({
            let sample = samples[i] as int;
            let number = encoded(samples)[2 * i] + 256 * encoded(samples)[2 * i + 1];
            number == sample || number == sample + 0x10000
        }),
{
    let sample = samples[i];
    assert(encoded(samples)[2 * i] == low_byte(samples[(2 * i) / 2]));
    assert(encoded(samples)[2 * i + 1] == high_byte(samples[(2 * i + 1) / 2]));
    assert((2 * i) / 2 == i && (2 * i + 1) / 2 == i);
    assert(0 <= sample as int % 256 < 256);
}

/// Framing loses no byte and holds back no frame: what is delivered and what is kept
/// are, one behind the other, what came in; what is delivered are whole frames, and
/// what is kept is less than one.
pub proof fn framing_delivers_all_whole_frames(pending: Seq<u8>, bytes: Seq<u8>, frame: nat)
    requires
        frame > 0,
    ensures
        delivered(pending, bytes, frame) + kept_back(pending, bytes, frame) == pending + bytes,
        delivered(pending, bytes, frame).len() % frame == 0,
        kept_back(pending, bytes, frame).len() < frame,
{
    let all = pending + bytes;
    let n = all.len() as int;
    let f = frame as int;
    vstd::arithmetic::div_mod::lemma_fundamental_div_mod(n, f);
    assert(f * (n / f) == n / f * f) by (nonlinear_arith);
    vstd::arithmetic::div_mod::lemma_div_pos_is_pos(n, f);
    assert(n / f * f >= 0) by (nonlinear_arith)
        requires
            n / f >= 0,
            f > 0,
    ;
    vstd::arithmetic::div_mod::lemma_mod_multiples_basic(n / f, f);
    assert(delivered(pending, bytes, frame) + kept_back(pending, bytes, frame) =~= all);
}

} // verus!
