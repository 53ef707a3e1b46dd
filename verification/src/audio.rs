//! The bookkeeping of the audio paths: the bytes that the network thread
//! hands to the decoder, when the decoder is fed, and the raw samples
//! that `ffmpeg` writes.
use vstd::prelude::*;
use std::collections::VecDeque;

verus! {

/// Bytes received from the network that the decoder has not read yet.
pub struct PipeBuffer {
    pub pending: VecDeque<u8>,
}

impl PipeBuffer {
    /// Nothing pending.
    pub fn new() -> (p: PipeBuffer)
        ensures
            p.pending@ == Seq::<u8>::empty(),
    {
        PipeBuffer { pending: VecDeque::new() }
    }

    /// Whether nothing is pending.
    pub fn is_empty(&self) -> (r: bool)
        ensures
            r == (self.pending@.len() == 0),
    {
        self.pending.len() == 0
    }

    /// A chunk from the network joins the pending bytes.
    pub fn refill(&mut self, chunk: &Vec<u8>)
        ensures
            final(self).pending@ == old(self).pending@ + chunk@,
            final(self).pending@ == pipe_run(old(self).pending@, seq![PipeEvent::Chunk(chunk@)]).0,
    {
        proof {
            let evs = seq![PipeEvent::Chunk(chunk@)];
            assert(evs.drop_last() =~= Seq::<PipeEvent>::empty());
            assert(evs.last() == PipeEvent::Chunk(chunk@));
            assert(pipe_run(old(self).pending@, Seq::<PipeEvent>::empty()).0 == old(self).pending@);
        }
        let mut i: usize = 0;
        while i < chunk.len()
            invariant
                i <= chunk.len(),
                self.pending@ == old(self).pending@ + chunk@.take(i as int),
            decreases chunk.len() - i,
        {
            self.pending.push_back(chunk[i]);
            assert(chunk@.take(i + 1) =~= chunk@.take(i as int).push(chunk@[i as int]));
            i = i + 1;
        }
        assert(chunk@.take(chunk.len() as int) =~= chunk@);
    }

    /// Hands over as many pending bytes as fit in `room`, oldest first.
    pub fn take(&mut self, room: usize) -> (bytes: Vec<u8>)
        ensures
            bytes@.len() == if room <= old(self).pending@.len() {
                room as int
            } else {
                old(self).pending@.len() as int
            },
            bytes@ == old(self).pending@.take(bytes@.len() as int),
            final(self).pending@ == old(self).pending@.skip(bytes@.len() as int),
            (final(self).pending@, bytes@) == pipe_run(
                old(self).pending@,
                seq![PipeEvent::Read(room as nat)],
            ),
    {
        proof {
            let evs = seq![PipeEvent::Read(room as nat)];
            assert(evs.drop_last() =~= Seq::<PipeEvent>::empty());
            assert(evs.last() == PipeEvent::Read(room as nat));
            assert(pipe_run(old(self).pending@, Seq::<PipeEvent>::empty()) == (
                old(self).pending@,
                Seq::<u8>::empty(),
            ));
        }
        let mut bytes: Vec<u8> = Vec::new();
        let ghost start = self.pending@;
        assert(start.skip(0) =~= start);
        while bytes.len() < room && self.pending.len() > 0
            invariant
                bytes.len() <= room,
                bytes.len() <= start.len(),
                bytes@ == start.take(bytes.len() as int),
                self.pending@ == start.skip(bytes.len() as int),
            decreases room - bytes.len(),
        {
            let ghost k = bytes.len() as int;
            match self.pending.pop_front() {
                Some(b) => {
                    assert(start.take(k + 1) =~= start.take(k).push(b));
                    assert(start.skip(k + 1) =~= start.skip(k).drop_first());
                    bytes.push(b);
                },
                None => {},
            }
        }
        assert(Seq::<u8>::empty() + start.take(bytes.len() as int) =~= bytes@);
        bytes
    }
}

/// What happens to the pipe: a chunk arrives from the network, or the
/// decoder asks for up to so many bytes.
pub enum PipeEvent {
    Chunk(Seq<u8>),
    Read(nat),
}

/// The bytes pending after `events`, from `pending`, and the bytes handed
/// to the decoder on the way, as `refill` and `take` state them step by step.
pub open spec fn pipe_run(pending: Seq<u8>, events: Seq<PipeEvent>) -> (Seq<u8>, Seq<u8>)
    decreases events.len(),
{
    if events.len() == 0 {
        (pending, Seq::empty())
    } else {
        let (q, handed) = pipe_run(pending, events.drop_last());
        match events.last() {
            PipeEvent::Chunk(c) => (q + c, handed),
            PipeEvent::Read(room) => {
                let k = if room <= q.len() {
                    room as int
                } else {
                    q.len() as int
                };
                (q.skip(k), handed + q.take(k))
            },
        }
    }
}

/// The bytes of the chunks among `events`, in order.
pub open spec fn chunk_bytes(events: Seq<PipeEvent>) -> Seq<u8>
    decreases events.len(),
{
    if events.len() == 0 {
        Seq::empty()
    } else {
        match events.last() {
            PipeEvent::Chunk(c) => chunk_bytes(events.drop_last()) + c,
            PipeEvent::Read(_) => chunk_bytes(events.drop_last()),
        }
    }
}

/// The pipe loses, doubles and reorders nothing: whatever chunks arrive and
/// reads happen, the bytes handed over so far followed by those still
/// pending are the bytes pending at the start followed by every chunk, in
/// order.
pub proof fn lemma_pipe_keeps_bytes(pending: Seq<u8>, events: Seq<PipeEvent>)
    ensures
        pipe_run(pending, events).1 + pipe_run(pending, events).0 == pending + chunk_bytes(events),
    decreases events.len(),
{
    if events.len() > 0 {
        let front = events.drop_last();
        lemma_pipe_keeps_bytes(pending, front);
        let (q, handed) = pipe_run(pending, front);
        match events.last() {
            PipeEvent::Chunk(c) => {
                assert(handed + (q + c) =~= (handed + q) + c);
            },
            PipeEvent::Read(room) => {
                let k = if room <= q.len() {
                    room as int
                } else {
                    q.len() as int
                };
                assert((handed + q.take(k)) + q.skip(k) =~= handed + q);
            },
        }
    } else {
        assert(Seq::<u8>::empty() + pending =~= pending + Seq::<u8>::empty());
    }
}

/// The decoder is topped up once fewer samples than this are buffered.
pub const LOW_WATER: usize = 2048;

/// Samples decoded ahead when topping up: about a second.
pub const FILL_TARGET: usize = 44100;

/// Whether the decoder should be topped up before the next sample.
pub fn needs_refill(buffered: usize) -> (r: bool)
    ensures
        r == (buffered < LOW_WATER),
{
    buffered < LOW_WATER
}

/// What came of asking the demuxer for a packet and decoding it.
pub enum PacketOutcome {
    /// No packet: the stream ended or failed.
    NoPacket,
    /// A packet of another track.
    OtherTrack,
    /// Samples were decoded and buffered.
    Decoded,
    /// The packet was damaged; it is skipped.
    Damaged,
    /// The decoder failed.
    DecoderFailed,
}

/// Whether topping up goes on, or ends with whether samples are ready.
pub enum FillStep {
    Continue,
    Done(bool),
}

/// One step of topping up, given how many samples are buffered after the
/// packet and how it went: decoding goes on until `target` samples are
/// buffered; when packets run out or decoding fails, whatever is buffered
/// is played.
pub fn fill_step(buffered: usize, target: usize, outcome: PacketOutcome) -> (r: FillStep)
    ensures
        match outcome {
            PacketOutcome::NoPacket | PacketOutcome::DecoderFailed => r matches FillStep::Done(
                ready,
            ) && ready == (buffered > 0),
            _ => if buffered < target {
                r is Continue
            } else {
                r matches FillStep::Done(ready) && ready
            },
        },
{
    match outcome {
        PacketOutcome::NoPacket | PacketOutcome::DecoderFailed => FillStep::Done(buffered > 0),
        _ => if buffered < target {
            FillStep::Continue
        } else {
            FillStep::Done(true)
        },
    }
}

/// The 16-bit sample that two bytes encode, least significant first.
pub open spec fn le_sample(lo: u8, hi: u8) -> int {
    if hi < 128 {
        hi * 256 + lo
    } else {
        hi * 256 + lo - 65536
    }
}

/// The samples of `bytes` in signed 16-bit little-endian form, one for
/// each complete pair of bytes; an odd last byte makes no sample.
pub open spec fn pcm_samples(bytes: Seq<u8>) -> Seq<i16> {
    Seq::new((bytes.len() / 2) as nat, |k: int| le_sample(bytes[2 * k], bytes[2 * k + 1]) as i16)
}

/// The byte of `bytes` that waits for its partner: the last one, when
/// their number is odd.
pub open spec fn odd_tail(bytes: Seq<u8>) -> Seq<u8> {
    if bytes.len() % 2 == 1 {
        seq![bytes.last()]
    } else {
        Seq::empty()
    }
}

/// The bytes of a series of reads, in order.
pub open spec fn joined_reads(reads: Seq<Seq<u8>>) -> Seq<u8>
    decreases reads.len(),
{
    if reads.len() == 0 {
        Seq::empty()
    } else {
        joined_reads(reads.drop_last()) + reads.last()
    }
}

/// The samples that a series of reads yields, read by read: each read's
/// bytes join the byte left over from the reads before, and make the
/// samples of their complete pairs.
pub open spec fn pcm_stream(reads: Seq<Seq<u8>>) -> Seq<i16>
    decreases reads.len(),
{
    if reads.len() == 0 {
        Seq::empty()
    } else {
        let front = reads.drop_last();
        pcm_stream(front) + pcm_samples(odd_tail(joined_reads(front)) + reads.last())
    }
}

/// One more read: the samples of the bytes read before, then those of the
/// left-over byte and the new bytes, are the samples of all the bytes; the
/// byte left over after them is that of all the bytes.
pub proof fn lemma_pcm_read_joins(before: Seq<u8>, read: Seq<u8>)
    ensures
        pcm_samples(before) + pcm_samples(odd_tail(before) + read) == pcm_samples(before + read),
        odd_tail(odd_tail(before) + read) == odd_tail(before + read),
{
    let data = odd_tail(before) + read;
    let all = before + read;
    let h = before.len() / 2;
    assert(pcm_samples(before).len() + pcm_samples(data).len() == pcm_samples(all).len());
    assert forall|k: int| 0 <= k < pcm_samples(all).len() implies (pcm_samples(before) + pcm_samples(
        data,
    ))[k] == #[trigger] pcm_samples(all)[k] by {
        if k < h {
            assert(all[2 * k] == before[2 * k] && all[2 * k + 1] == before[2 * k + 1]);
        } else {
            let j = k - h;
            if before.len() % 2 == 0 {
                assert(data[2 * j] == all[2 * k] && data[2 * j + 1] == all[2 * k + 1]);
            } else if j == 0 {
                assert(data[0] == all[2 * k] && data[1] == all[2 * k + 1]);
            } else {
                assert(data[2 * j] == all[2 * k] && data[2 * j + 1] == all[2 * k + 1]);
            }
        }
    }
    assert(pcm_samples(before) + pcm_samples(data) =~= pcm_samples(all));
    if data.len() % 2 == 1 {
        assert(data.last() == all.last());
    }
    assert(odd_tail(data) =~= odd_tail(all));
}

/// `ffmpeg`'s output is passed on as written: over any series of reads, the
/// samples yielded are exactly those of the complete byte pairs of
/// everything read, in order, none lost, doubled or shifted by where the
/// reads happened to end.
pub proof fn lemma_pcm_stream(reads: Seq<Seq<u8>>)
    ensures
        pcm_stream(reads) == pcm_samples(joined_reads(reads)),
    decreases reads.len(),
{
    if reads.len() > 0 {
        let front = reads.drop_last();
        lemma_pcm_stream(front);
        lemma_pcm_read_joins(joined_reads(front), reads.last());
    } else {
        assert(pcm_samples(Seq::<u8>::empty()) =~= Seq::<i16>::empty());
    }
}

fn sample_of(lo: u8, hi: u8) -> (s: i16)
    ensures
        s == le_sample(lo, hi),
{
    if hi < 128 {
        (hi as i16) * 256 + (lo as i16)
    } else {
        ((hi as i32 - 256) * 256 + (lo as i32)) as i16
    }
}

/// Raw samples from `ffmpeg`, the position of the next one to play, and a
/// byte read that still waits for its partner.
pub struct PcmBuffer {
    pub samples: Vec<i16>,
    pub pos: usize,
    pub done: bool,
    pub carry: Option<u8>,
}

/// The byte a buffer holds back, as a sequence of at most one byte.
pub open spec fn carried(c: Option<u8>) -> Seq<u8> {
    match c {
        Some(b) => seq![b],
        None => Seq::empty(),
    }
}

impl PcmBuffer {
    /// Before anything is read: no samples, nothing held back.
    pub fn new() -> (p: PcmBuffer)
        ensures
            p.samples@ == Seq::<i16>::empty(),
            p.pos == 0,
            !p.done,
            p.carry is None,
    {
        PcmBuffer { samples: Vec::new(), pos: 0, done: false, carry: None }
    }

    /// Whether every sample read so far has been played.
    pub fn exhausted(&self) -> (r: bool)
        ensures
            r == (self.pos >= self.samples.len()),
    {
        self.pos >= self.samples.len()
    }

    /// The next sample, if one is left of those read.
    pub fn next_sample(&mut self) -> (r: Option<i16>)
        ensures
            old(self).pos < old(self).samples.len() ==> r == Some(
                old(self).samples@[old(self).pos as int],
            ) && final(self).pos == old(self).pos + 1,
            old(self).pos >= old(self).samples.len() ==> r is None && final(self).pos == old(
                self,
            ).pos,
            final(self).samples == old(self).samples,
            final(self).done == old(self).done,
            final(self).carry == old(self).carry,
    {
        if self.pos < self.samples.len() {
            let s = self.samples[self.pos];
            self.pos = self.pos + 1;
            Some(s)
        } else {
            None
        }
    }

    /// Takes the result of reading `n` bytes into `bytes`: no bytes (or a
    /// failed read, `n` of 0) end the stream; otherwise the byte held back
    /// and the new bytes make the samples to play next, and an odd last
    /// byte is held back for the next read. True when bytes were read.
    pub fn fill_from(&mut self, bytes: &[u8], n: usize) -> (r: bool)
        requires
            n <= bytes@.len(),
        ensures
            old(self).done ==> !r && *final(self) == *old(self),
            !old(self).done && n == 0 ==> !r && final(self).done && final(self).samples
                == old(self).samples && final(self).pos == old(self).pos && final(self).carry
                == old(self).carry,
            !old(self).done && n > 0 ==> {
                let data = carried(old(self).carry) + bytes@.take(n as int);
                &&& r
                &&& !final(self).done
                &&& final(self).pos == 0
                &&& final(self).samples@ == pcm_samples(data)
                &&& carried(final(self).carry) == odd_tail(data)
            },
    {
        if self.done {
            return false;
        }
        if n == 0 {
            self.done = true;
            return false;
        }
        let ghost data = carried(self.carry) + bytes@.take(n as int);
        let mut samples: Vec<i16> = Vec::new();
        let mut k: usize = 0;
        let mut lo: Option<u8> = self.carry;
        let ghost held: Seq<u8> = carried(self.carry);
        assert(data =~= held + bytes@.take(n as int));
        assert(held.take(0) =~= Seq::<u8>::empty());
        while k < n
            invariant
                n <= bytes@.len(),
                k <= n,
                data == held + bytes@.take(n as int),
                held == carried(old(self).carry),
                samples@ == pcm_samples(data.take(held.len() + k)),
                carried(lo) == odd_tail(data.take(held.len() + k)),
            decreases n - k,
        {
            let b = bytes[k];
            let ghost before = data.take(held.len() + k);
            assert(data.take(held.len() + k + 1) =~= before.push(b));
            match lo {
                Some(l) => {
                    proof {
                        assert(carried(lo)[0] == l);
                        assert(before.len() % 2 == 1);
                        assert(odd_tail(before)[0] == before.last());
                        assert(before.last() == l);
                        let after = before.push(b);
                        assert(pcm_samples(after) =~= pcm_samples(before).push(le_sample(l, b) as i16));
                    }
                    samples.push(sample_of(l, b));
                    lo = None;
                },
                None => {
                    proof {
                        assert(before.len() % 2 == 0);
                        let after = before.push(b);
                        assert(pcm_samples(after) =~= pcm_samples(before));
                    }
                    lo = Some(b);
                },
            }
            k = k + 1;
        }
        assert(data.take(held.len() + n) =~= data);
        self.samples = samples;
        self.pos = 0;
        self.carry = lo;
        true
    }
}

} // verus!
