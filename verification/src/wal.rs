//! Write-ahead log records, their framing in the log file, and when to
//! checkpoint.
//!
//! The log file is a sequence of frames: the length of the encoded record as
//! four little-endian bytes, then the encoded record.

use vstd::prelude::*;
use crate::schema::Row;

verus! {

/// A change recorded in the write-ahead log before it is applied.
#[derive(Debug, Clone)]
pub enum WALEntry {
    CreateTable { name: String, columns: Vec<String> },
    InsertRow { table: String, row_id: usize, row: Row },
    Checkpoint,
}

/// The four little-endian bytes of `n`.
pub open spec fn le_bytes(n: u32) -> Seq<u8> {
    seq![(n % 256) as u8, ((n / 256) % 256) as u8, ((n / 65536) % 256) as u8, ((n / 16777216) % 256) as u8]
}

/// The number four little-endian bytes stand for.
pub open spec fn le_value(b: Seq<u8>) -> int {
    b[0] + b[1] * 256 + b[2] * 65536 + b[3] * 16777216
}

/// The frame of `payload`: its length, cut to 32 bits, then the payload.
pub open spec fn frame(payload: Seq<u8>) -> Seq<u8> {
    le_bytes((payload.len() % 0x1_0000_0000) as u32) + payload
}

/// The frames of `payloads`, one after the other.
pub open spec fn frames(payloads: Seq<Seq<u8>>) -> Seq<u8>
    decreases payloads.len(),
{
    if payloads.len() == 0 {
        Seq::empty()
    } else {
        frame(payloads[0]) + frames(payloads.drop_first())
    }
}

/// A log whose last frame is cut short.
#[derive(Debug, Clone, PartialEq, Eq)]
pub enum FrameError {
    /// The frame's length says `expected` bytes, but only `available` follow.
    Truncated { expected: usize, available: usize },
}

/// The payloads of the frames of `b`. Fewer than four bytes at the end, a
/// length cut short, end the log; a payload cut short is an error.
pub open spec fn spec_decode(b: Seq<u8>) -> Result<Seq<Seq<u8>>, FrameError>
    decreases b.len(),
{
    if b.len() < 4 {
        Ok(Seq::empty())
    } else {
        let n = le_value(b);
        if b.len() - 4 < n {
            Err(FrameError::Truncated { expected: n as usize, available: (b.len() - 4) as usize })
        } else {
            match spec_decode(b.skip(4 + n)) {
                Ok(rest) => Ok(seq![b.subrange(4, 4 + n)] + rest),
                Err(e) => Err(e),
            }
        }
    }
}

proof fn lemma_le_roundtrip(n: u32)
    ensures
        le_value(le_bytes(n)) == n,
{
    assert((n % 256) + ((n / 256) % 256) * 256 + ((n / 65536) % 256) * 65536 + ((n / 16777216) % 256) * 16777216 == n)
        by (bit_vector);
}

/// Reading the frames of payloads back gives the payloads, when each is
/// shorter than 2^32 bytes.
#[verifier::spinoff_prover]
pub proof fn lemma_decode_frames(payloads: Seq<Seq<u8>>)
    requires
        forall|i: int| 0 <= i < payloads.len() ==> (#[trigger] payloads[i]).len() < 0x1_0000_0000,
    ensures
        spec_decode(frames(payloads)) == Ok::<Seq<Seq<u8>>, FrameError>(payloads),
    decreases payloads.len(),
{
    if payloads.len() == 0 {
        assert(spec_decode(frames(payloads)) == Ok::<Seq<Seq<u8>>, FrameError>(Seq::empty()));
        assert(payloads =~= Seq::<Seq<u8>>::empty());
    } else {
        let p = payloads[0];
        let rest = payloads.drop_first();
        assert forall|i: int| 0 <= i < rest.len() implies (#[trigger] rest[i]).len() < 0x1_0000_0000 by {
            assert(rest[i] == payloads[i + 1]);
        }
        lemma_decode_frames(rest);
        let b = frames(payloads);
        let n = p.len() as u32;
        lemma_le_roundtrip(n);
        assert(b == le_bytes(n) + p + frames(rest));
        assert(b.take(4) =~= le_bytes(n));
        assert(le_value(b) == le_value(le_bytes(n)));
        assert(b.skip(4 + p.len() as int) =~= frames(rest));
        assert(b.subrange(4, 4 + p.len() as int) =~= p);
        assert(seq![p] + rest =~= payloads);
    }
}

/// Frames read back as their payloads whatever follows them: reading the
/// frames of `payloads` then `tail` gives the payloads, then what `tail`
/// reads as; an error in `tail` is the error of the whole.
#[verifier::spinoff_prover]
pub proof fn lemma_decode_frames_then(payloads: Seq<Seq<u8>>, tail: Seq<u8>)
    requires
        forall|i: int| 0 <= i < payloads.len() ==> (#[trigger] payloads[i]).len() < 0x1_0000_0000,
    ensures
        spec_decode(frames(payloads) + tail) == match spec_decode(tail) {
            Ok(r) => Ok::<Seq<Seq<u8>>, FrameError>(payloads + r),
            Err(e) => Err(e),
        },
    decreases payloads.len(),
{
    if payloads.len() == 0 {
        assert(frames(payloads) + tail =~= tail);
        assert(payloads =~= Seq::<Seq<u8>>::empty());
        match spec_decode(tail) {
            Ok(r) => { assert(payloads + r =~= r); },
            Err(_) => {},
        }
    } else {
        let p = payloads[0];
        let rest = payloads.drop_first();
        assert forall|i: int| 0 <= i < rest.len() implies (#[trigger] rest[i]).len() < 0x1_0000_0000 by {
            assert(rest[i] == payloads[i + 1]);
        }
        lemma_decode_frames_then(rest, tail);
        let b = frames(payloads) + tail;
        let n = p.len() as u32;
        lemma_le_roundtrip(n);
        assert(b =~= le_bytes(n) + p + (frames(rest) + tail));
        assert(le_value(b) == le_value(le_bytes(n)));
        assert(b.skip(4 + p.len() as int) =~= frames(rest) + tail);
        assert(b.subrange(4, 4 + p.len() as int) =~= p);
        match spec_decode(tail) {
            Ok(r) => { assert(seq![p] + (rest + r) =~= payloads + r); },
            Err(_) => {},
        }
    }
}

/// A log cut inside the length of its last frame reads as the frames before
/// it; a log cut inside the payload of its last frame is an error that says
/// how long the payload should be and how much of it is there.
pub proof fn lemma_decode_cut_log(payloads: Seq<Seq<u8>>, cut: Seq<u8>, n: u32, partial: Seq<u8>)
    requires
        forall|i: int| 0 <= i < payloads.len() ==> (#[trigger] payloads[i]).len() < 0x1_0000_0000,
        partial.len() < n,
    ensures
        cut.len() < 4 ==> spec_decode(frames(payloads) + cut) == Ok::<Seq<Seq<u8>>, FrameError>(payloads),
        spec_decode(frames(payloads) + (le_bytes(n) + partial))
            == Err::<Seq<Seq<u8>>, FrameError>(FrameError::Truncated { expected: n as usize, available: partial.len() as usize }),
{
    lemma_decode_frames_then(payloads, cut);
    if cut.len() < 4 {
        assert(payloads + Seq::<Seq<u8>>::empty() =~= payloads);
    }
    lemma_decode_frames_then(payloads, le_bytes(n) + partial);
    lemma_le_roundtrip(n);
    let t = le_bytes(n) + partial;
    assert(le_value(t) == le_value(le_bytes(n)));
}

/// The frame of `payload`.
pub fn encode_frame(payload: &[u8]) -> (out: Vec<u8>)
    ensures
        out@ == frame(payload@),
{
    let len = ((payload.len() as u64) % 0x1_0000_0000) as u32;
    let mut out: Vec<u8> = Vec::new();
    out.push((len % 256) as u8);
    out.push(((len / 256) % 256) as u8);
    out.push(((len / 65536) % 256) as u8);
    out.push(((len / 16777216) % 256) as u8);
    let mut i: usize = 0;
    while i < payload.len()
        invariant
            i <= payload@.len(),
            out@ == le_bytes((payload@.len() % 0x1_0000_0000) as u32) + payload@.take(i as int),
        decreases payload@.len() - i,
    {
        out.push(payload[i]);
        proof {
            assert(payload@.take(i + 1) =~= payload@.take(i as int).push(payload@[i as int]));
        }
        i += 1;
    }
    proof {
        assert(payload@.take(payload@.len() as int) =~= payload@);
    }
    out
}

/// The payloads of the frames of `bytes`, as `spec_decode` gives them.
pub fn decode_frames(bytes: &[u8]) -> (r: Result<Vec<Vec<u8>>, FrameError>)
    ensures
        match r {
            Ok(payloads) => spec_decode(bytes@) == Ok::<Seq<Seq<u8>>, FrameError>(payloads@.map_values(|p: Vec<u8>| p@)),
            Err(e) => spec_decode(bytes@) == Err::<Seq<Seq<u8>>, FrameError>(e),
        },
{
    let ghost b = bytes@;
    let total = bytes.len();
    let mut payloads: Vec<Vec<u8>> = Vec::new();
    let mut pos: usize = 0;
    proof {
        assert(b.skip(0) =~= b);
    }
    while total - pos >= 4
        invariant
            b == bytes@,
            total == b.len(),
            pos <= total,
            spec_decode(b) == match spec_decode(b.skip(pos as int)) {
                Ok(rest) => Ok(payloads@.map_values(|p: Vec<u8>| p@) + rest),
                Err(e) => Err::<Seq<Seq<u8>>, FrameError>(e),
            },
        decreases total - pos,
    {
        let ghost t = b.skip(pos as int);
        let n = (bytes[pos] as usize) + (bytes[pos + 1] as usize) * 256 + (bytes[pos + 2] as usize) * 65536
            + (bytes[pos + 3] as usize) * 16777216;
        proof {
            assert(n == le_value(t));
        }
        let available = total - pos - 4;
        if available < n {
            return Err(FrameError::Truncated { expected: n, available });
        }
        let mut payload: Vec<u8> = Vec::new();
        let start = pos + 4;
        let mut k: usize = 0;
        while k < n
            invariant
                b == bytes@,
                total == b.len(),
                start + n <= b.len(),
                k <= n,
                payload@ == b.subrange(start as int, start + k),
            decreases n - k,
        {
            payload.push(bytes[start + k]);
            proof {
                assert(b.subrange(start as int, start + k + 1) =~= b.subrange(start as int, start + k).push(b[start + k]));
            }
            k += 1;
        }
        let ghost before = payloads@.map_values(|p: Vec<u8>| p@);
        proof {
            assert(payload@ =~= t.subrange(4, 4 + n));
            assert(t.skip(4 + n) =~= b.skip(start + n));
        }
        payloads.push(payload);
        pos = start + n;
        proof {
            assert(payloads@.map_values(|p: Vec<u8>| p@) =~= before.push(t.subrange(4, 4 + n)));
            match spec_decode(b.skip(pos as int)) {
                Ok(rest) => {
                    assert(before + (seq![t.subrange(4, 4 + n)] + rest) =~= before.push(t.subrange(4, 4 + n)) + rest);
                },
                Err(e) => {},
            }
        }
    }
    proof {
        assert(spec_decode(b.skip(pos as int)) == Ok::<Seq<Seq<u8>>, FrameError>(Seq::empty()));
        assert(payloads@.map_values(|p: Vec<u8>| p@) + Seq::<Seq<u8>>::empty() =~= payloads@.map_values(|p: Vec<u8>| p@));
    }
    Ok(payloads)
}

/// The number of logged changes after which the engine is saved and the log
/// emptied.
pub const CHECKPOINT_INTERVAL: usize = 100;

/// How many records were appended to the log since it was last emptied, and
/// after how many a checkpoint is due.
pub struct WalProgress {
    entry_count: usize,
    checkpoint_interval: usize,
}

impl WalProgress {
    /// The records appended since the log was last emptied.
    pub closed spec fn count(&self) -> usize {
        self.entry_count
    }

    /// The number of records after which a checkpoint is due.
    pub closed spec fn interval(&self) -> usize {
        self.checkpoint_interval
    }

    /// A log without records, due a checkpoint after `checkpoint_interval`.
    pub fn new(checkpoint_interval: usize) -> (p: Self)
        ensures
            p.count() == 0,
            p.interval() == checkpoint_interval,
    {
        WalProgress { entry_count: 0, checkpoint_interval }
    }

    /// The number of records appended since the log was last emptied.
    pub fn entry_count(&self) -> (r: usize)
        ensures
            r == self.count(),
    {
        self.entry_count
    }

    /// Counts an appended record.
    pub fn record_append(&mut self)
        requires
            old(self).count() < usize::MAX,
        ensures
            final(self).count() == old(self).count() + 1,
            final(self).interval() == old(self).interval(),
    {
        self.entry_count += 1;
    }

    /// A checkpoint is due once as many records as the interval were appended.
    pub fn should_checkpoint(&self) -> (r: bool)
        ensures
            r == (self.count() >= self.interval()),
    {
        self.entry_count >= self.checkpoint_interval
    }

    /// Counts the log as emptied.
    pub fn reset(&mut self)
        ensures
            final(self).count() == 0,
            final(self).interval() == old(self).interval(),
    {
        self.entry_count = 0;
    }
}

} // verus!
