//! The window assembler: accumulates decoded chunks into fixed-size,
//! overlapping encode windows. After a window is emitted only its middle
//! part is drained, so the tail of one window (its padding frames) equals
//! the head of the next; each parallel encoding job warms up on context the
//! neighbouring job also processed.

use vstd::prelude::*;

use crate::AudioChunk;

verus! {

/// Where a window sits in the stream; it decides which frames of the
/// window are encoded and which encoded frames are emitted.
#[derive(Clone, Copy, PartialEq, Eq, Structural, Debug)]
pub enum EncodingRequestKind {
    First,
    Middle,
    End,
    FirstAndEnd,
}

/// One window to encode: a fixed-length interleaved sample buffer of
/// exactly `(left + middle + right) * channels * frame_size` samples,
/// zero-padded at the tail if the source ran out.
pub struct EncodingRequest {
    pub kind: EncodingRequestKind,
    pub frame_size: usize,
    pub pcm: Vec<i16>,
    pub channels: usize,
    pub sequence_number: usize,
}

/// Accumulates chunks and cuts them into overlapping windows, tagged with
/// dense sequence numbers starting at 0.
pub struct WindowAssembler {
    pub channels: usize,
    pub frame_size: usize,
    pub left: usize,
    pub middle: usize,
    pub right: usize,
    /// Cached `(left + middle + right) * channels * frame_size`.
    pub win_len: usize,
    /// Cached `middle * channels * frame_size`: drained after each window.
    pub mid_len: usize,
    pub buf: Vec<i16>,
    pub is_first: bool,
    pub next_seq: usize,
    pub done: bool,
}

impl WindowAssembler {
    /// The cached lengths match the configuration, and a window always
    /// leaves a seed behind.
    pub open spec fn wf(&self) -> bool {
        &&& self.channels >= 1
        &&& self.frame_size >= 1
        &&& self.middle >= 1
        &&& self.win_len as nat == (self.left + self.middle + self.right) * self.channels
            * self.frame_size
        &&& self.mid_len as nat == self.middle as nat * self.channels * self.frame_size
        &&& self.mid_len <= self.win_len
        &&& self.win_len >= 1
    }

    /// A fresh assembler for the given configuration.
    pub fn new(channels: usize, frame_size: usize, left: usize, middle: usize, right: usize) -> (r:
        WindowAssembler)
        requires
            channels >= 1,
            frame_size >= 1,
            middle >= 1,
            (left + middle + right) * channels * frame_size <= usize::MAX,
        ensures
            r.wf(),
            r.channels == channels,
            r.frame_size == frame_size,
            r.left == left,
            r.middle == middle,
            r.right == right,
            r.buf@ == Seq::<i16>::empty(),
            r.is_first,
            r.next_seq == 0,
            !r.done,
    {
        proof {
            assert(left + middle + right <= (left + middle + right) * channels * frame_size && (left
                + middle + right) * channels <= (left + middle + right) * channels * frame_size
                && middle * channels <= middle * channels * frame_size && middle * channels
                * frame_size <= (left + middle + right) * channels * frame_size && 1 <= (left
                + middle + right) * channels * frame_size) by (nonlinear_arith)
                requires
                    channels >= 1,
                    frame_size >= 1,
                    middle >= 1,
            ;
        }
        let frames = left + middle + right;
        let win_len = frames * channels * frame_size;
        let mid_len = middle * channels * frame_size;
        let r = WindowAssembler {
            channels,
            frame_size,
            left,
            middle,
            right,
            win_len,
            mid_len,
            buf: Vec::new(),
            is_first: true,
            next_seq: 0,
            done: false,
        };
        proof {
            assert(r.buf@ =~= Seq::<i16>::empty());
        }
        r
    }

    /// Appends one chunk's samples to the accumulation buffer.
    pub fn push_chunk(&mut self, chunk: &AudioChunk)
        requires
            old(self).wf(),
            !old(self).done,
            chunk.wf(),
            chunk.channels == old(self).channels,
            old(self).buf@.len() + chunk.pcm@.len() <= usize::MAX,
        ensures
            final(self).wf(),
            final(self).buf@ == old(self).buf@ + chunk.pcm@,
            final(self).channels == old(self).channels,
            final(self).frame_size == old(self).frame_size,
            final(self).left == old(self).left,
            final(self).middle == old(self).middle,
            final(self).right == old(self).right,
            final(self).win_len == old(self).win_len,
            final(self).mid_len == old(self).mid_len,
            final(self).is_first == old(self).is_first,
            final(self).next_seq == old(self).next_seq,
            final(self).done == old(self).done,
    {
        self.buf.extend_from_slice(chunk.pcm.as_slice());
    }

    /// Whether a full window is buffered.
    pub fn ready(&self) -> (r: bool)
        ensures
            r == (self.buf@.len() >= self.win_len),
    {
        self.buf.len() >= self.win_len
    }

    /// Cuts the next full window. The window is the buffer's head; the
    /// buffer keeps everything past the middle part, so the window's tail
    /// of `left + right` padding frames seeds the next window.
    pub fn emit(&mut self) -> (r: EncodingRequest)
        requires
            old(self).wf(),
            !old(self).done,
            old(self).buf@.len() >= old(self).win_len,
            old(self).next_seq < usize::MAX,
        ensures
            final(self).wf(),
            r.kind == (if old(self).is_first {
                EncodingRequestKind::First
            } else {
                EncodingRequestKind::Middle
            }),
            r.frame_size == old(self).frame_size,
            r.channels == old(self).channels,
            r.sequence_number == old(self).next_seq,
            r.pcm@ == old(self).buf@.take(old(self).win_len as int),
            final(self).buf@ == old(self).buf@.skip(old(self).mid_len as int),
            final(self).next_seq == old(self).next_seq + 1,
            !final(self).is_first,
            !final(self).done,
            final(self).channels == old(self).channels,
            final(self).frame_size == old(self).frame_size,
            final(self).left == old(self).left,
            final(self).middle == old(self).middle,
            final(self).right == old(self).right,
            final(self).win_len == old(self).win_len,
            final(self).mid_len == old(self).mid_len,
    {
        let kind = if self.is_first {
            EncodingRequestKind::First
        } else {
            EncodingRequestKind::Middle
        };
        let pcm = vstd::slice::slice_to_vec(vstd::slice::slice_subrange(
            self.buf.as_slice(),
            0,
            self.win_len,
        ));
        let rest = vstd::slice::slice_to_vec(vstd::slice::slice_subrange(
            self.buf.as_slice(),
            self.mid_len,
            self.buf.len(),
        ));
        self.buf = rest;
        let seq_no = self.next_seq;
        self.next_seq = self.next_seq + 1;
        self.is_first = false;
        EncodingRequest {
            kind,
            frame_size: self.frame_size,
            pcm,
            channels: self.channels,
            sequence_number: seq_no,
        }
    }

    /// The source is exhausted: emits the final window, zero-padded at the
    /// tail to the exact window length, and retires the assembler.
    pub fn finish(&mut self) -> (r: EncodingRequest)
        requires
            old(self).wf(),
            !old(self).done,
            old(self).buf@.len() <= old(self).win_len,
            old(self).next_seq < usize::MAX,
        ensures
            final(self).wf(),
            r.kind == (if old(self).is_first {
                EncodingRequestKind::FirstAndEnd
            } else {
                EncodingRequestKind::End
            }),
            r.frame_size == old(self).frame_size,
            r.channels == old(self).channels,
            r.sequence_number == old(self).next_seq,
            r.pcm@ == old(self).buf@ + Seq::<i16>::new(
                (old(self).win_len - old(self).buf@.len()) as nat,
                |i: int| 0i16,
            ),
            r.pcm@.len() == old(self).win_len,
            final(self).next_seq == old(self).next_seq + 1,
            final(self).done,
    {
        let kind = if self.is_first {
            EncodingRequestKind::FirstAndEnd
        } else {
            EncodingRequestKind::End
        };
        let ghost buf0 = self.buf@;
        let mut pcm = vstd::slice::slice_to_vec(self.buf.as_slice());
        pcm.resize(self.win_len, 0i16);
        proof {
            assert(pcm@ =~= buf0 + Seq::<i16>::new(
                (self.win_len - buf0.len()) as nat,
                |i: int| 0i16,
            ));
        }
        let seq_no = self.next_seq;
        self.next_seq = self.next_seq + 1;
        self.is_first = false;
        self.done = true;
        EncodingRequest {
            kind,
            frame_size: self.frame_size,
            pcm,
            channels: self.channels,
            sequence_number: seq_no,
        }
    }
}

/// The overlap law: if one window is the buffer's first `win` samples, the
/// buffer is then drained by `mid` and extended arbitrarily, the next
/// window's first `win - mid` samples equal the previous window's last
/// `win - mid` samples.
pub proof fn lemma_window_overlap(buf0: Seq<i16>, ext: Seq<i16>, win: nat, mid: nat)
    requires
        mid <= win <= buf0.len(),
    ensures
        (buf0.skip(mid as int) + ext).take((win - mid) as int) == buf0.take(win as int).skip(
            mid as int,
        ),
{
    assert((buf0.skip(mid as int) + ext).take((win - mid) as int) =~= buf0.take(win as int).skip(
        mid as int,
    ));
}

} // verus!
