//! The per-window encode plan. Every frame up to the window's cut-off is
//! fed to the encoder (padding frames too, to build encoder state), but
//! only the frames this window is responsible for are emitted: left-padding
//! output is discarded when the previous window already emitted it, and
//! right-padding frames are not even encoded when the next window will
//! re-encode them as its left padding.

use vstd::prelude::*;

use crate::window::EncodingRequestKind;

verus! {

/// What to do with one frame of a window.
#[derive(Clone, Copy, PartialEq, Eq, Structural, Debug)]
pub enum FrameAction {
    /// Stop the job: this frame and everything after it belongs to the
    /// next window.
    Stop,
    /// Feed the frame to the encoder but discard its output.
    EncodeOnly,
    /// Feed the frame to the encoder and emit its packet.
    EncodeEmit,
}

/// The action for frame `i` of a window of the given kind.
pub open spec fn spec_frame_action(
    kind: EncodingRequestKind,
    left: nat,
    middle: nat,
    i: nat,
) -> FrameAction {
    if i >= left + middle && (kind is First || kind is Middle) {
        FrameAction::Stop
    } else if i < left && (kind is Middle || kind is End) {
        FrameAction::EncodeOnly
    } else {
        FrameAction::EncodeEmit
    }
}

/// The first frame index whose packet this window emits.
pub open spec fn spec_emit_start(kind: EncodingRequestKind, left: nat) -> nat {
    if kind is First || kind is FirstAndEnd {
        0
    } else {
        left
    }
}

/// One past the last frame index this window encodes.
pub open spec fn spec_encode_end(
    kind: EncodingRequestKind,
    left: nat,
    middle: nat,
    right: nat,
) -> nat {
    if kind is First || kind is Middle {
        left + middle
    } else {
        left + middle + right
    }
}

/// Decides what to do with frame `frame_index` of a window.
pub fn frame_action(
    kind: EncodingRequestKind,
    left: usize,
    middle: usize,
    frame_index: usize,
) -> (r: FrameAction)
    requires
        left + middle <= usize::MAX,
    ensures
        r == spec_frame_action(kind, left as nat, middle as nat, frame_index as nat),
{
    if left + middle <= frame_index && (kind == EncodingRequestKind::First || kind
        == EncodingRequestKind::Middle) {
        FrameAction::Stop
    } else if frame_index < left && (kind == EncodingRequestKind::Middle || kind
        == EncodingRequestKind::End) {
        FrameAction::EncodeOnly
    } else {
        FrameAction::EncodeEmit
    }
}

/// The action table is three contiguous ranges: emitted frames are exactly
/// those from `spec_emit_start` up to `spec_encode_end`, frames before
/// `spec_emit_start` are encoded for state only, and the job stops at
/// `spec_encode_end`.
pub proof fn lemma_frame_action_ranges(
    kind: EncodingRequestKind,
    left: nat,
    middle: nat,
    right: nat,
    i: nat,
)
    requires
        i < left + middle + right,
    ensures
        spec_frame_action(kind, left, middle, i) == FrameAction::EncodeEmit <==> (spec_emit_start(
            kind,
            left,
        ) <= i < spec_encode_end(kind, left, middle, right)),
        spec_frame_action(kind, left, middle, i) == FrameAction::Stop <==> (i >= spec_encode_end(
            kind,
            left,
            middle,
            right,
        ) && (kind is First || kind is Middle)),
        spec_frame_action(kind, left, middle, i) == FrameAction::EncodeOnly <==> (i
            < spec_emit_start(kind, left)),
{
}

/// Windows partition the emitted frames: in a stream of windows that each
/// cover `middle` fresh frames (window `n` starts at global frame
/// `n * middle`), the frames window `n` emits end exactly where those of
/// window `n + 1` begin, so every padding frame is emitted exactly once
/// across the two windows that touch it.
pub proof fn lemma_emit_ranges_adjacent(
    left: nat,
    middle: nat,
    right: nat,
    n: nat,
    kind_n: EncodingRequestKind,
    kind_next: EncodingRequestKind,
)
    requires
        kind_n is First || kind_n is Middle,
        kind_next is Middle || kind_next is End,
    ensures
        n * middle + spec_encode_end(kind_n, left, middle, right) == (n + 1) * middle
            + spec_emit_start(kind_next, left),
{
    assert(n * middle + (left + middle) == (n + 1) * middle + left) by (nonlinear_arith);
}

} // verus!
