use opusify::ogg::PacketWriter;
use opusify::opus::{handle_packets, write_header, write_tags, Encoded, OpusPacket, SERIAL};
use opusify::plan::{frame_action, FrameAction};
use opusify::reorder::ReorderBuffer;
use opusify::window::{EncodingRequestKind, WindowAssembler};
use opusify::AudioChunk;

fn read_u32(b: &[u8]) -> u32 {
    u32::from_le_bytes([b[0], b[1], b[2], b[3]])
}

fn read_u64(b: &[u8]) -> u64 {
    u64::from_le_bytes([b[0], b[1], b[2], b[3], b[4], b[5], b[6], b[7]])
}

struct StreamPage {
    flags: u8,
    granule: u64,
    serial: u32,
    seqnum: u32,
    payload: Vec<u8>,
}

fn read_pages(bytes: &[u8]) -> Vec<StreamPage> {
    let mut pages = Vec::new();
    let mut at = 0usize;
    while at < bytes.len() {
        assert_eq!(&bytes[at..at + 4], b"OggS");
        assert_eq!(bytes[at + 4], 0);
        let nseg = bytes[at + 26] as usize;
        let lacing = &bytes[at + 27..at + 27 + nseg];
        let paylen: usize = lacing.iter().map(|&v| v as usize).sum();
        let body = at + 27 + nseg;
        pages.push(StreamPage {
            flags: bytes[at + 5],
            granule: read_u64(&bytes[at + 6..at + 14]),
            serial: read_u32(&bytes[at + 14..at + 18]),
            seqnum: read_u32(&bytes[at + 18..at + 22]),
            payload: bytes[body..body + paylen].to_vec(),
        });
        at = body + paylen;
    }
    pages
}

#[test]
fn window_exact_single_window_is_first_and_end() {
    // leftPad=1, middle=2, rightPad=1, frameSize=4, channels=1:
    // window length 16; an input of exactly 16 samples gives one window.
    let mut assembler = WindowAssembler::new(1, 4, 1, 2, 1);
    let pcm: Vec<i16> = (0..16).map(|i| i as i16).collect();
    let chunk = AudioChunk { pcm: pcm.clone(), channels: 1, sample_rate: 48000 };
    assembler.push_chunk(&chunk);
    // Source exhausted with no more than one window buffered.
    assert!(assembler.buf.len() <= assembler.win_len);
    let req = assembler.finish();
    assert_eq!(req.kind, EncodingRequestKind::FirstAndEnd);
    assert_eq!(req.pcm, pcm);
    assert_eq!(req.pcm.len(), 16);
    assert_eq!(req.sequence_number, 0);
}

#[test]
fn window_overlap_regions_carry_identical_samples() {
    // Window length 16, middle 8: each window's trailing two frames seed
    // the next window's leading two frames.
    let mut assembler = WindowAssembler::new(1, 4, 1, 2, 1);
    let pcm: Vec<i16> = (0..32).map(|i| (i * 3) as i16).collect();
    let chunk = AudioChunk { pcm, channels: 1, sample_rate: 48000 };
    assembler.push_chunk(&chunk);
    let mut windows = Vec::new();
    while assembler.buf.len() > assembler.win_len {
        windows.push(assembler.emit());
    }
    windows.push(assembler.finish());
    assert_eq!(windows.len(), 3);
    assert_eq!(windows[0].kind, EncodingRequestKind::First);
    assert_eq!(windows[1].kind, EncodingRequestKind::Middle);
    assert_eq!(windows[2].kind, EncodingRequestKind::End);
    for (n, w) in windows.iter().enumerate() {
        assert_eq!(w.sequence_number, n);
        assert_eq!(w.pcm.len(), 16);
    }
    // Last 8 samples of each window equal the first 8 of the next.
    assert_eq!(windows[0].pcm[8..16], windows[1].pcm[0..8]);
    assert_eq!(windows[1].pcm[8..16], windows[2].pcm[0..8]);
}

#[test]
fn window_final_window_is_zero_padded() {
    let mut assembler = WindowAssembler::new(1, 4, 1, 2, 1);
    let chunk = AudioChunk { pcm: vec![7i16; 10], channels: 1, sample_rate: 48000 };
    assembler.push_chunk(&chunk);
    let req = assembler.finish();
    assert_eq!(req.kind, EncodingRequestKind::FirstAndEnd);
    assert_eq!(req.pcm.len(), 16);
    assert_eq!(&req.pcm[0..10], &[7i16; 10]);
    assert_eq!(&req.pcm[10..16], &[0i16; 6]);
}

#[test]
fn frame_plan_per_kind() {
    let left = 1;
    let middle = 2;
    // First: emit everything up to the right padding, then stop.
    assert_eq!(frame_action(EncodingRequestKind::First, left, middle, 0), FrameAction::EncodeEmit);
    assert_eq!(frame_action(EncodingRequestKind::First, left, middle, 1), FrameAction::EncodeEmit);
    assert_eq!(frame_action(EncodingRequestKind::First, left, middle, 2), FrameAction::EncodeEmit);
    assert_eq!(frame_action(EncodingRequestKind::First, left, middle, 3), FrameAction::Stop);
    // Middle: discard left padding output, stop at right padding.
    assert_eq!(frame_action(EncodingRequestKind::Middle, left, middle, 0), FrameAction::EncodeOnly);
    assert_eq!(frame_action(EncodingRequestKind::Middle, left, middle, 1), FrameAction::EncodeEmit);
    assert_eq!(frame_action(EncodingRequestKind::Middle, left, middle, 2), FrameAction::EncodeEmit);
    assert_eq!(frame_action(EncodingRequestKind::Middle, left, middle, 3), FrameAction::Stop);
    // End: discard left padding output, emit through the final frame.
    assert_eq!(frame_action(EncodingRequestKind::End, left, middle, 0), FrameAction::EncodeOnly);
    assert_eq!(frame_action(EncodingRequestKind::End, left, middle, 1), FrameAction::EncodeEmit);
    assert_eq!(frame_action(EncodingRequestKind::End, left, middle, 3), FrameAction::EncodeEmit);
    // FirstAndEnd: emit every frame.
    assert_eq!(
        frame_action(EncodingRequestKind::FirstAndEnd, left, middle, 0),
        FrameAction::EncodeEmit
    );
    assert_eq!(
        frame_action(EncodingRequestKind::FirstAndEnd, left, middle, 3),
        FrameAction::EncodeEmit
    );
}

fn job(seq: usize) -> Encoded {
    Encoded {
        sequence_number: seq,
        packets: vec![OpusPacket { data: vec![seq as u8; 4], frame_size: 480 }],
    }
}

#[test]
fn reorder_releases_in_sequence_order() {
    // Arrival order [2, 0, 3, 1] must come out as [0, 1, 2, 3].
    let mut rb = ReorderBuffer::new();
    let mut released: Vec<usize> = Vec::new();
    for seq in [2usize, 0, 3, 1] {
        rb.insert(job(seq));
        while let Some(e) = rb.pop_ready() {
            released.push(e.sequence_number);
        }
    }
    assert_eq!(released, vec![0, 1, 2, 3]);
    assert!(rb.is_empty());
}

#[test]
fn reorder_waits_for_gaps() {
    let mut rb = ReorderBuffer::new();
    assert!(rb.pop_ready().is_none());
    rb.insert(job(1));
    assert!(rb.pop_ready().is_none());
    assert_eq!(rb.len(), 1);
    rb.insert(job(0));
    assert_eq!(rb.pop_ready().unwrap().sequence_number, 0);
    assert_eq!(rb.pop_ready().unwrap().sequence_number, 1);
    assert!(rb.pop_ready().is_none());
    assert!(rb.is_empty());
}

#[test]
fn header_page_holds_19_byte_opus_head() {
    let mut writer = PacketWriter::new();
    write_header(&mut writer, 1, 312);
    let out = writer.take_output();
    let pages = read_pages(&out);
    assert_eq!(pages.len(), 1);
    let head = &pages[0].payload;
    assert_eq!(head.len(), 19);
    assert_eq!(&head[0..8], b"OpusHead");
    assert_eq!(head[8], 1); // version
    assert_eq!(head[9], 1); // channel count
    assert_eq!(u16::from_le_bytes([head[10], head[11]]), 312); // pre-skip
    assert_eq!(read_u32(&head[12..16]), 48000); // input sample rate
    assert_eq!(u16::from_le_bytes([head[16], head[17]]), 0); // output gain
    assert_eq!(head[18], 0); // channel mapping family
    assert_eq!(pages[0].granule, 0);
    assert_eq!(pages[0].flags, 0x02);
}

#[test]
fn tags_page_holds_opus_tags() {
    let mut writer = PacketWriter::new();
    write_header(&mut writer, 2, 0);
    write_tags(&mut writer);
    let out = writer.take_output();
    let pages = read_pages(&out);
    assert_eq!(pages.len(), 2);
    let tags = &pages[1].payload;
    assert_eq!(&tags[0..8], b"OpusTags");
    let vendor_len = read_u32(&tags[8..12]) as usize;
    assert_eq!(vendor_len, 14);
    assert_eq!(&tags[12..12 + vendor_len], b"namui-ogg-opus");
    assert_eq!(read_u32(&tags[12 + vendor_len..16 + vendor_len]), 0);
    assert_eq!(tags.len(), 30);
}

#[test]
fn end_to_end_silent_two_seconds() {
    // Two seconds of silence at 48 kHz, one channel, assembled into
    // windows, "encoded" by a stand-in that emits one packet per frame,
    // reordered from out-of-order completion, and muxed.
    let left = 8usize;
    let middle = 96usize;
    let right = 8usize;
    let frame_size = 480usize;
    let lookahead = 312usize;

    let mut assembler = WindowAssembler::new(1, frame_size, left, middle, right);
    let chunk = AudioChunk { pcm: vec![0i16; 96000], channels: 1, sample_rate: 48000 };
    assembler.push_chunk(&chunk);
    let mut requests = Vec::new();
    while assembler.buf.len() > assembler.win_len {
        requests.push(assembler.emit());
    }
    requests.push(assembler.finish());
    assert_eq!(requests.len(), 2);
    assert_eq!(requests[0].kind, EncodingRequestKind::First);
    assert_eq!(requests[1].kind, EncodingRequestKind::End);

    // Each job encodes its window independently; the packet bytes stand in
    // for encoder output.
    let mut results: Vec<Encoded> = Vec::new();
    for req in &requests {
        let frame_pcm = req.channels * req.frame_size;
        let total_frames = req.pcm.len() / frame_pcm;
        let mut packets = Vec::new();
        for idx in 0..total_frames {
            match frame_action(req.kind, left, middle, idx) {
                FrameAction::Stop => break,
                FrameAction::EncodeOnly => {}
                FrameAction::EncodeEmit => {
                    packets.push(OpusPacket { data: vec![0x3c; 50], frame_size: req.frame_size });
                }
            }
        }
        results.push(Encoded { sequence_number: req.sequence_number, packets });
    }
    // Each window emits left + middle frames' worth of packets here.
    assert_eq!(results[0].packets.len(), left + middle);
    assert_eq!(results[1].packets.len(), left + middle + right - left);

    // Jobs complete out of order; the reorder buffer restores the order.
    let total_jobs = results.len();
    results.reverse();
    let mut rb = ReorderBuffer::new();
    let mut writer = PacketWriter::new();
    write_header(&mut writer, 1, lookahead);
    write_tags(&mut writer);
    let mut sample_acc = 0usize;
    let mut emitted_packets = 0usize;
    for e in results {
        rb.insert(e);
        while let Some(ready) = rb.pop_ready() {
            let is_end = ready.sequence_number + 1 == total_jobs;
            emitted_packets += ready.packets.len();
            handle_packets(&mut writer, ready.packets, lookahead, &mut sample_acc, is_end);
        }
    }
    assert!(rb.is_empty());
    assert_eq!(emitted_packets, 208);
    assert_eq!(sample_acc, 208 * frame_size);

    let out = writer.take_output();
    let pages = read_pages(&out);
    assert!(pages.len() >= 3);
    // First page: the 19-byte identification header, on a page of its own.
    assert_eq!(pages[0].flags, 0x02);
    assert_eq!(pages[0].payload.len(), 19);
    assert_eq!(&pages[0].payload[0..8], b"OpusHead");
    // Second page: the comment header, on a page of its own.
    assert_eq!(&pages[1].payload[0..8], b"OpusTags");
    // Last page: end of stream, with the final granule position.
    let last = pages.last().unwrap();
    assert_eq!(last.flags & 0x04, 0x04);
    assert_eq!(last.granule, (lookahead + 208 * frame_size) as u64);
    // One logical stream, densely numbered pages.
    for (n, p) in pages.iter().enumerate() {
        assert_eq!(p.serial, SERIAL);
        assert_eq!(p.seqnum, n as u32);
    }
}
