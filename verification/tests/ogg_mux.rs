use opusify::crc::{get_tbl_elem, lookup_array, vorbis_crc32_update};
use opusify::ogg::{PacketWriteEndInfo, PacketWriter};

fn le16(b: &[u8]) -> u16 {
    u16::from_le_bytes([b[0], b[1]])
}

fn le32(b: &[u8]) -> u32 {
    u32::from_le_bytes([b[0], b[1], b[2], b[3]])
}

fn le64(b: &[u8]) -> u64 {
    u64::from_le_bytes([b[0], b[1], b[2], b[3], b[4], b[5], b[6], b[7]])
}

struct Page {
    flags: u8,
    granule: u64,
    serial: u32,
    seqnum: u32,
    crc: u32,
    lacing: Vec<u8>,
    payload: Vec<u8>,
}

fn parse_pages(bytes: &[u8]) -> Vec<Page> {
    let mut pages = Vec::new();
    let mut at = 0usize;
    while at < bytes.len() {
        assert_eq!(&bytes[at..at + 4], b"OggS");
        assert_eq!(bytes[at + 4], 0);
        let nseg = bytes[at + 26] as usize;
        let lacing = bytes[at + 27..at + 27 + nseg].to_vec();
        let paylen: usize = lacing.iter().map(|&v| v as usize).sum();
        let body = at + 27 + nseg;
        pages.push(Page {
            flags: bytes[at + 5],
            granule: le64(&bytes[at + 6..at + 14]),
            serial: le32(&bytes[at + 14..at + 18]),
            seqnum: le32(&bytes[at + 18..at + 22]),
            crc: le32(&bytes[at + 22..at + 26]),
            lacing,
            payload: bytes[body..body + paylen].to_vec(),
        });
        at = body + paylen;
    }
    pages
}

#[test]
fn crc_table_entries() {
    assert_eq!(get_tbl_elem(0), 0);
    assert_eq!(get_tbl_elem(1), 0x04c11db7);
    assert_eq!(get_tbl_elem(128), 0x690ce0ee);
    assert_eq!(get_tbl_elem(255), 0xb1f740b4);
}

#[test]
fn crc_lookup_table_matches_entries() {
    let t = lookup_array();
    assert_eq!(t.len(), 256);
    for i in 0..256u32 {
        assert_eq!(t[i as usize], get_tbl_elem(i));
    }
}

#[test]
fn crc_check_vectors() {
    let t = lookup_array();
    assert_eq!(vorbis_crc32_update(0, &t, b""), 0);
    assert_eq!(vorbis_crc32_update(0, &t, b"123456789"), 0x89a1897f);
    assert_eq!(vorbis_crc32_update(0, &t, b"OggS"), 0x5fb0a94f);
}

#[test]
fn crc_is_stateful_composition() {
    let t = lookup_array();
    let a = vorbis_crc32_update(0, &t, b"1234");
    assert_eq!(vorbis_crc32_update(a, &t, b"56789"), 0x89a1897f);
}

#[test]
fn single_packet_page_layout() {
    let mut w = PacketWriter::new();
    w.write_packet(b"hello".to_vec(), 1, PacketWriteEndInfo::EndPage, 7);
    let out = w.take_output();
    assert_eq!(out.len(), 27 + 1 + 5);
    assert_eq!(&out[0..4], b"OggS");
    assert_eq!(out[4], 0); // version
    assert_eq!(out[5], 0x02); // first page of the stream
    assert_eq!(le64(&out[6..14]), 7); // granule position
    assert_eq!(le32(&out[14..18]), 1); // serial
    assert_eq!(le32(&out[18..22]), 0); // page sequence number
    assert_eq!(out[26], 1); // one segment
    assert_eq!(out[27], 5); // its lacing value
    assert_eq!(&out[28..33], b"hello");
}

#[test]
fn page_crc_is_over_zeroed_checksum_field() {
    let mut w = PacketWriter::new();
    w.write_packet(b"some packet data".to_vec(), 9, PacketWriteEndInfo::EndPage, 16);
    let out = w.take_output();
    let written_crc = le32(&out[22..26]);
    assert_ne!(written_crc, 0);
    let mut zeroed = out.clone();
    zeroed[22] = 0;
    zeroed[23] = 0;
    zeroed[24] = 0;
    zeroed[25] = 0;
    let t = lookup_array();
    let recomputed = vorbis_crc32_update(0, &t, &zeroed);
    assert_eq!(written_crc, recomputed);
}

#[test]
fn crc_changes_on_payload_flip() {
    let mut w1 = PacketWriter::new();
    w1.write_packet(b"hello".to_vec(), 1, PacketWriteEndInfo::EndPage, 7);
    let out1 = w1.take_output();
    let mut w2 = PacketWriter::new();
    w2.write_packet(b"hellp".to_vec(), 1, PacketWriteEndInfo::EndPage, 7);
    let out2 = w2.take_output();
    assert_eq!(out1.len(), out2.len());
    assert_ne!(le32(&out1[22..26]), le32(&out2[22..26]));
}

#[test]
fn zero_length_packet_has_one_zero_lacing_value() {
    let mut w = PacketWriter::new();
    w.write_packet(Vec::new(), 1, PacketWriteEndInfo::EndPage, 0);
    let out = w.take_output();
    assert_eq!(out[26], 1);
    assert_eq!(out[27], 0);
    assert_eq!(out.len(), 28);
}

#[test]
fn full_segment_packet_gets_trailing_zero_lacing_value() {
    // A packet of exactly 255 bytes: one full segment, then a terminal 0.
    let mut w = PacketWriter::new();
    w.write_packet(vec![0xabu8; 255], 1, PacketWriteEndInfo::EndPage, 0);
    let out = w.take_output();
    let pages = parse_pages(&out);
    assert_eq!(pages.len(), 1);
    assert_eq!(pages[0].lacing, vec![255, 0]);
    assert_eq!(pages[0].payload.len(), 255);
}

#[test]
fn lacing_values_sum_to_packet_length() {
    // 600 = 255 + 255 + 90: three lacing values, 600 / 255 + 1 of them.
    let mut w = PacketWriter::new();
    w.write_packet(vec![0x5au8; 600], 1, PacketWriteEndInfo::EndPage, 0);
    let out = w.take_output();
    let pages = parse_pages(&out);
    assert_eq!(pages.len(), 1);
    assert_eq!(pages[0].lacing, vec![255, 255, 90]);
    let sum: usize = pages[0].lacing.iter().map(|&v| v as usize).sum();
    assert_eq!(sum, 600);
    assert_eq!(pages[0].lacing.len(), 600 / 255 + 1);
}

#[test]
fn several_packets_share_one_page() {
    let mut w = PacketWriter::new();
    w.write_packet(b"aa".to_vec(), 3, PacketWriteEndInfo::NormalPacket, 10);
    w.write_packet(b"bbb".to_vec(), 3, PacketWriteEndInfo::NormalPacket, 20);
    w.write_packet(b"cccc".to_vec(), 3, PacketWriteEndInfo::EndPage, 30);
    let out = w.take_output();
    let pages = parse_pages(&out);
    assert_eq!(pages.len(), 1);
    assert_eq!(pages[0].lacing, vec![2, 3, 4]);
    assert_eq!(pages[0].payload, b"aabbbcccc");
    // The granule position belongs to the last packet finishing in the page.
    assert_eq!(pages[0].granule, 30);
}

#[test]
fn long_packet_continues_across_pages() {
    let data: Vec<u8> = (0..70000u32).map(|i| (i % 251) as u8).collect();
    let mut w = PacketWriter::new();
    w.write_packet(data.clone(), 5, PacketWriteEndInfo::EndStream, 42);
    let out = w.take_output();
    let pages = parse_pages(&out);
    assert_eq!(pages.len(), 2);

    // First page: 255 full segments, cut mid-packet, no finishing packet.
    assert_eq!(pages[0].flags, 0x02);
    assert_eq!(pages[0].lacing.len(), 255);
    assert!(pages[0].lacing.iter().all(|&v| v == 255));
    assert_eq!(pages[0].granule, u64::MAX);
    assert_eq!(pages[0].seqnum, 0);

    // Second page: continued packet, remainder of the data, end of stream.
    assert_eq!(pages[1].flags, 0x01 | 0x04);
    assert_eq!(pages[1].lacing.len(), 20);
    assert_eq!(pages[1].lacing[19], 130);
    assert_eq!(pages[1].granule, 42);
    assert_eq!(pages[1].seqnum, 1);

    let mut joined = pages[0].payload.clone();
    joined.extend_from_slice(&pages[1].payload);
    assert_eq!(joined, data);
}

#[test]
fn packet_exactly_filling_page_flushes_once() {
    // 64770 = 254 * 255: 254 full segments plus a terminal 0 make exactly
    // 255 lacing values, so the page flushes by itself and the forced page
    // end has nothing left to do.
    let data = vec![0x7fu8; 64770];
    let mut w = PacketWriter::new();
    w.write_packet(data.clone(), 4, PacketWriteEndInfo::EndPage, 11);
    let out = w.take_output();
    let pages = parse_pages(&out);
    assert_eq!(pages.len(), 1);
    assert_eq!(pages[0].lacing.len(), 255);
    assert!(pages[0].lacing[..254].iter().all(|&v| v == 255));
    assert_eq!(pages[0].lacing[254], 0);
    // The packet finishes in this page, so its granule position counts.
    assert_eq!(pages[0].granule, 11);
    assert_eq!(pages[0].payload, data);
}

#[test]
fn short_packet_keeps_granule_when_long_packet_is_cut() {
    // A page holding a finished short packet and the head of a cut long
    // packet carries the short packet's granule position.
    let long: Vec<u8> = (0..70000u32).map(|i| (i % 239) as u8).collect();
    let mut w = PacketWriter::new();
    w.write_packet(b"aa".to_vec(), 6, PacketWriteEndInfo::NormalPacket, 33);
    w.write_packet(long.clone(), 6, PacketWriteEndInfo::EndStream, 99);
    let out = w.take_output();
    let pages = parse_pages(&out);
    assert_eq!(pages.len(), 2);
    assert_eq!(pages[0].granule, 33);
    assert_eq!(pages[0].flags, 0x02);
    assert_eq!(pages[0].lacing[0], 2);
    assert_eq!(pages[1].granule, 99);
    assert_eq!(pages[1].flags, 0x01 | 0x04);
    let mut joined = pages[0].payload[2..].to_vec();
    joined.extend_from_slice(&pages[1].payload);
    assert_eq!(joined, long);
    assert_eq!(&pages[0].payload[0..2], b"aa");
}

#[test]
fn packet_spanning_three_pages_reassembles() {
    let data: Vec<u8> = (0..150000u32).map(|i| (i % 241) as u8).collect();
    let mut w = PacketWriter::new();
    w.write_packet(data.clone(), 8, PacketWriteEndInfo::EndStream, 777);
    let out = w.take_output();
    let pages = parse_pages(&out);
    assert_eq!(pages.len(), 3);
    // Both full pages cut the packet: no granule position, 255 full segments.
    for p in &pages[0..2] {
        assert_eq!(p.lacing.len(), 255);
        assert!(p.lacing.iter().all(|&v| v == 255));
        assert_eq!(p.granule, u64::MAX);
        assert_eq!(p.payload.len(), 255 * 255);
    }
    assert_eq!(pages[0].flags, 0x02);
    assert_eq!(pages[1].flags, 0x01);
    assert_eq!(pages[2].flags, 0x01 | 0x04);
    assert_eq!(pages[2].granule, 777);
    // 150000 - 2 * 65025 = 19950 = 78 * 255 + 60.
    assert_eq!(pages[2].lacing.len(), 79);
    assert_eq!(pages[2].lacing[78], 60);
    let mut joined = Vec::new();
    for p in &pages {
        joined.extend_from_slice(&p.payload);
    }
    assert_eq!(joined, data);
    for (n, p) in pages.iter().enumerate() {
        assert_eq!(p.seqnum, n as u32);
        assert_eq!(p.serial, 8);
    }
}

#[test]
fn end_stream_sets_last_page_flag() {
    let mut w = PacketWriter::new();
    w.write_packet(b"first".to_vec(), 1, PacketWriteEndInfo::NormalPacket, 100);
    w.write_packet(b"last".to_vec(), 1, PacketWriteEndInfo::EndStream, 200);
    let out = w.take_output();
    let pages = parse_pages(&out);
    assert_eq!(pages.len(), 1);
    assert_eq!(pages[0].flags, 0x02 | 0x04);
    assert_eq!(pages[0].payload, b"firstlast");
    assert_eq!(pages[0].granule, 200);
}

#[test]
fn streams_are_independent_per_serial() {
    let mut w = PacketWriter::new();
    w.write_packet(b"one".to_vec(), 111, PacketWriteEndInfo::EndPage, 1);
    w.write_packet(b"two".to_vec(), 222, PacketWriteEndInfo::EndPage, 2);
    w.write_packet(b"three".to_vec(), 111, PacketWriteEndInfo::EndPage, 3);
    let out = w.take_output();
    let pages = parse_pages(&out);
    assert_eq!(pages.len(), 3);
    assert_eq!(pages[0].serial, 111);
    assert_eq!(pages[0].seqnum, 0);
    assert_eq!(pages[0].flags, 0x02);
    assert_eq!(pages[1].serial, 222);
    assert_eq!(pages[1].seqnum, 0);
    assert_eq!(pages[1].flags, 0x02);
    // The second page of serial 111 keeps its own counter and is not first.
    assert_eq!(pages[2].serial, 111);
    assert_eq!(pages[2].seqnum, 1);
    assert_eq!(pages[2].flags, 0x00);
}

#[test]
fn take_output_drains_the_buffer() {
    let mut w = PacketWriter::new();
    w.write_packet(b"x".to_vec(), 1, PacketWriteEndInfo::EndPage, 0);
    let first = w.take_output();
    assert!(!first.is_empty());
    assert!(w.take_output().is_empty());
    w.write_packet(b"y".to_vec(), 1, PacketWriteEndInfo::EndPage, 1);
    let second = w.take_output();
    let pages = parse_pages(&second);
    assert_eq!(pages.len(), 1);
    assert_eq!(pages[0].seqnum, 1);
}
