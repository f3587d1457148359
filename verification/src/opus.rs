//! The Opus layer over the Ogg muxer: the two preamble packets
//! (identification and comment headers), and the audio packet writer that
//! tracks granule positions.

use vstd::prelude::*;

use crate::ogg::{write_packet_spec, PacketWriteEndInfo, PacketWriter, StreamModel};
use vstd::bytes::{
    spec_u16_to_le_bytes, spec_u32_to_le_bytes, u16_to_le_bytes, u32_to_le_bytes,
};

verus! {

/// The single logical stream's serial number: one stream per output file.
pub const SERIAL: u32 = 12345;

/// Samples per channel fed to the encoder per frame.
pub const FRAME_SIZE: usize = 480;

/// The fixed output sample rate in Hz.
pub const OUT_SAMPLE_RATE: usize = 48000;

/// One encoded Opus packet, with the number of samples per channel it
/// represents.
pub struct OpusPacket {
    pub data: Vec<u8>,
    pub frame_size: usize,
}

/// Mathematical counterpart of `OpusPacket`.
pub ghost struct OpusPacketModel {
    pub data: Seq<u8>,
    pub frame_size: nat,
}

impl View for OpusPacket {
    type V = OpusPacketModel;

    open spec fn view(&self) -> OpusPacketModel {
        OpusPacketModel { data: self.data@, frame_size: self.frame_size as nat }
    }
}

/// A completed encoding job: its window's sequence number and its packets
/// in encode order.
pub struct Encoded {
    pub sequence_number: usize,
    pub packets: Vec<OpusPacket>,
}

/// The 19-byte Opus identification header: magic, version 1, channel
/// count, pre-skip, input sample rate, zero output gain, channel mapping
/// family 0.
pub open spec fn opus_head_bytes(channels: u8, pre_skip: u16) -> Seq<u8> {
    seq![0x4fu8, 0x70u8, 0x75u8, 0x73u8, 0x48u8, 0x65u8, 0x61u8, 0x64u8, 0x01u8, channels]
        + spec_u16_to_le_bytes(pre_skip) + spec_u32_to_le_bytes(48000u32) + spec_u16_to_le_bytes(
        0u16,
    ) + seq![0x00u8]
}

pub proof fn lemma_opus_head_len(channels: u8, pre_skip: u16)
    ensures
        opus_head_bytes(channels, pre_skip).len() == 19,
{
    vstd::bytes::lemma_auto_spec_u16_to_from_le_bytes();
    vstd::bytes::lemma_auto_spec_u32_to_from_le_bytes();
}

/// The Opus comment header: magic, vendor string, no user comments.
pub open spec fn opus_tags_bytes() -> Seq<u8> {
    seq![0x4fu8, 0x70u8, 0x75u8, 0x73u8, 0x54u8, 0x61u8, 0x67u8, 0x73u8]
        + spec_u32_to_le_bytes(14u32) + seq![
        0x6eu8, 0x61u8, 0x6du8, 0x75u8, 0x69u8, 0x2du8, 0x6fu8, 0x67u8, 0x67u8, 0x2du8, 0x6fu8,
        0x70u8, 0x75u8, 0x73u8,
    ] + spec_u32_to_le_bytes(0u32)
}

/// Writes the identification header packet, forcing it onto its own page.
pub fn write_header(writer: &mut PacketWriter, channels: usize, lookahead: usize)
    requires
        old(writer).wf(),
        1 <= channels <= 255,
        lookahead <= 0xffff,
        !old(writer).stream(SERIAL).retired,
        old(writer).stream(SERIAL).seqnum + 2 <= u32::MAX,
    ensures
        final(writer).wf(),
        ({
            let r = write_packet_spec(
                old(writer).stream(SERIAL),
                opus_head_bytes(channels as u8, lookahead as u16),
                PacketWriteEndInfo::EndPage,
                0,
                SERIAL,
            );
            final(writer).stream(SERIAL) == r.0 && final(writer).out_view() == old(
                writer,
            ).out_view() + r.1
        }),
        forall|s2: u32| s2 != SERIAL ==> final(writer).stream(s2) == old(writer).stream(s2),
{
    let mut head: Vec<u8> = Vec::new();
    head.push(0x4f);
    head.push(0x70);
    head.push(0x75);
    head.push(0x73);
    head.push(0x48);
    head.push(0x65);
    head.push(0x61);
    head.push(0x64);
    head.push(0x01);
    head.push(channels as u8);
    let mut ps = u16_to_le_bytes(lookahead as u16);
    head.append(&mut ps);
    let mut sr = u32_to_le_bytes(48000);
    head.append(&mut sr);
    let mut og = u16_to_le_bytes(0);
    head.append(&mut og);
    head.push(0x00);
    proof {
        assert(head@ =~= opus_head_bytes(channels as u8, lookahead as u16));
        lemma_opus_head_len(channels as u8, lookahead as u16);
        crate::ogg::lemma_wp_bounds(
            old(writer).stream(SERIAL),
            head@,
            PacketWriteEndInfo::EndPage,
            0,
            SERIAL,
        );
    }
    writer.write_packet(head, SERIAL, PacketWriteEndInfo::EndPage, 0);
}

/// Writes the comment header packet, forcing it onto its own page.
pub fn write_tags(writer: &mut PacketWriter)
    requires
        old(writer).wf(),
        !old(writer).stream(SERIAL).retired,
        old(writer).stream(SERIAL).seqnum + 2 <= u32::MAX,
    ensures
        final(writer).wf(),
        ({
            let r = write_packet_spec(
                old(writer).stream(SERIAL),
                opus_tags_bytes(),
                PacketWriteEndInfo::EndPage,
                0,
                SERIAL,
            );
            final(writer).stream(SERIAL) == r.0 && final(writer).out_view() == old(
                writer,
            ).out_view() + r.1
        }),
        forall|s2: u32| s2 != SERIAL ==> final(writer).stream(s2) == old(writer).stream(s2),
{
    let mut opus_tags: Vec<u8> = Vec::new();
    opus_tags.push(0x4f);
    opus_tags.push(0x70);
    opus_tags.push(0x75);
    opus_tags.push(0x73);
    opus_tags.push(0x54);
    opus_tags.push(0x61);
    opus_tags.push(0x67);
    opus_tags.push(0x73);
    // Vendor string length, then the vendor string itself.
    let mut vl = u32_to_le_bytes(14);
    opus_tags.append(&mut vl);
    opus_tags.push(0x6e);
    opus_tags.push(0x61);
    opus_tags.push(0x6d);
    opus_tags.push(0x75);
    opus_tags.push(0x69);
    opus_tags.push(0x2d);
    opus_tags.push(0x6f);
    opus_tags.push(0x67);
    opus_tags.push(0x67);
    opus_tags.push(0x2d);
    opus_tags.push(0x6f);
    opus_tags.push(0x70);
    opus_tags.push(0x75);
    opus_tags.push(0x73);
    // No user comments.
    let mut cc = u32_to_le_bytes(0);
    opus_tags.append(&mut cc);
    proof {
        vstd::bytes::lemma_auto_spec_u32_to_from_le_bytes();
        assert(opus_tags@ =~= opus_tags_bytes());
        crate::ogg::lemma_wp_bounds(
            old(writer).stream(SERIAL),
            opus_tags@,
            PacketWriteEndInfo::EndPage,
            0,
            SERIAL,
        );
    }
    writer.write_packet(opus_tags, SERIAL, PacketWriteEndInfo::EndPage, 0);
}

/// Writes one audio packet: the running sample count advances by the
/// packet's frame size, and the granule position is the lookahead plus the
/// new count.
pub fn write_opus_packet_to_ogg(
    writer: &mut PacketWriter,
    packet: OpusPacket,
    lookahead: usize,
    sample_acc: &mut usize,
    is_end: bool,
)
    requires
        old(writer).wf(),
        !old(writer).stream(SERIAL).retired,
        *old(sample_acc) + packet.frame_size <= usize::MAX,
        lookahead + *old(sample_acc) + packet.frame_size <= u64::MAX,
        old(writer).stream(SERIAL).seqnum + packet.data@.len() / 255 + 2 <= u32::MAX,
    ensures
        *final(sample_acc) == *old(sample_acc) + packet.frame_size,
        final(writer).wf(),
        ({
            let granule = (lookahead + *old(sample_acc) + packet.frame_size) as u64;
            let inf = if is_end {
                PacketWriteEndInfo::EndStream
            } else {
                PacketWriteEndInfo::NormalPacket
            };
            let r = write_packet_spec(old(writer).stream(SERIAL), packet.data@, inf, granule, SERIAL);
            final(writer).stream(SERIAL) == r.0 && final(writer).out_view() == old(
                writer,
            ).out_view() + r.1
        }),
        forall|s2: u32| s2 != SERIAL ==> final(writer).stream(s2) == old(writer).stream(s2),
{
    *sample_acc = *sample_acc + packet.frame_size;
    let granule: u64 = (lookahead as u64) + (*sample_acc as u64);
    let inf = if is_end {
        PacketWriteEndInfo::EndStream
    } else {
        PacketWriteEndInfo::NormalPacket
    };
    proof {
        crate::ogg::lemma_wp_bounds(old(writer).stream(SERIAL), packet.data@, inf, granule, SERIAL);
    }
    writer.write_packet(packet.data, SERIAL, inf, granule);
}

/// The total number of samples per channel covered by a packet list.
pub open spec fn sum_frames(packets: Seq<OpusPacketModel>) -> nat
    decreases packets.len(),
{
    if packets.len() == 0 {
        0
    } else {
        packets[0].frame_size + sum_frames(packets.drop_first())
    }
}

/// An upper bound on the pages a packet list can add.
pub open spec fn page_budget(packets: Seq<OpusPacketModel>) -> nat
    decreases packets.len(),
{
    if packets.len() == 0 {
        0
    } else {
        packets[0].data.len() / 255 + 2 + page_budget(packets.drop_first())
    }
}

/// The combined effect of writing a packet list in order: each packet
/// advances the sample count by its frame size and is written with granule
/// position `lookahead` plus the running count; only the very last packet
/// of an ending job carries the end-of-stream signal.
pub open spec fn handle_packets_spec(
    st: StreamModel,
    packets: Seq<OpusPacketModel>,
    lookahead: nat,
    acc: nat,
    is_end: bool,
) -> (StreamModel, Seq<u8>, nat)
    decreases packets.len(),
{
    if packets.len() == 0 {
        (st, Seq::empty(), acc)
    } else {
        let p = packets[0];
        let acc2 = acc + p.frame_size;
        let inf = if is_end && packets.len() == 1 {
            PacketWriteEndInfo::EndStream
        } else {
            PacketWriteEndInfo::NormalPacket
        };
        let r = write_packet_spec(st, p.data, inf, (lookahead + acc2) as u64, SERIAL);
        let rest = handle_packets_spec(r.0, packets.drop_first(), lookahead, acc2, is_end);
        (rest.0, r.1 + rest.1, rest.2)
    }
}

/// Writes a job's packets to the muxer in order. When `is_end` holds, the
/// last packet ends the logical stream.
pub fn handle_packets(
    writer: &mut PacketWriter,
    packets: Vec<OpusPacket>,
    lookahead: usize,
    sample_acc: &mut usize,
    is_end: bool,
)
    requires
        old(writer).wf(),
        !old(writer).stream(SERIAL).retired,
        *old(sample_acc) + sum_frames(packets@.map_values(|p: OpusPacket| p@)) <= usize::MAX,
        lookahead + *old(sample_acc) + sum_frames(packets@.map_values(|p: OpusPacket| p@))
            <= u64::MAX,
        old(writer).stream(SERIAL).seqnum + page_budget(packets@.map_values(|p: OpusPacket| p@))
            <= u32::MAX,
    ensures
        final(writer).wf(),
        ({
            let r = handle_packets_spec(
                old(writer).stream(SERIAL),
                packets@.map_values(|p: OpusPacket| p@),
                lookahead as nat,
                *old(sample_acc) as nat,
                is_end,
            );
            final(writer).stream(SERIAL) == r.0 && final(writer).out_view() == old(
                writer,
            ).out_view() + r.1 && *final(sample_acc) == r.2
        }),
        forall|s2: u32| s2 != SERIAL ==> final(writer).stream(s2) == old(writer).stream(s2),
{
    let ghost full = handle_packets_spec(
        old(writer).stream(SERIAL),
        packets@.map_values(|p: OpusPacket| p@),
        lookahead as nat,
        *old(sample_acc) as nat,
        is_end,
    );
    let ghost out0 = writer.out_view();
    let ghost mut prefix: Seq<u8> = Seq::empty();
    let mut packets = packets;
    proof {
        assert(out0 + prefix =~= out0);
    }
    while packets.len() > 0
        invariant
            writer.wf(),
            packets@.len() > 0 ==> !writer.stream(SERIAL).retired,
            *sample_acc + sum_frames(packets@.map_values(|p: OpusPacket| p@)) <= usize::MAX,
            lookahead + *sample_acc + sum_frames(packets@.map_values(|p: OpusPacket| p@))
                <= u64::MAX,
            writer.stream(SERIAL).seqnum + page_budget(packets@.map_values(|p: OpusPacket| p@))
                <= u32::MAX,
            writer.out_view() == out0 + prefix,
            full.0 == handle_packets_spec(
                writer.stream(SERIAL),
                packets@.map_values(|p: OpusPacket| p@),
                lookahead as nat,
                *sample_acc as nat,
                is_end,
            ).0,
            full.1 == prefix + handle_packets_spec(
                writer.stream(SERIAL),
                packets@.map_values(|p: OpusPacket| p@),
                lookahead as nat,
                *sample_acc as nat,
                is_end,
            ).1,
            full.2 == handle_packets_spec(
                writer.stream(SERIAL),
                packets@.map_values(|p: OpusPacket| p@),
                lookahead as nat,
                *sample_acc as nat,
                is_end,
            ).2,
            forall|s2: u32| s2 != SERIAL ==> writer.stream(s2) == old(writer).stream(s2),
        decreases packets@.len(),
    {
        let ghost st_iter = writer.stream(SERIAL);
        let ghost models = packets@.map_values(|p: OpusPacket| p@);
        let packet = packets.remove(0);
        let last_packet = packets.len() == 0;
        proof {
            assert(packets@.map_values(|p: OpusPacket| p@) =~= models.drop_first());
            assert(models[0] == packet@);
            crate::ogg::lemma_wp_bounds(
                st_iter,
                packet.data@,
                if is_end && last_packet {
                    PacketWriteEndInfo::EndStream
                } else {
                    PacketWriteEndInfo::NormalPacket
                },
                (lookahead + *sample_acc + packet.frame_size) as u64,
                SERIAL,
            );
        }
        let ghost acc_pre = *sample_acc as nat;
        write_opus_packet_to_ogg(writer, packet, lookahead, sample_acc, is_end && last_packet);
        proof {
            let inf = if is_end && last_packet {
                PacketWriteEndInfo::EndStream
            } else {
                PacketWriteEndInfo::NormalPacket
            };
            let r = write_packet_spec(
                st_iter,
                models[0].data,
                inf,
                (lookahead + acc_pre + models[0].frame_size) as u64,
                SERIAL,
            );
            prefix = prefix + r.1;
            assert(writer.out_view() =~= out0 + prefix);
            assert(full.1 =~= prefix + handle_packets_spec(
                writer.stream(SERIAL),
                packets@.map_values(|p: OpusPacket| p@),
                lookahead as nat,
                *sample_acc as nat,
                is_end,
            ).1);
        }
    }
    proof {
        assert(prefix =~= prefix + Seq::<u8>::empty());
        assert(full.1 == prefix);
    }
}

} // verus!
