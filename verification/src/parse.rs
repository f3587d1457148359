//! A reader's view of the emitted bytes: a specification-level parser for
//! Ogg pages and for the lacing table, with proofs that parsing recovers
//! exactly what the muxer wrote — the round-trip laws.

use vstd::prelude::*;

use crate::ogg::{
    flush_st, lacing_of, lacing_sum, lemma_lacing_sum_push, lemma_place_lacing_nosplit,
    lemma_place_wf, lemma_portions_push, mark_retired, page_bytes, page_crc, page_flags,
    page_granule, page_pre, place_pre, place_segments, portion, portion_start, portions,
    portions_upto, push_lacing, push_packet, stream_wf, write_packet_spec, PacketModel,
    PacketWriteEndInfo, StreamModel,
};
use vstd::bytes::{
    spec_u32_from_le_bytes, spec_u32_to_le_bytes, spec_u64_from_le_bytes, spec_u64_to_le_bytes,
};

verus! {

/// Everything a reader recovers from one page.
pub ghost struct ParsedPage {
    pub flags: u8,
    pub granule: u64,
    pub serial: u32,
    pub seqnum: u32,
    pub crc: u32,
    pub lacing: Seq<u8>,
    pub payload: Seq<u8>,
}

/// Parses one page from the front of `b`: the fixed 27-byte header, the
/// lacing values, and a payload of exactly the lacing values' sum; returns
/// the page and the remaining bytes.
pub open spec fn parse_page(b: Seq<u8>) -> Option<(ParsedPage, Seq<u8>)> {
    if b.len() < 27 {
        None
    } else if !(b[0] == 0x4fu8 && b[1] == 0x67u8 && b[2] == 0x67u8 && b[3] == 0x53u8 && b[4]
        == 0x00u8) {
        None
    } else {
        let nseg = b[26] as int;
        if b.len() < 27 + nseg {
            None
        } else {
            let lacing = b.subrange(27, 27 + nseg);
            let paylen = lacing_sum(lacing) as int;
            if b.len() < 27 + nseg + paylen {
                None
            } else {
                Some(
                    (
                        ParsedPage {
                            flags: b[5],
                            granule: spec_u64_from_le_bytes(b.subrange(6, 14)),
                            serial: spec_u32_from_le_bytes(b.subrange(14, 18)),
                            seqnum: spec_u32_from_le_bytes(b.subrange(18, 22)),
                            crc: spec_u32_from_le_bytes(b.subrange(22, 26)),
                            lacing,
                            payload: b.subrange(27 + nseg, 27 + nseg + paylen),
                        },
                        b.subrange(27 + nseg + paylen, b.len() as int),
                    ),
                )
            }
        }
    }
}

/// Page round trip: parsing an emitted page from any byte stream recovers
/// exactly the flags, granule position, serial number, page sequence
/// number, checksum, lacing values and payload the muxer wrote, and leaves
/// exactly the following bytes.
pub proof fn lemma_parse_page_roundtrip(
    serial: u32,
    st: StreamModel,
    this_ovf: Option<nat>,
    last: bool,
    tail: Seq<u8>,
)
    requires
        st.lacing.len() <= 255,
        lacing_sum(st.lacing) == portions(st.packets, st.last_ovf, this_ovf).len(),
    ensures
        parse_page(page_bytes(serial, st, this_ovf, last) + tail) == Some(
            (
                ParsedPage {
                    flags: page_flags(st, last),
                    granule: page_granule(st.packets, this_ovf),
                    serial,
                    seqnum: st.seqnum as u32,
                    crc: page_crc(serial, st, this_ovf, last),
                    lacing: st.lacing,
                    payload: portions(st.packets, st.last_ovf, this_ovf),
                },
                tail,
            ),
        ),
{
    vstd::bytes::lemma_auto_spec_u64_to_from_le_bytes();
    vstd::bytes::lemma_auto_spec_u32_to_from_le_bytes();
    let pay = portions(st.packets, st.last_ovf, this_ovf);
    let pp = page_pre(serial, st, this_ovf, last);
    let cb = spec_u32_to_le_bytes(page_crc(serial, st, this_ovf, last));
    let b = page_bytes(serial, st, this_ovf, last) + tail;
    assert(pp.len() == 22);
    assert(b =~= pp + cb + seq![st.lacing.len() as u8] + st.lacing + pay + tail);
    let nseg = st.lacing.len() as int;
    assert(b.len() == 27 + nseg + pay.len() + tail.len());
    assert(b[0] == 0x4fu8 && b[1] == 0x67u8 && b[2] == 0x67u8 && b[3] == 0x53u8 && b[4] == 0x00u8);
    assert(b[26] == st.lacing.len() as u8);
    assert(b[26] as int == nseg);
    assert(b.subrange(27, 27 + nseg) =~= st.lacing);
    assert(b[5] == page_flags(st, last));
    assert(b.subrange(6, 14) =~= spec_u64_to_le_bytes(page_granule(st.packets, this_ovf)));
    assert(b.subrange(14, 18) =~= spec_u32_to_le_bytes(serial));
    assert(b.subrange(18, 22) =~= spec_u32_to_le_bytes(st.seqnum as u32));
    assert(b.subrange(22, 26) =~= cb);
    assert(b.subrange(27 + nseg, 27 + nseg + pay.len()) =~= pay);
    assert(b.subrange(27 + nseg + pay.len(), b.len() as int) =~= tail);
}

/// Decodes a lacing-value sequence as a reader does: runs of 255 extend a
/// packet, a value below 255 ends it. Returns the lengths of the packets
/// that end in this sequence, and the byte count of an unterminated packet
/// continuing past it.
pub open spec fn unlace(lacing: Seq<u8>) -> (Seq<nat>, nat)
    decreases lacing.len(),
{
    if lacing.len() == 0 {
        (Seq::empty(), 0)
    } else if lacing[0] < 255 {
        let r = unlace(lacing.drop_first());
        (seq![lacing[0] as nat] + r.0, r.1)
    } else {
        let r = unlace(lacing.drop_first());
        if r.0.len() > 0 {
            (seq![(255 + r.0[0]) as nat] + r.0.drop_first(), r.1)
        } else {
            (Seq::empty(), (255 + r.1) as nat)
        }
    }
}

/// Lacing round trip for one packet: decoding a packet's lacing values in
/// front of anything recovers exactly its length.
pub proof fn lemma_unlace_packet(len: nat, rest: Seq<u8>)
    ensures
        unlace(lacing_of(len) + rest).0 == seq![len] + unlace(rest).0,
        unlace(lacing_of(len) + rest).1 == unlace(rest).1,
    decreases len,
{
    if len < 255 {
        let s = lacing_of(len) + rest;
        assert(s =~= seq![len as u8] + rest);
        assert(s[0] == len as u8);
        assert(s.drop_first() =~= rest);
    } else {
        let s = lacing_of(len) + rest;
        let inner = lacing_of((len - 255) as nat) + rest;
        assert(s =~= seq![255u8] + inner);
        assert(s[0] == 255u8);
        assert(s.drop_first() =~= inner);
        lemma_unlace_packet((len - 255) as nat, rest);
        let r = unlace(inner);
        assert(r.0[0] == (len - 255) as nat);
        assert(r.0.drop_first() =~= unlace(rest).0);
        assert(unlace(s).0 =~= seq![len] + unlace(rest).0);
    }
}

/// The lacing values of a packet list, concatenated.
pub open spec fn concat_lacing(lens: Seq<nat>) -> Seq<u8>
    decreases lens.len(),
{
    if lens.len() == 0 {
        Seq::empty()
    } else {
        lacing_of(lens[0]) + concat_lacing(lens.drop_first())
    }
}

/// Lacing round trip for a whole page: decoding the concatenated lacing
/// values of a packet list recovers exactly the packets' lengths, with no
/// unterminated remainder.
pub proof fn lemma_unlace_all(lens: Seq<nat>)
    ensures
        unlace(concat_lacing(lens)) == (lens, 0nat),
    decreases lens.len(),
{
    if lens.len() == 0 {
        assert(unlace(concat_lacing(lens)).0 =~= lens);
    } else {
        lemma_unlace_all(lens.drop_first());
        lemma_unlace_packet(lens[0], concat_lacing(lens.drop_first()));
        assert(seq![lens[0]] + lens.drop_first() =~= lens);
    }
}

/// The packets' lengths.
pub open spec fn packet_lens(packets: Seq<PacketModel>) -> Seq<nat> {
    packets.map_values(|p: PacketModel| p.data.len())
}

/// The packets' data sequences.
pub open spec fn packet_datas(packets: Seq<PacketModel>) -> Seq<Seq<u8>> {
    packets.map_values(|p: PacketModel| p.data)
}

/// All packets' data, concatenated.
pub open spec fn concat_datas(packets: Seq<PacketModel>) -> Seq<u8>
    decreases packets.len(),
{
    if packets.len() == 0 {
        Seq::empty()
    } else {
        packets[0].data + concat_datas(packets.drop_first())
    }
}

proof fn lemma_concat_datas_push(packets: Seq<PacketModel>, p: PacketModel)
    ensures
        concat_datas(packets.push(p)) == concat_datas(packets) + p.data,
    decreases packets.len(),
{
    if packets.len() == 0 {
        assert(packets.push(p)[0] == p);
        assert(packets.push(p).drop_first() =~= Seq::<PacketModel>::empty());
        assert(concat_datas(packets.push(p)) == p.data + concat_datas(
            packets.push(p).drop_first(),
        ));
        assert(concat_datas(Seq::<PacketModel>::empty()) == Seq::<u8>::empty());
        assert(concat_datas(packets.push(p)) =~= concat_datas(packets) + p.data);
    } else {
        assert(packets.push(p)[0] == packets[0]);
        assert(packets.push(p).drop_first() =~= packets.drop_first().push(p));
        lemma_concat_datas_push(packets.drop_first(), p);
        assert(packets[0].data + (concat_datas(packets.drop_first()) + p.data) =~= (packets[0].data
            + concat_datas(packets.drop_first())) + p.data);
    }
}

/// With no continuation in progress, a page's payload is simply every
/// pending packet's data, concatenated.
pub proof fn lemma_portions_clean(packets: Seq<PacketModel>)
    ensures
        portions(packets, None, None) == concat_datas(packets),
    decreases packets.len(),
{
    if packets.len() == 0 {
    } else {
        let q = packets.drop_last();
        lemma_portions_clean(q);
        crate::ogg::lemma_portions_push(q, None, packets.last());
        lemma_concat_datas_push(q, packets.last());
        assert(q.push(packets.last()) =~= packets);
    }
}

/// Splits `payload` into consecutive pieces of the given lengths — how a
/// reader recovers packet boundaries from decoded lacing lengths.
pub open spec fn split_at_lens(payload: Seq<u8>, lens: Seq<nat>) -> Seq<Seq<u8>>
    decreases lens.len(),
{
    if lens.len() == 0 {
        Seq::empty()
    } else {
        seq![payload.take(lens[0] as int)] + split_at_lens(
            payload.skip(lens[0] as int),
            lens.drop_first(),
        )
    }
}

/// Splitting a concatenation of packets at their own lengths recovers
/// every packet.
pub proof fn lemma_split_concat(packets: Seq<PacketModel>)
    ensures
        split_at_lens(concat_datas(packets), packet_lens(packets)) == packet_datas(packets),
    decreases packets.len(),
{
    if packets.len() == 0 {
        assert(split_at_lens(concat_datas(packets), packet_lens(packets)) =~= packet_datas(
            packets,
        ));
    } else {
        let c = concat_datas(packets);
        let lens = packet_lens(packets);
        let rest = packets.drop_first();
        assert(lens[0] == packets[0].data.len());
        assert(lens.drop_first() =~= packet_lens(rest));
        assert(c == packets[0].data + concat_datas(rest));
        assert(c.take(lens[0] as int) =~= packets[0].data);
        assert(c.skip(lens[0] as int) =~= concat_datas(rest));
        lemma_split_concat(rest);
        assert(seq![packets[0].data] + packet_datas(rest) =~= packet_datas(packets));
    }
}

/// The concatenated lacing values of a packet list.
pub proof fn lemma_concat_lacing_push(lens: Seq<nat>, len: nat)
    ensures
        concat_lacing(lens.push(len)) == concat_lacing(lens) + lacing_of(len),
    decreases lens.len(),
{
    if lens.len() == 0 {
        assert(lens.push(len)[0] == len);
        assert(lens.push(len).drop_first() =~= Seq::<nat>::empty());
        assert(concat_lacing(lens.push(len)) == lacing_of(len) + concat_lacing(
            lens.push(len).drop_first(),
        ));
        assert(concat_lacing(Seq::<nat>::empty()) == Seq::<u8>::empty());
        assert(concat_lacing(lens.push(len)) =~= concat_lacing(lens) + lacing_of(len));
    } else {
        assert(lens.push(len)[0] == lens[0]);
        assert(lens.push(len).drop_first() =~= lens.drop_first().push(len));
        lemma_concat_lacing_push(lens.drop_first(), len);
        assert(lacing_of(lens[0]) + (concat_lacing(lens.drop_first()) + lacing_of(len)) =~= (
        lacing_of(lens[0]) + concat_lacing(lens.drop_first())) + lacing_of(len));
    }
}

proof fn lemma_lacing_sum_concat(a: Seq<u8>, b: Seq<u8>)
    ensures
        lacing_sum(a + b) == lacing_sum(a) + lacing_sum(b),
    decreases a.len(),
{
    if a.len() == 0 {
        assert(a + b =~= b);
    } else {
        assert((a + b)[0] == a[0]);
        assert((a + b).drop_first() =~= a.drop_first() + b);
        lemma_lacing_sum_concat(a.drop_first(), b);
    }
}

/// The lacing values of a packet list cover exactly its total data length.
pub proof fn lemma_concat_lacing_sum(packets: Seq<PacketModel>)
    ensures
        lacing_sum(concat_lacing(packet_lens(packets))) == concat_datas(packets).len(),
    decreases packets.len(),
{
    if packets.len() == 0 {
    } else {
        let lens = packet_lens(packets);
        assert(lens[0] == packets[0].data.len());
        assert(lens.drop_first() =~= packet_lens(packets.drop_first()));
        assert(concat_lacing(lens) == lacing_of(lens[0]) + concat_lacing(lens.drop_first()));
        lemma_lacing_sum_concat(lacing_of(lens[0]), concat_lacing(lens.drop_first()));
        crate::ogg::lemma_lacing_table(lens[0]);
        lemma_concat_lacing_sum(packets.drop_first());
    }
}

/// A boundary state with no packet cut across a page boundary, whose
/// current lacing values are exactly those of its pending packets.
pub open spec fn unsplit_state(st: StreamModel) -> bool {
    &&& st.last_ovf is None
    &&& st.lacing == concat_lacing(packet_lens(st.packets))
}

/// The state after a packet is appended and laced, before any flush.
pub open spec fn staged(st: StreamModel, data: Seq<u8>, absgp: u64) -> StreamModel {
    StreamModel {
        first_page: st.first_page,
        seqnum: st.seqnum,
        lacing: st.lacing + lacing_of(data.len()),
        packets: st.packets.push(PacketModel { data, absgp }),
        last_ovf: None,
        retired: st.retired,
    }
}

/// Writing a packet that fits the open page either leaves everything
/// pending (normal packet) or flushes exactly one page holding every
/// pending packet (forced page end), and keeps the state unsplit.
pub proof fn lemma_wp_unsplit(
    st: StreamModel,
    data: Seq<u8>,
    inf: PacketWriteEndInfo,
    absgp: u64,
    serial: u32,
)
    requires
        unsplit_state(st),
        st.lacing.len() + data.len() / 255 + 1 < 255,
    ensures
        ({
            let r = write_packet_spec(st, data, inf, absgp, serial);
            let stf = staged(st, data, absgp);
            &&& stf.lacing.len() == st.lacing.len() + data.len() / 255 + 1
            &&& unsplit_state(stf)
            &&& (inf is NormalPacket ==> r.0 == stf && r.1 == Seq::<u8>::empty())
            &&& (!(inf is NormalPacket) ==> r.0 == mark_retired(flush_st(stf, None), inf is EndStream)
                && r.1 == page_bytes(serial, stf, None, inf is EndStream) && r.0.packets.len() == 0
                && r.0.seqnum == st.seqnum + 1 && r.0.lacing.len() == 0)
            &&& unsplit_state(r.0)
        }),
{
    let end_stream = inf is EndStream;
    let pck = PacketModel { data, absgp };
    let st0 = push_packet(st, pck);
    let stf = staged(st, data, absgp);
    crate::ogg::lemma_lacing_table(data.len());
    lemma_place_lacing_nosplit(st0, data.len(), serial, end_stream);
    let r = place_segments(st0, data.len(), serial, end_stream);
    assert(r.0 =~= stf);
    assert(packet_lens(stf.packets) =~= packet_lens(st.packets).push(data.len()));
    lemma_concat_lacing_push(packet_lens(st.packets), data.len());
    assert(unsplit_state(stf));
    if inf is NormalPacket {
        assert(mark_retired(r.0, end_stream) =~= stf);
    } else {
        let w = write_packet_spec(st, data, inf, absgp, serial);
        assert(w.1 =~= page_bytes(serial, stf, None, end_stream));
        let fl = flush_st(stf, None);
        assert(packet_lens(fl.packets) =~= Seq::<nat>::empty());
        assert(concat_lacing(Seq::<nat>::empty()) == Seq::<u8>::empty());
        assert(fl.lacing =~= concat_lacing(packet_lens(fl.packets)));
        assert(unsplit_state(mark_retired(fl, end_stream)));
    }
}

/// What one forced flush of an unsplit page parses back to.
proof fn lemma_flush_page_parse(stf: StreamModel, es: bool, serial: u32, tail: Seq<u8>)
    requires
        unsplit_state(stf),
        stf.lacing.len() <= 255,
        stf.seqnum <= u32::MAX,
        stf.packets.len() >= 1,
    ensures
        ({
            let pg = ParsedPage {
                flags: page_flags(stf, es),
                granule: stf.packets.last().absgp,
                serial,
                seqnum: stf.seqnum as u32,
                crc: page_crc(serial, stf, None, es),
                lacing: stf.lacing,
                payload: concat_datas(stf.packets),
            };
            &&& parse_page(page_bytes(serial, stf, None, es) + tail) == Some((pg, tail))
            &&& split_at_lens(pg.payload, unlace(pg.lacing).0) == packet_datas(stf.packets)
        }),
{
    lemma_portions_clean(stf.packets);
    lemma_concat_lacing_sum(stf.packets);
    lemma_parse_page_roundtrip(serial, stf, None, es, tail);
    lemma_unlace_all(packet_lens(stf.packets));
    lemma_split_concat(stf.packets);
    assert(page_granule(stf.packets, None) == stf.packets.last().absgp);
}

/// One packet handed to the muxer: its bytes, its granule position, and
/// whether it ends its page or the stream.
pub ghost struct WriteReq {
    pub data: Seq<u8>,
    pub absgp: u64,
    pub inf: PacketWriteEndInfo,
}

/// The combined effect of a sequence of packet writes.
pub open spec fn mux_writes(st: StreamModel, ws: Seq<WriteReq>, serial: u32) -> (
    StreamModel,
    Seq<u8>,
)
    decreases ws.len(),
{
    if ws.len() == 0 {
        (st, Seq::empty())
    } else {
        let r = write_packet_spec(st, ws[0].data, ws[0].inf, ws[0].absgp, serial);
        let rest = mux_writes(r.0, ws.drop_first(), serial);
        (rest.0, r.1 + rest.1)
    }
}

/// No write in `ws` ever fills the 255-entry segment table mid-packet,
/// starting from a page already holding `lacing_len` values.
pub open spec fn unsplit_ok(lacing_len: nat, ws: Seq<WriteReq>) -> bool
    decreases ws.len(),
{
    if ws.len() == 0 {
        true
    } else {
        let nvals = ws[0].data.len() / 255 + 1;
        &&& lacing_len + nvals < 255
        &&& unsplit_ok(
            if ws[0].inf is NormalPacket {
                lacing_len + nvals
            } else {
                0
            },
            ws.drop_first(),
        )
    }
}

/// How many pages a write sequence flushes: one per forced page end.
pub open spec fn flush_count(ws: Seq<WriteReq>) -> nat
    decreases ws.len(),
{
    if ws.len() == 0 {
        0
    } else {
        (if ws[0].inf is NormalPacket {
            0nat
        } else {
            1nat
        }) + flush_count(ws.drop_first())
    }
}

/// Parses exactly `n` pages covering all of `b`.
pub open spec fn parse_pages_n(b: Seq<u8>, n: nat) -> Option<Seq<ParsedPage>>
    decreases n,
{
    if n == 0 {
        if b.len() == 0 {
            Some(Seq::empty())
        } else {
            None
        }
    } else {
        match parse_page(b) {
            None => None,
            Some((pg, rest)) => match parse_pages_n(rest, (n - 1) as nat) {
                None => None,
                Some(pgs) => Some(seq![pg] + pgs),
            },
        }
    }
}

/// The packets a reader recovers from a page sequence, in order.
pub open spec fn pages_packets(pages: Seq<ParsedPage>) -> Seq<Seq<u8>>
    decreases pages.len(),
{
    if pages.len() == 0 {
        Seq::empty()
    } else {
        split_at_lens(pages[0].payload, unlace(pages[0].lacing).0) + pages_packets(
            pages.drop_first(),
        )
    }
}

/// The granule positions a reader recovers, one per page.
pub open spec fn pages_granules(pages: Seq<ParsedPage>) -> Seq<u64> {
    pages.map_values(|p: ParsedPage| p.granule)
}

/// The written packet bytes, in write order.
pub open spec fn write_datas(ws: Seq<WriteReq>) -> Seq<Seq<u8>> {
    ws.map_values(|w: WriteReq| w.data)
}

/// The granule positions written on page-ending packets, in order.
pub open spec fn flush_granules(ws: Seq<WriteReq>) -> Seq<u64>
    decreases ws.len(),
{
    if ws.len() == 0 {
        Seq::empty()
    } else if ws[0].inf is NormalPacket {
        flush_granules(ws.drop_first())
    } else {
        seq![ws[0].absgp] + flush_granules(ws.drop_first())
    }
}

/// The stream round-trip law, for writes that never cut a packet across a
/// page boundary: parsing everything the muxer emits recovers exactly the
/// packet boundaries that were written, in order, and each page's granule
/// position is the one written with the packet that ended that page.
/// The requirements of the stream round-trip law on a write sequence.
pub open spec fn roundtrip_pre(st: StreamModel, ws: Seq<WriteReq>) -> bool {
    &&& unsplit_state(st)
    &&& unsplit_ok(st.lacing.len(), ws)
    &&& ws.len() >= 1
    &&& !(ws.last().inf is NormalPacket)
    &&& forall|i: int| 0 <= i < ws.len() - 1 ==> !((#[trigger] ws[i]).inf is EndStream)
    &&& st.seqnum + flush_count(ws) <= u32::MAX
}

/// The conclusion of the stream round-trip law.
pub open spec fn roundtrip_post(st: StreamModel, ws: Seq<WriteReq>, serial: u32) -> bool {
    let r = mux_writes(st, ws, serial);
    parse_pages_n(r.1, flush_count(ws)) matches Some(pages) && pages_packets(pages)
        == packet_datas(st.packets) + write_datas(ws) && pages_granules(pages) == flush_granules(
        ws,
    )
}

proof fn lemma_roundtrip_tail_pre(st: StreamModel, ws: Seq<WriteReq>, serial: u32)
    requires
        roundtrip_pre(st, ws),
        ws.len() >= 2,
    ensures
        roundtrip_pre(
            write_packet_spec(st, ws[0].data, ws[0].inf, ws[0].absgp, serial).0,
            ws.drop_first(),
        ),
{
    let w0 = ws[0];
    let ws2 = ws.drop_first();
    lemma_wp_unsplit(st, w0.data, w0.inf, w0.absgp, serial);
    assert(ws2.last() == ws.last());
    assert(forall|i: int| 0 <= i < ws2.len() ==> ws2[i] == ws[i + 1]);
}

/// The stream round-trip law, for writes that never cut a packet across a
/// page boundary: parsing everything the muxer emits recovers exactly the
/// packet boundaries that were written, in order, and each page's granule
/// position is the one written with the packet that ended that page.
#[verifier::spinoff_prover]
pub proof fn lemma_stream_roundtrip(st: StreamModel, ws: Seq<WriteReq>, serial: u32)
    requires
        roundtrip_pre(st, ws),
    ensures
        roundtrip_post(st, ws, serial),
    decreases ws.len(), 2int,
{
    if ws[0].inf is NormalPacket {
        lemma_roundtrip_normal_step(st, ws, serial);
    } else {
        lemma_roundtrip_flush_step(st, ws, serial);
    }
}

#[verifier::spinoff_prover]
#[verifier::rlimit(100)]
proof fn lemma_roundtrip_normal_step(st: StreamModel, ws: Seq<WriteReq>, serial: u32)
    requires
        roundtrip_pre(st, ws),
        ws[0].inf is NormalPacket,
    ensures
        roundtrip_post(st, ws, serial),
    decreases ws.len(), 0int,
{
    let w0 = ws[0];
    let ws2 = ws.drop_first();
    let r0 = write_packet_spec(st, w0.data, w0.inf, w0.absgp, serial);
    let stf = staged(st, w0.data, w0.absgp);
    lemma_wp_unsplit(st, w0.data, w0.inf, w0.absgp, serial);
    assert(packet_datas(stf.packets) =~= packet_datas(st.packets) + seq![w0.data]);
    assert(write_datas(ws) =~= seq![w0.data] + write_datas(ws2));
    let r = mux_writes(st, ws, serial);
    let rest = mux_writes(r0.0, ws2, serial);
    assert(ws.len() >= 2);
    lemma_roundtrip_tail_pre(st, ws, serial);
    lemma_stream_roundtrip(r0.0, ws2, serial);
    assert(r.1 =~= rest.1);
    let pages = parse_pages_n(rest.1, flush_count(ws2)).unwrap();
    assert(pages_packets(pages) == packet_datas(stf.packets) + write_datas(ws2));
    assert(packet_datas(stf.packets) + write_datas(ws2) =~= packet_datas(st.packets) + (seq![
        w0.data,
    ] + write_datas(ws2)));
}

#[verifier::spinoff_prover]
#[verifier::rlimit(50)]
proof fn lemma_roundtrip_flush_step(st: StreamModel, ws: Seq<WriteReq>, serial: u32)
    requires
        roundtrip_pre(st, ws),
        !(ws[0].inf is NormalPacket),
    ensures
        roundtrip_post(st, ws, serial),
    decreases ws.len(), 1int,
{
    if ws.len() == 1 {
        lemma_roundtrip_flush_last(st, ws, serial);
    } else {
        lemma_roundtrip_flush_more(st, ws, serial);
    }
}

/// The page a flush stages, as the parser sees it.
spec fn flushed_page(stf: StreamModel, es: bool, serial: u32) -> ParsedPage {
    ParsedPage {
        flags: page_flags(stf, es),
        granule: stf.packets.last().absgp,
        serial,
        seqnum: stf.seqnum as u32,
        crc: page_crc(serial, stf, None, es),
        lacing: stf.lacing,
        payload: concat_datas(stf.packets),
    }
}

#[verifier::spinoff_prover]
proof fn lemma_single_page_list(pg: ParsedPage)
    ensures
        pages_packets(seq![pg]) == split_at_lens(pg.payload, unlace(pg.lacing).0),
        pages_granules(seq![pg]) == seq![pg.granule],
{
    let pages = seq![pg];
    assert(pages[0] == pg);
    assert(pages.drop_first() =~= Seq::<ParsedPage>::empty());
    assert(pages_packets(Seq::<ParsedPage>::empty()) == Seq::<Seq<u8>>::empty());
    assert(pages_packets(pages) =~= split_at_lens(pg.payload, unlace(pg.lacing).0));
    assert(pages_granules(pages) =~= seq![pg.granule]);
}

#[verifier::spinoff_prover]
#[verifier::rlimit(100)]
proof fn lemma_roundtrip_flush_last(st: StreamModel, ws: Seq<WriteReq>, serial: u32)
    requires
        roundtrip_pre(st, ws),
        !(ws[0].inf is NormalPacket),
        ws.len() == 1,
    ensures
        roundtrip_post(st, ws, serial),
    decreases ws.len(), 0int,
{
    let w0 = ws[0];
    let ws2 = ws.drop_first();
    let r0 = write_packet_spec(st, w0.data, w0.inf, w0.absgp, serial);
    let stf = staged(st, w0.data, w0.absgp);
    let es = w0.inf is EndStream;
    lemma_wp_unsplit(st, w0.data, w0.inf, w0.absgp, serial);
    lemma_flush_page_parse(stf, es, serial, Seq::<u8>::empty());
    let pg = flushed_page(stf, es, serial);
    let r = mux_writes(st, ws, serial);
    assert(ws2.len() == 0);
    assert(mux_writes(r0.0, ws2, serial).1 == Seq::<u8>::empty());
    assert(r.1 =~= page_bytes(serial, stf, None, es) + Seq::<u8>::empty());
    assert(flush_count(ws2) == 0);
    assert(flush_count(ws) == 1);
    assert(parse_page(r.1) == Some((pg, Seq::<u8>::empty())));
    assert(parse_pages_n(Seq::<u8>::empty(), 0) == Some(Seq::<ParsedPage>::empty()));
    assert(parse_pages_n(r.1, 1) == Some(seq![pg] + Seq::<ParsedPage>::empty()));
    assert(seq![pg] + Seq::<ParsedPage>::empty() =~= seq![pg]);
    lemma_single_page_list(pg);
    assert(stf.packets.last() == PacketModel { data: w0.data, absgp: w0.absgp });
    assert(packet_datas(stf.packets) =~= packet_datas(st.packets) + seq![w0.data]);
    assert(write_datas(ws) =~= seq![w0.data]);
    assert(pages_packets(seq![pg]) == packet_datas(stf.packets));
    assert(packet_datas(stf.packets) =~= packet_datas(st.packets) + write_datas(ws));
    assert(pg.granule == w0.absgp);
    assert(flush_granules(ws2) == Seq::<u64>::empty());
    assert(flush_granules(ws) =~= seq![w0.absgp]);
    assert(pages_granules(seq![pg]) == flush_granules(ws));
}

#[verifier::spinoff_prover]
#[verifier::rlimit(100)]
proof fn lemma_roundtrip_flush_more(st: StreamModel, ws: Seq<WriteReq>, serial: u32)
    requires
        roundtrip_pre(st, ws),
        !(ws[0].inf is NormalPacket),
        ws.len() >= 2,
    ensures
        roundtrip_post(st, ws, serial),
    decreases ws.len(), 0int,
{
    let w0 = ws[0];
    let ws2 = ws.drop_first();
    let r0 = write_packet_spec(st, w0.data, w0.inf, w0.absgp, serial);
    let stf = staged(st, w0.data, w0.absgp);
    lemma_wp_unsplit(st, w0.data, w0.inf, w0.absgp, serial);
    assert(packet_datas(stf.packets) =~= packet_datas(st.packets) + seq![w0.data]);
    assert(write_datas(ws) =~= seq![w0.data] + write_datas(ws2));
    let r = mux_writes(st, ws, serial);
    let rest = mux_writes(r0.0, ws2, serial);
    let es = w0.inf is EndStream;
    let pg = flushed_page(stf, es, serial);
    assert(stf.packets.last() == PacketModel { data: w0.data, absgp: w0.absgp });
    lemma_roundtrip_tail_pre(st, ws, serial);
    lemma_stream_roundtrip(r0.0, ws2, serial);
    let pages2 = parse_pages_n(rest.1, flush_count(ws2)).unwrap();
    lemma_flush_page_parse(stf, es, serial, rest.1);
    assert(r.1 =~= page_bytes(serial, stf, None, es) + rest.1);
    assert(parse_page(r.1) == Some((pg, rest.1)));
    assert(parse_pages_n(r.1, flush_count(ws)) == Some(seq![pg] + pages2));
    let pages = seq![pg] + pages2;
    assert(pages[0] == pg);
    assert(pages.drop_first() =~= pages2);
    assert(pages_packets(pages) =~= packet_datas(stf.packets) + pages_packets(pages2));
    assert(pages_packets(pages2) =~= packet_datas(r0.0.packets) + write_datas(ws2));
    assert(packet_datas(r0.0.packets) =~= Seq::<Seq<u8>>::empty());
    assert(pages_packets(pages2) =~= write_datas(ws2));
    assert(pages_packets(pages) =~= packet_datas(st.packets) + write_datas(ws));
    assert(pages_granules(pages) =~= seq![w0.absgp] + pages_granules(pages2));
    assert(pages_granules(pages) =~= flush_granules(ws));
}

/// The round-trip law from a fresh stream: every packet boundary and every
/// page's granule position is recovered by a reader, exactly as written.
pub proof fn lemma_ogg_roundtrip(ws: Seq<WriteReq>, serial: u32)
    requires
        unsplit_ok(0, ws),
        ws.len() >= 1,
        !(ws.last().inf is NormalPacket),
        forall|i: int| 0 <= i < ws.len() - 1 ==> !((#[trigger] ws[i]).inf is EndStream),
        flush_count(ws) <= u32::MAX,
    ensures
        ({
            let r = mux_writes(crate::ogg::init_stream(), ws, serial);
            parse_pages_n(r.1, flush_count(ws)) matches Some(pages) && pages_packets(pages)
                == write_datas(ws) && pages_granules(pages) == flush_granules(ws)
        }),
{
    let st = crate::ogg::init_stream();
    assert(packet_lens(st.packets) =~= Seq::<nat>::empty());
    assert(concat_lacing(Seq::<nat>::empty()) == Seq::<u8>::empty());
    assert(st.lacing =~= concat_lacing(packet_lens(st.packets)));
    lemma_stream_roundtrip(st, ws, serial);
    assert(packet_datas(st.packets) =~= Seq::<Seq<u8>>::empty());
    let r = mux_writes(st, ws, serial);
    let pages = parse_pages_n(r.1, flush_count(ws)).unwrap();
    assert(packet_datas(st.packets) + write_datas(ws) =~= write_datas(ws));
}

/// Before the last pending packet, a boundary cut changes nothing.
proof fn lemma_portions_upto_cut(packets: Seq<PacketModel>, lo: Option<nat>, c: nat, n: int)
    requires
        0 <= n < packets.len(),
    ensures
        portions_upto(packets, lo, Some(c), n) == portions_upto(packets, lo, None, n),
    decreases n,
{
    if n > 0 {
        lemma_portions_upto_cut(packets, lo, c, n - 1);
        assert(portion(packets, lo, Some(c), n - 1) == portion(packets, lo, None, n - 1));
    }
}

/// A boundary cut shortens the page payload by exactly the bytes cut off
/// the last pending packet.
proof fn lemma_portions_cut_len(packets: Seq<PacketModel>, lo: Option<nat>, c: nat)
    requires
        packets.len() >= 1,
        c <= packets.last().data.len(),
        match lo {
            Some(k) => k <= packets[0].data.len() && (packets.len() == 1 ==> k <= c),
            None => true,
        },
    ensures
        portions(packets, lo, Some(c)).len() + (packets.last().data.len() - c) == portions(
            packets,
            lo,
            None,
        ).len(),
{
    let n = packets.len() as int;
    lemma_portions_upto_cut(packets, lo, c, n - 1);
    assert(portions(packets, lo, Some(c)) == portions_upto(packets, lo, Some(c), n - 1) + portion(
        packets,
        lo,
        Some(c),
        n - 1,
    ));
    assert(portions(packets, lo, None) == portions_upto(packets, lo, None, n - 1) + portion(
        packets,
        lo,
        None,
        n - 1,
    ));
    assert(portion_start(lo, n - 1) <= c as int <= packets[n - 1].data.len() as int);
}

/// `b` parses as a complete sequence of pages.
pub open spec fn pages_wf(b: Seq<u8>) -> bool {
    exists|n: nat| parse_pages_n(b, n) is Some
}

proof fn lemma_pages_wf_cons(page: Seq<u8>, rest: Seq<u8>)
    requires
        ({ parse_page(page + rest) matches Some(p) && p.1 == rest }),
        pages_wf(rest),
    ensures
        pages_wf(page + rest),
{
    let n = choose|n: nat| parse_pages_n(rest, n) is Some;
    assert(parse_pages_n(page + rest, n + 1) is Some);
}

/// Placement always emits a complete page sequence, continuation cuts
/// included, in front of any further well-formed page stream.
proof fn lemma_place_pages_wf(st: StreamModel, rem: nat, serial: u32, es: bool, tail: Seq<u8>)
    requires
        place_pre(st, rem),
        pages_wf(tail),
    ensures
        pages_wf(place_segments(st, rem, serial, es).1 + tail),
    decreases rem,
{
    let r = place_segments(st, rem, serial, es);
    if rem >= 255 {
        let st1 = push_lacing(st, 255u8);
        let rem2 = (rem - 255) as nat;
        lemma_lacing_sum_push(st.lacing, 255u8);
        if st1.lacing.len() == 255 {
            let cut = (st1.packets.last().data.len() - rem2) as nat;
            lemma_portions_cut_len(st1.packets, st1.last_ovf, cut);
            assert(lacing_sum(st1.lacing) == portions(st1.packets, st1.last_ovf, Some(cut)).len());
            let st2 = flush_st(st1, Some(cut));
            assert(st2.packets =~= seq![st1.packets.last()]);
            crate::ogg::lemma_portions_single(st1.packets.last(), Some(cut));
            assert(place_pre(st2, rem2));
            lemma_place_pages_wf(st2, rem2, serial, es, tail);
            let rest = place_segments(st2, rem2, serial, es).1 + tail;
            lemma_parse_page_roundtrip(serial, st1, Some(cut), false, rest);
            lemma_pages_wf_cons(page_bytes(serial, st1, Some(cut), false), rest);
            assert(r.1 + tail =~= page_bytes(serial, st1, Some(cut), false) + rest);
        } else {
            assert(place_pre(st1, rem2));
            lemma_place_pages_wf(st1, rem2, serial, es, tail);
        }
    } else {
        let st1 = push_lacing(st, rem as u8);
        lemma_lacing_sum_push(st.lacing, rem as u8);
        if st1.lacing.len() == 255 {
            assert(lacing_sum(st1.lacing) == portions(st1.packets, st1.last_ovf, None).len());
            lemma_parse_page_roundtrip(serial, st1, None, es, tail);
            lemma_pages_wf_cons(page_bytes(serial, st1, None, es), tail);
            assert(r.1 + tail =~= page_bytes(serial, st1, None, es) + tail);
        } else {
            assert(r.1 + tail =~= tail);
        }
    }
}

/// Whatever a single write makes the muxer emit — pages that cut a packet
/// and continue it included — is a complete sequence of well-formed pages.
pub proof fn lemma_wp_pages_wf(
    st: StreamModel,
    data: Seq<u8>,
    inf: PacketWriteEndInfo,
    absgp: u64,
    serial: u32,
)
    requires
        stream_wf(st),
    ensures
        pages_wf(write_packet_spec(st, data, inf, absgp, serial).1),
{
    let es = inf is EndStream;
    let pck = PacketModel { data, absgp };
    let st0 = push_packet(st, pck);
    lemma_portions_push(st.packets, st.last_ovf, pck);
    assert(place_pre(st0, data.len()));
    let r = place_segments(st0, data.len(), serial, es);
    let w = write_packet_spec(st, data, inf, absgp, serial);
    assert(pages_wf(Seq::<u8>::empty())) by {
        assert(parse_pages_n(Seq::<u8>::empty(), 0nat) is Some);
    }
    if inf is NormalPacket || r.2 {
        lemma_place_pages_wf(st0, data.len(), serial, es, Seq::<u8>::empty());
        assert(r.1 + Seq::<u8>::empty() =~= w.1);
    } else {
        lemma_place_wf(st0, data.len(), serial, es);
        let page = page_bytes(serial, r.0, None, es);
        lemma_parse_page_roundtrip(serial, r.0, None, es, Seq::<u8>::empty());
        lemma_pages_wf_cons(page, Seq::<u8>::empty());
        assert(page + Seq::<u8>::empty() =~= page);
        lemma_place_pages_wf(st0, data.len(), serial, es, page);
        assert(r.1 + page =~= w.1);
    }
}

/// The page a flush of state `st` with cut `this_ovf` parses back to.
pub open spec fn expected_page(
    serial: u32,
    st: StreamModel,
    this_ovf: Option<nat>,
    last: bool,
) -> ParsedPage {
    ParsedPage {
        flags: page_flags(st, last),
        granule: page_granule(st.packets, this_ovf),
        serial,
        seqnum: st.seqnum as u32,
        crc: page_crc(serial, st, this_ovf, last),
        lacing: st.lacing,
        payload: portions(st.packets, st.last_ovf, this_ovf),
    }
}

/// The pages `place_segments` flushes, as a reader will see them.
pub open spec fn place_pages(st: StreamModel, rem: nat, serial: u32, end_stream: bool) -> Seq<
    ParsedPage,
>
    decreases rem,
{
    if rem >= 255 {
        let st1 = push_lacing(st, 255u8);
        let rem2 = (rem - 255) as nat;
        if st1.lacing.len() == 255 {
            let cut = Some((st1.packets.last().data.len() - rem2) as nat);
            seq![expected_page(serial, st1, cut, false)] + place_pages(
                flush_st(st1, cut),
                rem2,
                serial,
                end_stream,
            )
        } else {
            place_pages(st1, rem2, serial, end_stream)
        }
    } else {
        let st1 = push_lacing(st, rem as u8);
        if st1.lacing.len() == 255 {
            seq![expected_page(serial, st1, None, end_stream)]
        } else {
            Seq::empty()
        }
    }
}

/// Everything `place_segments` emits parses back as exactly `place_pages`,
/// in front of any remaining bytes.
#[verifier::spinoff_prover]
#[verifier::rlimit(100)]
proof fn lemma_place_parses(st: StreamModel, rem: nat, serial: u32, es: bool, tail: Seq<u8>)
    requires
        place_pre(st, rem),
    ensures
        ({
            let r = place_segments(st, rem, serial, es);
            let pages = place_pages(st, rem, serial, es);
            forall|m: nat, tpages: Seq<ParsedPage>|
                parse_pages_n(tail, m) == Some(tpages) ==> parse_pages_n(
                    #[trigger] (r.1 + tail),
                    (pages.len() + m) as nat,
                ) == Some(pages + tpages)
        }),
    decreases rem,
{
    let r = place_segments(st, rem, serial, es);
    let pages = place_pages(st, rem, serial, es);
    if rem >= 255 {
        let st1 = push_lacing(st, 255u8);
        let rem2 = (rem - 255) as nat;
        lemma_lacing_sum_push(st.lacing, 255u8);
        if st1.lacing.len() == 255 {
            let cut = (st1.packets.last().data.len() - rem2) as nat;
            lemma_portions_cut_len(st1.packets, st1.last_ovf, cut);
            let st2 = flush_st(st1, Some(cut));
            assert(st2.packets =~= seq![st1.packets.last()]);
            crate::ogg::lemma_portions_single(st1.packets.last(), Some(cut));
            assert(place_pre(st2, rem2));
            lemma_place_parses(st2, rem2, serial, es, tail);
            let r2 = place_segments(st2, rem2, serial, es);
            let pages2 = place_pages(st2, rem2, serial, es);
            let pg = expected_page(serial, st1, Some(cut), false);
            assert forall|m: nat, tpages: Seq<ParsedPage>|
                parse_pages_n(tail, m) == Some(tpages) implies parse_pages_n(
                #[trigger] (r.1 + tail),
                (pages.len() + m) as nat,
            ) == Some(pages + tpages) by {
                assert(parse_pages_n(r2.1 + tail, (pages2.len() + m) as nat) == Some(
                    pages2 + tpages,
                ));
                lemma_parse_page_roundtrip(serial, st1, Some(cut), false, r2.1 + tail);
                assert(r.1 + tail =~= page_bytes(serial, st1, Some(cut), false) + (r2.1 + tail));
                assert(parse_pages_n(r.1 + tail, (pages.len() + m) as nat) == Some(
                    seq![pg] + (pages2 + tpages),
                ));
                assert(seq![pg] + (pages2 + tpages) =~= pages + tpages);
            }
        } else {
            assert(place_pre(st1, rem2));
            lemma_place_parses(st1, rem2, serial, es, tail);
        }
    } else {
        let st1 = push_lacing(st, rem as u8);
        lemma_lacing_sum_push(st.lacing, rem as u8);
        if st1.lacing.len() == 255 {
            let pg = expected_page(serial, st1, None, es);
            assert forall|m: nat, tpages: Seq<ParsedPage>|
                parse_pages_n(tail, m) == Some(tpages) implies parse_pages_n(
                #[trigger] (r.1 + tail),
                (pages.len() + m) as nat,
            ) == Some(pages + tpages) by {
                lemma_parse_page_roundtrip(serial, st1, None, es, tail);
                assert(r.1 + tail =~= page_bytes(serial, st1, None, es) + tail);
                assert(parse_pages_n(r.1 + tail, (1 + m) as nat) == Some(seq![pg] + tpages));
                assert(pages =~= seq![pg]);
            }
        } else {
            assert forall|m: nat, tpages: Seq<ParsedPage>|
                parse_pages_n(tail, m) == Some(tpages) implies parse_pages_n(
                #[trigger] (r.1 + tail),
                (pages.len() + m) as nat,
            ) == Some(pages + tpages) by {
                assert(r.1 + tail =~= tail);
                assert(pages + tpages =~= tpages);
            }
        }
    }
}

/// A run of `j` full lacing values.
pub open spec fn run_255(j: nat) -> Seq<u8> {
    Seq::new(j, |i: int| 255u8)
}

proof fn lemma_lacing_sum_run(j: nat)
    ensures
        lacing_sum(run_255(j)) == 255 * j,
    decreases j,
{
    if j > 0 {
        assert(run_255(j).drop_first() =~= run_255((j - 1) as nat));
        lemma_lacing_sum_run((j - 1) as nat);
        assert(255 * j == 255 * (j - 1) + 255) by (nonlinear_arith);
    }
}

/// A run of full values alone completes no packet: all its bytes continue.
proof fn lemma_unlace_run(j: nat)
    ensures
        unlace(run_255(j)) == (Seq::<nat>::empty(), (255 * j) as nat),
    decreases j,
{
    if j == 0 {
        assert(unlace(run_255(0)).0 =~= Seq::<nat>::empty());
    } else {
        assert(run_255(j)[0] == 255u8);
        assert(run_255(j).drop_first() =~= run_255((j - 1) as nat));
        lemma_unlace_run((j - 1) as nat);
        assert(255 * j == 255 + 255 * (j - 1)) by (nonlinear_arith);
    }
}

/// A run of full values closed by a terminal value completes exactly one
/// packet, of their combined length.
proof fn lemma_unlace_run_term(j: nat, v: u8)
    requires
        v < 255,
    ensures
        unlace(run_255(j).push(v)) == (seq![(255 * j + v) as nat], 0nat),
    decreases j,
{
    if j == 0 {
        assert(run_255(0).push(v) =~= seq![v]);
        assert(seq![v][0] == v);
        assert(seq![v].drop_first() =~= Seq::<u8>::empty());
        assert(unlace(Seq::<u8>::empty()) == (Seq::<nat>::empty(), 0nat));
        assert(unlace(seq![v]).0 == seq![v as nat] + Seq::<nat>::empty());
        assert(unlace(seq![v]).0 =~= seq![v as nat]);
    } else {
        let s = run_255(j).push(v);
        assert(s[0] == 255u8);
        assert(s.drop_first() =~= run_255((j - 1) as nat).push(v));
        lemma_unlace_run_term((j - 1) as nat, v);
        let r = unlace(run_255((j - 1) as nat).push(v));
        assert(r.0[0] == (255 * (j - 1) + v) as nat);
        assert(255 * j + v == 255 + (255 * (j - 1) + v)) by (nonlinear_arith);
        assert(unlace(s).0 =~= seq![(255 * j + v) as nat]);
    }
}

/// The payload a single pending packet puts on a page cut at `c`.
proof fn lemma_portions_single_cut(p: PacketModel, last_ovf: Option<nat>, c: nat)
    ensures
        portions(seq![p], last_ovf, Some(c)) == p.data.subrange(
            portion_start(last_ovf, 0),
            c as int,
        ),
{
    let packets = seq![p];
    assert(packets[0] == p);
    assert(portions_upto(packets, last_ovf, Some(c), 0) == Seq::<u8>::empty());
    assert(portions(packets, last_ovf, Some(c)) == portions_upto(packets, last_ovf, Some(c), 0)
        + portion(packets, last_ovf, Some(c), 0));
    assert(portions(packets, last_ovf, Some(c)) =~= portion(packets, last_ovf, Some(c), 0));
}

/// All pages' payloads, concatenated.
pub open spec fn payload_concat(pages: Seq<ParsedPage>) -> Seq<u8>
    decreases pages.len(),
{
    if pages.len() == 0 {
        Seq::empty()
    } else {
        pages[0].payload + payload_concat(pages.drop_first())
    }
}

/// The offset a continuation starts at: how much of the pending packet
/// earlier pages already carried.
pub open spec fn ovf_start(st: StreamModel) -> nat {
    match st.last_ovf {
        Some(k) => k,
        None => 0,
    }
}

/// The placement of one single pending packet, mid-run: the open page has
/// seen only full lacing values, covering the packet up to `rem` bytes
/// before its end.
pub open spec fn single_run(st: StreamModel, rem: nat, pck: PacketModel) -> bool {
    &&& st.packets == seq![pck]
    &&& st.lacing.len() < 255
    &&& st.lacing == run_255(st.lacing.len())
    &&& rem <= pck.data.len()
    &&& ovf_start(st) + 255 * st.lacing.len() + rem == pck.data.len()
    &&& st.last_ovf is Some ==> ovf_start(st) >= 1
}

proof fn lemma_single_run_place_pre(st: StreamModel, rem: nat, pck: PacketModel)
    requires
        single_run(st, rem, pck),
    ensures
        place_pre(st, rem),
{
    lemma_lacing_sum_run(st.lacing.len());
    crate::ogg::lemma_portions_single(pck, st.last_ovf);
    assert(st.packets.last() == pck);
    assert(portions(st.packets, st.last_ovf, None).len() == pck.data.len() - ovf_start(st));
}

/// How `place_segments` treats a single pending packet: the flushed pages
/// carry exactly the packet's bytes from the continuation offset up to the
/// last cut (or its end, if the terminal value filled the page); every
/// flushed page except a terminal one completes no packet; and the flags
/// mark exactly the continued pages.
#[verifier::spinoff_prover]
#[verifier::rlimit(100)]
proof fn lemma_place_pages_single(
    st: StreamModel,
    rem: nat,
    serial: u32,
    es: bool,
    pck: PacketModel,
)
    requires
        single_run(st, rem, pck),
    ensures
        ({
            let r = place_segments(st, rem, serial, es);
            let pages = place_pages(st, rem, serial, es);
            let cov_end = if r.2 {
                pck.data.len()
            } else {
                ovf_start(r.0)
            };
            &&& payload_concat(pages) == pck.data.subrange(ovf_start(st) as int, cov_end as int)
            &&& (r.2 ==> pages.len() >= 1)
            &&& (pages.len() == 0 ==> r.0.last_ovf == st.last_ovf)
            &&& (!r.2 && pages.len() >= 1 ==> r.0.last_ovf is Some)
            &&& (!r.2 ==> ovf_start(r.0) >= ovf_start(st))
            &&& (!r.2 ==> r.0.packets == seq![pck] && r.0.lacing.len() >= 1 && r.0.lacing == run_255(
                (r.0.lacing.len() - 1) as nat,
            ).push(r.0.lacing.last()) && r.0.lacing.last() < 255 && ovf_start(r.0) + 255 * (
            r.0.lacing.len() - 1) + r.0.lacing.last() == pck.data.len() && r.0.lacing.len() <= 255
                && ovf_start(r.0) <= pck.data.len())
            &&& forall|i: int|
                0 <= i < pages.len() ==> {
                    &&& (#[trigger] pages[i]).serial == serial
                    &&& (pages[i].flags % 2 == 1) <==> (i > 0 || st.last_ovf is Some)
                    &&& (!(r.2 && i == pages.len() - 1) ==> unlace(pages[i].lacing).0.len() == 0)
                    &&& ((r.2 && i == pages.len() - 1) ==> unlace(pages[i].lacing).0.len() == 1
                        && unlace(pages[i].lacing).1 == 0)
                }
        }),
    decreases rem,
{
    lemma_single_run_place_pre(st, rem, pck);
    let r = place_segments(st, rem, serial, es);
    let pages = place_pages(st, rem, serial, es);
    if rem >= 255 {
        let st1 = push_lacing(st, 255u8);
        let rem2 = (rem - 255) as nat;
        if st1.lacing.len() == 255 {
            let cut = (st1.packets.last().data.len() - rem2) as nat;
            let st2 = flush_st(st1, Some(cut));
            assert(st2.packets =~= seq![pck]);
            assert(st2.lacing =~= run_255(0));
            assert(cut == ovf_start(st) + 255 * st1.lacing.len()) by {
                assert(st1.packets.last() == pck);
            }
            assert(single_run(st2, rem2, pck));
            lemma_place_pages_single(st2, rem2, serial, es, pck);
            let pages2 = place_pages(st2, rem2, serial, es);
            let pg = expected_page(serial, st1, Some(cut), false);
            assert(pages =~= seq![pg] + pages2);
            assert(pages[0] == pg);
            assert(pages.drop_first() =~= pages2);
            // This page's payload: the cut range of the packet.
            lemma_portions_single_cut(pck, st.last_ovf, cut);
            assert(pg.payload == pck.data.subrange(ovf_start(st) as int, cut as int));
            let cov_end = if r.2 {
                pck.data.len() as int
            } else {
                ovf_start(r.0) as int
            };
            assert(payload_concat(pages) =~= pg.payload + payload_concat(pages2));
            assert(ovf_start(st) <= cut <= cov_end <= pck.data.len());
            assert(pck.data.subrange(ovf_start(st) as int, cut as int) + pck.data.subrange(
                cut as int,
                cov_end,
            ) =~= pck.data.subrange(ovf_start(st) as int, cov_end));
            // This page's lacing: a full run, completing nothing.
            assert(st1.lacing =~= run_255(st1.lacing.len()));
            lemma_unlace_run(st1.lacing.len());
            assert(unlace(pg.lacing).0.len() == 0);
            assert forall|i: int| 0 <= i < pages.len() implies {
                &&& (#[trigger] pages[i]).serial == serial
                &&& (pages[i].flags % 2 == 1) <==> (i > 0 || st.last_ovf is Some)
                &&& (!(r.2 && i == pages.len() - 1) ==> unlace(pages[i].lacing).0.len() == 0)
                &&& ((r.2 && i == pages.len() - 1) ==> unlace(pages[i].lacing).0.len() == 1
                    && unlace(pages[i].lacing).1 == 0)
            } by {
                if i == 0 {
                    assert(pages[0] == pg);
                    assert(r.2 ==> place_segments(st2, rem2, serial, es).2 && pages2.len() >= 1);
                } else {
                    assert(pages[i] == pages2[i - 1]);
                    assert(st2.last_ovf is Some);
                }
            }
        } else {
            assert(st1.lacing =~= run_255(st1.lacing.len()));
            assert(single_run(st1, rem2, pck));
            lemma_place_pages_single(st1, rem2, serial, es, pck);
            assert(pages =~= place_pages(st1, rem2, serial, es));
        }
    } else {
        let st1 = push_lacing(st, rem as u8);
        if st1.lacing.len() == 255 {
            let pg = expected_page(serial, st1, None, es);
            assert(pages =~= seq![pg]);
            assert(pages[0] == pg);
            assert(pages.drop_first() =~= Seq::<ParsedPage>::empty());
            crate::ogg::lemma_portions_single(pck, st.last_ovf);
            assert(st1.packets.last() == pck);
            assert(pg.payload == pck.data.subrange(ovf_start(st) as int, pck.data.len() as int));
            assert(payload_concat(Seq::<ParsedPage>::empty()) == Seq::<u8>::empty());
            assert(payload_concat(pages) == pg.payload + payload_concat(pages.drop_first()));
            assert(payload_concat(pages) =~= pg.payload);
            assert(st1.lacing =~= run_255(st.lacing.len()).push(rem as u8));
            lemma_unlace_run_term(st.lacing.len(), rem as u8);
            assert(unlace(pg.lacing).0.len() == 1 && unlace(pg.lacing).1 == 0);
        } else {
            assert(payload_concat(pages) =~= Seq::<u8>::empty());
            assert(pck.data.subrange(ovf_start(st) as int, ovf_start(st) as int)
                =~= Seq::<u8>::empty());
            assert(r.0 == st1);
            assert(st1.lacing =~= run_255(st.lacing.len()).push(rem as u8));
            assert(st1.lacing.last() == rem as u8);
            assert(st1.lacing.len() - 1 == st.lacing.len());
        }
    }
}

proof fn lemma_payload_concat_snoc(pages: Seq<ParsedPage>, pg: ParsedPage)
    ensures
        payload_concat(pages.push(pg)) == payload_concat(pages) + pg.payload,
    decreases pages.len(),
{
    if pages.len() == 0 {
        assert(pages.push(pg)[0] == pg);
        assert(pages.push(pg).drop_first() =~= Seq::<ParsedPage>::empty());
        assert(payload_concat(Seq::<ParsedPage>::empty()) == Seq::<u8>::empty());
        assert(payload_concat(pages.push(pg)) =~= payload_concat(pages) + pg.payload);
    } else {
        assert(pages.push(pg)[0] == pages[0]);
        assert(pages.push(pg).drop_first() =~= pages.drop_first().push(pg));
        lemma_payload_concat_snoc(pages.drop_first(), pg);
        assert(pages[0].payload + (payload_concat(pages.drop_first()) + pg.payload) =~= (
        pages[0].payload + payload_concat(pages.drop_first())) + pg.payload);
    }
}

/// What the reader must see of a single-packet stream: at least one page,
/// payloads concatenating to exactly the packet's bytes, no packet ending
/// before the last page, exactly one ending there with nothing left over,
/// and a continued-packet flag on every page but the first.
pub open spec fn single_packet_readback(pages: Seq<ParsedPage>, data: Seq<u8>, serial: u32) -> bool {
    &&& pages.len() >= 1
    &&& payload_concat(pages) == data
    &&& unlace(pages.last().lacing).0.len() == 1
    &&& unlace(pages.last().lacing).1 == 0
    &&& forall|i: int|
        0 <= i < pages.len() - 1 ==> unlace((#[trigger] pages[i]).lacing).0.len() == 0
    &&& forall|i: int| 0 <= i < pages.len() ==> (((#[trigger] pages[i]).flags % 2 == 1) <==> i > 0)
    &&& forall|i: int| 0 <= i < pages.len() ==> (#[trigger] pages[i]).serial == serial
}

/// The round-trip law for one packet of any length, written from a fresh
/// stream with a forced page end: however many pages the packet crosses, a
/// reader recovers exactly one packet boundary, and reassembles exactly the
/// written bytes.
#[verifier::spinoff_prover]
pub proof fn lemma_long_packet_roundtrip(
    data: Seq<u8>,
    absgp: u64,
    inf: PacketWriteEndInfo,
    serial: u32,
)
    requires
        !(inf is NormalPacket),
    ensures
        ({
            let r = write_packet_spec(crate::ogg::init_stream(), data, inf, absgp, serial);
            exists|n: nat|
                #[trigger] parse_pages_n(r.1, n) is Some && single_packet_readback(
                    parse_pages_n(r.1, n).unwrap(),
                    data,
                    serial,
                )
        }),
{
    let st = crate::ogg::init_stream();
    let es = inf is EndStream;
    let pck = PacketModel { data, absgp };
    let st0 = push_packet(st, pck);
    assert(st0.packets =~= seq![pck]);
    assert(st0.lacing =~= run_255(0));
    assert(single_run(st0, data.len(), pck));
    let r = place_segments(st0, data.len(), serial, es);
    if r.2 {
        lemma_long_packet_filled(data, absgp, inf, serial);
    } else {
        lemma_long_packet_forced(data, absgp, inf, serial);
    }
}

/// The case where the terminal lacing value itself filled the page.
#[verifier::spinoff_prover]
#[verifier::rlimit(100)]
proof fn lemma_long_packet_filled(data: Seq<u8>, absgp: u64, inf: PacketWriteEndInfo, serial: u32)
    requires
        !(inf is NormalPacket),
        ({
            let pck = PacketModel { data, absgp };
            let st0 = push_packet(crate::ogg::init_stream(), pck);
            place_segments(st0, data.len(), serial, inf is EndStream).2
        }),
    ensures
        ({
            let r = write_packet_spec(crate::ogg::init_stream(), data, inf, absgp, serial);
            exists|n: nat|
                #[trigger] parse_pages_n(r.1, n) is Some && single_packet_readback(
                    parse_pages_n(r.1, n).unwrap(),
                    data,
                    serial,
                )
        }),
{
    let st = crate::ogg::init_stream();
    let es = inf is EndStream;
    let pck = PacketModel { data, absgp };
    let st0 = push_packet(st, pck);
    assert(st0.packets =~= seq![pck]);
    assert(st0.lacing =~= run_255(0));
    assert(single_run(st0, data.len(), pck));
    lemma_single_run_place_pre(st0, data.len(), pck);
    let r = place_segments(st0, data.len(), serial, es);
    let epages = place_pages(st0, data.len(), serial, es);
    lemma_place_pages_single(st0, data.len(), serial, es, pck);
    let w = write_packet_spec(st, data, inf, absgp, serial);
    lemma_place_parses(st0, data.len(), serial, es, Seq::<u8>::empty());
    assert(parse_pages_n(Seq::<u8>::empty(), 0nat) == Some(Seq::<ParsedPage>::empty()));
    assert(parse_pages_n(r.1 + Seq::<u8>::empty(), (epages.len() + 0) as nat) == Some(
        epages + Seq::<ParsedPage>::empty(),
    ));
    assert(r.1 + Seq::<u8>::empty() =~= r.1);
    assert(epages + Seq::<ParsedPage>::empty() =~= epages);
    assert(w.1 == r.1);
    assert(parse_pages_n(w.1, epages.len() as nat) == Some(epages));
    assert(payload_concat(epages) == data.subrange(0, data.len() as int));
    assert(data.subrange(0, data.len() as int) =~= data);
    assert(epages.last() == epages[epages.len() - 1]);
    assert(single_packet_readback(epages, data, serial));
    assert(parse_pages_n(w.1, epages.len() as nat) is Some);
}

/// The case closed by the caller's forced page end.
#[verifier::spinoff_prover]
#[verifier::rlimit(100)]
proof fn lemma_long_packet_forced(data: Seq<u8>, absgp: u64, inf: PacketWriteEndInfo, serial: u32)
    requires
        !(inf is NormalPacket),
        ({
            let pck = PacketModel { data, absgp };
            let st0 = push_packet(crate::ogg::init_stream(), pck);
            !place_segments(st0, data.len(), serial, inf is EndStream).2
        }),
    ensures
        ({
            let r = write_packet_spec(crate::ogg::init_stream(), data, inf, absgp, serial);
            exists|n: nat|
                #[trigger] parse_pages_n(r.1, n) is Some && single_packet_readback(
                    parse_pages_n(r.1, n).unwrap(),
                    data,
                    serial,
                )
        }),
{
    let st = crate::ogg::init_stream();
    let es = inf is EndStream;
    let pck = PacketModel { data, absgp };
    let st0 = push_packet(st, pck);
    assert(st0.packets =~= seq![pck]);
    assert(st0.lacing =~= run_255(0));
    assert(single_run(st0, data.len(), pck));
    lemma_single_run_place_pre(st0, data.len(), pck);
    let r = place_segments(st0, data.len(), serial, es);
    let epages = place_pages(st0, data.len(), serial, es);
    lemma_place_pages_single(st0, data.len(), serial, es, pck);
    let w = write_packet_spec(st, data, inf, absgp, serial);
    let k = ovf_start(r.0);
    let j = (r.0.lacing.len() - 1) as nat;
    let v = r.0.lacing.last();
    // The final forced page is internally consistent and parses.
    lemma_lacing_sum_run(j);
    lemma_lacing_sum_push(run_255(j), v);
    assert(lacing_sum(r.0.lacing) == 255 * j + v);
    crate::ogg::lemma_portions_single(pck, r.0.last_ovf);
    assert(r.0.packets[0] == pck);
    assert(portions(r.0.packets, r.0.last_ovf, None) == pck.data.subrange(
        k as int,
        pck.data.len() as int,
    ));
    lemma_parse_page_roundtrip(serial, r.0, None, es, Seq::<u8>::empty());
    let pb = page_bytes(serial, r.0, None, es);
    let final_pg = expected_page(serial, r.0, None, es);
    assert(pb + Seq::<u8>::empty() =~= pb);
    assert(parse_page(pb) == Some((final_pg, Seq::<u8>::empty())));
    assert(parse_pages_n(Seq::<u8>::empty(), 0nat) == Some(Seq::<ParsedPage>::empty()));
    assert(parse_pages_n(pb, 1nat) == Some(seq![final_pg] + Seq::<ParsedPage>::empty()));
    lemma_place_parses(st0, data.len(), serial, es, pb);
    assert(parse_pages_n(r.1 + pb, (epages.len() + 1) as nat) == Some(
        epages + (seq![final_pg] + Seq::<ParsedPage>::empty()),
    ));
    let pages = epages + (seq![final_pg] + Seq::<ParsedPage>::empty());
    assert(pages =~= epages.push(final_pg));
    assert(w.1 == r.1 + pb);
    // Payloads concatenate to the whole packet.
    lemma_payload_concat_snoc(epages, final_pg);
    assert(payload_concat(epages) == data.subrange(0, k as int));
    assert(final_pg.payload == data.subrange(k as int, data.len() as int));
    assert(k <= data.len());
    assert(data.subrange(0, k as int) + data.subrange(k as int, data.len() as int) =~= data);
    assert(payload_concat(pages) == data);
    // The final page completes exactly one packet.
    lemma_unlace_run_term(j, v);
    assert(r.0.lacing =~= run_255(j).push(v));
    assert(pages.last() == final_pg);
    assert(unlace(final_pg.lacing).0.len() == 1 && unlace(final_pg.lacing).1 == 0);
    // Flags: exactly the pages after the first continue the packet.
    assert forall|i: int|
        0 <= i < pages.len() implies (((#[trigger] pages[i]).flags % 2 == 1) <==> i > 0)
        && pages[i].serial == serial && (i < pages.len() - 1 ==> unlace(
        pages[i].lacing,
    ).0.len() == 0) by {
        if i < epages.len() {
            assert(pages[i] == epages[i]);
        } else {
            assert(pages[i] == final_pg);
            if epages.len() == 0 {
                assert(r.0.last_ovf == st0.last_ovf);
            } else {
                assert(r.0.last_ovf is Some);
            }
        }
    }
    assert(single_packet_readback(pages, data, serial));
    assert(parse_pages_n(w.1, (epages.len() + 1) as nat) is Some);
}

} // verus!
