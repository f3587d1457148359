//! The Ogg page muxer: serializes a stream of packets into Ogg pages.
//!
//! A packet is split into lacing values (segments of 255 bytes, then a
//! terminal value below 255). Lacing values accumulate in the current page;
//! when a page reaches 255 segments it is flushed, cutting the packet if it
//! is still open and continuing it on the next page. A caller can force a
//! page end or end the whole logical stream.
//!
//! The byte-exact layout of every flushed page, and the evolution of the
//! per-stream state, are given by the spec functions below
//! (`write_packet_spec` in particular); `PacketWriter::write_packet` is
//! proved to produce exactly those bytes.

use vstd::prelude::*;

use crate::crc::{crc_update, is_crc_table, lookup_array, vorbis_crc32_update};
use vstd::bytes::{spec_u32_to_le_bytes, spec_u64_to_le_bytes, u32_to_le_bytes, u64_to_le_bytes};
use vstd::slice::slice_subrange;

verus! {

/// Specifies whether to end something with the write of the packet.
#[derive(Clone, Copy, PartialEq, Eq, Structural, Debug)]
pub enum PacketWriteEndInfo {
    /// No ends here, just a normal packet.
    NormalPacket,
    /// Force-end the current page.
    EndPage,
    /// End the whole logical stream.
    EndStream,
}

/// A packet pending in the current page, with its granule position.
pub struct PagePacket {
    pub data: Vec<u8>,
    pub absgp: u64,
}

/// Mathematical counterpart of `PagePacket`.
#[verifier::ext_equal]
pub ghost struct PacketModel {
    pub data: Seq<u8>,
    pub absgp: u64,
}

impl View for PagePacket {
    type V = PacketModel;

    open spec fn view(&self) -> PacketModel {
        PacketModel { data: self.data@, absgp: self.absgp }
    }
}

/// Mathematical state of one logical stream between calls.
#[verifier::ext_equal]
pub ghost struct StreamModel {
    /// The next page is the first page of the stream.
    pub first_page: bool,
    /// Page counter of the next page to be flushed.
    pub seqnum: nat,
    /// Lacing values of the current page.
    pub lacing: Seq<u8>,
    /// Packets with data in the current page.
    pub packets: Seq<PacketModel>,
    /// `Some(k)`: the first pending packet continues from the previous
    /// page, which already carried its first `k` bytes.
    pub last_ovf: Option<nat>,
    /// The stream has been ended; no further writes are permitted.
    pub retired: bool,
}

/// The state of a stream before anything is written to it.
pub open spec fn init_stream() -> StreamModel {
    StreamModel {
        first_page: true,
        seqnum: 0,
        lacing: Seq::empty(),
        packets: Seq::empty(),
        last_ovf: None,
        retired: false,
    }
}

/// Lacing values for a packet of `len` bytes: one byte of 255 for each full
/// 255-byte segment, then a terminal byte holding the remainder (which may
/// be 0).
pub open spec fn lacing_of(len: nat) -> Seq<u8>
    decreases len,
{
    if len < 255 {
        seq![len as u8]
    } else {
        seq![255u8] + lacing_of((len - 255) as nat)
    }
}

/// The sum of a sequence of lacing values.
pub open spec fn lacing_sum(s: Seq<u8>) -> nat
    decreases s.len(),
{
    if s.len() == 0 {
        0
    } else {
        s[0] as nat + lacing_sum(s.drop_first())
    }
}

/// Where packet `i`'s data starts within its page: a continued first packet
/// starts past the bytes already written.
pub open spec fn portion_start(last_ovf: Option<nat>, i: int) -> int {
    if i == 0 {
        match last_ovf {
            Some(k) => k as int,
            None => 0,
        }
    } else {
        0
    }
}

/// Where packet `i`'s data ends within its page: a packet cut by a page
/// boundary ends at the cut.
pub open spec fn portion_end(packets: Seq<PacketModel>, this_ovf: Option<nat>, i: int) -> int {
    if i + 1 == packets.len() {
        match this_ovf {
            Some(c) => c as int,
            None => packets[i].data.len() as int,
        }
    } else {
        packets[i].data.len() as int
    }
}

/// The bytes packet `i` contributes to the page.
pub open spec fn portion(
    packets: Seq<PacketModel>,
    last_ovf: Option<nat>,
    this_ovf: Option<nat>,
    i: int,
) -> Seq<u8> {
    packets[i].data.subrange(portion_start(last_ovf, i), portion_end(packets, this_ovf, i))
}

/// The page payload contributed by the first `n` pending packets.
pub open spec fn portions_upto(
    packets: Seq<PacketModel>,
    last_ovf: Option<nat>,
    this_ovf: Option<nat>,
    n: int,
) -> Seq<u8>
    decreases n,
{
    if n <= 0 {
        Seq::empty()
    } else {
        portions_upto(packets, last_ovf, this_ovf, n - 1) + portion(
            packets,
            last_ovf,
            this_ovf,
            n - 1,
        )
    }
}

/// The whole page payload: every packet's portion, in order.
pub open spec fn portions(
    packets: Seq<PacketModel>,
    last_ovf: Option<nat>,
    this_ovf: Option<nat>,
) -> Seq<u8> {
    portions_upto(packets, last_ovf, this_ovf, packets.len() as int)
}

/// The granule position written in the page header: that of the last packet
/// finishing in the page, or all bits set if no packet finishes here.
pub open spec fn page_granule(packets: Seq<PacketModel>, this_ovf: Option<nat>) -> u64 {
    if this_ovf is Some {
        if packets.len() >= 2 {
            packets[packets.len() - 2].absgp
        } else {
            0xffff_ffff_ffff_ffffu64
        }
    } else {
        if packets.len() >= 1 {
            packets[packets.len() - 1].absgp
        } else {
            0xffff_ffff_ffff_ffffu64
        }
    }
}

/// The header flags byte: continued packet, first page, last page.
pub open spec fn page_flags(st: StreamModel, last: bool) -> u8 {
    ((if st.last_ovf is Some {
        1u8
    } else {
        0u8
    }) + (if st.first_page {
        2u8
    } else {
        0u8
    }) + (if last {
        4u8
    } else {
        0u8
    })) as u8
}

/// The first 22 header bytes: capture pattern, version, flags, granule
/// position, serial number, page sequence number.
pub open spec fn page_pre(
    serial: u32,
    st: StreamModel,
    this_ovf: Option<nat>,
    last: bool,
) -> Seq<u8> {
    seq![0x4fu8, 0x67u8, 0x67u8, 0x53u8, 0x00u8].push(page_flags(st, last))
        + spec_u64_to_le_bytes(page_granule(st.packets, this_ovf)) + spec_u32_to_le_bytes(serial)
        + spec_u32_to_le_bytes(st.seqnum as u32)
}

/// Everything after the checksum field: segment count, lacing values,
/// payload.
pub open spec fn page_tail(st: StreamModel, this_ovf: Option<nat>) -> Seq<u8> {
    seq![st.lacing.len() as u8] + st.lacing + portions(st.packets, st.last_ovf, this_ovf)
}

/// The page checksum: computed over the entire page with the checksum field
/// zeroed. It covers only this page's own bytes.
pub open spec fn page_crc(serial: u32, st: StreamModel, this_ovf: Option<nat>, last: bool) -> u32 {
    crc_update(
        0,
        page_pre(serial, st, this_ovf, last) + spec_u32_to_le_bytes(0) + page_tail(st, this_ovf),
    )
}

/// The bytes of one flushed page.
pub open spec fn page_bytes(
    serial: u32,
    st: StreamModel,
    this_ovf: Option<nat>,
    last: bool,
) -> Seq<u8> {
    page_pre(serial, st, this_ovf, last) + spec_u32_to_le_bytes(
        page_crc(serial, st, this_ovf, last),
    ) + page_tail(st, this_ovf)
}

/// The stream state after flushing a page. A packet cut at the boundary
/// stays pending, with the cut recorded.
pub open spec fn flush_st(st: StreamModel, this_ovf: Option<nat>) -> StreamModel {
    StreamModel {
        first_page: false,
        seqnum: st.seqnum + 1,
        lacing: Seq::empty(),
        packets: if this_ovf is Some {
            seq![st.packets.last()]
        } else {
            Seq::empty()
        },
        last_ovf: this_ovf,
        retired: st.retired,
    }
}

/// What a call of `write_page` needs of the pending state.
pub open spec fn page_valid(st: StreamModel, this_ovf: Option<nat>) -> bool {
    &&& st.lacing.len() <= 255
    &&& st.packets.len() >= 1
    &&& match st.last_ovf {
        Some(k) => k <= st.packets[0].data.len(),
        None => true,
    }
    &&& match this_ovf {
        Some(c) => c <= st.packets.last().data.len(),
        None => true,
    }
    &&& (st.packets.len() == 1 && st.last_ovf is Some && this_ovf is Some) ==> st.last_ovf.unwrap()
        <= this_ovf.unwrap()
}

/// Per-stream page state of the writer.
pub struct PageState {
    pub first_page: bool,
    pub sequence_num: u32,
    pub lacing: Vec<u8>,
    pub packets: Vec<PagePacket>,
    pub last_ovf: Option<usize>,
    pub retired: bool,
}

impl View for PageState {
    type V = StreamModel;

    open spec fn view(&self) -> StreamModel {
        StreamModel {
            first_page: self.first_page,
            seqnum: self.sequence_num as nat,
            lacing: self.lacing@,
            packets: self.packets@.map_values(|p: PagePacket| p@),
            last_ovf: match self.last_ovf {
                Some(k) => Some(k as nat),
                None => None,
            },
            retired: self.retired,
        }
    }
}

impl PageState {
    /// A fresh stream: first page pending, nothing buffered.
    pub fn new() -> (r: PageState)
        ensures
            r@ == init_stream(),
    {
        let r = PageState {
            first_page: true,
            sequence_num: 0,
            lacing: Vec::new(),
            packets: Vec::new(),
            last_ovf: None,
            retired: false,
        };
        proof {
            assert(r@.lacing =~= init_stream().lacing);
            assert(r@.packets =~= init_stream().packets);
        }
        r
    }
}

/// Builds the 27-byte page header with the checksum field zeroed.
fn page_header_zeroed(serial: u32, pg: &PageState, this_ovf: Option<usize>, last: bool) -> (r: Vec<
    u8,
>)
    ensures
        r@ == page_pre(serial, pg@, ovf_view(this_ovf), last) + spec_u32_to_le_bytes(0u32) + seq![
            pg@.lacing.len() as u8,
        ],
{
    let ghost st = pg@;
    let ghost tovf = ovf_view(this_ovf);
    let npackets = pg.packets.len();
    let mut header: Vec<u8> = Vec::new();
    header.push(0x4f);
    header.push(0x67);
    header.push(0x67);
    header.push(0x53);
    header.push(0x00);
    let flags: u8 = (if pg.last_ovf.is_some() {
        1u8
    } else {
        0u8
    }) + (if pg.first_page {
        2u8
    } else {
        0u8
    }) + (if last {
        4u8
    } else {
        0u8
    });
    header.push(flags);
    let granule: u64 = if this_ovf.is_some() {
        if npackets >= 2 {
            pg.packets[npackets - 2].absgp
        } else {
            0xffff_ffff_ffff_ffffu64
        }
    } else {
        if npackets >= 1 {
            pg.packets[npackets - 1].absgp
        } else {
            0xffff_ffff_ffff_ffffu64
        }
    };
    let mut gb = u64_to_le_bytes(granule);
    header.append(&mut gb);
    let mut sb = u32_to_le_bytes(serial);
    header.append(&mut sb);
    let mut qb = u32_to_le_bytes(pg.sequence_num);
    header.append(&mut qb);
    let mut zb = u32_to_le_bytes(0);
    header.append(&mut zb);
    let nseg = pg.lacing.len();
    header.push(nseg as u8);
    proof {
        vstd::bytes::lemma_auto_spec_u64_to_from_le_bytes();
        vstd::bytes::lemma_auto_spec_u32_to_from_le_bytes();
        if npackets >= 2 {
            assert(st.packets[npackets - 2] == pg.packets@.map_values(|p: PagePacket| p@)[npackets
                - 2]);
        }
        if npackets >= 1 {
            assert(st.packets[npackets - 1] == pg.packets@.map_values(|p: PagePacket| p@)[npackets
                - 1]);
        }
        assert(granule == page_granule(st.packets, tovf));
        assert(flags == page_flags(st, last));
        assert(header@ =~= page_pre(serial, st, tovf, last) + spec_u32_to_le_bytes(0u32) + seq![
            st.lacing.len() as u8,
        ]);
    }
    header
}

/// Collects the payload of the current page: each pending packet's portion,
/// in order.
fn page_payload(pg: &PageState, this_ovf: Option<usize>) -> (r: Vec<u8>)
    requires
        page_valid(pg@, ovf_view(this_ovf)),
    ensures
        r@ == portions(pg@.packets, pg@.last_ovf, ovf_view(this_ovf)),
{
    let ghost st = pg@;
    let ghost tovf = ovf_view(this_ovf);
    let npackets = pg.packets.len();
    let mut r: Vec<u8> = Vec::new();
    let mut i: usize = 0;
    while i < npackets
        invariant
            npackets == pg.packets.len(),
            i <= npackets,
            pg@ == st,
            tovf == ovf_view(this_ovf),
            page_valid(st, tovf),
            r@ == portions_upto(st.packets, st.last_ovf, tovf, i as int),
        decreases npackets - i,
    {
        let pck = &pg.packets[i];
        let start: usize = if i == 0 {
            match pg.last_ovf {
                Some(k) => k,
                None => 0,
            }
        } else {
            0
        };
        let end: usize = if i + 1 == npackets {
            match this_ovf {
                Some(c) => c,
                None => pck.data.len(),
            }
        } else {
            pck.data.len()
        };
        proof {
            assert(st.packets[i as int] == pg.packets@.map_values(|p: PagePacket| p@)[i as int]);
            assert(start == portion_start(st.last_ovf, i as int));
            assert(end == portion_end(st.packets, tovf, i as int));
            assert(start <= end <= pck.data@.len());
        }
        let piece = slice_subrange(pck.data.as_slice(), start, end);
        r.extend_from_slice(piece);
        proof {
            assert(r@ =~= portions_upto(st.packets, st.last_ovf, tovf, i as int + 1));
        }
        i = i + 1;
    }
    r
}

/// Flushes the current page of `pg` onto `out`: header with the checksum
/// filled in, then lacing values, then the payload portions, exactly as
/// `page_bytes` lays them out.
fn write_page(
    table: &Vec<u32>,
    out: &mut Vec<u8>,
    serial: u32,
    pg: &mut PageState,
    this_ovf: Option<usize>,
    last: bool,
)
    requires
        is_crc_table(table@),
        page_valid(old(pg)@, ovf_view(this_ovf)),
        old(pg).sequence_num < u32::MAX,
    ensures
        final(out)@ == old(out)@ + page_bytes(serial, old(pg)@, ovf_view(this_ovf), last),
        final(pg)@ == flush_st(old(pg)@, ovf_view(this_ovf)),
{
    let ghost st = pg@;
    let ghost tovf = ovf_view(this_ovf);

    let mut header = page_header_zeroed(serial, pg, this_ovf, last);
    let mut payload = page_payload(pg, this_ovf);

    // The checksum, over header (checksum zeroed), lacing, then payload.
    let mut crc = vorbis_crc32_update(0, table, header.as_slice());
    crc = vorbis_crc32_update(crc, table, pg.lacing.as_slice());
    crc = vorbis_crc32_update(crc, table, payload.as_slice());
    proof {
        crate::crc::lemma_crc_update_concat(0, header@, st.lacing);
        crate::crc::lemma_crc_update_concat(0, header@ + st.lacing, payload@);
        assert(header@ + st.lacing + payload@ =~= page_pre(serial, st, tovf, last)
            + spec_u32_to_le_bytes(0u32) + page_tail(st, tovf));
        assert(crc == page_crc(serial, st, tovf, last));
    }

    // Fill the checksum into the header.
    proof {
        vstd::bytes::lemma_auto_spec_u64_to_from_le_bytes();
        vstd::bytes::lemma_auto_spec_u32_to_from_le_bytes();
    }
    let cb = u32_to_le_bytes(crc);
    header.set(22, cb[0]);
    header.set(23, cb[1]);
    header.set(24, cb[2]);
    header.set(25, cb[3]);
    proof {
        assert(header@ =~= page_pre(serial, st, tovf, last) + spec_u32_to_le_bytes(crc) + seq![
            st.lacing.len() as u8,
        ]);
    }

    // Emit the page.
    let ghost out0 = out@;
    out.append(&mut header);
    out.extend_from_slice(pg.lacing.as_slice());
    out.append(&mut payload);
    proof {
        assert(out@ =~= out0 + page_bytes(serial, st, tovf, last));
    }

    // Reset the page: keep a packet cut at the boundary, drop the rest.
    pg.first_page = false;
    pg.sequence_num = pg.sequence_num + 1;
    pg.lacing.clear();
    if this_ovf.is_some() {
        let d = pg.packets.pop().unwrap();
        pg.packets.clear();
        pg.packets.push(d);
    } else {
        pg.packets.clear();
    }
    pg.last_ovf = this_ovf;
    proof {
        assert(pg@.lacing =~= flush_st(st, tovf).lacing);
        assert(pg@.packets =~= flush_st(st, tovf).packets);
        assert(pg@ == flush_st(st, tovf));
    }
}

/// Maps an executable overflow offset to its mathematical counterpart.
pub open spec fn ovf_view(o: Option<usize>) -> Option<nat> {
    match o {
        Some(k) => Some(k as nat),
        None => None,
    }
}

/// Appends one lacing value to the current page.
pub open spec fn push_lacing(st: StreamModel, v: u8) -> StreamModel {
    StreamModel {
        first_page: st.first_page,
        seqnum: st.seqnum,
        lacing: st.lacing.push(v),
        packets: st.packets,
        last_ovf: st.last_ovf,
        retired: st.retired,
    }
}

/// Appends one pending packet.
pub open spec fn push_packet(st: StreamModel, p: PacketModel) -> StreamModel {
    StreamModel {
        first_page: st.first_page,
        seqnum: st.seqnum,
        lacing: st.lacing,
        packets: st.packets.push(p),
        last_ovf: st.last_ovf,
        retired: st.retired,
    }
}

/// Retires the stream if `e` holds.
pub open spec fn mark_retired(st: StreamModel, e: bool) -> StreamModel {
    StreamModel {
        first_page: st.first_page,
        seqnum: st.seqnum,
        lacing: st.lacing,
        packets: st.packets,
        last_ovf: st.last_ovf,
        retired: st.retired || e,
    }
}

/// Places the lacing values for the last pending packet's final `rem`
/// bytes, flushing pages whenever the segment table fills. Returns the new
/// state, the emitted bytes, and whether the placement ended exactly on a
/// page flush.
pub open spec fn place_segments(st: StreamModel, rem: nat, serial: u32, end_stream: bool) -> (
    StreamModel,
    Seq<u8>,
    bool,
)
    decreases rem,
{
    if rem >= 255 {
        let st1 = push_lacing(st, 255u8);
        let rem2 = (rem - 255) as nat;
        if st1.lacing.len() == 255 {
            // The packet is cut here and continues on the next page.
            let cut = Some((st1.packets.last().data.len() - rem2) as nat);
            let emitted = page_bytes(serial, st1, cut, false);
            let r = place_segments(flush_st(st1, cut), rem2, serial, end_stream);
            (r.0, emitted + r.1, r.2)
        } else {
            place_segments(st1, rem2, serial, end_stream)
        }
    } else {
        let st1 = push_lacing(st, rem as u8);
        if st1.lacing.len() == 255 {
            (flush_st(st1, None), page_bytes(serial, st1, None, end_stream), true)
        } else {
            (st1, Seq::empty(), false)
        }
    }
}

/// The full effect of writing one packet: the packet and its lacing values
/// are appended, pages are flushed as the segment table fills, and a final
/// flush is forced when the caller ends the page or the stream.
pub open spec fn write_packet_spec(
    st: StreamModel,
    data: Seq<u8>,
    inf: PacketWriteEndInfo,
    absgp: u64,
    serial: u32,
) -> (StreamModel, Seq<u8>) {
    let end_stream = inf is EndStream;
    let st0 = push_packet(st, PacketModel { data, absgp });
    let r = place_segments(st0, data.len(), serial, end_stream);
    if inf is NormalPacket || r.2 {
        (mark_retired(r.0, end_stream), r.1)
    } else {
        (
            mark_retired(flush_st(r.0, None), end_stream),
            r.1 + page_bytes(serial, r.0, None, end_stream),
        )
    }
}

/// Well-formedness of a stream state between calls: the segment table has
/// room, a recorded continuation fits its packet, and the lacing values
/// cover exactly the pending payload.
pub open spec fn stream_wf(st: StreamModel) -> bool {
    &&& st.lacing.len() < 255
    &&& match st.last_ovf {
        Some(k) => st.packets.len() >= 1 && k <= st.packets[0].data.len(),
        None => true,
    }
    &&& lacing_sum(st.lacing) == portions(st.packets, st.last_ovf, None).len()
}

/// What `place_segments` needs of its input: one pending packet with `rem`
/// bytes still to lace, and lacing values covering everything before them.
pub open spec fn place_pre(st: StreamModel, rem: nat) -> bool {
    &&& st.lacing.len() < 255
    &&& st.packets.len() >= 1
    &&& rem <= st.packets.last().data.len()
    &&& match st.last_ovf {
        Some(k) => k <= st.packets[0].data.len() && (st.packets.len() == 1 ==> k + rem
            <= st.packets[0].data.len()),
        None => true,
    }
    &&& lacing_sum(st.lacing) + rem == portions(st.packets, st.last_ovf, None).len()
}

/// The sum of lacing values distributes over push.
pub proof fn lemma_lacing_sum_push(s: Seq<u8>, v: u8)
    ensures
        lacing_sum(s.push(v)) == lacing_sum(s) + v,
    decreases s.len(),
{
    assert(lacing_sum(s.push(v)) == s.push(v)[0] as nat + lacing_sum(s.push(v).drop_first()));
    if s.len() == 0 {
        assert(s.push(v)[0] == v);
        assert(s.push(v).drop_first() =~= Seq::<u8>::empty());
        assert(lacing_sum(s.push(v).drop_first()) == 0);
    } else {
        assert(s.push(v)[0] == s[0]);
        assert(s.push(v).drop_first() =~= s.drop_first().push(v));
        lemma_lacing_sum_push(s.drop_first(), v);
    }
}

/// The pending payload of a single packet continued from offset `k`.
pub proof fn lemma_portions_single(p: PacketModel, last_ovf: Option<nat>)
    ensures
        portions(seq![p], last_ovf, None) == p.data.subrange(
            portion_start(last_ovf, 0),
            p.data.len() as int,
        ),
{
    let packets = seq![p];
    assert(packets[0] == p);
    assert(portions_upto(packets, last_ovf, None, 0) == Seq::<u8>::empty());
    assert(portions(packets, last_ovf, None) == portions_upto(packets, last_ovf, None, 0) + portion(
        packets,
        last_ovf,
        None,
        0,
    ));
    assert(portions(packets, last_ovf, None) =~= portion(packets, last_ovf, None, 0));
}

/// Appending a packet appends its whole data to the pending payload.
proof fn lemma_portions_upto_push(
    packets: Seq<PacketModel>,
    last_ovf: Option<nat>,
    p: PacketModel,
    n: int,
)
    requires
        0 <= n <= packets.len(),
    ensures
        portions_upto(packets.push(p), last_ovf, None, n) == portions_upto(
            packets,
            last_ovf,
            None,
            n,
        ),
    decreases n,
{
    if n > 0 {
        lemma_portions_upto_push(packets, last_ovf, p, n - 1);
        assert(packets.push(p)[n - 1] == packets[n - 1]);
        assert(portion(packets.push(p), last_ovf, None, n - 1) == portion(
            packets,
            last_ovf,
            None,
            n - 1,
        ));
    }
}

/// The pending payload after appending a packet: the old payload, then the
/// new packet's data.
pub proof fn lemma_portions_push(packets: Seq<PacketModel>, last_ovf: Option<nat>, p: PacketModel)
    requires
        last_ovf is Some ==> packets.len() >= 1,
    ensures
        portions(packets.push(p), last_ovf, None) == portions(packets, last_ovf, None) + p.data,
    decreases packets.len(),
{
    lemma_portions_upto_push(packets, last_ovf, p, packets.len() as int);
    assert(packets.push(p)[packets.len() as int] == p);
    assert(portion(packets.push(p), last_ovf, None, packets.len() as int) =~= p.data);
}

/// Flushing never decreases the page counter.
pub proof fn lemma_place_seqnum(st: StreamModel, rem: nat, serial: u32, end_stream: bool)
    ensures
        place_segments(st, rem, serial, end_stream).0.seqnum >= st.seqnum,
    decreases rem,
{
    if rem >= 255 {
        let st1 = push_lacing(st, 255u8);
        let rem2 = (rem - 255) as nat;
        if st1.lacing.len() == 255 {
            let cut = Some((st1.packets.last().data.len() - rem2) as nat);
            lemma_place_seqnum(flush_st(st1, cut), rem2, serial, end_stream);
        } else {
            lemma_place_seqnum(st1, rem2, serial, end_stream);
        }
    }
}

/// `place_segments` keeps the stream well formed: the result is a valid
/// boundary state, its pending payload is covered by its lacing values, and
/// when the placement did not end on a flush the state can still be flushed.
pub proof fn lemma_place_wf(st: StreamModel, rem: nat, serial: u32, end_stream: bool)
    requires
        place_pre(st, rem),
    ensures
        ({
            let r = place_segments(st, rem, serial, end_stream);
            &&& stream_wf(r.0)
            &&& r.0.retired == st.retired
            &&& !r.2 ==> r.0.packets.len() >= 1 && page_valid(r.0, None)
        }),
    decreases rem,
{
    if rem >= 255 {
        let st1 = push_lacing(st, 255u8);
        let rem2 = (rem - 255) as nat;
        lemma_lacing_sum_push(st.lacing, 255u8);
        if st1.lacing.len() == 255 {
            let cut = ((st1.packets.last().data.len() - rem2) as nat);
            let st2 = flush_st(st1, Some(cut));
            assert(st2.packets =~= seq![st1.packets.last()]);
            lemma_portions_single(st1.packets.last(), Some(cut as nat));
            assert(portions(st2.packets, st2.last_ovf, None).len() == rem2);
            assert(place_pre(st2, rem2));
            lemma_place_wf(st2, rem2, serial, end_stream);
        } else {
            assert(place_pre(st1, rem2));
            lemma_place_wf(st1, rem2, serial, end_stream);
        }
    } else {
        let st1 = push_lacing(st, rem as u8);
        lemma_lacing_sum_push(st.lacing, rem as u8);
        if st1.lacing.len() == 255 {
            let st2 = flush_st(st1, None);
            assert(portions(st2.packets, st2.last_ovf, None) =~= Seq::<u8>::empty());
            assert(stream_wf(st2));
        } else {
            assert(stream_wf(st1));
        }
    }
}

/// The lacing-table law: for a packet of `len` bytes the lacing values sum
/// to `len`, there are exactly `len / 255 + 1` of them, every value before
/// the last is 255, and the last is the remainder `len % 255`.
pub proof fn lemma_lacing_table(len: nat)
    ensures
        lacing_sum(lacing_of(len)) == len,
        lacing_of(len).len() == len / 255 + 1,
        lacing_of(len).last() == (len % 255) as u8,
        forall|i: int| 0 <= i < len / 255 ==> lacing_of(len)[i] == 255u8,
    decreases len,
{
    if len < 255 {
        assert(lacing_of(len) =~= seq![len as u8]);
        assert(lacing_sum(seq![len as u8]) == len as u8 as nat + lacing_sum(
            seq![len as u8].drop_first(),
        ));
        assert(seq![len as u8].drop_first() =~= Seq::<u8>::empty());
    } else {
        lemma_lacing_table((len - 255) as nat);
        let l = lacing_of(len);
        let rest = lacing_of((len - 255) as nat);
        assert(l == seq![255u8] + rest);
        assert(l[0] == 255u8);
        assert(l.drop_first() =~= rest);
        assert(lacing_sum(l) == 255 + lacing_sum(rest));
        assert(len / 255 == (len - 255) / 255 + 1);
        assert(len % 255 == (len - 255) % 255);
        assert(l.last() == rest.last());
        assert forall|i: int| 0 <= i < len / 255 implies l[i] == 255u8 by {
            if i > 0 {
                assert(l[i] == rest[i - 1]);
            }
        }
    }
}

/// A packet of exactly `255 * k` bytes ends with a lacing value of 0.
pub proof fn lemma_full_segments_trailing_zero(k: nat)
    ensures
        lacing_of(255 * k).last() == 0u8,
{
    lemma_lacing_table(255 * k);
    assert(255 * k % 255 == 0) by (nonlinear_arith);
}

/// When the segment table does not fill, placing a packet's lacing values
/// appends exactly `lacing_of` of its length, flushes nothing, and the page
/// stays open.
pub proof fn lemma_place_lacing_nosplit(st: StreamModel, rem: nat, serial: u32, end_stream: bool)
    requires
        st.lacing.len() + rem / 255 + 1 < 255,
    ensures
        ({
            let r = place_segments(st, rem, serial, end_stream);
            &&& r.0.lacing == st.lacing + lacing_of(rem)
            &&& r.0.packets == st.packets
            &&& r.0.first_page == st.first_page
            &&& r.0.seqnum == st.seqnum
            &&& r.0.last_ovf == st.last_ovf
            &&& r.0.retired == st.retired
            &&& r.1 == Seq::<u8>::empty()
            &&& r.2 == false
        }),
    decreases rem,
{
    if rem >= 255 {
        let st1 = push_lacing(st, 255u8);
        let rem2 = (rem - 255) as nat;
        assert(rem2 / 255 + 1 == rem / 255);
        assert(st1.lacing.len() < 255);
        lemma_place_lacing_nosplit(st1, rem2, serial, end_stream);
        assert(st.lacing.push(255u8) + lacing_of(rem2) =~= st.lacing + (seq![255u8] + lacing_of(
            rem2,
        )));
    } else {
        let st1 = push_lacing(st, rem as u8);
        assert(st1.lacing.len() < 255);
        assert(st.lacing.push(rem as u8) =~= st.lacing + seq![rem as u8]);
    }
}

/// Each flush adds one page; a packet of `rem` bytes can add at most
/// `rem / 255 + 1` pages.
pub proof fn lemma_place_seqnum_upper(st: StreamModel, rem: nat, serial: u32, end_stream: bool)
    ensures
        place_segments(st, rem, serial, end_stream).0.seqnum <= st.seqnum + rem / 255 + 1,
    decreases rem,
{
    if rem >= 255 {
        let st1 = push_lacing(st, 255u8);
        let rem2 = (rem - 255) as nat;
        assert(rem2 / 255 + 1 == rem / 255);
        if st1.lacing.len() == 255 {
            let cut = Some((st1.packets.last().data.len() - rem2) as nat);
            lemma_place_seqnum_upper(flush_st(st1, cut), rem2, serial, end_stream);
        } else {
            lemma_place_seqnum_upper(st1, rem2, serial, end_stream);
        }
    }
}

/// Placement does not retire a stream.
pub proof fn lemma_place_retired(st: StreamModel, rem: nat, serial: u32, end_stream: bool)
    ensures
        place_segments(st, rem, serial, end_stream).0.retired == st.retired,
    decreases rem,
{
    if rem >= 255 {
        let st1 = push_lacing(st, 255u8);
        let rem2 = (rem - 255) as nat;
        if st1.lacing.len() == 255 {
            let cut = Some((st1.packets.last().data.len() - rem2) as nat);
            lemma_place_retired(flush_st(st1, cut), rem2, serial, end_stream);
        } else {
            lemma_place_retired(st1, rem2, serial, end_stream);
        }
    }
}

/// Writing a packet of `L` bytes advances the page counter by at most
/// `L / 255 + 2`, and retires the stream exactly when the caller ends it.
pub proof fn lemma_wp_bounds(
    st: StreamModel,
    data: Seq<u8>,
    inf: PacketWriteEndInfo,
    absgp: u64,
    serial: u32,
)
    ensures
        write_packet_spec(st, data, inf, absgp, serial).0.seqnum <= st.seqnum + data.len() / 255
            + 2,
        write_packet_spec(st, data, inf, absgp, serial).0.retired == (st.retired
            || inf is EndStream),
        write_packet_spec(st, data, inf, absgp, serial).0.seqnum >= st.seqnum,
{
    let end_stream = inf is EndStream;
    let st0 = push_packet(st, PacketModel { data, absgp });
    lemma_place_seqnum_upper(st0, data.len(), serial, end_stream);
    lemma_place_retired(st0, data.len(), serial, end_stream);
    lemma_place_seqnum(st0, data.len(), serial, end_stream);
}

/// No two entries carry the same serial number.
pub open spec fn keys_unique(s: Seq<(u32, PageState)>) -> bool {
    forall|i: int, j: int| 0 <= i < j < s.len() ==> s[i].0 != s[j].0
}

/// The state of the stream with the given serial number: the first entry
/// that carries it, or a fresh stream if none does.
pub open spec fn stream_of(s: Seq<(u32, PageState)>, serial: u32) -> StreamModel
    decreases s.len(),
{
    if s.len() == 0 {
        init_stream()
    } else if s[0].0 == serial {
        s[0].1@
    } else {
        stream_of(s.drop_first(), serial)
    }
}

proof fn lemma_stream_of_index(s: Seq<(u32, PageState)>, i: int, serial: u32)
    requires
        keys_unique(s),
        0 <= i < s.len(),
        s[i].0 == serial,
    ensures
        stream_of(s, serial) == s[i].1@,
    decreases i,
{
    if i > 0 {
        assert(s[0].0 != serial);
        assert(s.drop_first()[i - 1] == s[i]);
        lemma_stream_of_index(s.drop_first(), i - 1, serial);
    }
}

proof fn lemma_stream_of_absent(s: Seq<(u32, PageState)>, serial: u32)
    requires
        forall|j: int| 0 <= j < s.len() ==> (#[trigger] s[j]).0 != serial,
    ensures
        stream_of(s, serial) == init_stream(),
    decreases s.len(),
{
    if s.len() > 0 {
        lemma_stream_of_absent(s.drop_first(), serial);
    }
}

proof fn lemma_stream_of_push(s: Seq<(u32, PageState)>, x: (u32, PageState))
    requires
        forall|j: int| 0 <= j < s.len() ==> (#[trigger] s[j]).0 != x.0,
    ensures
        stream_of(s.push(x), x.0) == x.1@,
        forall|s2: u32| s2 != x.0 ==> stream_of(s.push(x), s2) == stream_of(s, s2),
        keys_unique(s) ==> keys_unique(s.push(x)),
    decreases s.len(),
{
    if s.len() == 0 {
        assert forall|s2: u32| s2 != x.0 implies stream_of(s.push(x), s2) == stream_of(
            s,
            s2,
        ) by {
            assert(s.push(x)[0] == x);
            assert(stream_of(s.push(x), s2) == stream_of(s.push(x).drop_first(), s2));
            assert(s.push(x).drop_first() =~= Seq::<(u32, PageState)>::empty());
            assert(stream_of(Seq::<(u32, PageState)>::empty(), s2) == init_stream());
        }
        assert(s.push(x)[0] == x);
        assert(stream_of(s.push(x), x.0) == x.1@);
    } else {
        assert(s.push(x)[0] == s[0]);
        assert(s.push(x).drop_first() =~= s.drop_first().push(x));
        lemma_stream_of_push(s.drop_first(), x);
        assert forall|s2: u32| s2 != x.0 implies stream_of(s.push(x), s2) == stream_of(
            s,
            s2,
        ) by {
            if s[0].0 == s2 {
                assert(stream_of(s.push(x), s2) == s[0].1@);
            } else {
                assert(stream_of(s.push(x), s2) == stream_of(s.drop_first().push(x), s2));
                assert(stream_of(s, s2) == stream_of(s.drop_first(), s2));
            }
        }
        assert(stream_of(s.push(x), x.0) == x.1@);
    }
}

proof fn lemma_stream_of_update(s: Seq<(u32, PageState)>, i: int, x: (u32, PageState))
    requires
        keys_unique(s),
        0 <= i < s.len(),
        s[i].0 == x.0,
    ensures
        keys_unique(s.update(i, x)),
        stream_of(s.update(i, x), x.0) == x.1@,
        forall|s2: u32| s2 != x.0 ==> stream_of(s.update(i, x), s2) == stream_of(s, s2),
    decreases s.len(),
{
    let t = s.update(i, x);
    assert(keys_unique(t)) by {
        assert forall|a: int, b: int| 0 <= a < b < t.len() implies t[a].0 != t[b].0 by {
            assert(s[a].0 != s[b].0);
        }
    }
    if i == 0 {
        assert(t[0] == x);
        assert(t.drop_first() =~= s.drop_first());
        assert forall|s2: u32| s2 != x.0 implies stream_of(t, s2) == stream_of(s, s2) by {
            assert(stream_of(t, s2) == stream_of(t.drop_first(), s2));
            assert(stream_of(s, s2) == stream_of(s.drop_first(), s2));
        }
    } else {
        assert(t[0] == s[0]);
        assert(t.drop_first() =~= s.drop_first().update(i - 1, x));
        assert(s.drop_first()[i - 1] == s[i]);
        lemma_stream_of_update(s.drop_first(), i - 1, x);
        assert(s[0].0 != x.0);
        assert(stream_of(t, x.0) == stream_of(t.drop_first(), x.0));
        assert forall|s2: u32| s2 != x.0 implies stream_of(t, s2) == stream_of(s, s2) by {
            if s[0].0 == s2 {
                assert(stream_of(t, s2) == s[0].1@);
                assert(stream_of(s, s2) == s[0].1@);
            } else {
                assert(stream_of(t, s2) == stream_of(t.drop_first(), s2));
                assert(stream_of(s, s2) == stream_of(s.drop_first(), s2));
            }
        }
    }
}

/// Writes packets of one or more logical streams into Ogg pages,
/// accumulating the raw output bytes.
pub struct PacketWriter {
    crc_table: Vec<u32>,
    streams: Vec<(u32, PageState)>,
    out: Vec<u8>,
}

impl PacketWriter {
    /// The writer's invariant: a correct checksum table and well-formed
    /// streams under distinct serial numbers.
    pub closed spec fn wf(&self) -> bool {
        &&& is_crc_table(self.crc_table@)
        &&& keys_unique(self.streams@)
        &&& forall|i: int|
            0 <= i < self.streams@.len() ==> stream_wf(#[trigger] self.streams@[i].1@)
    }

    /// The state of the logical stream with this serial number.
    pub closed spec fn stream(&self, serial: u32) -> StreamModel {
        stream_of(self.streams@, serial)
    }

    /// All bytes emitted so far.
    pub closed spec fn out_view(&self) -> Seq<u8> {
        self.out@
    }

    /// A fresh writer: checksum table computed, no streams, no output.
    pub fn new() -> (r: PacketWriter)
        ensures
            r.wf(),
            r.out_view() == Seq::<u8>::empty(),
            forall|serial: u32| r.stream(serial) == init_stream(),
    {
        let r = PacketWriter { crc_table: lookup_array(), streams: Vec::new(), out: Vec::new() };
        proof {
            assert(r.out@ =~= Seq::<u8>::empty());
            assert forall|serial: u32| r.stream(serial) == init_stream() by {
                lemma_stream_of_absent(r.streams@, serial);
            }
        }
        r
    }

    /// The page counter of the stream with this serial number: the number
    /// of pages flushed for it so far.
    pub fn page_count(&self, serial: u32) -> (r: u32)
        requires
            self.wf(),
        ensures
            r as nat == self.stream(serial).seqnum,
    {
        let mut idx: usize = 0;
        while idx < self.streams.len() && self.streams[idx].0 != serial
            invariant
                idx <= self.streams@.len(),
                forall|j: int| 0 <= j < idx ==> (#[trigger] self.streams@[j]).0 != serial,
            decreases self.streams@.len() - idx,
        {
            idx = idx + 1;
        }
        if idx == self.streams.len() {
            proof {
                lemma_stream_of_absent(self.streams@, serial);
            }
            0
        } else {
            proof {
                lemma_stream_of_index(self.streams@, idx as int, serial);
            }
            self.streams[idx].1.sequence_num
        }
    }

    /// Hands the emitted bytes over and resets the output buffer.
    pub fn take_output(&mut self) -> (r: Vec<u8>)
        ensures
            r@ == old(self).out_view(),
            final(self).out_view() == Seq::<u8>::empty(),
            final(self).wf() == old(self).wf(),
            forall|serial: u32| final(self).stream(serial) == old(self).stream(serial),
    {
        let mut tmp: Vec<u8> = Vec::new();
        core::mem::swap(&mut self.out, &mut tmp);
        tmp
    }

    /// Writes one packet to the stream `serial`, with its granule position,
    /// flushing pages exactly as `write_packet_spec` describes.
    #[verifier::spinoff_prover]
    #[verifier::rlimit(100)]
    pub fn write_packet(
        &mut self,
        pck_cont: Vec<u8>,
        serial: u32,
        inf: PacketWriteEndInfo,
        absgp: u64,
    )
        requires
            old(self).wf(),
            !old(self).stream(serial).retired,
            write_packet_spec(old(self).stream(serial), pck_cont@, inf, absgp, serial).0.seqnum
                <= u32::MAX,
        ensures
            final(self).wf(),
            final(self).stream(serial) == write_packet_spec(
                old(self).stream(serial),
                pck_cont@,
                inf,
                absgp,
                serial,
            ).0,
            final(self).out_view() == old(self).out_view() + write_packet_spec(
                old(self).stream(serial),
                pck_cont@,
                inf,
                absgp,
                serial,
            ).1,
            forall|s2: u32| s2 != serial ==> final(self).stream(s2) == old(self).stream(s2),
    {
        let ghost st_old = self.stream(serial);
        let ghost spec_r = write_packet_spec(st_old, pck_cont@, inf, absgp, serial);
        let end_stream = inf == PacketWriteEndInfo::EndStream;

        // Find the stream's entry, creating it on first use.
        let mut idx: usize = 0;
        while idx < self.streams.len() && self.streams[idx].0 != serial
            invariant
                idx <= self.streams@.len(),
                forall|j: int| 0 <= j < idx ==> (#[trigger] self.streams@[j]).0 != serial,
            decreases self.streams@.len() - idx,
        {
            idx = idx + 1;
        }
        if idx == self.streams.len() {
            let fresh = PageState::new();
            let ghost spre = self.streams@;
            proof {
                lemma_stream_of_absent(spre, serial);
                lemma_stream_of_push(spre, (serial, fresh));
                assert(portions(init_stream().packets, init_stream().last_ovf, None)
                    =~= Seq::<u8>::empty());
                assert(stream_wf(init_stream()));
            }
            self.streams.push((serial, fresh));
            proof {
                assert(self.streams@ == spre.push((serial, fresh)));
                assert(self.streams@[idx as int] == (serial, fresh));
                assert forall|i: int| 0 <= i < self.streams@.len() implies stream_wf(
                    #[trigger] self.streams@[i].1@,
                ) by {
                    if i < spre.len() {
                        assert(self.streams@[i] == spre[i]);
                    } else {
                        assert(self.streams@[i] == (serial, fresh));
                    }
                }
            }
        }
        proof {
            assert(keys_unique(self.streams@));
            lemma_stream_of_index(self.streams@, idx as int, serial);
            assert(self.streams@[idx as int].1@ == st_old);
            assert(stream_wf(st_old));
        }
        let ghost s0 = self.streams@;
        let entry = self.streams.remove(idx);
        let mut pg = entry.1;
        proof {
            assert(pg@ == st_old);
        }

        // Append the packet and lace its bytes into the page, flushing as
        // the segment table fills.
        let cont_len = pck_cont.len();
        pg.packets.push(PagePacket { data: pck_cont, absgp });
        let ghost st0 = pg@;
        proof {
            assert(st0.packets =~= st_old.packets.push(PacketModel { data: pck_cont@, absgp }));
            assert(st0 == push_packet(st_old, PacketModel { data: pck_cont@, absgp }));
            lemma_portions_push(
                st_old.packets,
                st_old.last_ovf,
                PacketModel { data: pck_cont@, absgp },
            );
            assert(place_pre(st0, cont_len as nat));
        }
        let ghost full = place_segments(st0, cont_len as nat, serial, end_stream);
        proof {
            if !(inf is NormalPacket || full.2) {
                assert(spec_r.0.seqnum == flush_st(full.0, None).seqnum);
            }
            assert(full.0.seqnum <= spec_r.0.seqnum);
        }

        let ghost out0 = self.out@;
        let ghost mut prefix: Seq<u8> = Seq::empty();
        let mut rest: usize = cont_len;
        proof {
            assert(out0 + prefix =~= out0);
        }
        while rest >= 255
            invariant
                self.crc_table@ == old(self).crc_table@,
                is_crc_table(self.crc_table@),
                self.streams@ == s0.remove(idx as int),
                place_pre(pg@, rest as nat),
                rest <= cont_len,
                pg@.packets.last().data.len() == cont_len,
                pg@.retired == st_old.retired,
                self.out@ == out0 + prefix,
                full.0 == place_segments(pg@, rest as nat, serial, end_stream).0,
                full.1 == prefix + place_segments(pg@, rest as nat, serial, end_stream).1,
                full.2 == place_segments(pg@, rest as nat, serial, end_stream).2,
                full.0.seqnum <= spec_r.0.seqnum,
                spec_r.0.seqnum <= u32::MAX,
            decreases rest,
        {
            let ghost st_iter = pg@;
            let ghost rem_iter = rest as nat;
            pg.lacing.push(255);
            rest = rest - 255;
            proof {
                assert(pg@.lacing =~= st_iter.lacing.push(255u8));
                assert(pg@ == push_lacing(st_iter, 255u8));
                lemma_lacing_sum_push(st_iter.lacing, 255u8);
            }
            if pg.lacing.len() == 255 {
                let cut = cont_len - rest;
                proof {
                    lemma_place_seqnum(
                        flush_st(pg@, Some(cut as nat)),
                        rest as nat,
                        serial,
                        end_stream,
                    );
                    assert(pg.sequence_num < u32::MAX);
                    assert(page_valid(pg@, ovf_view(Some(cut))));
                }
                let ghost st_flush = pg@;
                write_page(&self.crc_table, &mut self.out, serial, &mut pg, Some(cut), false);
                proof {
                    lemma_portions_single(st_flush.packets.last(), Some(cut as nat));
                    prefix = prefix + page_bytes(serial, st_flush, Some(cut as nat), false);
                    assert(self.out@ =~= out0 + prefix);
                    assert(place_pre(pg@, rest as nat));
                    assert(full.1 =~= prefix + place_segments(
                        pg@,
                        rest as nat,
                        serial,
                        end_stream,
                    ).1);
                }
            } else {
                proof {
                    assert(place_pre(pg@, rest as nat));
                }
            }
        }

        // The terminal lacing value; it may itself fill the page.
        let ghost st_term = pg@;
        pg.lacing.push(rest as u8);
        proof {
            assert(pg@.lacing =~= st_term.lacing.push(rest as u8));
            assert(pg@ == push_lacing(st_term, rest as u8));
            lemma_lacing_sum_push(st_term.lacing, rest as u8);
        }
        let mut at_end = false;
        if pg.lacing.len() == 255 {
            proof {
                assert(pg.sequence_num < u32::MAX);
                assert(page_valid(pg@, ovf_view(None::<usize>)));
            }
            let ghost st_flush = pg@;
            write_page(&self.crc_table, &mut self.out, serial, &mut pg, None, end_stream);
            at_end = true;
            proof {
                prefix = prefix + page_bytes(serial, st_flush, None, end_stream);
                assert(self.out@ =~= out0 + prefix);
            }
        }
        proof {
            assert(full.0 == pg@);
            assert(full.1 == prefix);
            assert(full.2 == at_end);
            lemma_place_wf(st0, cont_len as nat, serial, end_stream);
        }

        // A caller-forced page end, unless the page just ended anyway.
        if (inf != PacketWriteEndInfo::NormalPacket) && !at_end {
            proof {
                assert(page_valid(pg@, ovf_view(None::<usize>)));
                assert(flush_st(full.0, None).seqnum == spec_r.0.seqnum);
                assert(pg.sequence_num < u32::MAX);
            }
            let ghost st_flush = pg@;
            write_page(&self.crc_table, &mut self.out, serial, &mut pg, None, end_stream);
            proof {
                prefix = prefix + page_bytes(serial, st_flush, None, end_stream);
                assert(self.out@ =~= out0 + prefix);
            }
        }
        if end_stream {
            pg.retired = true;
        }
        proof {
            assert(pg@ == spec_r.0);
            assert(prefix == spec_r.1);
            assert(stream_wf(pg@));
        }
        self.streams.insert(idx, (serial, pg));
        proof {
            assert(self.streams@ =~= s0.update(idx as int, (serial, pg)));
            lemma_stream_of_update(s0, idx as int, (serial, pg));
            assert(self.stream(serial) == spec_r.0);
            assert forall|i: int|
                0 <= i < self.streams@.len() implies stream_wf(
                #[trigger] self.streams@[i].1@,
            ) by {
                if i != idx as int {
                    assert(self.streams@[i] == s0[i]);
                }
            }
            assert(self.out@ == old(self).out@ + spec_r.1);
        }
    }
}

} // verus!
