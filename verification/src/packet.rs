//! Fixed-size report packets derived from the framebuffer bytes.
//!
//! Each report on the wire is exactly `PAYLOAD_SIZE` bytes: a constant report
//! id of 1, a one-byte sequence index, and `PAYLOAD_SIZE - 2` data bytes, the
//! last chunk zero-padded to full size.

use vstd::prelude::*;

use crate::device::{HidAdapter, ScreenError};

verus! {

/// The number of bytes in a report, header included.
pub const PAYLOAD_SIZE: usize = 32;

/// The number of framebuffer bytes each report carries.
pub const PACKET_DATA_SIZE: usize = PAYLOAD_SIZE - 2;

/// One report: a sequence index and a fixed-size block of framebuffer bytes.
pub struct DataPacket {
    index: u8,
    payload: Vec<u8>,
}

/// How many packets a buffer of `len` bytes yields: one per started chunk of
/// `PACKET_DATA_SIZE` bytes.
pub open spec fn num_packets(len: nat) -> nat {
    (((len + PACKET_DATA_SIZE) - 1) / (PACKET_DATA_SIZE as int)) as nat
}

/// Byte `j` of chunk `k` of `data`: past the end of `data` it is zero.
pub open spec fn chunk_byte(data: Seq<u8>, k: int, j: int) -> u8 {
    if k * PACKET_DATA_SIZE + j < data.len() {
        data[k * PACKET_DATA_SIZE + j]
    } else {
        0
    }
}

/// Chunk `k` of `data`, zero-padded to `PACKET_DATA_SIZE` bytes.
pub open spec fn chunk_at(data: Seq<u8>, k: int) -> Seq<u8> {
    Seq::new(PACKET_DATA_SIZE as nat, |j: int| chunk_byte(data, k, j))
}

/// A packet reduced to what the differ compares: its index and its bytes.
pub type PacketModel = (u8, Seq<u8>);

/// The full packet sequence a buffer yields, in ascending index order.
pub open spec fn packet_models(data: Seq<u8>) -> Seq<PacketModel> {
    Seq::new(num_packets(data.len()), |k: int| ((k as u8), chunk_at(data, k)))
}

/// The wire form of a packet: report id 1, the index, then the data bytes.
pub open spec fn wire_of(m: PacketModel) -> Seq<u8> {
    seq![1u8, m.0] + m.1
}

/// The packets of `cur` that survive diffing against a baseline `base`: a
/// packet is dropped when a packet with the same index and bytes occurs
/// anywhere in the baseline, and the survivors keep their order.
///
/// The comparison is deliberately by membership, not position: a packet that
/// merely moved to another place in the baseline still counts as unchanged.
/// Since a packet carries its own sequence index, two packets can only match
/// at equal indices anyway unless the same payload recurs under two indices.
pub open spec fn surviving(cur: Seq<PacketModel>, base: Seq<PacketModel>) -> Seq<PacketModel>
    decreases cur.len(),
{
    if cur.len() == 0 {
        Seq::empty()
    } else {
        let rest = surviving(cur.drop_last(), base);
        if base.contains(cur.last()) {
            rest
        } else {
            rest.push(cur.last())
        }
    }
}

/// What a send transmits: everything when there is no baseline yet, the
/// surviving packets otherwise.
pub open spec fn to_send(cur: Seq<PacketModel>, base: Option<Seq<PacketModel>>) -> Seq<
    PacketModel,
> {
    match base {
        None => cur,
        Some(b) => surviving(cur, b),
    }
}

/// Extending the diffed prefix by one packet keeps it when the baseline lacks
/// that packet and drops it otherwise.
pub proof fn lemma_surviving_step(cur: Seq<PacketModel>, base: Seq<PacketModel>, i: int)
    requires
        0 <= i < cur.len(),
    ensures
        surviving(cur.take(i + 1), base) == if base.contains(cur[i]) {
            surviving(cur.take(i), base)
        } else {
            surviving(cur.take(i), base).push(cur[i])
        },
{
    assert(cur.take(i + 1).drop_last() =~= cur.take(i));
    assert(cur.take(i + 1).last() == cur[i]);
    assert(cur.take(i + 1).len() == i + 1);
}

/// Law: diffing a frame against a baseline that already holds every one of
/// its packets leaves nothing to transmit.
pub proof fn lemma_surviving_of_covered_frame(cur: Seq<PacketModel>, base: Seq<PacketModel>)
    requires
        forall|i: int| 0 <= i < cur.len() ==> base.contains(#[trigger] cur[i]),
    ensures
        surviving(cur, base) == Seq::<PacketModel>::empty(),
    decreases cur.len(),
{
    if cur.len() > 0 {
        assert(base.contains(cur[cur.len() - 1]));
        assert forall|i: int| 0 <= i < cur.drop_last().len() implies base.contains(
            #[trigger] cur.drop_last()[i],
        ) by {
            assert(cur.drop_last()[i] == cur[i]);
        }
        lemma_surviving_of_covered_frame(cur.drop_last(), base);
    }
}

/// Law: a frame resent unchanged, against the baseline its own send left
/// behind, transmits nothing.
pub proof fn lemma_unchanged_frame_sends_nothing(cur: Seq<PacketModel>)
    ensures
        to_send(cur, Some(cur)) == Seq::<PacketModel>::empty(),
{
    lemma_surviving_of_covered_frame(cur, cur);
}

/// Whether some packet of `list` has the same index and bytes as `p`.
pub(crate) fn contains_packet(list: &Vec<DataPacket>, p: &DataPacket) -> (r: bool)
    ensures
        r == list@.map_values(|q: DataPacket| q.model()).contains(p.model()),
{
    let ghost models = list@.map_values(|q: DataPacket| q.model());
    let mut i: usize = 0;
    while i < list.len()
        invariant
            i <= list@.len(),
            models == list@.map_values(|q: DataPacket| q.model()),
            forall|j: int| 0 <= j < i ==> models[j] != p.model(),
        decreases list@.len() - i,
    {
        if list[i].same_packet(p) {
            assert(models[i as int] == p.model());
            return true;
        }
        i += 1;
    }
    assert(forall|j: int| 0 <= j < models.len() ==> models[j] != p.model());
    false
}

impl DataPacket {
    /// What this packet is, for the differ and for the wire.
    pub closed spec fn model(&self) -> PacketModel {
        (self.index, self.payload@)
    }

    /// A packet carries exactly `PACKET_DATA_SIZE` data bytes.
    pub closed spec fn wf(&self) -> bool {
        self.payload@.len() == PACKET_DATA_SIZE
    }

    /// Builds a packet from a sequence index and a full-size data block.
    pub fn new(starting_index: u8, payload: Vec<u8>) -> (r: DataPacket)
        requires
            payload@.len() == PACKET_DATA_SIZE,
        ensures
            r.wf(),
            r.model() == (starting_index, payload@),
    {
        DataPacket { index: starting_index, payload }
    }

    /// The packet's wire form.
    pub fn to_bytes(&self) -> (r: Vec<u8>)
        ensures
            r@ == wire_of(self.model()),
    {
        let mut bytes: Vec<u8> = Vec::new();
        bytes.push(1);
        bytes.push(self.index);
        bytes.extend_from_slice(self.payload.as_slice());
        proof {
            assert(bytes@ =~= wire_of(self.model()));
        }
        bytes
    }

    /// Writes the packet's wire form through the sink; a failure of the sink
    /// is handed back unchanged, and a sink that cannot fail forces success.
    pub fn send<D: HidAdapter>(&self, device: &mut D) -> (r: Result<(), ScreenError>)
        ensures
            r is Ok ==> final(device).log() == old(device).log().push(wire_of(self.model())),
            r is Err ==> final(device).log() == old(device).log(),
            D::infallible() ==> r is Ok,
    {
        let bytes = self.to_bytes();
        match device.write(bytes.as_slice()) {
            Ok(_) => Ok(()),
            Err(e) => Err(e),
        }
    }

    /// Whether two packets carry the same index and the same bytes.
    pub fn same_packet(&self, other: &DataPacket) -> (r: bool)
        ensures
            r == (self.model() == other.model()),
    {
        if self.index != other.index {
            return false;
        }
        if self.payload.len() != other.payload.len() {
            return false;
        }
        let n = self.payload.len();
        let mut i: usize = 0;
        while i < n
            invariant
                n == self.payload@.len(),
                n == other.payload@.len(),
                i <= n,
                forall|j: int| 0 <= j < i ==> self.payload@[j] == other.payload@[j],
            decreases n - i,
        {
            if self.payload[i] != other.payload[i] {
                return false;
            }
            i += 1;
        }
        proof {
            assert(self.payload@ =~= other.payload@);
        }
        true
    }
}

} // verus!
