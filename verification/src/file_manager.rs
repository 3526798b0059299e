//! Reassembly groups and the manager that routes packets to them.
//!
//! A [`PacketGroup`] accumulates what has arrived for one file: the file's
//! name once a Header packet has been seen, the expected fragment count once
//! a last-flagged Data packet has been seen, and the received fragments
//! keyed by sequence number (a repeated sequence number overwrites, last
//! write wins).  The [`FileManager`] owns one group per file identifier,
//! creates a group the moment any packet first carries its identifier, and
//! never deletes one.
//!
//! Contracts speak of the mathematical state [`GroupModel`]: the manager's
//! view is the map from file identifier to group model, and every mutation
//! is stated as a functional update of that map ([`spec_process`]).

use std::collections::HashMap;
use vstd::prelude::*;
use vstd::slice::slice_to_vec;

use crate::packet::DataPacket;
use crate::packet::HeaderPacket;
use crate::packet::Packet;
use crate::packet::spec_is_last_status;

verus! {

broadcast use vstd::std_specs::hash::group_hash_axioms;

/// The mathematical state of one reassembly group.
pub ghost struct GroupModel {
    /// The file's name, once a Header packet for the file has been seen.
    pub file_name: Option<Seq<u8>>,
    /// `sequence + 1` of the most recently applied last-flagged Data packet.
    pub expected_number_of_packets: Option<int>,
    /// The received fragments, keyed by sequence number.
    pub packets: Map<u16, Seq<u8>>,
}

/// The state of a group no packet has touched yet.
pub open spec fn spec_new_group() -> GroupModel {
    GroupModel {
        file_name: None,
        expected_number_of_packets: None,
        packets: Map::empty(),
    }
}

/// A group is complete when its name and expected count are known and a
/// fragment is present for every sequence number in `0 .. expected`:
/// contiguous coverage, not a mere count match.
pub open spec fn spec_group_complete(g: GroupModel) -> bool {
    &&& g.file_name is Some
    &&& g.expected_number_of_packets matches Some(e) && (forall|s: u16|
        s < e ==> #[trigger] g.packets.contains_key(s))
}

/// The ordered contents of a file, as far as fragments `0 .. n` go: the
/// concatenation of the payloads stored under sequence numbers `0 .. n`,
/// in sequence-number order.
pub open spec fn spec_concat_fragments(frags: Map<u16, Seq<u8>>, n: int) -> Seq<u8>
    decreases n,
{
    if n <= 0 {
        Seq::empty()
    } else {
        spec_concat_fragments(frags, n - 1) + frags[(n - 1) as u16]
    }
}

/// The whole reassembled byte stream of a complete group.
pub open spec fn spec_group_bytes(g: GroupModel) -> Seq<u8> {
    spec_concat_fragments(g.packets, g.expected_number_of_packets->0)
}

/// The accumulator for one file transfer, keyed externally by `file_id`.
pub struct PacketGroup {
    pub file_name: Option<Vec<u8>>,
    pub file_id: u8,
    pub expected_number_of_packets: Option<usize>,
    pub packets: HashMap<u16, Vec<u8>>,
}

impl View for PacketGroup {
    type V = GroupModel;

    open spec fn view(&self) -> GroupModel {
        GroupModel {
            file_name: match self.file_name {
                Some(ref v) => Some(v@),
                None => None,
            },
            expected_number_of_packets: match self.expected_number_of_packets {
                Some(e) => Some(e as int),
                None => None,
            },
            packets: self.packets@.map_values(|v: Vec<u8>| v@),
        }
    }
}

impl PacketGroup {
    /// An expected count, once set, came from a `u16` sequence number plus
    /// one, so it lies in `1 ..= 0x10000`.
    pub open spec fn wf(self) -> bool {
        self.expected_number_of_packets matches Some(e) ==> 1 <= e <= 0x10000
    }

    /// True iff this group is complete: name known, expected count known,
    /// and every sequence number below the expected count received.
    pub fn is_complete(&self) -> (r: bool)
        requires
            self.wf(),
        ensures
            r == spec_group_complete(self@),
    {
        if self.file_name.is_none() {
            return false;
        }
        match self.expected_number_of_packets {
            None => false,
            Some(expected) => {
                let mut s: usize = 0;
                while s < expected
                    invariant
                        s <= expected <= 0x10000,
                        self.expected_number_of_packets == Some(expected),
                        forall|t: u16| t < s ==> #[trigger] self@.packets.contains_key(t),
                    decreases expected - s,
                {
                    if !self.packets.contains_key(&(s as u16)) {
                        assert(!self@.packets.contains_key(s as u16));
                        return false;
                    }
                    assert(self@.packets.contains_key(s as u16));
                    s += 1;
                }
                true
            },
        }
    }

    /// The reassembled file: the payloads of fragments
    /// `0 .. expected_number_of_packets`, concatenated in sequence-number
    /// order.  Only a complete group has this.
    pub fn ordered_bytes(&self) -> (r: Vec<u8>)
        requires
            self.wf(),
            spec_group_complete(self@),
        ensures
            r@ == spec_group_bytes(self@),
    {
        let expected: usize = self.expected_number_of_packets.unwrap();
        let mut out: Vec<u8> = Vec::new();
        let mut k: usize = 0;
        while k < expected
            invariant
                self.wf(),
                spec_group_complete(self@),
                self.expected_number_of_packets == Some(expected),
                k <= expected <= 0x10000,
                out@ == spec_concat_fragments(self@.packets, k as int),
            decreases expected - k,
        {
            assert(self@.packets.contains_key(k as u16));
            assert(self.packets@.contains_key(k as u16));
            let frag = self.packets.get(&(k as u16)).unwrap();
            assert(frag@ == self@.packets[k as u16]);
            let ghost prefix = out@;
            let mut j: usize = 0;
            while j < frag.len()
                invariant
                    j <= frag@.len(),
                    out@ == prefix + frag@.subrange(0, j as int),
                decreases frag@.len() - j,
            {
                assert(frag@.subrange(0, j as int + 1) =~= frag@.subrange(0, j as int).push(
                    frag@[j as int],
                ));
                out.push(frag[j]);
                j += 1;
            }
            assert(frag@.subrange(0, frag@.len() as int) =~= frag@);
            assert(out@ == spec_concat_fragments(self@.packets, k as int + 1));
            k += 1;
        }
        out
    }
}

/// The views of a sequence of (file name, contents) pairs.
pub open spec fn spec_pairs_view(ps: Seq<(Vec<u8>, Vec<u8>)>) -> Seq<(Seq<u8>, Seq<u8>)> {
    ps.map_values(|p: (Vec<u8>, Vec<u8>)| (p.0@, p.1@))
}

/// The group a packet for `id` lands in: the existing one, or a fresh one
/// the moment `id` is first seen.
pub open spec fn spec_group_or_new(m: Map<u8, GroupModel>, id: u8) -> GroupModel {
    if m.contains_key(id) {
        m[id]
    } else {
        spec_new_group()
    }
}

/// Applying a Header packet: the group's file name is set or overwritten;
/// nothing else changes, and no other group changes.
pub open spec fn spec_apply_header(m: Map<u8, GroupModel>, id: u8, name: Seq<u8>) -> Map<
    u8,
    GroupModel,
> {
    let g = spec_group_or_new(m, id);
    m.insert(
        id,
        GroupModel {
            file_name: Some(name),
            expected_number_of_packets: g.expected_number_of_packets,
            packets: g.packets,
        },
    )
}

/// Applying a Data packet: the fragment is stored under its sequence number
/// (overwriting any earlier payload there), and a last-flagged packet sets
/// the expected count to `seq + 1` (overwriting any earlier count); no
/// other group changes.
pub open spec fn spec_apply_data(
    m: Map<u8, GroupModel>,
    id: u8,
    seq: u16,
    last: bool,
    payload: Seq<u8>,
) -> Map<u8, GroupModel> {
    let g = spec_group_or_new(m, id);
    m.insert(
        id,
        GroupModel {
            file_name: g.file_name,
            expected_number_of_packets: if last {
                Some(seq + 1)
            } else {
                g.expected_number_of_packets
            },
            packets: g.packets.insert(seq, payload),
        },
    )
}

/// The file identifier a packet carries, of either kind.
pub open spec fn spec_packet_file_id(p: Packet) -> u8 {
    match p {
        Packet::HeaderPacket(h) => h.file_id,
        Packet::DataPacket(d) => d.file_id,
    }
}

/// What processing one packet does to the manager's state.
pub open spec fn spec_process(m: Map<u8, GroupModel>, p: Packet) -> Map<u8, GroupModel> {
    match p {
        Packet::HeaderPacket(h) => spec_apply_header(m, h.file_id, h.file_name@),
        Packet::DataPacket(d) => spec_apply_data(
            m,
            d.file_id,
            d.packet_number,
            spec_is_last_status(d.status_byte),
            d.data@,
        ),
    }
}

/// Applying a packet touches only the group for the packet's own file
/// identifier: every other identifier keeps exactly the group it had, and
/// keeps having none if it had none.
pub proof fn lemma_process_independent(m: Map<u8, GroupModel>, p: Packet, other: u8)
    requires
        spec_packet_file_id(p) != other,
    ensures
        spec_process(m, p).contains_key(other) == m.contains_key(other),
        m.contains_key(other) ==> spec_process(m, p)[other] == m[other],
{
}

/// The manager's state after a run of packets, applied in order.
pub open spec fn spec_process_all(m: Map<u8, GroupModel>, ps: Seq<Packet>) -> Map<u8, GroupModel>
    decreases ps.len(),
{
    if ps.len() == 0 {
        m
    } else {
        spec_process(spec_process_all(m, ps.drop_last()), ps.last())
    }
}

/// What a packet does to its own group depends only on that group's prior
/// state: two manager states that agree on the packet's group agree on it
/// after the packet too, and both then have the group.
proof fn lemma_process_same_group(m1: Map<u8, GroupModel>, m2: Map<u8, GroupModel>, p: Packet)
    requires
        spec_group_or_new(m1, spec_packet_file_id(p)) == spec_group_or_new(
            m2,
            spec_packet_file_id(p),
        ),
    ensures
        spec_process(m1, p).contains_key(spec_packet_file_id(p)),
        spec_process(m2, p).contains_key(spec_packet_file_id(p)),
        spec_group_or_new(spec_process(m1, p), spec_packet_file_id(p)) == spec_group_or_new(
            spec_process(m2, p),
            spec_packet_file_id(p),
        ),
{
}

/// Processing packets for distinct file identifiers in any interleaving
/// yields independent groups: after any run of packets, the group for one
/// identifier — whether it exists, and its whole state, so in particular
/// whether it is complete — is what that identifier's own packets alone
/// would have produced.
pub proof fn lemma_interleaving_independent(m: Map<u8, GroupModel>, ps: Seq<Packet>, id: u8)
    ensures
        spec_process_all(m, ps).contains_key(id) == spec_process_all(
            m,
            ps.filter(|p: Packet| spec_packet_file_id(p) == id),
        ).contains_key(id),
        spec_group_or_new(spec_process_all(m, ps), id) == spec_group_or_new(
            spec_process_all(m, ps.filter(|p: Packet| spec_packet_file_id(p) == id)),
            id,
        ),
    decreases ps.len(),
{
    reveal(Seq::filter);
    let f = |p: Packet| spec_packet_file_id(p) == id;
    if ps.len() > 0 {
        lemma_interleaving_independent(m, ps.drop_last(), id);
        let prev = spec_process_all(m, ps.drop_last());
        let prev_own = spec_process_all(m, ps.drop_last().filter(f));
        if f(ps.last()) {
            assert(ps.filter(f) == ps.drop_last().filter(f).push(ps.last()));
            assert(ps.filter(f).drop_last() =~= ps.drop_last().filter(f));
            assert(ps.filter(f).last() == ps.last());
            lemma_process_same_group(prev, prev_own, ps.last());
        } else {
            assert(ps.filter(f) == ps.drop_last().filter(f));
            lemma_process_independent(prev, ps.last(), id);
        }
    }
}

/// The two mutators of one group commute: a Header packet and a Data
/// packet for the same file leave the same state in either order, so
/// fragments may arrive before the file's name is known.
pub proof fn lemma_header_data_commute(
    m: Map<u8, GroupModel>,
    id: u8,
    name: Seq<u8>,
    seq: u16,
    last: bool,
    payload: Seq<u8>,
)
    ensures
        spec_apply_header(spec_apply_data(m, id, seq, last, payload), id, name)
            == spec_apply_data(spec_apply_header(m, id, name), id, seq, last, payload),
{
    assert(spec_apply_header(spec_apply_data(m, id, seq, last, payload), id, name)
        =~= spec_apply_data(spec_apply_header(m, id, name), id, seq, last, payload));
}

/// Re-applying a Data packet under an already-seen sequence number
/// overwrites the stored payload — the most recently applied one wins —
/// and duplicates nothing: the stored sequence numbers are the old ones
/// plus that number, however often it arrives.
pub proof fn lemma_reapply_data_overwrites(
    m: Map<u8, GroupModel>,
    id: u8,
    seq: u16,
    last1: bool,
    payload1: Seq<u8>,
    last2: bool,
    payload2: Seq<u8>,
)
    ensures
        spec_apply_data(
            spec_apply_data(m, id, seq, last1, payload1),
            id,
            seq,
            last2,
            payload2,
        )[id].packets == spec_apply_data(m, id, seq, last2, payload2)[id].packets,
        spec_apply_data(m, id, seq, last2, payload2)[id].packets[seq] == payload2,
        spec_apply_data(m, id, seq, last2, payload2)[id].packets.dom() == spec_group_or_new(
            m,
            id,
        ).packets.dom().insert(seq),
{
    assert(spec_apply_data(
        spec_apply_data(m, id, seq, last1, payload1),
        id,
        seq,
        last2,
        payload2,
    )[id].packets =~= spec_apply_data(m, id, seq, last2, payload2)[id].packets);
    assert(spec_apply_data(m, id, seq, last2, payload2)[id].packets.dom()
        =~= spec_group_or_new(m, id).packets.dom().insert(seq));
}

/// No two groups share a file identifier.
pub open spec fn spec_distinct_ids(s: Seq<PacketGroup>) -> bool {
    forall|i: int, j: int|
        0 <= i < j < s.len() ==> (#[trigger] s[i]).file_id != (#[trigger] s[j]).file_id
}

/// The map from file identifier to group model that a sequence of groups
/// denotes.
pub open spec fn groups_model(s: Seq<PacketGroup>) -> Map<u8, GroupModel>
    decreases s.len(),
{
    if s.len() == 0 {
        Map::empty()
    } else {
        groups_model(s.drop_last()).insert(s.last().file_id, s.last()@)
    }
}

/// A file identifier is in the model exactly when some group carries it.
pub proof fn lemma_groups_model_contains(s: Seq<PacketGroup>, id: u8)
    ensures
        groups_model(s).contains_key(id) <==> exists|i: int|
            0 <= i < s.len() && (#[trigger] s[i]).file_id == id,
    decreases s.len(),
{
    if s.len() > 0 {
        lemma_groups_model_contains(s.drop_last(), id);
        if s.last().file_id == id {
            assert(s[s.len() - 1].file_id == id);
        } else {
            if exists|i: int| 0 <= i < s.len() && (#[trigger] s[i]).file_id == id {
                let i = choose|i: int| 0 <= i < s.len() && (#[trigger] s[i]).file_id == id;
                assert(i < s.len() - 1);
                assert(s.drop_last()[i] == s[i]);
            }
            if exists|i: int|
                0 <= i < s.drop_last().len() && (#[trigger] s.drop_last()[i]).file_id == id {
                let i = choose|i: int|
                    0 <= i < s.drop_last().len() && (#[trigger] s.drop_last()[i]).file_id == id;
                assert(s[i] == s.drop_last()[i]);
            }
        }
    }
}

/// With distinct identifiers, the model maps each group's identifier to
/// that group's own state.
pub proof fn lemma_groups_model_index(s: Seq<PacketGroup>, i: int)
    requires
        0 <= i < s.len(),
        spec_distinct_ids(s),
    ensures
        groups_model(s).contains_key(s[i].file_id),
        groups_model(s)[s[i].file_id] == s[i]@,
    decreases s.len(),
{
    if i < s.len() - 1 {
        assert(spec_distinct_ids(s.drop_last())) by {
            assert forall|a: int, b: int| 0 <= a < b < s.drop_last().len() implies (
            #[trigger] s.drop_last()[a]).file_id != (#[trigger] s.drop_last()[b]).file_id by {
                assert(s.drop_last()[a] == s[a]);
                assert(s.drop_last()[b] == s[b]);
            }
        }
        lemma_groups_model_index(s.drop_last(), i);
        assert(s.drop_last()[i] == s[i]);
        assert(s[i].file_id != s.last().file_id);
    }
}

/// Replacing the group at one index, keeping its identifier, replaces that
/// identifier's entry in the model and no other.
pub proof fn lemma_groups_model_update(s: Seq<PacketGroup>, i: int, g: PacketGroup)
    requires
        0 <= i < s.len(),
        spec_distinct_ids(s),
        g.file_id == s[i].file_id,
    ensures
        groups_model(s.update(i, g)) == groups_model(s).insert(g.file_id, g@),
    decreases s.len(),
{
    let s2 = s.update(i, g);
    if i == s.len() - 1 {
        assert(s2.drop_last() =~= s.drop_last());
        assert(s2.last() == g);
        assert(groups_model(s).insert(g.file_id, g@) =~= groups_model(s.drop_last()).insert(
            g.file_id,
            g@,
        ));
    } else {
        assert(spec_distinct_ids(s.drop_last())) by {
            assert forall|a: int, b: int| 0 <= a < b < s.drop_last().len() implies (
            #[trigger] s.drop_last()[a]).file_id != (#[trigger] s.drop_last()[b]).file_id by {
                assert(s.drop_last()[a] == s[a]);
                assert(s.drop_last()[b] == s[b]);
            }
        }
        assert(s.drop_last()[i] == s[i]);
        lemma_groups_model_update(s.drop_last(), i, g);
        assert(s2.drop_last() =~= s.drop_last().update(i, g));
        assert(s2.last() == s.last());
        assert(s[i].file_id != s.last().file_id);
        assert(groups_model(s.drop_last()).insert(g.file_id, g@).insert(
            s.last().file_id,
            s.last()@,
        ) =~= groups_model(s.drop_last()).insert(s.last().file_id, s.last()@).insert(
            g.file_id,
            g@,
        ));
    }
}

/// The view of an exec fragment map is the view of each stored payload.
proof fn lemma_map_values_view_insert(m: Map<u16, Vec<u8>>, k: u16, v: Vec<u8>)
    ensures
        m.insert(k, v).map_values(|x: Vec<u8>| x@) == m.map_values(|x: Vec<u8>| x@).insert(k, v@),
{
    assert(m.insert(k, v).map_values(|x: Vec<u8>| x@) =~= m.map_values(|x: Vec<u8>| x@).insert(
        k,
        v@,
    ));
}

/// The files ready for a sink, in group order: for each complete group its
/// file name and reassembled bytes; incomplete groups are passed over.
pub open spec fn spec_emit(s: Seq<PacketGroup>) -> Seq<(Seq<u8>, Seq<u8>)>
    decreases s.len(),
{
    if s.len() == 0 {
        Seq::empty()
    } else {
        spec_emit(s.drop_last()) + if spec_group_complete(s.last()@) {
            seq![(s.last()@.file_name->0, spec_group_bytes(s.last()@))]
        } else {
            Seq::empty()
        }
    }
}

/// Owns every reassembly group, one per file identifier seen so far.
pub struct FileManager {
    pub packet_groups: Vec<PacketGroup>,
}

impl View for FileManager {
    type V = Map<u8, GroupModel>;

    open spec fn view(&self) -> Map<u8, GroupModel> {
        groups_model(self.packet_groups@)
    }
}

impl Default for FileManager {
    /// A manager that has seen no packet: no groups at all.
    fn default() -> (r: FileManager)
        ensures
            r.wf(),
            r.packet_groups@.len() == 0,
            r@ == Map::<u8, GroupModel>::empty(),
    {
        FileManager { packet_groups: Vec::new() }
    }
}

impl FileManager {
    /// Every group is well formed and no two groups share an identifier.
    pub open spec fn wf(self) -> bool {
        &&& forall|i: int|
            0 <= i < self.packet_groups@.len() ==> (#[trigger] self.packet_groups@[i]).wf()
        &&& spec_distinct_ids(self.packet_groups@)
    }

    /// The index of the group for `file_id`, if one exists yet.
    fn find_group_index(&self, file_id: u8) -> (r: Option<usize>)
        ensures
            match r {
                Some(i) => i < self.packet_groups@.len()
                    && self.packet_groups@[i as int].file_id == file_id,
                None => forall|j: int|
                    0 <= j < self.packet_groups@.len() ==> (#[trigger] self.packet_groups@[j]).file_id
                        != file_id,
            },
    {
        let mut i: usize = 0;
        while i < self.packet_groups.len()
            invariant
                i <= self.packet_groups@.len(),
                forall|j: int|
                    0 <= j < i ==> (#[trigger] self.packet_groups@[j]).file_id != file_id,
            decreases self.packet_groups@.len() - i,
        {
            if self.packet_groups[i].file_id == file_id {
                return Some(i);
            }
            i += 1;
        }
        None
    }

    /// Routes a Header packet: sets or overwrites the file name of the
    /// group for its identifier, creating the group on first sight.
    pub fn process_header_packet(&mut self, header_packet: HeaderPacket)
        requires
            old(self).wf(),
        ensures
            final(self).wf(),
            final(self)@ == spec_apply_header(
                old(self)@,
                header_packet.file_id,
                header_packet.file_name@,
            ),
            final(self).packet_groups@.len() == if old(self)@.contains_key(header_packet.file_id) {
                old(self).packet_groups@.len()
            } else {
                old(self).packet_groups@.len() + 1
            },
    {
        let file_id = header_packet.file_id;
        proof {
            lemma_groups_model_contains(self.packet_groups@, file_id);
        }
        match self.find_group_index(file_id) {
            Some(i) => {
                proof {
                    lemma_groups_model_index(self.packet_groups@, i as int);
                }
                self.packet_groups[i].file_name = Some(header_packet.file_name);
                proof {
                    let g1 = self.packet_groups@[i as int];
                    assert(self.packet_groups@ == old(self).packet_groups@.update(i as int, g1));
                    lemma_groups_model_update(old(self).packet_groups@, i as int, g1);
                }
            },
            None => {
                let group = PacketGroup {
                    file_name: Some(header_packet.file_name),
                    file_id,
                    expected_number_of_packets: None,
                    packets: HashMap::new(),
                };
                self.packet_groups.push(group);
                proof {
                    let s2 = self.packet_groups@;
                    assert(s2.drop_last() =~= old(self).packet_groups@);
                    assert(s2.last()@.packets =~= spec_new_group().packets);
                    assert(s2.last()@ == GroupModel {
                        file_name: Some(header_packet.file_name@),
                        expected_number_of_packets: None,
                        packets: spec_new_group().packets,
                    });
                    assert forall|a: int, b: int| 0 <= a < b < s2.len() implies (
                    #[trigger] s2[a]).file_id != (#[trigger] s2[b]).file_id by {
                        if b < s2.len() - 1 {
                            assert(s2[a] == old(self).packet_groups@[a]);
                            assert(s2[b] == old(self).packet_groups@[b]);
                        } else {
                            assert(s2[a] == old(self).packet_groups@[a]);
                        }
                    }
                }
            },
        }
    }

    /// Routes a Data packet: stores the fragment under its sequence number
    /// (last write wins) in the group for its identifier, creating the
    /// group on first sight, and, when the packet is flagged last, sets the
    /// expected count to its sequence number plus one.
    pub fn process_data_packet(&mut self, data_packet: DataPacket)
        requires
            old(self).wf(),
        ensures
            final(self).wf(),
            final(self)@ == spec_apply_data(
                old(self)@,
                data_packet.file_id,
                data_packet.packet_number,
                spec_is_last_status(data_packet.status_byte),
                data_packet.data@,
            ),
            final(self).packet_groups@.len() == if old(self)@.contains_key(data_packet.file_id) {
                old(self).packet_groups@.len()
            } else {
                old(self).packet_groups@.len() + 1
            },
    {
        let file_id = data_packet.file_id;
        let is_last = data_packet.is_last_data_packet();
        let packet_number = data_packet.packet_number;
        proof {
            lemma_groups_model_contains(self.packet_groups@, file_id);
        }
        match self.find_group_index(file_id) {
            Some(i) => {
                proof {
                    lemma_groups_model_index(self.packet_groups@, i as int);
                }
                if is_last {
                    self.packet_groups[i].expected_number_of_packets = Some(
                        packet_number as usize + 1,
                    );
                }
                self.packet_groups[i].packets.insert(packet_number, data_packet.data);
                proof {
                    let s0 = old(self).packet_groups@;
                    let g1 = self.packet_groups@[i as int];
                    assert(self.packet_groups@ =~= s0.update(i as int, g1));
                    lemma_groups_model_update(s0, i as int, g1);
                    lemma_map_values_view_insert(
                        s0[i as int].packets@,
                        packet_number,
                        data_packet.data,
                    );
                }
            },
            None => {
                let mut packets: HashMap<u16, Vec<u8>> = HashMap::new();
                packets.insert(packet_number, data_packet.data);
                let expected_packets = if is_last {
                    Some(packet_number as usize + 1)
                } else {
                    None
                };
                let group = PacketGroup {
                    file_name: None,
                    file_id,
                    expected_number_of_packets: expected_packets,
                    packets,
                };
                self.packet_groups.push(group);
                proof {
                    let s2 = self.packet_groups@;
                    assert(s2.drop_last() =~= old(self).packet_groups@);
                    assert(s2.last()@.packets =~= spec_new_group().packets.insert(
                        packet_number,
                        data_packet.data@,
                    ));
                    assert forall|a: int, b: int| 0 <= a < b < s2.len() implies (
                    #[trigger] s2[a]).file_id != (#[trigger] s2[b]).file_id by {
                        if b < s2.len() - 1 {
                            assert(s2[a] == old(self).packet_groups@[a]);
                            assert(s2[b] == old(self).packet_groups@[b]);
                        } else {
                            assert(s2[a] == old(self).packet_groups@[a]);
                        }
                    }
                }
            },
        }
    }

    /// Routes any decoded packet to the group for its file identifier.
    pub fn process_packet(&mut self, packet: Packet)
        requires
            old(self).wf(),
        ensures
            final(self).wf(),
            final(self)@ == spec_process(old(self)@, packet),
            final(self).packet_groups@.len() == if old(self)@.contains_key(
                spec_packet_file_id(packet),
            ) {
                old(self).packet_groups@.len()
            } else {
                old(self).packet_groups@.len() + 1
            },
    {
        match packet {
            Packet::HeaderPacket(header_packet) => self.process_header_packet(header_packet),
            Packet::DataPacket(data_packet) => self.process_data_packet(data_packet),
        }
    }

    /// True iff at least one group exists and every known group is
    /// complete.  False on a manager that has seen no packet: the driving
    /// loop must not stop before anything arrived.
    pub fn received_all_packets(&self) -> (r: bool)
        requires
            self.wf(),
        ensures
            r == (self.packet_groups@.len() > 0 && forall|id: u8|
                #[trigger] self@.contains_key(id) ==> spec_group_complete(self@[id])),
    {
        if self.packet_groups.len() == 0 {
            return false;
        }
        let ghost s = self.packet_groups@;
        let mut i: usize = 0;
        while i < self.packet_groups.len()
            invariant
                self.wf(),
                s == self.packet_groups@,
                i <= s.len(),
                forall|j: int| 0 <= j < i ==> spec_group_complete((#[trigger] s[j])@),
            decreases s.len() - i,
        {
            if !self.packet_groups[i].is_complete() {
                proof {
                    lemma_groups_model_index(s, i as int);
                    assert(self@.contains_key(s[i as int].file_id));
                    assert(!spec_group_complete(self@[s[i as int].file_id]));
                }
                return false;
            }
            i += 1;
        }
        proof {
            assert forall|id: u8| #[trigger] self@.contains_key(id) implies spec_group_complete(
                self@[id],
            ) by {
                lemma_groups_model_contains(s, id);
                let j = choose|j: int| 0 <= j < s.len() && (#[trigger] s[j]).file_id == id;
                lemma_groups_model_index(s, j);
            }
        }
        true
    }

    /// The files ready to be handed to a sink: the name and reassembled
    /// contents of every complete group, in group order.  Incomplete groups
    /// are silently passed over; waiting for their missing fragments is the
    /// driving loop's business, not the manager's.
    pub fn completed_files(&self) -> (r: Vec<(Vec<u8>, Vec<u8>)>)
        requires
            self.wf(),
        ensures
            spec_pairs_view(r@) == spec_emit(self.packet_groups@),
    {
        let ghost s = self.packet_groups@;
        let mut out: Vec<(Vec<u8>, Vec<u8>)> = Vec::new();
        let mut i: usize = 0;
        while i < self.packet_groups.len()
            invariant
                self.wf(),
                s == self.packet_groups@,
                i <= s.len(),
                spec_pairs_view(out@) == spec_emit(s.subrange(0, i as int)),
            decreases s.len() - i,
        {
            let group = &self.packet_groups[i];
            let ghost out0 = out@;
            proof {
                assert(s.subrange(0, i as int + 1).drop_last() =~= s.subrange(0, i as int));
                assert(s.subrange(0, i as int + 1).last() == s[i as int]);
            }
            if group.is_complete() {
                let name = slice_to_vec(group.file_name.as_ref().unwrap().as_slice());
                let bytes = group.ordered_bytes();
                out.push((name, bytes));
                proof {
                    assert(spec_pairs_view(out@) =~= spec_pairs_view(out0).push(
                        (name@, bytes@),
                    ));
                    assert(spec_emit(s.subrange(0, i as int + 1)) =~= spec_emit(
                        s.subrange(0, i as int),
                    ).push((s[i as int]@.file_name->0, spec_group_bytes(s[i as int]@))));
                }
            } else {
                proof {
                    assert(spec_emit(s.subrange(0, i as int + 1)) =~= spec_emit(
                        s.subrange(0, i as int),
                    ));
                }
            }
            i += 1;
        }
        proof {
            assert(s.subrange(0, s.len() as int) =~= s);
        }
        out
    }
}

} // verus!

