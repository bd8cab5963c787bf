//! Records of the trace: track descriptors and track events, each encoded as
//! one framed packet, and the allocator of track and flow identifiers.

use vstd::prelude::*;

use crate::wire::{
    bytes_field, fixed64_field, frame, put_bytes_field, put_fixed64_field, put_frame,
    put_string_field, put_varint_field, varint_field,
};

verus! {

/// The packet-sequence identifier that every packet carries.
pub const SEQUENCE_ID: u64 = 0xDEAD_BEEF;

/// Track-event types.
pub const TYPE_SLICE_BEGIN: u64 = 1;
pub const TYPE_SLICE_END: u64 = 2;
pub const TYPE_INSTANT: u64 = 3;
pub const TYPE_COUNTER: u64 = 4;

/// How the children of a track are ordered.
#[derive(Debug, Clone, Copy, PartialEq, Eq, Structural)]
pub enum ChildOrder {
    Lexicographic,
    Chronological,
    Explicit,
}

pub open spec fn child_order_code(o: ChildOrder) -> nat {
    match o {
        ChildOrder::Lexicographic => 1,
        ChildOrder::Chronological => 2,
        ChildOrder::Explicit => 3,
    }
}

impl ChildOrder {
    /// The wire value of the ordering.
    pub fn to_proto_enum(&self) -> (r: i32)
        ensures
            r as int == child_order_code(*self),
    {
        match self {
            ChildOrder::Lexicographic => 1,
            ChildOrder::Chronological => 2,
            ChildOrder::Explicit => 3,
        }
    }
}

/// The unit of a counter track.
#[derive(Debug, Clone, PartialEq, Eq)]
pub enum CounterTrackUnit {
    Unspecified,
    TimeNs,
    Count,
    SizeBytes,
    Custom(String),
}

pub open spec fn unit_code(u: CounterTrackUnit) -> nat {
    match u {
        CounterTrackUnit::Unspecified => 0,
        CounterTrackUnit::TimeNs => 1,
        CounterTrackUnit::Count => 2,
        CounterTrackUnit::SizeBytes => 3,
        CounterTrackUnit::Custom(_) => 0,
    }
}

pub open spec fn unit_name(u: CounterTrackUnit) -> Option<Seq<char>> {
    match u {
        CounterTrackUnit::Custom(n) => Some(n@),
        _ => None,
    }
}

/// The unit a name stands for: none or empty is unspecified, the three
/// built-in names are their units, any other name is a custom unit.
pub open spec fn unit_from_name(name: Option<Seq<char>>) -> (CounterTrackUnit, Option<Seq<char>>) {
    match name {
        None => (CounterTrackUnit::Unspecified, None),
        Some(n) => if n.len() == 0 {
            (CounterTrackUnit::Unspecified, None)
        } else if n == "TimeNs"@ {
            (CounterTrackUnit::TimeNs, None)
        } else if n == "Count"@ {
            (CounterTrackUnit::Count, None)
        } else if n == "SizeBytes"@ {
            (CounterTrackUnit::SizeBytes, None)
        } else {
            (CounterTrackUnit::Unspecified, Some(n))
        },
    }
}

impl CounterTrackUnit {
    /// The unit named by `unit_name`.
    pub fn from_string(unit_name: Option<String>) -> (r: Self)
        ensures
            match unit_from_name(opt_view(unit_name)) {
                (CounterTrackUnit::Unspecified, Some(n)) => r is Custom && r->Custom_0@ == n,
                (u, _) => r == u,
            },
    {
        match unit_name {
            None => CounterTrackUnit::Unspecified,
            Some(n) => {
                if n.as_str().is_empty() {
                    CounterTrackUnit::Unspecified
                } else if n == String::from_str("TimeNs") {
                    CounterTrackUnit::TimeNs
                } else if n == String::from_str("Count") {
                    CounterTrackUnit::Count
                } else if n == String::from_str("SizeBytes") {
                    CounterTrackUnit::SizeBytes
                } else {
                    CounterTrackUnit::Custom(n)
                }
            },
        }
    }

    /// The wire value of the unit; a custom unit is unspecified on the wire.
    pub fn to_proto_unit(&self) -> (r: u64)
        ensures
            r as nat == unit_code(*self),
    {
        match self {
            CounterTrackUnit::Unspecified => 0,
            CounterTrackUnit::TimeNs => 1,
            CounterTrackUnit::Count => 2,
            CounterTrackUnit::SizeBytes => 3,
            CounterTrackUnit::Custom(_) => 0,
        }
    }

    /// The name of a custom unit.
    pub fn to_proto_unit_name(&self) -> (r: Option<&str>)
        ensures
            opt_str_view(r) == unit_name(*self),
    {
        match self {
            CounterTrackUnit::Custom(n) => Some(n.as_str()),
            _ => None,
        }
    }
}

/// The value of a counter sample: an integer, or the bit pattern of a
/// 64-bit float.
#[derive(Debug, Clone, Copy, PartialEq, Eq, Structural)]
pub enum CounterValue {
    Int(i64),
    Float(u64),
}

pub open spec fn opt_view(o: Option<String>) -> Option<Seq<char>> {
    match o {
        Some(s) => Some(s@),
        None => None,
    }
}

pub open spec fn opt_str_view(o: Option<&str>) -> Option<Seq<char>> {
    match o {
        Some(s) => Some(s@),
        None => None,
    }
}

/// The 64-bit two's-complement pattern of a signed value.
pub open spec fn twos(i: int) -> nat {
    if i >= 0 {
        i as nat
    } else {
        (i + 0x1_0000_0000_0000_0000) as nat
    }
}

fn twos_u64(i: i64) -> (r: u64)
    ensures
        r as nat == twos(i as int),
{
    if i >= 0 {
        i as u64
    } else {
        let m = (-(i + 1)) as u64;
        u64::MAX - m
    }
}

/// A string field, UTF-8 encoded.
pub open spec fn string_field(field: nat, s: Seq<char>) -> Seq<u8> {
    bytes_field(field, vstd::utf8::encode_utf8(s))
}

pub open spec fn opt_string_field(field: nat, s: Option<Seq<char>>) -> Seq<u8> {
    match s {
        Some(x) => string_field(field, x),
        None => Seq::empty(),
    }
}

pub open spec fn opt_varint_field(field: nat, v: Option<nat>) -> Seq<u8> {
    match v {
        Some(x) => varint_field(field, x),
        None => Seq::empty(),
    }
}

pub open spec fn opt_u64(v: Option<u64>) -> Option<nat> {
    match v {
        Some(x) => Some(x as nat),
        None => None,
    }
}

pub open spec fn opt_i32(v: Option<i32>) -> Option<nat> {
    match v {
        Some(x) => Some(twos(x as int)),
        None => None,
    }
}

pub open spec fn opt_order(v: Option<ChildOrder>) -> Option<nat> {
    match v {
        Some(x) => Some(child_order_code(x)),
        None => None,
    }
}

/// One fixed 64-bit field per value, in order.
pub open spec fn fixed64_fields(field: nat, vs: Seq<u64>) -> Seq<u8>
    decreases vs.len(),
{
    if vs.len() == 0 {
        Seq::empty()
    } else {
        fixed64_fields(field, vs.drop_last()) + fixed64_field(field, vs.last() as nat)
    }
}

/// One string field per value, in order.
pub open spec fn string_fields(field: nat, ss: Seq<Seq<char>>) -> Seq<u8>
    decreases ss.len(),
{
    if ss.len() == 0 {
        Seq::empty()
    } else {
        string_fields(field, ss.drop_last()) + string_field(field, ss.last())
    }
}

pub open spec fn counter_value_field(v: Option<CounterValue>) -> Seq<u8> {
    match v {
        Some(CounterValue::Int(i)) => varint_field(30, twos(i as int)),
        Some(CounterValue::Float(bits)) => fixed64_field(44, bits as nat),
        None => Seq::empty(),
    }
}

/// The payload of a track event.
pub open spec fn track_event_payload(
    kind: nat,
    track: u64,
    name: Option<Seq<char>>,
    value: Option<CounterValue>,
    flows: Seq<u64>,
    flows_end: Seq<u64>,
    correlation_id: Option<u64>,
) -> Seq<u8> {
    varint_field(9, kind) + varint_field(11, track as nat) + opt_string_field(23, name)
        + counter_value_field(value) + fixed64_fields(47, flows) + fixed64_fields(48, flows_end)
        + opt_varint_field(52, opt_u64(correlation_id))
}

/// A framed packet that carries a track event at time `ts`.
pub open spec fn event_packet(ts: u64, event: Seq<u8>) -> Seq<u8> {
    frame(varint_field(8, ts as nat) + varint_field(10, SEQUENCE_ID as nat) + bytes_field(11, event))
}

/// A framed packet that carries a track descriptor.
pub open spec fn descriptor_packet(descriptor: Seq<u8>) -> Seq<u8> {
    frame(varint_field(10, SEQUENCE_ID as nat) + bytes_field(60, descriptor))
}

/// The payload of a track descriptor. `kind` is the encoded process, thread
/// or counter descriptor under its field number, if any.
pub open spec fn descriptor_payload(
    uuid: u64,
    name: Option<Seq<char>>,
    kind: Seq<u8>,
    parent: Option<u64>,
    counter: Seq<u8>,
    ordering: Option<ChildOrder>,
    rank: Option<i32>,
    description: Option<Seq<char>>,
) -> Seq<u8> {
    varint_field(1, uuid as nat) + opt_string_field(2, name) + kind + opt_varint_field(
        5,
        opt_u64(parent),
    ) + counter + opt_varint_field(11, opt_order(ordering)) + opt_varint_field(12, opt_i32(rank))
        + opt_string_field(14, description)
}

pub open spec fn process_payload(
    pid: i32,
    cmdline: Seq<Seq<char>>,
    priority: Option<i32>,
    name: Option<Seq<char>>,
) -> Seq<u8> {
    varint_field(1, twos(pid as int)) + string_fields(2, cmdline) + opt_varint_field(
        5,
        opt_i32(priority),
    ) + opt_string_field(6, name)
}

pub open spec fn thread_payload(pid: i32, tid: i32, name: Seq<char>) -> Seq<u8> {
    varint_field(1, twos(pid as int)) + varint_field(2, twos(tid as int)) + string_field(5, name)
}

pub open spec fn counter_payload(unit: CounterTrackUnit, incremental: bool) -> Seq<u8> {
    varint_field(3, unit_code(unit)) + varint_field(5, if incremental { 1 } else { 0 })
        + opt_string_field(6, unit_name(unit))
}

fn put_opt_string_field(out: &mut Vec<u8>, field: u64, s: Option<&str>)
    requires
        field < 0x1000_0000,
    ensures
        final(out)@ == old(out)@ + opt_string_field(field as nat, opt_str_view(s)),
{
    match s {
        Some(x) => put_string_field(out, field, x),
        None => {
            assert(old(out)@ + Seq::<u8>::empty() =~= old(out)@);
        },
    }
}

fn put_opt_u64_field(out: &mut Vec<u8>, field: u64, v: Option<u64>)
    requires
        field < 0x1000_0000,
    ensures
        final(out)@ == old(out)@ + opt_varint_field(field as nat, opt_u64(v)),
{
    match v {
        Some(x) => put_varint_field(out, field, x),
        None => {
            assert(old(out)@ + Seq::<u8>::empty() =~= old(out)@);
        },
    }
}

fn put_opt_i32_field(out: &mut Vec<u8>, field: u64, v: Option<i32>)
    requires
        field < 0x1000_0000,
    ensures
        final(out)@ == old(out)@ + opt_varint_field(field as nat, opt_i32(v)),
{
    match v {
        Some(x) => put_varint_field(out, field, twos_u64(x as i64)),
        None => {
            assert(old(out)@ + Seq::<u8>::empty() =~= old(out)@);
        },
    }
}

fn put_fixed64_fields(out: &mut Vec<u8>, field: u64, vs: &Vec<u64>)
    requires
        field < 0x1000_0000,
    ensures
        final(out)@ == old(out)@ + fixed64_fields(field as nat, vs@),
{
    let mut i: usize = 0;
    while i < vs.len()
        invariant
            field < 0x1000_0000,
            i <= vs@.len(),
            out@ == old(out)@ + fixed64_fields(field as nat, vs@.subrange(0, i as int)),
        decreases vs@.len() - i,
    {
        put_fixed64_field(out, field, vs[i]);
        assert(vs@.subrange(0, i + 1).drop_last() =~= vs@.subrange(0, i as int));
        i = i + 1;
        assert(out@ =~= old(out)@ + fixed64_fields(field as nat, vs@.subrange(0, i as int)));
    }
    assert(vs@.subrange(0, vs@.len() as int) =~= vs@);
}

fn put_string_fields(out: &mut Vec<u8>, field: u64, ss: &Vec<String>)
    requires
        field < 0x1000_0000,
    ensures
        final(out)@ == old(out)@ + string_fields(field as nat, ss@.map_values(|s: String| s@)),
{
    let ghost v = ss@.map_values(|s: String| s@);
    let mut i: usize = 0;
    while i < ss.len()
        invariant
            field < 0x1000_0000,
            i <= ss@.len(),
            v == ss@.map_values(|s: String| s@),
            out@ == old(out)@ + string_fields(field as nat, v.subrange(0, i as int)),
        decreases ss@.len() - i,
    {
        put_string_field(out, field, ss[i].as_str());
        assert(v.subrange(0, i + 1).drop_last() =~= v.subrange(0, i as int));
        i = i + 1;
        assert(out@ =~= old(out)@ + string_fields(field as nat, v.subrange(0, i as int)));
    }
    assert(v.subrange(0, ss@.len() as int) =~= v);
}

fn put_counter_value_field(out: &mut Vec<u8>, v: Option<CounterValue>)
    ensures
        final(out)@ == old(out)@ + counter_value_field(v),
{
    match v {
        Some(CounterValue::Int(i)) => put_varint_field(out, 30, twos_u64(i)),
        Some(CounterValue::Float(bits)) => put_fixed64_field(out, 44, bits),
        None => {
            assert(old(out)@ + Seq::<u8>::empty() =~= old(out)@);
        },
    }
}

/// Appends one framed track-event packet.
pub(crate) fn put_track_event(
    buf: &mut Vec<u8>,
    kind: u64,
    track_uuid: u64,
    ts: u64,
    name: Option<&str>,
    value: Option<CounterValue>,
    flows: &Vec<u64>,
    flows_end: &Vec<u64>,
    correlation_id: Option<u64>,
)
    ensures
        final(buf)@ == old(buf)@ + event_packet(
            ts,
            track_event_payload(
                kind as nat,
                track_uuid,
                opt_str_view(name),
                value,
                flows@,
                flows_end@,
                correlation_id,
            ),
        ),
{
    let mut evt: Vec<u8> = Vec::new();
    put_varint_field(&mut evt, 9, kind);
    put_varint_field(&mut evt, 11, track_uuid);
    put_opt_string_field(&mut evt, 23, name);
    put_counter_value_field(&mut evt, value);
    put_fixed64_fields(&mut evt, 47, flows);
    put_fixed64_fields(&mut evt, 48, flows_end);
    put_opt_u64_field(&mut evt, 52, correlation_id);
    assert(evt@ =~= track_event_payload(
        kind as nat,
        track_uuid,
        opt_str_view(name),
        value,
        flows@,
        flows_end@,
        correlation_id,
    ));
    let mut pkt: Vec<u8> = Vec::new();
    put_varint_field(&mut pkt, 8, ts);
    put_varint_field(&mut pkt, 10, SEQUENCE_ID);
    put_bytes_field(&mut pkt, 11, evt.as_slice());
    assert(pkt@ =~= varint_field(8, ts as nat) + varint_field(10, SEQUENCE_ID as nat) + bytes_field(
        11,
        evt@,
    ));
    put_frame(buf, pkt.as_slice());
}

/// Appends one framed track-descriptor packet.
fn put_descriptor(
    buf: &mut Vec<u8>,
    uuid: u64,
    name: Option<&str>,
    kind_field: u64,
    kind: &Vec<u8>,
    parent_uuid: Option<u64>,
    counter: &Vec<u8>,
    child_ordering: Option<ChildOrder>,
    sibling_order_rank: Option<i32>,
    description: Option<&str>,
)
    requires
        kind_field == 3 || kind_field == 4,
    ensures
        final(buf)@ == old(buf)@ + descriptor_packet(
            descriptor_payload(
                uuid,
                opt_str_view(name),
                if kind@.len() == 0 {
                    Seq::empty()
                } else {
                    bytes_field(kind_field as nat, kind@)
                },
                parent_uuid,
                if counter@.len() == 0 {
                    Seq::empty()
                } else {
                    bytes_field(8, counter@)
                },
                child_ordering,
                sibling_order_rank,
                opt_str_view(description),
            ),
        ),
{
    let mut d: Vec<u8> = Vec::new();
    put_varint_field(&mut d, 1, uuid);
    put_opt_string_field(&mut d, 2, name);
    let ghost d1 = d@;
    if kind.len() > 0 {
        put_bytes_field(&mut d, kind_field, kind.as_slice());
    }
    assert(d@ =~= d1 + if kind@.len() == 0 {
        Seq::empty()
    } else {
        bytes_field(kind_field as nat, kind@)
    });
    put_opt_u64_field(&mut d, 5, parent_uuid);
    let ghost d2 = d@;
    if counter.len() > 0 {
        put_bytes_field(&mut d, 8, counter.as_slice());
    }
    assert(d@ =~= d2 + if counter@.len() == 0 {
        Seq::empty()
    } else {
        bytes_field(8, counter@)
    });
    let ordering = match child_ordering {
        Some(o) => Some(o.to_proto_enum() as u64),
        None => None,
    };
    put_opt_u64_field(&mut d, 11, ordering);
    put_opt_i32_field(&mut d, 12, sibling_order_rank);
    put_opt_string_field(&mut d, 14, description);
    let ghost kind_bytes = if kind@.len() == 0 {
        Seq::empty()
    } else {
        bytes_field(kind_field as nat, kind@)
    };
    let ghost counter_bytes = if counter@.len() == 0 {
        Seq::empty()
    } else {
        bytes_field(8, counter@)
    };
    assert(opt_u64(ordering) == opt_order(child_ordering));
    assert(d@ =~= descriptor_payload(
        uuid,
        opt_str_view(name),
        kind_bytes,
        parent_uuid,
        counter_bytes,
        child_ordering,
        sibling_order_rank,
        opt_str_view(description),
    ));
    let mut pkt: Vec<u8> = Vec::new();
    put_varint_field(&mut pkt, 10, SEQUENCE_ID);
    put_bytes_field(&mut pkt, 60, d.as_slice());
    assert(pkt@ =~= varint_field(10, SEQUENCE_ID as nat) + bytes_field(60, d@));
    put_frame(buf, pkt.as_slice());
}

pub(crate) fn as_opt_str(o: &Option<String>) -> (r: Option<&str>)
    ensures
        opt_str_view(r) == opt_view(*o),
{
    match o {
        Some(s) => Some(s.as_str()),
        None => None,
    }
}

proof fn lemma_varint_field_nonempty(field: nat, v: nat)
    ensures
        varint_field(field, v).len() > 0,
{
    reveal_with_fuel(crate::wire::varint, 1);
}

/// Allocates the identifiers of tracks and flows: 1, 2, 3, ... in order; 0 is
/// never handed out.
#[derive(Debug)]
pub struct Synthetto {
    uuid_cnt: u64,
}

impl Synthetto {
    /// Identifiers start at 1: 0 stands for "none".
    #[verifier::type_invariant]
    spec fn inv(&self) -> bool {
        self.uuid_cnt >= 1
    }

    /// The identifier that the next allocation returns.
    pub closed spec fn next(&self) -> nat {
        self.uuid_cnt as nat
    }

    /// A fresh allocator: the first identifier is 1.
    pub fn new() -> (r: Self)
        ensures
            r.next() == 1,
    {
        Synthetto { uuid_cnt: 1 }
    }

    /// The identifier that the next allocation returns.
    pub fn peek_next(&self) -> (r: u64)
        ensures
            r as nat == self.next(),
            r >= 1,
    {
        proof {
            use_type_invariant(self);
        }
        self.uuid_cnt
    }

    fn next_uuid(&mut self) -> (uuid: u64)
        requires
            old(self).next() < u64::MAX,
        ensures
            uuid as nat == old(self).next(),
            final(self).next() == old(self).next() + 1,
            uuid >= 1,
    {
        proof {
            use_type_invariant(&*self);
        }
        let uuid = self.uuid_cnt;
        self.uuid_cnt = self.uuid_cnt + 1;
        uuid
    }

    /// Allocates a flow identifier; flows have no record.
    pub fn new_flow(&mut self) -> (uuid: u64)
        requires
            old(self).next() < u64::MAX,
        ensures
            uuid as nat == old(self).next(),
            final(self).next() == old(self).next() + 1,
            uuid >= 1,
    {
        self.next_uuid()
    }

    /// Allocates a process track and appends its descriptor.
    pub fn new_process(
        &mut self,
        pid: i32,
        process_name: Option<String>,
        cmdline: Vec<String>,
        priority: Option<i32>,
        description: Option<String>,
        child_ordering: Option<ChildOrder>,
        sibling_order_rank: Option<i32>,
        buf: &mut Vec<u8>,
    ) -> (uuid: u64)
        requires
            old(self).next() < u64::MAX,
        ensures
            uuid as nat == old(self).next(),
            final(self).next() == old(self).next() + 1,
            uuid >= 1,
            final(buf)@ == old(buf)@ + descriptor_packet(
                descriptor_payload(
                    uuid,
                    None,
                    bytes_field(
                        3,
                        process_payload(
                            pid,
                            cmdline@.map_values(|c: String| c@),
                            priority,
                            opt_view(process_name),
                        ),
                    ),
                    None,
                    Seq::empty(),
                    child_ordering,
                    sibling_order_rank,
                    opt_view(description),
                ),
            ),
    {
        let uuid = self.next_uuid();
        let mut p: Vec<u8> = Vec::new();
        put_varint_field(&mut p, 1, twos_u64(pid as i64));
        put_string_fields(&mut p, 2, &cmdline);
        put_opt_i32_field(&mut p, 5, priority);
        put_opt_string_field(&mut p, 6, as_opt_str(&process_name));
        proof {
            lemma_varint_field_nonempty(1, twos(pid as int));
        }
        assert(p@ =~= process_payload(
            pid,
            cmdline@.map_values(|c: String| c@),
            priority,
            opt_view(process_name),
        ));
        let empty: Vec<u8> = Vec::new();
        put_descriptor(
            buf,
            uuid,
            None,
            3,
            &p,
            None,
            &empty,
            child_ordering,
            sibling_order_rank,
            as_opt_str(&description),
        );
        uuid
    }

    /// Allocates a thread track and appends its descriptor.
    pub fn new_thread(
        &mut self,
        pid: i32,
        tid: i32,
        thread_name: String,
        description: Option<String>,
        child_ordering: Option<ChildOrder>,
        sibling_order_rank: Option<i32>,
        buf: &mut Vec<u8>,
    ) -> (uuid: u64)
        requires
            old(self).next() < u64::MAX,
        ensures
            uuid as nat == old(self).next(),
            final(self).next() == old(self).next() + 1,
            uuid >= 1,
            final(buf)@ == old(buf)@ + descriptor_packet(
                descriptor_payload(
                    uuid,
                    None,
                    bytes_field(4, thread_payload(pid, tid, thread_name@)),
                    None,
                    Seq::empty(),
                    child_ordering,
                    sibling_order_rank,
                    opt_view(description),
                ),
            ),
    {
        let uuid = self.next_uuid();
        let mut t: Vec<u8> = Vec::new();
        put_varint_field(&mut t, 1, twos_u64(pid as i64));
        put_varint_field(&mut t, 2, twos_u64(tid as i64));
        put_string_field(&mut t, 5, thread_name.as_str());
        proof {
            lemma_varint_field_nonempty(1, twos(pid as int));
        }
        assert(t@ =~= thread_payload(pid, tid, thread_name@));
        let empty: Vec<u8> = Vec::new();
        put_descriptor(
            buf,
            uuid,
            None,
            4,
            &t,
            None,
            &empty,
            child_ordering,
            sibling_order_rank,
            as_opt_str(&description),
        );
        uuid
    }

    /// Allocates a named track and appends its descriptor.
    pub fn new_track(
        &mut self,
        name: String,
        parent_uuid: Option<u64>,
        description: Option<String>,
        child_ordering: Option<ChildOrder>,
        sibling_order_rank: Option<i32>,
        buf: &mut Vec<u8>,
    ) -> (uuid: u64)
        requires
            old(self).next() < u64::MAX,
        ensures
            uuid as nat == old(self).next(),
            final(self).next() == old(self).next() + 1,
            uuid >= 1,
            final(buf)@ == old(buf)@ + descriptor_packet(
                descriptor_payload(
                    uuid,
                    Some(name@),
                    Seq::empty(),
                    parent_uuid,
                    Seq::empty(),
                    child_ordering,
                    sibling_order_rank,
                    opt_view(description),
                ),
            ),
    {
        let uuid = self.next_uuid();
        let empty: Vec<u8> = Vec::new();
        put_descriptor(
            buf,
            uuid,
            Some(name.as_str()),
            3,
            &empty,
            parent_uuid,
            &empty,
            child_ordering,
            sibling_order_rank,
            as_opt_str(&description),
        );
        uuid
    }

    /// Allocates a counter track and appends its descriptor.
    pub fn new_counter(
        &mut self,
        name: String,
        unit: CounterTrackUnit,
        is_incremental: bool,
        parent_uuid: Option<u64>,
        description: Option<String>,
        child_ordering: Option<ChildOrder>,
        sibling_order_rank: Option<i32>,
        buf: &mut Vec<u8>,
    ) -> (uuid: u64)
        requires
            old(self).next() < u64::MAX,
        ensures
            uuid as nat == old(self).next(),
            final(self).next() == old(self).next() + 1,
            uuid >= 1,
            final(buf)@ == old(buf)@ + descriptor_packet(
                descriptor_payload(
                    uuid,
                    Some(name@),
                    Seq::empty(),
                    parent_uuid,
                    bytes_field(8, counter_payload(unit, is_incremental)),
                    child_ordering,
                    sibling_order_rank,
                    opt_view(description),
                ),
            ),
    {
        let uuid = self.next_uuid();
        let mut c: Vec<u8> = Vec::new();
        put_varint_field(&mut c, 3, unit.to_proto_unit());
        put_varint_field(&mut c, 5, if is_incremental { 1 } else { 0 });
        put_opt_string_field(&mut c, 6, unit.to_proto_unit_name());
        proof {
            lemma_varint_field_nonempty(3, unit_code(unit));
        }
        assert(c@ =~= counter_payload(unit, is_incremental));
        let empty: Vec<u8> = Vec::new();
        put_descriptor(
            buf,
            uuid,
            Some(name.as_str()),
            3,
            &empty,
            parent_uuid,
            &c,
            child_ordering,
            sibling_order_rank,
            as_opt_str(&description),
        );
        uuid
    }
}

/// Appends a slice-begin event.
pub fn slice_begin_evt(
    track_uuid: u64,
    ts: u64,
    name: Option<String>,
    flows: Vec<u64>,
    flows_end: Vec<u64>,
    correlation_id: Option<u64>,
    buf: &mut Vec<u8>,
)
    ensures
        final(buf)@ == old(buf)@ + event_packet(
            ts,
            track_event_payload(
                TYPE_SLICE_BEGIN as nat,
                track_uuid,
                opt_view(name),
                None,
                flows@,
                flows_end@,
                correlation_id,
            ),
        ),
{
    put_track_event(
        buf,
        TYPE_SLICE_BEGIN,
        track_uuid,
        ts,
        as_opt_str(&name),
        None,
        &flows,
        &flows_end,
        correlation_id,
    );
}

/// Appends a slice-end event.
pub fn slice_end_evt(
    track_uuid: u64,
    ts: u64,
    flows: Vec<u64>,
    flows_end: Vec<u64>,
    correlation_id: Option<u64>,
    buf: &mut Vec<u8>,
)
    ensures
        final(buf)@ == old(buf)@ + event_packet(
            ts,
            track_event_payload(
                TYPE_SLICE_END as nat,
                track_uuid,
                None,
                None,
                flows@,
                flows_end@,
                correlation_id,
            ),
        ),
{
    put_track_event(
        buf,
        TYPE_SLICE_END,
        track_uuid,
        ts,
        None,
        None,
        &flows,
        &flows_end,
        correlation_id,
    );
}

/// Appends an instant event.
pub fn instant_evt(
    track_uuid: u64,
    ts: u64,
    name: Option<String>,
    flows: Vec<u64>,
    flows_end: Vec<u64>,
    correlation_id: Option<u64>,
    buf: &mut Vec<u8>,
)
    ensures
        final(buf)@ == old(buf)@ + event_packet(
            ts,
            track_event_payload(
                TYPE_INSTANT as nat,
                track_uuid,
                opt_view(name),
                None,
                flows@,
                flows_end@,
                correlation_id,
            ),
        ),
{
    put_track_event(
        buf,
        TYPE_INSTANT,
        track_uuid,
        ts,
        as_opt_str(&name),
        None,
        &flows,
        &flows_end,
        correlation_id,
    );
}

/// Appends a counter event with an integer value.
pub fn int_counter_evt(track_uuid: u64, ts: u64, val: i64, buf: &mut Vec<u8>)
    ensures
        final(buf)@ == old(buf)@ + event_packet(
            ts,
            track_event_payload(
                TYPE_COUNTER as nat,
                track_uuid,
                None,
                Some(CounterValue::Int(val)),
                Seq::empty(),
                Seq::empty(),
                None,
            ),
        ),
{
    let empty: Vec<u64> = Vec::new();
    put_track_event(
        buf,
        TYPE_COUNTER,
        track_uuid,
        ts,
        None,
        Some(CounterValue::Int(val)),
        &empty,
        &empty,
        None,
    );
}

/// Appends a counter event with a floating-point value, given by its bits.
pub fn float_counter_evt(track_uuid: u64, ts: u64, val_bits: u64, buf: &mut Vec<u8>)
    ensures
        final(buf)@ == old(buf)@ + event_packet(
            ts,
            track_event_payload(
                TYPE_COUNTER as nat,
                track_uuid,
                None,
                Some(CounterValue::Float(val_bits)),
                Seq::empty(),
                Seq::empty(),
                None,
            ),
        ),
{
    let empty: Vec<u64> = Vec::new();
    put_track_event(
        buf,
        TYPE_COUNTER,
        track_uuid,
        ts,
        None,
        Some(CounterValue::Float(val_bits)),
        &empty,
        &empty,
        None,
    );
}

} // verus!
