//! The trace encoder: allocates identifiers, keeps a stack of open slices per
//! track and the last compressed value per counter track, and appends each
//! emitted record to its output.

use std::collections::HashMap;

use vstd::prelude::*;

use crate::synthetto::{
    descriptor_packet, descriptor_payload, event_packet, opt_view, put_track_event, process_payload,
    thread_payload, counter_payload, track_event_payload, unit_from_name, ChildOrder,
    CounterTrackUnit, CounterValue, Synthetto, TYPE_COUNTER, TYPE_INSTANT, TYPE_SLICE_BEGIN,
    TYPE_SLICE_END,
};
use crate::wire::bytes_field;

verus! {

broadcast use vstd::std_specs::hash::group_hash_axioms;

/// What `slice_begin_evt` does when the track already has an open slice.
#[derive(Debug, Clone, Copy, PartialEq, Eq, Structural)]
pub enum ReplacementBehaviour {
    /// Always open a new slice on top of the stack.
    NewSlice,
    /// End the open slice first.
    Replace,
    /// Do nothing if the open slice has the same name and flow set; else
    /// end it first.
    ReplaceIfDifferent,
}

/// An open slice as a value: its name and its set of flows.
pub struct SliceKey {
    pub name: Option<Seq<char>>,
    pub flows: Set<u64>,
}

pub open spec fn slice_key(name: Option<Seq<char>>, flows: Seq<u64>) -> SliceKey {
    SliceKey { name, flows: flows.to_set() }
}

/// The encoder's state as a value.
pub struct EncoderState {
    /// The next identifier to hand out.
    pub next: nat,
    /// The stack of open slices of each track that has had one.
    pub stacks: Map<u64, Seq<SliceKey>>,
    /// The last compressed value of each counter track.
    pub counters: Map<u64, CounterValue>,
}

/// A track event that the encoder emitted.
pub enum Emitted {
    Begin {
        track: u64,
        ts: u64,
        name: Option<Seq<char>>,
        flows: Seq<u64>,
        flows_end: Seq<u64>,
        correlation_id: Option<u64>,
    },
    End {
        track: u64,
        ts: u64,
        flows: Seq<u64>,
        flows_end: Seq<u64>,
        correlation_id: Option<u64>,
    },
    Instant {
        track: u64,
        ts: u64,
        name: Option<Seq<char>>,
        flows: Seq<u64>,
        flows_end: Seq<u64>,
        correlation_id: Option<u64>,
    },
    Counter { track: u64, ts: u64, value: CounterValue },
}

/// The record of one emitted event.
pub open spec fn emitted_bytes(e: Emitted) -> Seq<u8> {
    match e {
        Emitted::Begin { track, ts, name, flows, flows_end, correlation_id } => event_packet(
            ts,
            track_event_payload(
                TYPE_SLICE_BEGIN as nat,
                track,
                name,
                None,
                flows,
                flows_end,
                correlation_id,
            ),
        ),
        Emitted::End { track, ts, flows, flows_end, correlation_id } => event_packet(
            ts,
            track_event_payload(
                TYPE_SLICE_END as nat,
                track,
                None,
                None,
                flows,
                flows_end,
                correlation_id,
            ),
        ),
        Emitted::Instant { track, ts, name, flows, flows_end, correlation_id } => event_packet(
            ts,
            track_event_payload(
                TYPE_INSTANT as nat,
                track,
                name,
                None,
                flows,
                flows_end,
                correlation_id,
            ),
        ),
        Emitted::Counter { track, ts, value } => event_packet(
            ts,
            track_event_payload(
                TYPE_COUNTER as nat,
                track,
                None,
                Some(value),
                Seq::empty(),
                Seq::empty(),
                None,
            ),
        ),
    }
}

/// The records of a sequence of emitted events, in order.
pub open spec fn emitted_all(es: Seq<Emitted>) -> Seq<u8>
    decreases es.len(),
{
    if es.len() == 0 {
        Seq::empty()
    } else {
        emitted_all(es.drop_last()) + emitted_bytes(es.last())
    }
}

/// The open slices of track `t`, innermost last.
pub open spec fn stack_of(st: EncoderState, t: u64) -> Seq<SliceKey> {
    if st.stacks.contains_key(t) {
        st.stacks[t]
    } else {
        Seq::empty()
    }
}

pub open spec fn with_stack(st: EncoderState, t: u64, s: Seq<SliceKey>) -> EncoderState {
    EncoderState { stacks: st.stacks.insert(t, s), ..st }
}

/// The end that a replacing begin emits before it: no flows, no correlation.
pub open spec fn forced_end(t: u64, ts: u64) -> Emitted {
    Emitted::End {
        track: t,
        ts,
        flows: Seq::empty(),
        flows_end: Seq::empty(),
        correlation_id: None,
    }
}

/// The state after an identifier was handed out.
pub open spec fn allocated(st: EncoderState) -> EncoderState {
    EncoderState { next: st.next + 1, ..st }
}

/// `slice_begin_evt` on a state: the next state and the events emitted.
pub open spec fn begin_step(
    st: EncoderState,
    t: u64,
    ts: u64,
    name: Option<Seq<char>>,
    flows: Seq<u64>,
    flows_end: Seq<u64>,
    b: ReplacementBehaviour,
    correlation_id: Option<u64>,
) -> (EncoderState, Seq<Emitted>) {
    let key = slice_key(name, flows);
    let stack = stack_of(st, t);
    let begin = Emitted::Begin { track: t, ts, name, flows, flows_end, correlation_id };
    if b == ReplacementBehaviour::ReplaceIfDifferent && stack.len() > 0 && stack.last() == key {
        (st, Seq::empty())
    } else if b != ReplacementBehaviour::NewSlice && stack.len() > 0 {
        (with_stack(st, t, stack.drop_last().push(key)), seq![forced_end(t, ts), begin])
    } else {
        (with_stack(st, t, stack.push(key)), seq![begin])
    }
}

/// `slice_end_evt` on a state: the next state and the events emitted.
pub open spec fn end_step(
    st: EncoderState,
    t: u64,
    ts: u64,
    flows: Seq<u64>,
    flows_end: Seq<u64>,
    force: bool,
    correlation_id: Option<u64>,
) -> (EncoderState, Seq<Emitted>) {
    let stack = stack_of(st, t);
    let end = Emitted::End { track: t, ts, flows, flows_end, correlation_id };
    if stack.len() == 0 {
        if force {
            (st, seq![end])
        } else {
            (st, Seq::empty())
        }
    } else {
        (with_stack(st, t, stack.drop_last()), seq![end])
    }
}

/// `counter_evt` on a state: the next state and the events emitted.
pub open spec fn counter_step(
    st: EncoderState,
    t: u64,
    ts: u64,
    value: CounterValue,
    compress: bool,
) -> (EncoderState, Seq<Emitted>) {
    if compress && st.counters.contains_key(t) && st.counters[t] == value {
        (st, Seq::empty())
    } else if compress {
        (EncoderState { counters: st.counters.insert(t, value), ..st }, seq![Emitted::Counter { track: t, ts, value }])
    } else {
        (st, seq![Emitted::Counter { track: t, ts, value }])
    }
}

/// An open slice: its name and the flows it began with.
#[derive(Debug, Clone)]
struct TrackSlice {
    name: Option<String>,
    flows: Vec<u64>,
}

impl View for TrackSlice {
    type V = SliceKey;

    closed spec fn view(&self) -> SliceKey {
        slice_key(opt_view(self.name), self.flows@)
    }
}

impl TrackSlice {
    fn new(name: Option<String>, flows: Vec<u64>) -> (r: Self)
        ensures
            r@ == slice_key(opt_view(name), flows@),
    {
        TrackSlice { name, flows }
    }
}

fn contains_u64(v: &Vec<u64>, x: u64) -> (r: bool)
    ensures
        r == v@.contains(x),
{
    let mut i: usize = 0;
    while i < v.len()
        invariant
            i <= v@.len(),
            forall|j: int| 0 <= j < i ==> v@[j] != x,
        decreases v@.len() - i,
    {
        if v[i] == x {
            return true;
        }
        i = i + 1;
    }
    false
}

/// Every flow of `a` is among those of `b`.
fn flows_within(a: &Vec<u64>, b: &Vec<u64>) -> (r: bool)
    ensures
        r == a@.to_set().subset_of(b@.to_set()),
{
    let mut i: usize = 0;
    while i < a.len()
        invariant
            i <= a@.len(),
            forall|j: int| 0 <= j < i ==> b@.contains(#[trigger] a@[j]),
        decreases a@.len() - i,
    {
        if !contains_u64(b, a[i]) {
            assert(a@.to_set().contains(a@[i as int]));
            assert(!b@.to_set().contains(a@[i as int]));
            return false;
        }
        i = i + 1;
    }
    assert forall|x: u64| a@.to_set().contains(x) implies b@.to_set().contains(x) by {
        let j = choose|j: int| 0 <= j < a@.len() && a@[j] == x;
    }
    true
}

fn same_name(a: &Option<String>, b: &Option<String>) -> (r: bool)
    ensures
        r == (opt_view(*a) == opt_view(*b)),
{
    match (a, b) {
        (Some(x), Some(y)) => *x == *y,
        (None, None) => true,
        _ => false,
    }
}

impl TrackSlice {
    /// The slice has this name and this set of flows.
    fn matches(&self, name: &Option<String>, flows: &Vec<u64>) -> (r: bool)
        ensures
            r == (self@ == slice_key(opt_view(*name), flows@)),
    {
        let n = same_name(&self.name, name);
        let ab = flows_within(&self.flows, flows);
        let ba = flows_within(flows, &self.flows);
        proof {
            if ab && ba {
                assert(self.flows@.to_set() =~= flows@.to_set());
            }
            if self@ == slice_key(opt_view(*name), flows@) {
                assert(self.flows@.to_set() == flows@.to_set());
            }
        }
        n && ab && ba
    }
}

/// The trace encoder. Its records accumulate in an output buffer that the
/// owner takes and writes out.
#[derive(Debug)]
pub struct Context {
    synthetto: Synthetto,
    tracks: HashMap<u64, Vec<TrackSlice>>,
    counters: HashMap<u64, CounterValue>,
    encode_buffer: Vec<u8>,
}

impl View for Context {
    type V = EncoderState;

    closed spec fn view(&self) -> EncoderState {
        EncoderState {
            next: self.synthetto.next(),
            stacks: self.tracks@.map_values(|v: Vec<TrackSlice>| v@.map_values(|s: TrackSlice| s@)),
            counters: self.counters@,
        }
    }
}

impl Context {
    /// The records emitted and not yet taken.
    pub closed spec fn output(&self) -> Seq<u8> {
        self.encode_buffer@
    }

    /// An encoder with no tracks; the first identifier is 1.
    pub fn new() -> (r: Self)
        ensures
            r@.next == 1,
            r@.stacks == Map::<u64, Seq<SliceKey>>::empty(),
            r@.counters == Map::<u64, CounterValue>::empty(),
            r.output() == Seq::<u8>::empty(),
    {
        let r = Context {
            synthetto: Synthetto::new(),
            tracks: HashMap::new(),
            counters: HashMap::new(),
            encode_buffer: Vec::new(),
        };
        assert(r@.stacks =~= Map::<u64, Seq<SliceKey>>::empty());
        r
    }

    /// Hands out the records emitted so far and empties the buffer.
    pub fn take_output(&mut self) -> (r: Vec<u8>)
        ensures
            r@ == old(self).output(),
            final(self).output() == Seq::<u8>::empty(),
            final(self)@ == old(self)@,
    {
        let mut r: Vec<u8> = Vec::new();
        std::mem::swap(&mut r, &mut self.encode_buffer);
        r
    }

    /// The identifier that the next allocation returns.
    pub fn next_uuid(&self) -> (r: u64)
        ensures
            r as nat == self@.next,
            r >= 1,
    {
        self.synthetto.peek_next()
    }

    /// Allocates a flow identifier; nothing is emitted.
    pub fn new_flow(&mut self) -> (uuid: u64)
        requires
            old(self)@.next < u64::MAX,
        ensures
            uuid as nat == old(self)@.next,
            uuid >= 1,
            final(self)@ == allocated(old(self)@),
            final(self).output() == old(self).output(),
    {
        self.synthetto.new_flow()
    }

    /// Allocates a named track and emits its descriptor.
    pub fn new_track(
        &mut self,
        name: String,
        parent_uuid: Option<u64>,
        description: Option<String>,
        child_ordering: Option<ChildOrder>,
        sibling_order_rank: Option<i32>,
    ) -> (uuid: u64)
        requires
            old(self)@.next < u64::MAX,
        ensures
            uuid as nat == old(self)@.next,
            uuid >= 1,
            final(self)@ == allocated(old(self)@),
            final(self).output() == old(self).output() + descriptor_packet(
                descriptor_payload(
                    uuid,
                    Some(name@),
                    Seq::empty(),
                    parent_uuid,
                    Seq::empty(),
                    child_ordering,
                    sibling_order_rank,
                    opt_view(description),
                ),
            ),
    {
        self.synthetto.new_track(
            name,
            parent_uuid,
            description,
            child_ordering,
            sibling_order_rank,
            &mut self.encode_buffer,
        )
    }

    /// Allocates a process track and emits its descriptor.
    pub fn new_process(
        &mut self,
        pid: i32,
        process_name: Option<String>,
        cmdline: Vec<String>,
        priority: Option<i32>,
        description: Option<String>,
        child_ordering: Option<ChildOrder>,
        sibling_order_rank: Option<i32>,
    ) -> (uuid: u64)
        requires
            old(self)@.next < u64::MAX,
        ensures
            uuid as nat == old(self)@.next,
            uuid >= 1,
            final(self)@ == allocated(old(self)@),
            final(self).output() == old(self).output() + descriptor_packet(
                descriptor_payload(
                    uuid,
                    None,
                    bytes_field(
                        3,
                        process_payload(
                            pid,
                            cmdline@.map_values(|c: String| c@),
                            priority,
                            opt_view(process_name),
                        ),
                    ),
                    None,
                    Seq::empty(),
                    child_ordering,
                    sibling_order_rank,
                    opt_view(description),
                ),
            ),
    {
        self.synthetto.new_process(
            pid,
            process_name,
            cmdline,
            priority,
            description,
            child_ordering,
            sibling_order_rank,
            &mut self.encode_buffer,
        )
    }

    /// Allocates a thread track and emits its descriptor.
    pub fn new_thread(
        &mut self,
        pid: i32,
        tid: i32,
        thread_name: String,
        description: Option<String>,
        child_ordering: Option<ChildOrder>,
        sibling_order_rank: Option<i32>,
    ) -> (uuid: u64)
        requires
            old(self)@.next < u64::MAX,
        ensures
            uuid as nat == old(self)@.next,
            uuid >= 1,
            final(self)@ == allocated(old(self)@),
            final(self).output() == old(self).output() + descriptor_packet(
                descriptor_payload(
                    uuid,
                    None,
                    bytes_field(4, thread_payload(pid, tid, thread_name@)),
                    None,
                    Seq::empty(),
                    child_ordering,
                    sibling_order_rank,
                    opt_view(description),
                ),
            ),
    {
        self.synthetto.new_thread(
            pid,
            tid,
            thread_name,
            description,
            child_ordering,
            sibling_order_rank,
            &mut self.encode_buffer,
        )
    }

    /// Allocates a counter track and emits its descriptor. The unit is named
    /// as `CounterTrackUnit::from_string` reads it.
    pub fn new_counter(
        &mut self,
        name: String,
        unit_name: Option<String>,
        is_incremental: bool,
        parent_uuid: Option<u64>,
        description: Option<String>,
        child_ordering: Option<ChildOrder>,
        sibling_order_rank: Option<i32>,
    ) -> (uuid: u64)
        requires
            old(self)@.next < u64::MAX,
        ensures
            uuid as nat == old(self)@.next,
            uuid >= 1,
            final(self)@ == allocated(old(self)@),
            (exists|unit: CounterTrackUnit|
                {
                    &&& match unit_from_name(opt_view(unit_name)) {
                        (CounterTrackUnit::Unspecified, Some(n)) => unit is Custom && unit->Custom_0@
                            == n,
                        (u, _) => unit == u,
                    }
                    &&& final(self).output() == old(self).output() + descriptor_packet(
                        descriptor_payload(
                            uuid,
                            Some(name@),
                            Seq::empty(),
                            parent_uuid,
                            bytes_field(8, #[trigger] counter_payload(unit, is_incremental)),
                            child_ordering,
                            sibling_order_rank,
                            opt_view(description),
                        ),
                    )
                }),
    {
        let unit = CounterTrackUnit::from_string(unit_name);
        let uuid = self.synthetto.new_counter(
            name,
            unit,
            is_incremental,
            parent_uuid,
            description,
            child_ordering,
            sibling_order_rank,
            &mut self.encode_buffer,
        );
        uuid
    }

    fn stack_len(&self, t: u64) -> (r: usize)
        ensures
            r == stack_of(self@, t).len(),
    {
        match self.tracks.get(&t) {
            Some(v) => v.len(),
            None => 0,
        }
    }

    fn top_matches(&self, t: u64, name: &Option<String>, flows: &Vec<u64>) -> (r: bool)
        requires
            stack_of(self@, t).len() > 0,
        ensures
            r == (stack_of(self@, t).last() == slice_key(opt_view(*name), flows@)),
    {
        match self.tracks.get(&t) {
            Some(v) => {
                let n = v.len();
                v[n - 1].matches(name, flows)
            },
            None => false,
        }
    }

    fn push_slice(&mut self, t: u64, s: TrackSlice)
        ensures
            final(self)@ == with_stack(old(self)@, t, stack_of(old(self)@, t).push(s@)),
            final(self).output() == old(self).output(),
    {
        let ghost s_view = s@;
        let mut v = match self.tracks.remove(&t) {
            Some(v) => v,
            None => Vec::new(),
        };
        let ghost before = v@;
        assert(before.map_values(|x: TrackSlice| x@) =~= stack_of(old(self)@, t));
        v.push(s);
        assert(v@.map_values(|x: TrackSlice| x@) =~= before.map_values(|x: TrackSlice| x@).push(s_view));
        self.tracks.insert(t, v);
        assert(self@.stacks =~= old(self)@.stacks.insert(t, stack_of(old(self)@, t).push(s_view)));
    }

    fn pop_slice(&mut self, t: u64)
        requires
            stack_of(old(self)@, t).len() > 0,
        ensures
            final(self)@ == with_stack(old(self)@, t, stack_of(old(self)@, t).drop_last()),
            final(self).output() == old(self).output(),
    {
        match self.tracks.remove(&t) {
            Some(v) => {
                let mut v = v;
                let ghost before = v@;
                v.pop();
                assert(v@.map_values(|x: TrackSlice| x@) =~= before.map_values(|x: TrackSlice| x@).drop_last());
                self.tracks.insert(t, v);
                assert(self@.stacks =~= old(self)@.stacks.insert(t, stack_of(old(self)@, t).drop_last()));
            },
            None => {},
        }
    }

    /// Ends the innermost open slice of a track. With nothing open, this emits
    /// nothing unless `force` is set, and then emits the end without popping.
    pub fn slice_end_evt(
        &mut self,
        track_uuid: u64,
        ts: u64,
        flows: Vec<u64>,
        flows_end: Vec<u64>,
        force: bool,
        correlation_id: Option<u64>,
    )
        ensures
            final(self)@ == end_step(old(self)@, track_uuid, ts, flows@, flows_end@, force, correlation_id).0,
            final(self).output() == old(self).output() + emitted_all(
                end_step(old(self)@, track_uuid, ts, flows@, flows_end@, force, correlation_id).1,
            ),
    {
        let n = self.stack_len(track_uuid);
        let ghost e = Emitted::End { track: track_uuid, ts, flows: flows@, flows_end: flows_end@, correlation_id };
        if n == 0 && !force {
            assert(old(self).output() + emitted_all(Seq::empty()) =~= old(self).output());
            return;
        }
        put_track_event(
            &mut self.encode_buffer,
            TYPE_SLICE_END,
            track_uuid,
            ts,
            None,
            None,
            &flows,
            &flows_end,
            correlation_id,
        );
        if n > 0 {
            self.pop_slice(track_uuid);
        }
        proof {
            lemma_emitted_one(e);
        }
    }

    /// Opens a slice on a track, following the replacement behaviour.
    pub fn slice_begin_evt(
        &mut self,
        track_uuid: u64,
        ts: u64,
        name: Option<String>,
        flows: Vec<u64>,
        flows_end: Vec<u64>,
        replace_behaviour: ReplacementBehaviour,
        correlation_id: Option<u64>,
    )
        ensures
            final(self)@ == begin_step(
                old(self)@,
                track_uuid,
                ts,
                opt_view(name),
                flows@,
                flows_end@,
                replace_behaviour,
                correlation_id,
            ).0,
            final(self).output() == old(self).output() + emitted_all(
                begin_step(
                    old(self)@,
                    track_uuid,
                    ts,
                    opt_view(name),
                    flows@,
                    flows_end@,
                    replace_behaviour,
                    correlation_id,
                ).1,
            ),
    {
        let n = self.stack_len(track_uuid);
        let ghost begin = Emitted::Begin {
            track: track_uuid,
            ts,
            name: opt_view(name),
            flows: flows@,
            flows_end: flows_end@,
            correlation_id,
        };
        let ghost key = slice_key(opt_view(name), flows@);
        if n > 0 && replace_behaviour == ReplacementBehaviour::ReplaceIfDifferent {
            if self.top_matches(track_uuid, &name, &flows) {
                assert(old(self).output() + emitted_all(Seq::empty()) =~= old(self).output());
                return;
            }
        }
        let ended = n > 0 && replace_behaviour != ReplacementBehaviour::NewSlice;
        if ended {
            let no_flows: Vec<u64> = Vec::new();
            let no_flows_end: Vec<u64> = Vec::new();
            assert(no_flows@ =~= Seq::<u64>::empty());
            assert(no_flows_end@ =~= Seq::<u64>::empty());
            self.slice_end_evt(track_uuid, ts, no_flows, no_flows_end, true, None);
            proof {
                lemma_emitted_one(forced_end(track_uuid, ts));
            }
        }
        let ghost mid = self@;
        let ghost out_mid = self.output();
        put_track_event(
            &mut self.encode_buffer,
            TYPE_SLICE_BEGIN,
            track_uuid,
            ts,
            crate::synthetto::as_opt_str(&name),
            None,
            &flows,
            &flows_end,
            correlation_id,
        );
        let ghost out_end = self.output();
        self.push_slice(track_uuid, TrackSlice::new(name, flows));
        proof {
            lemma_emitted_one(begin);
            if ended {
                lemma_emitted_two(forced_end(track_uuid, ts), begin);
                assert(stack_of(mid, track_uuid) == stack_of(old(self)@, track_uuid).drop_last());
                assert(self@.stacks =~= old(self)@.stacks.insert(
                    track_uuid,
                    stack_of(old(self)@, track_uuid).drop_last().push(key),
                ));
            }
        }
    }

    /// Emits an instant event; the slice stacks are untouched.
    pub fn instant_evt(
        &mut self,
        track_uuid: u64,
        ts: u64,
        name: Option<String>,
        flows: Vec<u64>,
        flows_end: Vec<u64>,
        correlation_id: Option<u64>,
    )
        ensures
            final(self)@ == old(self)@,
            final(self).output() == old(self).output() + emitted_bytes(
                (Emitted::Instant {
                    track: track_uuid,
                    ts,
                    name: opt_view(name),
                    flows: flows@,
                    flows_end: flows_end@,
                    correlation_id,
                }),
            ),
    {
        put_track_event(
            &mut self.encode_buffer,
            TYPE_INSTANT,
            track_uuid,
            ts,
            crate::synthetto::as_opt_str(&name),
            None,
            &flows,
            &flows_end,
            correlation_id,
        );
    }

    /// Emits a counter value. With `compress`, a value equal to the track's
    /// last compressed value emits nothing, and an emitted value is stored.
    pub fn counter_evt(&mut self, track_uuid: u64, ts: u64, value: CounterValue, compress: bool)
        ensures
            final(self)@ == counter_step(old(self)@, track_uuid, ts, value, compress).0,
            final(self).output() == old(self).output() + emitted_all(
                counter_step(old(self)@, track_uuid, ts, value, compress).1,
            ),
    {
        if compress {
            match self.counters.get(&track_uuid) {
                Some(last) => {
                    if *last == value {
                        assert(old(self).output() + emitted_all(Seq::empty()) =~= old(self).output());
                        return;
                    }
                },
                None => {},
            }
        }
        let empty: Vec<u64> = Vec::new();
        put_track_event(
            &mut self.encode_buffer,
            TYPE_COUNTER,
            track_uuid,
            ts,
            None,
            Some(value),
            &empty,
            &empty,
            None,
        );
        if compress {
            self.counters.insert(track_uuid, value);
            assert(self@.stacks == old(self)@.stacks);
            assert(self@ == counter_step(old(self)@, track_uuid, ts, value, compress).0);
        }
        proof {
            lemma_emitted_one(Emitted::Counter { track: track_uuid, ts, value });
        }
    }
}

proof fn lemma_emitted_one(e: Emitted)
    ensures
        emitted_all(seq![e]) == emitted_bytes(e),
{
    assert(seq![e].drop_last() =~= Seq::<Emitted>::empty());
    assert(seq![e].last() == e);
    assert(emitted_all(Seq::<Emitted>::empty()) == Seq::<u8>::empty());
    assert(Seq::<u8>::empty() + emitted_bytes(e) =~= emitted_bytes(e));
}

proof fn lemma_emitted_two(a: Emitted, b: Emitted)
    ensures
        emitted_all(seq![a, b]) == emitted_bytes(a) + emitted_bytes(b),
{
    assert(seq![a, b].drop_last() =~= seq![a]);
    lemma_emitted_one(a);
}

/// The number of slice-begin events.
pub open spec fn count_begins(es: Seq<Emitted>) -> nat
    decreases es.len(),
{
    if es.len() == 0 {
        0
    } else {
        count_begins(es.drop_last()) + if es.last() is Begin {
            1nat
        } else {
            0nat
        }
    }
}

/// The number of slice-end events.
pub open spec fn count_ends(es: Seq<Emitted>) -> nat
    decreases es.len(),
{
    if es.len() == 0 {
        0
    } else {
        count_ends(es.drop_last()) + if es.last() is End {
            1nat
        } else {
            0nat
        }
    }
}

proof fn lemma_counts_concat(a: Seq<Emitted>, b: Seq<Emitted>)
    ensures
        count_begins(a + b) == count_begins(a) + count_begins(b),
        count_ends(a + b) == count_ends(a) + count_ends(b),
    decreases b.len(),
{
    if b.len() == 0 {
        assert(a + b =~= a);
    } else {
        lemma_counts_concat(a, b.drop_last());
        assert((a + b).drop_last() =~= a + b.drop_last());
        assert((a + b).last() == b.last());
    }
}

proof fn lemma_counts_small(x: Emitted, y: Emitted)
    ensures
        count_begins(Seq::<Emitted>::empty()) == 0,
        count_ends(Seq::<Emitted>::empty()) == 0,
        count_begins(seq![x]) == (if x is Begin { 1nat } else { 0nat }),
        count_ends(seq![x]) == (if x is End { 1nat } else { 0nat }),
        count_begins(seq![x, y]) == (if x is Begin { 1nat } else { 0nat }) + (if y is Begin { 1nat } else { 0nat }),
        count_ends(seq![x, y]) == (if x is End { 1nat } else { 0nat }) + (if y is End { 1nat } else { 0nat }),
{
    assert(seq![x].drop_last() =~= Seq::<Emitted>::empty());
    assert(seq![x].last() == x);
    assert(count_begins(seq![x]) == count_begins(Seq::<Emitted>::empty()) + (if x is Begin { 1nat } else { 0nat }));
    assert(count_ends(seq![x]) == count_ends(Seq::<Emitted>::empty()) + (if x is End { 1nat } else { 0nat }));
    assert(seq![x, y].drop_last() =~= seq![x]);
    assert(seq![x, y].last() == y);
    assert(count_begins(seq![x, y]) == count_begins(seq![x]) + (if y is Begin { 1nat } else { 0nat }));
    assert(count_ends(seq![x, y]) == count_ends(seq![x]) + (if y is End { 1nat } else { 0nat }));
}

/// One operation on the slices of a track. Ends are never forced.
pub enum SliceOp {
    Begin {
        ts: u64,
        name: Option<Seq<char>>,
        flows: Seq<u64>,
        flows_end: Seq<u64>,
        behaviour: ReplacementBehaviour,
        correlation_id: Option<u64>,
    },
    End { ts: u64, flows: Seq<u64>, flows_end: Seq<u64>, correlation_id: Option<u64> },
}

/// One operation on track `t`.
pub open spec fn slice_op_step(st: EncoderState, t: u64, op: SliceOp) -> (EncoderState, Seq<Emitted>) {
    match op {
        SliceOp::Begin { ts, name, flows, flows_end, behaviour, correlation_id } => begin_step(
            st,
            t,
            ts,
            name,
            flows,
            flows_end,
            behaviour,
            correlation_id,
        ),
        SliceOp::End { ts, flows, flows_end, correlation_id } => end_step(
            st,
            t,
            ts,
            flows,
            flows_end,
            false,
            correlation_id,
        ),
    }
}

/// A sequence of operations on track `t`: the last state and all events.
pub open spec fn run_slice_ops(st: EncoderState, t: u64, ops: Seq<SliceOp>) -> (EncoderState, Seq<Emitted>)
    decreases ops.len(),
{
    if ops.len() == 0 {
        (st, Seq::empty())
    } else {
        let prev = run_slice_ops(st, t, ops.drop_last());
        let last = slice_op_step(prev.0, t, ops.last());
        (last.0, prev.1 + last.1)
    }
}

/// Slices nest: over any sequence of begins and unforced ends on one track,
/// the ends emitted plus the slices left open equal the begins emitted plus
/// the slices open at the start. From an empty stack, ends never outnumber
/// begins, after every prefix of the sequence.
pub proof fn law_slices_balance(st: EncoderState, t: u64, ops: Seq<SliceOp>)
    ensures
        ({
            let r = run_slice_ops(st, t, ops);
            count_ends(r.1) + stack_of(r.0, t).len() == count_begins(r.1) + stack_of(st, t).len()
        }),
        stack_of(st, t).len() == 0 ==> count_ends(run_slice_ops(st, t, ops).1) <= count_begins(
            run_slice_ops(st, t, ops).1,
        ),
    decreases ops.len(),
{
    let e = Emitted::End { track: t, ts: 0, flows: Seq::empty(), flows_end: Seq::empty(), correlation_id: None };
    lemma_counts_small(e, e);
    if ops.len() > 0 {
        law_slices_balance(st, t, ops.drop_last());
        let prev = run_slice_ops(st, t, ops.drop_last());
        let last = slice_op_step(prev.0, t, ops.last());
        lemma_counts_concat(prev.1, last.1);
        let stack = stack_of(prev.0, t);
        match ops.last() {
            SliceOp::Begin { ts, name, flows, flows_end, behaviour, correlation_id } => {
                let begin = Emitted::Begin { track: t, ts, name, flows, flows_end, correlation_id };
                let key = slice_key(name, flows);
                lemma_counts_small(forced_end(t, ts), begin);
                lemma_counts_small(begin, begin);
                if behaviour == ReplacementBehaviour::ReplaceIfDifferent && stack.len() > 0
                    && stack.last() == key {
                    assert(last.1.len() == 0);
                    assert(last.1 =~= Seq::<Emitted>::empty());
                } else if behaviour != ReplacementBehaviour::NewSlice && stack.len() > 0 {
                    assert(stack_of(last.0, t) == stack.drop_last().push(key));
                    assert(last.1 == seq![forced_end(t, ts), begin]);
                } else {
                    assert(stack_of(last.0, t) == stack.push(key));
                    assert(last.1 == seq![begin]);
                }
            },
            SliceOp::End { ts, flows, flows_end, correlation_id } => {
                let end = Emitted::End { track: t, ts, flows, flows_end, correlation_id };
                lemma_counts_small(end, end);
                if stack.len() == 0 {
                    assert(last.1 =~= Seq::<Emitted>::empty());
                } else {
                    assert(stack_of(last.0, t) == stack.drop_last());
                    assert(last.1 == seq![end]);
                }
            },
        }
        assert(run_slice_ops(st, t, ops) == (last.0, prev.1 + last.1));
    }
}

/// An unforced end closes the innermost open slice: a begin followed by an
/// end leaves the track's stack as it was.
pub proof fn law_end_closes_last_begin(
    st: EncoderState,
    t: u64,
    ts1: u64,
    ts2: u64,
    name: Option<Seq<char>>,
    flows: Seq<u64>,
    flows_end: Seq<u64>,
    correlation_id: Option<u64>,
)
    ensures
        ({
            let r1 = begin_step(
                st,
                t,
                ts1,
                name,
                flows,
                flows_end,
                ReplacementBehaviour::NewSlice,
                correlation_id,
            );
            let r2 = end_step(r1.0, t, ts2, Seq::empty(), Seq::empty(), false, None);
            &&& stack_of(r1.0, t) == stack_of(st, t).push(slice_key(name, flows))
            &&& stack_of(r2.0, t) == stack_of(st, t)
            &&& r2.1.len() == 1
        }),
{
    let r1 = begin_step(st, t, ts1, name, flows, flows_end, ReplacementBehaviour::NewSlice, correlation_id);
    assert(stack_of(r1.0, t).drop_last() =~= stack_of(st, t));
}

/// A begin under `ReplaceIfDifferent` that repeats the open slice's name and
/// flow set emits nothing and changes nothing; one that differs in either
/// ends the open slice and begins the new one. Two such calls with the same
/// name and flow set emit one begin in all, unless the first was already a
/// repeat.
pub proof fn law_replace_if_different(
    st: EncoderState,
    t: u64,
    ts1: u64,
    ts2: u64,
    name1: Option<Seq<char>>,
    name2: Option<Seq<char>>,
    flows1: Seq<u64>,
    flows2: Seq<u64>,
    flows_end1: Seq<u64>,
    flows_end2: Seq<u64>,
    correlation_id1: Option<u64>,
    correlation_id2: Option<u64>,
)
    ensures
        ({
            let b = ReplacementBehaviour::ReplaceIfDifferent;
            let r1 = begin_step(st, t, ts1, name1, flows1, flows_end1, b, correlation_id1);
            let r2 = begin_step(r1.0, t, ts2, name2, flows2, flows_end2, b, correlation_id2);
            let same = name1 == name2 && flows1.to_set() == flows2.to_set();
            let repeat = stack_of(st, t).len() > 0 && stack_of(st, t).last() == slice_key(name1, flows1);
            &&& same ==> r2.0 == r1.0 && r2.1.len() == 0
            &&& same && !repeat ==> count_begins(r1.1 + r2.1) == 1 && count_ends(r2.1) == 0
            &&& !same ==> r2.1 == seq![
                forced_end(t, ts2),
                (Emitted::Begin {
                    track: t,
                    ts: ts2,
                    name: name2,
                    flows: flows2,
                    flows_end: flows_end2,
                    correlation_id: correlation_id2,
                }),
            ]
        }),
{
    let b = ReplacementBehaviour::ReplaceIfDifferent;
    let r1 = begin_step(st, t, ts1, name1, flows1, flows_end1, b, correlation_id1);
    let r2 = begin_step(r1.0, t, ts2, name2, flows2, flows_end2, b, correlation_id2);
    let k1 = slice_key(name1, flows1);
    let k2 = slice_key(name2, flows2);
    let repeat = stack_of(st, t).len() > 0 && stack_of(st, t).last() == k1;
    if !repeat {
        assert(stack_of(r1.0, t).last() == k1);
    }
    assert(stack_of(r1.0, t).last() == k1);
    if k1 == k2 {
        assert(name1 == name2);
    }
    let begin1 = Emitted::Begin {
        track: t,
        ts: ts1,
        name: name1,
        flows: flows1,
        flows_end: flows_end1,
        correlation_id: correlation_id1,
    };
    lemma_counts_small(forced_end(t, ts1), begin1);
    lemma_counts_small(begin1, begin1);
    lemma_counts_concat(r1.1, r2.1);
    let same = name1 == name2 && flows1.to_set() == flows2.to_set();
    if same {
        assert(k1 == k2);
        assert(r2.1 =~= Seq::<Emitted>::empty());
        if !repeat {
            if stack_of(st, t).len() > 0 {
                assert(r1.1 == seq![forced_end(t, ts1), begin1]);
            } else {
                assert(r1.1 == seq![begin1]);
            }
        }
    } else {
        assert(k1 != k2) by {
            if name1 == name2 {
                assert(k1.flows != k2.flows);
            }
        }
    }
}

/// Counter compression: with `compress`, a value equal to the one just
/// emitted on the track emits nothing, and any other value emits one record.
/// Without `compress`, every call emits one record.
pub proof fn law_counter_compression(
    st: EncoderState,
    t: u64,
    ts1: u64,
    ts2: u64,
    v1: CounterValue,
    v2: CounterValue,
)
    ensures
        ({
            let r1 = counter_step(st, t, ts1, v1, true);
            let r2 = counter_step(r1.0, t, ts2, v2, true);
            let fresh = !(st.counters.contains_key(t) && st.counters[t] == v1);
            &&& v1 == v2 ==> r2.1.len() == 0 && r2.0 == r1.0
            &&& v1 != v2 ==> r2.1 == seq![Emitted::Counter { track: t, ts: ts2, value: v2 }]
            &&& fresh ==> r1.1.len() == 1
            &&& fresh && v1 == v2 ==> r1.1.len() + r2.1.len() == 1
        }),
        counter_step(st, t, ts1, v1, false).1 == seq![Emitted::Counter { track: t, ts: ts1, value: v1 }],
{
}

} // verus!
