use cspect::encoder::{Context, ReplacementBehaviour};
use cspect::framing::{read_frame, read_varint, split_fields};
use cspect::synthetto::{
    float_counter_evt, instant_evt, int_counter_evt, slice_begin_evt, slice_end_evt, ChildOrder,
    CounterTrackUnit, CounterValue, Synthetto,
};
use cspect::wire::{put_fixed64, put_varint};
use prost::encoding::{bytes, double, encode_length_delimiter, fixed64, int32, int64, string, uint32, uint64};

fn framed(pkt: Vec<u8>) -> Vec<u8> {
    let mut out = vec![0x0A];
    encode_length_delimiter(pkt.len(), &mut out).unwrap();
    out.extend(pkt);
    out
}

fn event_packet(ts: u64, evt: Vec<u8>) -> Vec<u8> {
    let mut pkt = Vec::new();
    uint64::encode(8, &ts, &mut pkt);
    uint32::encode(10, &0xDEAD_BEEF, &mut pkt);
    bytes::encode(11, &evt, &mut pkt);
    framed(pkt)
}

fn descriptor_packet(desc: Vec<u8>) -> Vec<u8> {
    let mut pkt = Vec::new();
    uint32::encode(10, &0xDEAD_BEEF, &mut pkt);
    bytes::encode(60, &desc, &mut pkt);
    framed(pkt)
}

/// The records of a stream: (track-event type or 0 for a descriptor, track uuid or descriptor uuid).
fn records(stream: &[u8]) -> Vec<(u64, u64)> {
    let mut out = Vec::new();
    let mut pos = 0usize;
    while let Some((b, e)) = read_frame(stream, pos).unwrap() {
        let payload = &stream[b..e];
        for f in split_fields(payload).unwrap() {
            let body = &payload[f.body..f.end];
            if f.key == (11 << 3) | 2 {
                let mut ty = 0;
                let mut track = 0;
                for g in split_fields(body).unwrap() {
                    if g.key == 9 << 3 {
                        ty = read_varint(body, g.body, 10).unwrap().0;
                    }
                    if g.key == 11 << 3 {
                        track = read_varint(body, g.body, 10).unwrap().0;
                    }
                }
                out.push((ty, track));
            } else if f.key == (60 << 3) | 2 {
                let mut uuid = 0;
                for g in split_fields(body).unwrap() {
                    if g.key == 1 << 3 {
                        uuid = read_varint(body, g.body, 10).unwrap().0;
                    }
                }
                out.push((0, uuid));
            }
        }
        pos = e;
    }
    out
}

fn count(stream: &[u8], ty: u64) -> usize {
    records(stream).iter().filter(|r| r.0 == ty).count()
}

#[test]
fn varint_matches_prost() {
    for v in [0u64, 1, 127, 128, 300, 16_383, 16_384, 0xDEAD_BEEF, u64::MAX] {
        let mut ours = Vec::new();
        put_varint(&mut ours, v);
        let mut theirs = Vec::new();
        prost::encoding::encode_varint(v, &mut theirs);
        assert_eq!(ours, theirs, "value {v}");
    }
}

#[test]
fn fixed64_is_little_endian() {
    let mut out = Vec::new();
    put_fixed64(&mut out, 0x0102_0304_0506_0708);
    assert_eq!(out, vec![8, 7, 6, 5, 4, 3, 2, 1]);
}

#[test]
fn uuids_start_at_one_and_increase() {
    let mut s = Synthetto::new();
    assert_eq!(s.new_flow(), 1);
    assert_eq!(s.new_flow(), 2);
    let mut buf = Vec::new();
    assert_eq!(s.new_track("t".to_string(), None, None, None, None, &mut buf), 3);
}

#[test]
fn track_descriptor_bytes() {
    let mut s = Synthetto::new();
    let mut buf = Vec::new();
    let uuid = s.new_track(
        "cpu0".to_string(),
        Some(7),
        Some("desc".to_string()),
        Some(ChildOrder::Explicit),
        Some(-2),
        &mut buf,
    );
    let mut desc = Vec::new();
    uint64::encode(1, &uuid, &mut desc);
    string::encode(2, &"cpu0".to_string(), &mut desc);
    uint64::encode(5, &7, &mut desc);
    int32::encode(11, &3, &mut desc);
    int32::encode(12, &-2, &mut desc);
    string::encode(14, &"desc".to_string(), &mut desc);
    assert_eq!(buf, descriptor_packet(desc));
}

#[test]
fn process_thread_and_counter_descriptor_bytes() {
    let mut s = Synthetto::new();
    let mut buf = Vec::new();
    let p = s.new_process(
        42,
        Some("sim".to_string()),
        vec!["a".to_string(), "b".to_string()],
        Some(-1),
        None,
        None,
        None,
        &mut buf,
    );
    let mut proc_ = Vec::new();
    int32::encode(1, &42, &mut proc_);
    string::encode(2, &"a".to_string(), &mut proc_);
    string::encode(2, &"b".to_string(), &mut proc_);
    int32::encode(5, &-1, &mut proc_);
    string::encode(6, &"sim".to_string(), &mut proc_);
    let mut desc = Vec::new();
    uint64::encode(1, &p, &mut desc);
    bytes::encode(3, &proc_, &mut desc);
    let mut expected = descriptor_packet(desc);

    let t = s.new_thread(42, 43, "main".to_string(), None, Some(ChildOrder::Lexicographic), None, &mut buf);
    let mut th = Vec::new();
    int32::encode(1, &42, &mut th);
    int32::encode(2, &43, &mut th);
    string::encode(5, &"main".to_string(), &mut th);
    let mut desc = Vec::new();
    uint64::encode(1, &t, &mut desc);
    bytes::encode(4, &th, &mut desc);
    int32::encode(11, &1, &mut desc);
    expected.extend(descriptor_packet(desc));

    let c = s.new_counter(
        "mem".to_string(),
        CounterTrackUnit::Custom("pages".to_string()),
        true,
        Some(p),
        None,
        None,
        None,
        &mut buf,
    );
    let mut cd = Vec::new();
    int32::encode(3, &0, &mut cd);
    prost::encoding::bool::encode(5, &true, &mut cd);
    string::encode(6, &"pages".to_string(), &mut cd);
    let mut desc = Vec::new();
    uint64::encode(1, &c, &mut desc);
    string::encode(2, &"mem".to_string(), &mut desc);
    uint64::encode(5, &p, &mut desc);
    bytes::encode(8, &cd, &mut desc);
    expected.extend(descriptor_packet(desc));

    assert_eq!((p, t, c), (1, 2, 3));
    assert_eq!(buf, expected);
}

#[test]
fn event_bytes() {
    let mut buf = Vec::new();
    slice_begin_evt(5, 1000, Some("work".to_string()), vec![9, 10], vec![11], Some(77), &mut buf);
    slice_end_evt(5, 2000, vec![], vec![12], None, &mut buf);
    instant_evt(5, 1500, None, vec![], vec![], None, &mut buf);
    int_counter_evt(6, 3000, -5, &mut buf);
    float_counter_evt(6, 4000, 2.5f64.to_bits(), &mut buf);

    let mut expected = Vec::new();
    let mut e = Vec::new();
    int32::encode(9, &1, &mut e);
    uint64::encode(11, &5, &mut e);
    string::encode(23, &"work".to_string(), &mut e);
    fixed64::encode(47, &9, &mut e);
    fixed64::encode(47, &10, &mut e);
    fixed64::encode(48, &11, &mut e);
    uint64::encode(52, &77, &mut e);
    expected.extend(event_packet(1000, e));
    let mut e = Vec::new();
    int32::encode(9, &2, &mut e);
    uint64::encode(11, &5, &mut e);
    fixed64::encode(48, &12, &mut e);
    expected.extend(event_packet(2000, e));
    let mut e = Vec::new();
    int32::encode(9, &3, &mut e);
    uint64::encode(11, &5, &mut e);
    expected.extend(event_packet(1500, e));
    let mut e = Vec::new();
    int32::encode(9, &4, &mut e);
    uint64::encode(11, &6, &mut e);
    int64::encode(30, &-5, &mut e);
    expected.extend(event_packet(3000, e));
    let mut e = Vec::new();
    int32::encode(9, &4, &mut e);
    uint64::encode(11, &6, &mut e);
    double::encode(44, &2.5, &mut e);
    expected.extend(event_packet(4000, e));
    assert_eq!(buf, expected);
}

#[test]
fn counter_unit_from_name() {
    assert_eq!(CounterTrackUnit::from_string(None), CounterTrackUnit::Unspecified);
    assert_eq!(CounterTrackUnit::from_string(Some(String::new())), CounterTrackUnit::Unspecified);
    assert_eq!(CounterTrackUnit::from_string(Some("TimeNs".to_string())), CounterTrackUnit::TimeNs);
    assert_eq!(CounterTrackUnit::from_string(Some("Count".to_string())), CounterTrackUnit::Count);
    assert_eq!(CounterTrackUnit::from_string(Some("SizeBytes".to_string())), CounterTrackUnit::SizeBytes);
    assert_eq!(
        CounterTrackUnit::from_string(Some("furlongs".to_string())),
        CounterTrackUnit::Custom("furlongs".to_string())
    );
    assert_eq!(ChildOrder::Chronological.to_proto_enum(), 2);
}

#[test]
fn end_to_end_replace_if_different_is_a_no_op() {
    let mut ctx = Context::new();
    let t = ctx.new_track("cpu0".to_string(), None, None, None, None);
    assert_eq!(t, 1);
    ctx.slice_begin_evt(t, 0, Some("work".to_string()), vec![], vec![], ReplacementBehaviour::NewSlice, None);
    ctx.slice_begin_evt(t, 1, Some("work".to_string()), vec![], vec![], ReplacementBehaviour::ReplaceIfDifferent, None);
    let out = ctx.take_output();
    assert_eq!(records(&out), vec![(0, 1), (1, 1)]);
    assert!(ctx.take_output().is_empty());
}

#[test]
fn replace_if_different_same_flow_set_in_other_order() {
    let mut ctx = Context::new();
    let t = ctx.new_track("t".to_string(), None, None, None, None);
    ctx.slice_begin_evt(t, 0, Some("a".to_string()), vec![3, 1, 1], vec![], ReplacementBehaviour::ReplaceIfDifferent, None);
    ctx.slice_begin_evt(t, 1, Some("a".to_string()), vec![1, 3], vec![9], ReplacementBehaviour::ReplaceIfDifferent, Some(4));
    let out = ctx.take_output();
    assert_eq!(count(&out, 1), 1);
    assert_eq!(count(&out, 2), 0);
}

#[test]
fn replace_if_different_new_name_or_flow_ends_first() {
    let mut ctx = Context::new();
    let t = ctx.new_track("t".to_string(), None, None, None, None);
    ctx.slice_begin_evt(t, 0, Some("a".to_string()), vec![1], vec![], ReplacementBehaviour::ReplaceIfDifferent, None);
    ctx.slice_begin_evt(t, 1, Some("b".to_string()), vec![1], vec![], ReplacementBehaviour::ReplaceIfDifferent, None);
    ctx.slice_begin_evt(t, 2, Some("b".to_string()), vec![2], vec![], ReplacementBehaviour::ReplaceIfDifferent, None);
    let out = ctx.take_output();
    assert_eq!(records(&out), vec![(0, t), (1, t), (2, t), (1, t), (2, t), (1, t)]);
}

#[test]
fn replace_ends_open_slice_and_new_slice_nests() {
    let mut ctx = Context::new();
    let t = ctx.new_track("t".to_string(), None, None, None, None);
    ctx.slice_begin_evt(t, 0, None, vec![], vec![], ReplacementBehaviour::Replace, None);
    ctx.slice_begin_evt(t, 1, None, vec![], vec![], ReplacementBehaviour::Replace, None);
    ctx.slice_begin_evt(t, 2, None, vec![], vec![], ReplacementBehaviour::NewSlice, None);
    let out = ctx.take_output();
    assert_eq!(records(&out), vec![(0, t), (1, t), (2, t), (1, t), (1, t)]);
}

#[test]
fn slice_end_on_empty_track_is_silent_unless_forced() {
    let mut ctx = Context::new();
    ctx.slice_end_evt(9, 0, vec![], vec![], false, None);
    assert!(ctx.take_output().is_empty());
    ctx.slice_end_evt(9, 0, vec![], vec![], true, None);
    assert_eq!(records(&ctx.take_output()), vec![(2, 9)]);
}

#[test]
fn randomized_nesting_never_ends_more_than_begins() {
    let mut seed: u64 = 0x1234_5678;
    for _round in 0..50 {
        let mut ctx = Context::new();
        let t = ctx.new_track("t".to_string(), None, None, None, None);
        let mut depth: i64 = 0;
        let mut begins = 0usize;
        let mut ends = 0usize;
        for step in 0..200u64 {
            seed = seed.wrapping_mul(6364136223846793005).wrapping_add(1442695040888963407);
            let r = seed >> 33;
            if r % 2 == 0 {
                let behaviour = match (r >> 1) % 3 {
                    0 => ReplacementBehaviour::NewSlice,
                    1 => ReplacementBehaviour::Replace,
                    _ => ReplacementBehaviour::ReplaceIfDifferent,
                };
                let name = format!("s{}", (r >> 3) % 3);
                ctx.slice_begin_evt(t, step, Some(name), vec![(r >> 5) % 2], vec![], behaviour, None);
            } else {
                ctx.slice_end_evt(t, step, vec![], vec![], false, None);
            }
            let out = ctx.take_output();
            begins += count(&out, 1);
            ends += count(&out, 2);
            depth = begins as i64 - ends as i64;
            assert!(ends <= begins);
        }
        assert!(depth >= 0);
    }
}

#[test]
fn counter_compression() {
    let mut ctx = Context::new();
    let c = ctx.new_track("c".to_string(), None, None, None, None);
    ctx.take_output();
    ctx.counter_evt(c, 0, CounterValue::Int(5), true);
    ctx.counter_evt(c, 1, CounterValue::Int(5), true);
    assert_eq!(count(&ctx.take_output(), 4), 1);
    ctx.counter_evt(c, 2, CounterValue::Int(6), true);
    assert_eq!(count(&ctx.take_output(), 4), 1);
    let x = 1.0f64;
    let next = f64::from_bits(x.to_bits() + 1);
    ctx.counter_evt(c, 3, CounterValue::Float(x.to_bits()), true);
    ctx.counter_evt(c, 4, CounterValue::Float(next.to_bits()), true);
    ctx.counter_evt(c, 5, CounterValue::Float(next.to_bits()), true);
    assert_eq!(count(&ctx.take_output(), 4), 2);
    ctx.counter_evt(c, 6, CounterValue::Int(7), false);
    ctx.counter_evt(c, 7, CounterValue::Int(7), false);
    assert_eq!(count(&ctx.take_output(), 4), 2);
}

#[test]
fn flows_and_counters_share_the_identifier_space() {
    let mut ctx = Context::new();
    assert_eq!(ctx.next_uuid(), 1);
    let f = ctx.new_flow();
    let p = ctx.new_process(1, None, vec![], None, None, None, None);
    let th = ctx.new_thread(1, 2, "w".to_string(), None, None, None);
    let c = ctx.new_counter("n".to_string(), Some("Count".to_string()), false, None, None, None, None);
    assert_eq!((f, p, th, c), (1, 2, 3, 4));
    assert_eq!(records(&ctx.take_output()), vec![(0, 2), (0, 3), (0, 4)]);
    ctx.instant_evt(p, 5, Some("i".to_string()), vec![f], vec![], Some(1));
    assert_eq!(records(&ctx.take_output()), vec![(3, 2)]);
}
