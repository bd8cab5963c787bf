use cspect::annotate::{annotate_string, Annotater, Registry};
use cspect::encoder::{Context, ReplacementBehaviour};
use cspect::framing::{read_frame, split_fields, FrameError};
use cspect::numeric::string_to_u64;
use cspect::pipeline::{annotate_records, rewrite_message, AnnotateError, MessageKind};
use cspect::placeholder::Placeholder;
use cspect::resolve::annotation_text;

struct Upper;

impl Annotater for Upper {
    fn accepts_keys(&self) -> Vec<String> {
        vec!["cap".to_string()]
    }

    fn annotate(&mut self, p: &Placeholder) -> Result<Option<String>, String> {
        Ok(Some(p.value.to_uppercase()))
    }
}

/// Maps one address to a fixed location, as a debug-info lookup would.
struct FixedAddress;

impl Annotater for FixedAddress {
    fn accepts_keys(&self) -> Vec<String> {
        vec!["addr".to_string()]
    }

    fn annotate(&mut self, p: &Placeholder) -> Result<Option<String>, String> {
        match string_to_u64(&p.value) {
            Ok(0x1000) => Ok(Some(annotation_text("main.c:42", 0x1000))),
            Ok(a) => Ok(Some(annotation_text("?", a as u128))),
            Err(_) => Ok(None),
        }
    }
}

fn sample_trace() -> Vec<u8> {
    let mut ctx = Context::new();
    let p = ctx.new_process(
        7,
        Some("proc $cap:x".to_string()),
        vec!["--flag".to_string(), "$cap:arg".to_string()],
        None,
        Some("plain".to_string()),
        None,
        None,
    );
    let t = ctx.new_thread(7, 8, "thread $none:y".to_string(), None, None, None);
    let tr = ctx.new_track("track $cap:name".to_string(), Some(p), Some("d $cap:e".to_string()), None, None);
    ctx.slice_begin_evt(tr, 10, Some("slice $cap:s".to_string()), vec![3], vec![], ReplacementBehaviour::NewSlice, Some(5));
    ctx.slice_end_evt(tr, 20, vec![], vec![], false, None);
    ctx.counter_evt(t, 30, cspect::synthetto::CounterValue::Int(1), false);
    ctx.take_output()
}

fn frames(s: &[u8]) -> Vec<Vec<u8>> {
    let mut v = Vec::new();
    let mut pos = 0;
    while let Some((_, e)) = read_frame(s, pos).unwrap() {
        v.push(s[pos..e].to_vec());
        pos = e;
    }
    v
}

fn contains(hay: &[u8], needle: &str) -> bool {
    hay.windows(needle.len()).any(|w| w == needle.as_bytes())
}

#[test]
fn fault_address_is_resolved() {
    let mut reg: Registry<FixedAddress> = Registry::new();
    reg.register(FixedAddress);
    let mut s = "fault at $addr:0x1000".to_string();
    assert!(annotate_string(&mut s, &mut reg));
    assert_eq!(s, "fault at main.c:42 (0x00001000)");
}

#[test]
fn fault_address_without_resolver_is_unchanged() {
    let mut reg: Registry<FixedAddress> = Registry::new();
    let mut s = "fault at $addr:0x1000".to_string();
    assert!(!annotate_string(&mut s, &mut reg));
    assert_eq!(s, "fault at $addr:0x1000");
}

#[test]
fn trace_without_known_kinds_is_byte_identical() {
    let input = sample_trace();
    let mut reg: Registry<FixedAddress> = Registry::new();
    reg.register(FixedAddress);
    let out = annotate_records(&input, &mut reg).unwrap();
    assert_eq!(out, input);
}

#[test]
fn trace_rewrites_only_touched_records() {
    let input = sample_trace();
    let mut reg: Registry<Upper> = Registry::new();
    reg.register(Upper);
    let out = annotate_records(&input, &mut reg).unwrap();
    let fin = frames(&input);
    let fout = frames(&out);
    assert_eq!(fin.len(), fout.len());
    // process descriptor: name and an argument rewritten
    assert!(contains(&fout[0], "proc X"));
    assert!(contains(&fout[0], "ARG"));
    assert!(contains(&fout[0], "--flag"));
    assert!(contains(&fout[0], "plain"));
    // thread descriptor: unknown kind only, echoed
    assert_eq!(fin[1], fout[1]);
    // track descriptor: name and description
    assert!(contains(&fout[2], "track NAME"));
    assert!(contains(&fout[2], "d E"));
    // slice begin: name rewritten, other fields kept
    assert!(contains(&fout[3], "slice S"));
    assert_eq!(fout[3].len(), fin[3].len() - "$cap:".len());
    // slice end and counter: untouched
    assert_eq!(fin[4], fout[4]);
    assert_eq!(fin[5], fout[5]);
    // the rewritten payloads still split into the same number of fields
    for (a, b) in fin.iter().zip(fout.iter()) {
        let (pa, ea) = read_frame(a, 0).unwrap().unwrap();
        let (pb, eb) = read_frame(b, 0).unwrap().unwrap();
        assert_eq!(
            split_fields(&a[pa..ea]).unwrap().len(),
            split_fields(&b[pb..eb]).unwrap().len()
        );
    }
}

#[test]
fn unknown_fields_survive_a_rewrite() {
    // a track event with an unknown varint field (99), the name, and an unknown fixed32 (98)
    let mut evt = Vec::new();
    prost::encoding::uint64::encode(99, &12345, &mut evt);
    prost::encoding::string::encode(23, &"n $cap:v".to_string(), &mut evt);
    prost::encoding::fixed32::encode(98, &7, &mut evt);
    let mut pkt = Vec::new();
    prost::encoding::bytes::encode(11, &evt, &mut pkt);
    let mut reg: Registry<Upper> = Registry::new();
    reg.register(Upper);
    let out = rewrite_message(&pkt, MessageKind::Packet, &mut reg).unwrap().unwrap();
    let mut evt2 = Vec::new();
    prost::encoding::uint64::encode(99, &12345, &mut evt2);
    prost::encoding::string::encode(23, &"n V".to_string(), &mut evt2);
    prost::encoding::fixed32::encode(98, &7, &mut evt2);
    let mut expected = Vec::new();
    prost::encoding::bytes::encode(11, &evt2, &mut expected);
    assert_eq!(out, expected);
}

#[test]
fn empty_input_gives_empty_output() {
    let mut reg: Registry<Upper> = Registry::new();
    assert_eq!(annotate_records(&[], &mut reg).unwrap(), Vec::<u8>::new());
}

#[test]
fn framing_errors() {
    assert_eq!(read_frame(&[0x0B, 1, 0], 0), Err(FrameError::BadTag(0x0B)));
    assert_eq!(read_frame(&[0x0A, 0], 0), Err(FrameError::ZeroLength));
    assert_eq!(read_frame(&[0x0A, 0x80], 0), Err(FrameError::TruncatedLength));
    assert_eq!(read_frame(&[0x0A, 3, 1], 0), Err(FrameError::TruncatedPayload));
    let mut long = vec![0x0A];
    long.extend(std::iter::repeat(0x80).take(19));
    long.push(1);
    assert_eq!(read_frame(&long, 0), Err(FrameError::UnterminatedLength));
    let mut big = vec![0x0A];
    big.extend(std::iter::repeat(0xFF).take(12));
    big.push(1);
    assert_eq!(read_frame(&big, 0), Err(FrameError::LengthTooLarge));
    assert_eq!(read_frame(&[0x0A, 1, 9], 0), Ok(Some((2, 3))));
    assert_eq!(read_frame(&[0x0A, 1, 9], 3), Ok(None));
}

#[test]
fn malformed_traces_are_reported() {
    let mut reg: Registry<Upper> = Registry::new();
    assert_eq!(
        annotate_records(&[0x0A, 2, 0x08, 0x01, 0x0C], &mut reg),
        Err(AnnotateError::Frame(FrameError::BadTag(0x0C)))
    );
    // payload 0x0F: key with wire type 7
    assert_eq!(annotate_records(&[0x0A, 1, 0x0F], &mut reg), Err(AnnotateError::MalformedRecord));
    // track event whose name is not UTF-8
    let mut evt = Vec::new();
    prost::encoding::bytes::encode(23, &vec![0xFFu8, 0xFE], &mut evt);
    let mut pkt = Vec::new();
    prost::encoding::bytes::encode(11, &evt, &mut pkt);
    let mut rec = vec![0x0A, pkt.len() as u8];
    rec.extend(pkt);
    assert_eq!(annotate_records(&rec, &mut reg), Err(AnnotateError::InvalidText));
}
