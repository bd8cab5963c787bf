use cspect::annotate::{annotate_string, Annotater, Registry};
use cspect::placeholder::Placeholder;
use cspect::resolve::{
    annotation_text, decimal, func_str, instruction_text, location_text, source_loc_str,
    SourceLocation,
};
use cspect::resolve::trim_location;
use cspect::resolvers::{
    chain_text, render_frames, Addr2LineAnnotator, DebugInfo, DisasmAnnotater, Disassembler, FrameInfo,
    InstructionDecoder,
};

struct FakeDebugInfo {
    fail: bool,
}

impl DebugInfo for FakeDebugInfo {
    fn find_frames(&mut self, addr: u64) -> Option<Vec<FrameInfo>> {
        if self.fail {
            return None;
        }
        if addr == 0 {
            return Some(vec![]);
        }
        Some(vec![
            FrameInfo {
                location: Some(SourceLocation {
                    file: Some("/src/lib/inner.c".to_string()),
                    line: Some(12),
                    column: Some(3),
                }),
                function: Some("inner".to_string()),
                language: None,
            },
            FrameInfo {
                location: Some(SourceLocation { file: Some("outer.c".to_string()), line: Some(40), column: None }),
                function: Some("outer_dbg".to_string()),
                language: None,
            },
        ])
    }

    fn find_symbol(&mut self, _addr: u64) -> Option<String> {
        Some("outer.cold".to_string())
    }
}

struct TableDecoder;

impl InstructionDecoder for TableDecoder {
    fn decode(&self, value: u128, bits: usize) -> Option<String> {
        if value == 0x13 && bits == 32 {
            Some("nop".to_string())
        } else {
            None
        }
    }
}

#[test]
fn hex_suffix_is_padded_to_eight_digits() {
    assert_eq!(annotation_text("x", 0x1000), "x (0x00001000)");
    assert_eq!(annotation_text("", 0), " (0x00000000)");
    assert_eq!(annotation_text("y", 0x1_2345_6789_abcd), "y (0x123456789abcd)");
}

#[test]
fn decimal_digits() {
    assert_eq!(decimal(0), "0");
    assert_eq!(decimal(1234567890), "1234567890");
}

#[test]
fn instruction_text_known_and_unknown() {
    assert_eq!(instruction_text(Some("addi a0, a0, 1"), 0x00150513), "addi a0, a0, 1 (0x00150513)");
    assert_eq!(instruction_text(None, 0xffff), "? (0x0000ffff)");
}

#[test]
fn locations() {
    assert_eq!(location_text(None, Some(1), None), "?");
    assert_eq!(location_text(Some("a.c"), None, Some(3)), "a.c");
    assert_eq!(location_text(Some("a.c"), Some(7), None), "a.c:7");
    assert_eq!(location_text(Some("a.c"), Some(7), Some(9)), "a.c:7:9");
    let loc = Some(SourceLocation { file: Some("/x/y/z.rs".to_string()), line: Some(5), column: None });
    assert_eq!(source_loc_str(&loc), "z.rs:5");
    assert_eq!(source_loc_str(&None), "?");
}

#[test]
fn function_names() {
    assert_eq!(func_str(None, None, true), "?");
    assert_eq!(func_str(Some("plain_c_name"), None, true), "plain_c_name");
    assert_eq!(func_str(Some("_ZN3foo3barE"), None, false), "_ZN3foo3barE");
    assert_eq!(func_str(Some("_ZN3foo3barE"), None, true), "foo::bar");
}

fn frame(file: Option<&str>, line: Option<u32>, function: Option<&str>) -> FrameInfo {
    FrameInfo {
        location: file.map(|f| SourceLocation { file: Some(f.to_string()), line, column: None }),
        function: function.map(|f| f.to_string()),
        language: None,
    }
}

#[test]
fn frame_chains() {
    assert_eq!(render_frames(&vec![], Some("sym"), true, true), "?");
    let frames = vec![
        frame(Some("a.c"), Some(1), Some("f")),
        frame(None, None, Some("g")),
        frame(Some("b.c"), None, None),
        frame(None, None, None),
    ];
    assert_eq!(render_frames(&frames, None, false, true), "a.c:1:f->g->b.c->?");
    assert_eq!(render_frames(&frames, Some("outer"), false, true), "a.c:1:f->g->b.c->outer");
    assert_eq!(render_frames(&frames, Some("outer"), false, false), "a.c:1:f");
    assert_eq!(render_frames(&frames[..1].to_vec(), Some("outer"), false, false), "a.c:1:outer");
}

#[test]
fn address_resolver() {
    let mut a = Addr2LineAnnotator::new(FakeDebugInfo { fail: false });
    assert_eq!(a.accepts_keys(), vec!["a2l".to_string()]);
    assert_eq!(
        a.annotate_value("0x10"),
        Some("inner.c:12:3:inner->outer.c:40:outer.cold (0x00000010)".to_string())
    );
    assert_eq!(a.annotate_value("0"), Some("? (0x00000000)".to_string()));
    assert_eq!(a.annotate_value("zz"), None);
    let mut broken = Addr2LineAnnotator::new(FakeDebugInfo { fail: true });
    assert_eq!(broken.annotate_value("16"), Some("a2l err (0x00000010)".to_string()));
}

#[test]
fn address_resolver_through_registry() {
    let mut reg = Registry::new();
    reg.register(Addr2LineAnnotator::new(FakeDebugInfo { fail: false }));
    let mut s = "at $a2l:0b10000 and $a2l:bad".to_string();
    assert!(annotate_string(&mut s, &mut reg));
    assert_eq!(s, "at inner.c:12:3:inner->outer.c:40:outer.cold (0x00000010) and bad");
}

#[test]
fn instruction_resolver() {
    let mut d = DisasmAnnotater::new(Disassembler::new(TableDecoder, 32), Disassembler::new(TableDecoder, 64));
    assert_eq!(d.accepts_keys(), vec!["da-rv32".to_string(), "da-rv64".to_string()]);
    let p = Placeholder { kind: "da-rv32".to_string(), value: "0x13".to_string() };
    assert_eq!(d.annotate(&p).unwrap(), Some("nop (0x00000013)".to_string()));
    let p = Placeholder { kind: "da-rv64".to_string(), value: "0x13".to_string() };
    assert_eq!(d.annotate(&p).unwrap(), Some("? (0x00000013)".to_string()));
    let p = Placeholder { kind: "da-rv32".to_string(), value: "0xZZ".to_string() };
    assert_eq!(d.annotate(&p).unwrap(), None);
}

#[test]
fn failed_lookup_gives_error_marker() {
    assert_eq!(chain_text(None, Some("sym"), true, true), "a2l err");
    let frames = vec![frame(Some("/a/b/c.c"), Some(3), Some("g"))];
    assert_eq!(chain_text(Some(frames), None, false, true), "c.c:3:g");
}

#[test]
fn location_trimming_keeps_line_and_column() {
    let l = SourceLocation { file: Some("/x/y.c".to_string()), line: Some(1), column: Some(2) };
    let t = trim_location(&l, Some("y.c".to_string()));
    assert_eq!(t, SourceLocation { file: Some("y.c".to_string()), line: Some(1), column: Some(2) });
    let t = trim_location(&l, None);
    assert_eq!(t, l);
}

struct NamedDecoder(&'static str);

impl InstructionDecoder for NamedDecoder {
    fn decode(&self, _value: u128, _bits: usize) -> Option<String> {
        Some(self.0.to_string())
    }
}

#[test]
fn each_kind_uses_its_own_decoder() {
    let mut d = DisasmAnnotater::new(
        Disassembler::new(NamedDecoder("from32"), 32),
        Disassembler::new(NamedDecoder("from64"), 32),
    );
    assert_eq!(d.annotate_value("da-rv32", "1"), Some("from32 (0x00000001)".to_string()));
    assert_eq!(d.annotate_value("da-rv64", "1"), Some("from64 (0x00000001)".to_string()));
    assert_eq!(d.annotate_value("da-rv16", "1"), None);
}
