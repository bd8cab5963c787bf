//! The two resolvers: addresses to inlined call chains, and instruction words
//! to instruction text. Each is generic over the service that does the
//! lookup proper.

use vstd::prelude::*;

use crate::annotate::Annotater;
use crate::numeric::{literal_value, string_to_u128, string_to_u64};
use crate::placeholder::Placeholder;
use crate::resolve::{
    annotation_text, file_name_fits, file_name_of, frame_spec, func_str, function_spec,
    instr_spec, instruction_text, location_spec, location_text, opt_str, opt_string,
    push_char, trim_location, trimmed_file, value_suffix, SourceLocation,
};
use crate::synthetto::{as_opt_str, opt_view};

verus! {

/// One frame of an inlined call chain, as a debug-info lookup reports it.
#[derive(Debug, Clone, PartialEq, Eq)]
pub struct FrameInfo {
    pub location: Option<SourceLocation>,
    pub function: Option<String>,
    pub language: Option<u16>,
}

/// A debug-info lookup service.
pub trait DebugInfo {
    /// The frames of the call chain at `addr`, innermost first; `None` if the
    /// lookup failed.
    fn find_frames(&mut self, addr: u64) -> Option<Vec<FrameInfo>>;

    /// The linker symbol that covers `addr`.
    fn find_symbol(&mut self, addr: u64) -> Option<String>;
}

/// The text of one frame: its location (with the file as given) and its
/// function, where `symbol`, if given, stands for the function's name.
pub open spec fn frame_part(f: FrameInfo, symbol: Option<Seq<char>>, demangle: bool) -> Seq<char> {
    frame_spec(
        match f.location {
            Some(l) => Some(location_spec(opt_view(l.file), l.line, l.column)),
            None => None,
        },
        match symbol {
            Some(x) => Some(function_spec(Some(x), None, demangle)),
            None => match f.function {
                Some(n) => Some(function_spec(Some(n@), f.language, demangle)),
                None => None,
            },
        },
    )
}

/// The text of frame `i`: the symbol stands for the outermost frame's name.
pub open spec fn part_at(frames: Seq<FrameInfo>, symbol: Option<Seq<char>>, demangle: bool, i: int) -> Seq<char> {
    frame_part(frames[i], if i == frames.len() - 1 { symbol } else { None }, demangle)
}

/// The texts of the first `k` frames, joined by `->`.
pub open spec fn join_parts(frames: Seq<FrameInfo>, symbol: Option<Seq<char>>, demangle: bool, k: int) -> Seq<char>
    decreases k,
{
    if k <= 0 {
        Seq::empty()
    } else if k == 1 {
        part_at(frames, symbol, demangle, 0)
    } else {
        join_parts(frames, symbol, demangle, k - 1) + seq!['-', '>'] + part_at(
            frames,
            symbol,
            demangle,
            k - 1,
        )
    }
}

/// How many frames are shown: all, or only the innermost without inlining.
pub open spec fn shown(n: int, do_inlines: bool) -> int {
    if do_inlines || n == 0 {
        n
    } else {
        1
    }
}

/// The call chain as text: `?` for no frames.
pub open spec fn rendered(frames: Seq<FrameInfo>, symbol: Option<Seq<char>>, demangle: bool, do_inlines: bool) -> Seq<char> {
    let k = shown(frames.len() as int, do_inlines);
    if k == 0 {
        seq!['?']
    } else {
        join_parts(frames, symbol, demangle, k)
    }
}

/// What a lookup may give, whatever the debug information holds: the error
/// marker, or the rendering of some frames and symbol.
pub open spec fn chain_outcome(chain: Seq<char>, demangle: bool, do_inlines: bool) -> bool {
    ||| chain == "a2l err"@
    ||| exists|frames: Seq<FrameInfo>, symbol: Option<Seq<char>>|
        chain == #[trigger] rendered(frames, symbol, demangle, do_inlines)
}

/// What the address resolver gives for a placeholder value.
pub open spec fn address_outcome(value: Seq<char>, demangle: bool, do_inlines: bool, r: Option<String>) -> bool {
    match literal_value(value) {
        Some(a) => if a <= u64::MAX {
            r matches Some(t) && exists|chain: Seq<char>|
                #[trigger] chain_outcome(chain, demangle, do_inlines) && t@ == chain + value_suffix(a)
        } else {
            r is None
        },
        None => r is None,
    }
}

/// Renders the call chain reported by a lookup: each frame's location and
/// function, innermost first, joined by `->`, with the symbol naming the
/// outermost frame; only the innermost frame without inlining; `?` for none.
pub fn render_frames(
    frames: &Vec<FrameInfo>,
    symbol: Option<&str>,
    demangle: bool,
    do_inlines: bool,
) -> (r: String)
    ensures
        r@ == rendered(frames@, opt_str(symbol), demangle, do_inlines),
{
    let n = frames.len();
    let k = if do_inlines || n == 0 {
        n
    } else {
        1
    };
    let mut s = String::new();
    if k == 0 {
        push_char(&mut s, '?');
        assert(s@ =~= seq!['?']);
        return s;
    }
    let ghost sym = opt_str(symbol);
    let mut i: usize = 0;
    while i < k
        invariant
            n == frames@.len(),
            k == shown(n as int, do_inlines),
            0 < k <= n,
            i <= k,
            sym == opt_str(symbol),
            s@ == join_parts(frames@, sym, demangle, i as int),
        decreases k - i,
    {
        let ghost before = s@;
        if i > 0 {
            push_char(&mut s, '-');
            push_char(&mut s, '>');
        }
        let ghost mid = s@;
        let f = &frames[i];
        let location = match &f.location {
            Some(l) => Some(location_text(as_opt_str(&l.file), l.line, l.column)),
            None => None,
        };
        let function = if i + 1 == n && symbol.is_some() {
            Some(func_str(symbol, None, demangle))
        } else {
            match &f.function {
                Some(name) => Some(func_str(Some(name.as_str()), f.language, demangle)),
                None => None,
            }
        };
        match (&location, &function) {
            (None, None) => push_char(&mut s, '?'),
            (None, Some(x)) => s.append(x.as_str()),
            (Some(l), None) => s.append(l.as_str()),
            (Some(l), Some(x)) => {
                s.append(l.as_str());
                push_char(&mut s, ':');
                s.append(x.as_str());
            },
        }
        proof {
            let part = part_at(frames@, sym, demangle, i as int);
            assert(s@ =~= mid + part);
            if i == 0 {
                assert(mid =~= Seq::<char>::empty());
                assert(s@ =~= part);
            } else {
                assert(s@ =~= before + seq!['-', '>'] + part);
            }
        }
        i = i + 1;
    }
    s
}

/// Frame `t` is frame `f` with its file trimmed as `path_file_name` allows:
/// its line, column, function and language kept.
pub open spec fn trimmed_frame(f: FrameInfo, t: FrameInfo) -> bool {
    &&& t.function == f.function
    &&& t.language == f.language
    &&& match (f.location, t.location) {
        (None, None) => true,
        (Some(a), Some(b)) => {
            &&& b.line == a.line
            &&& b.column == a.column
            &&& exists|name: Option<Seq<char>>|
                {
                    &&& a.file matches Some(p) ==> file_name_fits(p@, name)
                    &&& opt_string(b.file) == #[trigger] trimmed_file(opt_string(a.file), name)
                }
        },
        _ => false,
    }
}

/// The text of a lookup's result: `a2l err` where the lookup failed, else the
/// frames, each file trimmed to its last component, rendered by
/// `render_frames` with `symbol` naming the outermost frame.
pub fn chain_text(
    lookup: Option<Vec<FrameInfo>>,
    symbol: Option<&str>,
    demangle: bool,
    do_inlines: bool,
) -> (r: String)
    ensures
        lookup is None ==> r@ == "a2l err"@,
        lookup matches Some(fs) ==> exists|ts: Seq<FrameInfo>|
            {
                &&& ts.len() == fs@.len()
                &&& forall|i: int| 0 <= i < ts.len() ==> trimmed_frame(fs@[i], #[trigger] ts[i])
                &&& r@ == #[trigger] rendered(ts, opt_str(symbol), demangle, do_inlines)
            },
{
    let frames = match lookup {
        Some(f) => f,
        None => {
            return String::from_str("a2l err");
        },
    };
    let n = frames.len();
    let mut trimmed: Vec<FrameInfo> = Vec::new();
    let mut i: usize = 0;
    while i < n
        invariant
            n == frames@.len(),
            i <= n,
            trimmed@.len() == i,
            forall|j: int| 0 <= j < i ==> trimmed_frame(frames@[j], #[trigger] trimmed@[j]),
        decreases n - i,
    {
        let f = &frames[i];
        let location = match &f.location {
            Some(l) => {
                let name = file_name_of(l);
                let t = trim_location(l, name);
                proof {
                    let nm = opt_string(name);
                    assert(opt_string(t.file) == trimmed_file(opt_string(l.file), nm));
                }
                Some(t)
            },
            None => None,
        };
        let function = match &f.function {
            Some(name) => Some(name.clone()),
            None => None,
        };
        let t = FrameInfo { location, function, language: f.language };
        assert(trimmed_frame(*f, t));
        trimmed.push(t);
        i = i + 1;
    }
    let r = render_frames(&trimmed, symbol, demangle, do_inlines);
    assert(r@ == rendered(trimmed@, opt_str(symbol), demangle, do_inlines));
    r
}

/// Resolves `$a2l:<address>` placeholders to the inlined call chain at the
/// address.
pub struct Addr2LineAnnotator<D> {
    ctx: D,
    demangle: bool,
    do_inlines: bool,
    /// The call chains rendered so far.
    chains: Ghost<Seq<Seq<char>>>,
}

impl<D: DebugInfo> Addr2LineAnnotator<D> {
    /// A resolver over a loaded debug-info source; names are demangled and
    /// inlined frames are shown.
    pub fn new(ctx: D) -> (r: Self)
        ensures
            r.demangles(),
            r.shows_inlines(),
    {
        Addr2LineAnnotator { ctx, demangle: true, do_inlines: true, chains: Ghost(Seq::empty()) }
    }

    pub closed spec fn demangles(&self) -> bool {
        self.demangle
    }

    pub closed spec fn shows_inlines(&self) -> bool {
        self.do_inlines
    }

    /// The call chains that `frames_str` has rendered, in order.
    pub closed spec fn chains(&self) -> Seq<Seq<char>> {
        self.chains@
    }

    /// The call chain at `addr` as text, as `chain_text` makes it from the
    /// lookup's frames and the linker symbol at `addr`.
    pub fn frames_str(&mut self, addr: u64) -> (r: String)
        ensures
            final(self).demangles() == old(self).demangles(),
            final(self).shows_inlines() == old(self).shows_inlines(),
            chain_outcome(r@, old(self).demangles(), old(self).shows_inlines()),
            final(self).chains() == old(self).chains().push(r@),
    {
        let lookup = self.ctx.find_frames(addr);
        let symbol = match &lookup {
            Some(fs) => if fs.len() > 0 {
                self.ctx.find_symbol(addr)
            } else {
                None
            },
            None => None,
        };
        let r = chain_text(lookup, as_opt_str(&symbol), self.demangle, self.do_inlines);
        self.chains = Ghost(self.chains@.push(r@));
        r
    }

    /// Resolves a numeric address: declines (`None`) where the value is not a
    /// numeric literal that fits in 64 bits, else gives the call chain and the
    /// address.
    pub fn annotate_value(&mut self, value: &str) -> (r: Option<String>)
        ensures
            final(self).demangles() == old(self).demangles(),
            final(self).shows_inlines() == old(self).shows_inlines(),
            address_outcome(value@, old(self).demangles(), old(self).shows_inlines(), r),
            r is None ==> final(self).chains() == old(self).chains(),
            r matches Some(t) ==> final(self).chains().len() == old(self).chains().len() + 1
                && final(self).chains().drop_last() == old(self).chains()
                && t@ == final(self).chains().last() + value_suffix(literal_value(value@)->0),
    {
        match string_to_u64(value) {
            Err(_) => None,
            Ok(addr) => {
                let chain = self.frames_str(addr);
                let t = annotation_text(chain.as_str(), addr as u128);
                assert(chain_outcome(chain@, old(self).demangles(), old(self).shows_inlines()));
                assert(self.chains().drop_last() =~= old(self).chains());
                Some(t)
            },
        }
    }
}

impl<D: DebugInfo> Annotater for Addr2LineAnnotator<D> {
    fn accepts_keys(&self) -> Vec<String> {
        let mut v: Vec<String> = Vec::new();
        v.push(String::from_str("a2l"));
        v
    }

    fn annotate(&mut self, placeholder: &Placeholder) -> (r: Result<Option<String>, String>)
        ensures
            r matches Ok(x) && address_outcome(
                placeholder.value@,
                old(self).demangles(),
                old(self).shows_inlines(),
                x,
            ),
            r matches Ok(Some(t)) ==> t@ == final(self).chains().last() + value_suffix(
                literal_value(placeholder.value@)->0,
            ),
    {
        Ok(self.annotate_value(placeholder.value.as_str()))
    }
}

/// An instruction-decoding service for one instruction set.
pub trait InstructionDecoder {
    /// The text of the instruction encoded by the low `bits` bits of `value`,
    /// or `None` if it matches no known encoding.
    fn decode(&self, value: u128, bits: usize) -> Option<String>;
}

/// A decoder with the instruction width it decodes.
pub struct Disassembler<X> {
    decoder: X,
    instr_len: usize,
    /// The values handed to the decoder so far.
    decoded: Ghost<Seq<u128>>,
}

impl<X: InstructionDecoder> Disassembler<X> {
    pub fn new(decoder: X, instr_len: usize) -> (r: Self)
        ensures
            r.width() == instr_len,
            r.decoded() == Seq::<u128>::empty(),
    {
        Disassembler { decoder, instr_len, decoded: Ghost(Seq::empty()) }
    }

    pub closed spec fn width(&self) -> usize {
        self.instr_len
    }

    /// The values this disassembler's decoder has been given, in order.
    pub closed spec fn decoded(&self) -> Seq<u128> {
        self.decoded@
    }

    /// The decoded text of `value`, `?` where it decodes to nothing, then the
    /// value. The value goes to this disassembler's decoder.
    pub fn describe(&mut self, value: u128) -> (r: String)
        ensures
            exists|d: Option<Seq<char>>| r@ == #[trigger] instr_spec(d, value as nat),
            final(self).decoded() == old(self).decoded().push(value),
            final(self).width() == old(self).width(),
    {
        let decoded = self.decoder.decode(value, self.instr_len);
        self.decoded = Ghost(self.decoded@.push(value));
        let r = instruction_text(as_opt_str(&decoded), value);
        assert(r@ == instr_spec(opt_view(decoded), value as nat));
        r
    }
}

/// What the instruction resolver gives for a placeholder: for one of its two
/// kinds and a numeric literal that fits in 128 bits, the decoded text or `?`
/// and the value; else it declines.
pub open spec fn instruction_outcome(kind: Seq<char>, value: Seq<char>, r: Option<String>) -> bool {
    if kind == "da-rv32"@ || kind == "da-rv64"@ {
        match literal_value(value) {
            Some(v) => if v <= u128::MAX {
                r matches Some(t) && exists|d: Option<Seq<char>>| t@ == #[trigger] instr_spec(d, v)
            } else {
                r is None
            },
            None => r is None,
        }
    } else {
        r is None
    }
}

/// Resolves `$da-rv32:<word>` and `$da-rv64:<word>` placeholders to
/// instruction text.
pub struct DisasmAnnotater<X> {
    rv32: Disassembler<X>,
    rv64: Disassembler<X>,
}

impl<X: InstructionDecoder> DisasmAnnotater<X> {
    pub fn new(rv32: Disassembler<X>, rv64: Disassembler<X>) -> (r: Self)
        ensures
            r.rv32_width() == rv32.width(),
            r.rv64_width() == rv64.width(),
    {
        DisasmAnnotater { rv32, rv64 }
    }

    pub closed spec fn rv32_width(&self) -> usize {
        self.rv32.width()
    }

    pub closed spec fn rv64_width(&self) -> usize {
        self.rv64.width()
    }

    /// The values handed to the 32-bit decoder so far.
    pub closed spec fn rv32_decoded(&self) -> Seq<u128> {
        self.rv32.decoded()
    }

    /// The values handed to the 64-bit decoder so far.
    pub closed spec fn rv64_decoded(&self) -> Seq<u128> {
        self.rv64.decoded()
    }

    /// Resolves a placeholder of one of the two kinds, `da-rv32` through the
    /// 32-bit decoder and `da-rv64` through the 64-bit one; declines where the
    /// value is not a numeric literal that fits in 128 bits or the kind is
    /// neither.
    pub fn annotate_value(&mut self, kind: &str, value: &str) -> (r: Option<String>)
        ensures
            instruction_outcome(kind@, value@, r),
            final(self).rv32_width() == old(self).rv32_width(),
            final(self).rv64_width() == old(self).rv64_width(),
            r matches Some(_) && kind@ == "da-rv32"@ ==> final(self).rv32_decoded() == old(
                self,
            ).rv32_decoded().push(literal_value(value@)->0 as u128) && final(self).rv64_decoded()
                == old(self).rv64_decoded(),
            r matches Some(_) && kind@ != "da-rv32"@ ==> final(self).rv64_decoded() == old(
                self,
            ).rv64_decoded().push(literal_value(value@)->0 as u128) && final(self).rv32_decoded()
                == old(self).rv32_decoded(),
            r is None ==> final(self).rv32_decoded() == old(self).rv32_decoded()
                && final(self).rv64_decoded() == old(self).rv64_decoded(),
    {
        let k = String::from_str(kind);
        let rv32 = k == String::from_str("da-rv32");
        if !rv32 && !(k == String::from_str("da-rv64")) {
            return None;
        }
        match string_to_u128(value) {
            Err(_) => None,
            Ok(v) => if rv32 {
                Some(self.rv32.describe(v))
            } else {
                Some(self.rv64.describe(v))
            },
        }
    }
}

impl<X: InstructionDecoder> Annotater for DisasmAnnotater<X> {
    fn accepts_keys(&self) -> Vec<String> {
        let mut v: Vec<String> = Vec::new();
        v.push(String::from_str("da-rv32"));
        v.push(String::from_str("da-rv64"));
        v
    }

    fn annotate(&mut self, placeholder: &Placeholder) -> (r: Result<Option<String>, String>)
        ensures
            r matches Ok(x) && instruction_outcome(placeholder.kind@, placeholder.value@, x),
            r matches Ok(Some(_)) && placeholder.kind@ == "da-rv32"@ ==> final(self).rv32_decoded()
                == old(self).rv32_decoded().push(literal_value(placeholder.value@)->0 as u128),
            r matches Ok(Some(_)) && placeholder.kind@ != "da-rv32"@ ==> final(self).rv64_decoded()
                == old(self).rv64_decoded().push(literal_value(placeholder.value@)->0 as u128),
    {
        Ok(self.annotate_value(placeholder.kind.as_str(), placeholder.value.as_str()))
    }
}

} // verus!
