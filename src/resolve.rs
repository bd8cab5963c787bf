//! The text that the two resolvers produce: source locations and function
//! names of an inlined call chain, instruction text, and the hexadecimal
//! rendering of the resolved value that follows either.

use vstd::prelude::*;

verus! {

/// Relies on `String::push`: the character is appended.
#[verifier::external_body]
pub(crate) fn push_char(s: &mut String, c: char)
    ensures
        final(s)@ == old(s)@.push(c),
{
    s.push(c)
}

/// What `addr2line::demangle_auto` makes of a symbol name in a language:
/// the demangled name, or the name itself where demangling does not apply.
pub uninterp spec fn demangled(name: Seq<char>, language: Option<u16>) -> Seq<char>;

/// Relies on `addr2line::demangle_auto`, whose result depends on the name
/// and the language alone.
#[verifier::external_body]
fn demangle_name(name: &str, language: Option<u16>) -> (r: String)
    ensures
        r@ == demangled(name@, language),
{
    addr2line::demangle_auto(std::borrow::Cow::from(name), language.map(addr2line::gimli::DwLang))
        .into_owned()
}

/// Relies on `Path::file_name`: the last component of a path, if it has one.
/// A component is a non-empty part of the path.
#[verifier::external_body]
fn path_file_name(path: &str) -> (r: Option<String>)
    ensures
        r matches Some(n) ==> n@.len() > 0 && exists|i: int|
            0 <= i && i + n@.len() <= path@.len() && #[trigger] path@.subrange(i, i + n@.len())
                == n@,
{
    std::path::Path::new(path).file_name().map(|x| x.to_string_lossy().into_owned())
}

/// The lowercase hexadecimal digit of `d`.
pub open spec fn hex_char(d: nat) -> char {
    if d < 10 {
        ((d + 48) as u8) as char
    } else {
        ((d + 87) as u8) as char
    }
}

/// The digits of `v` in base `radix` (10 or 16), most significant first, with
/// no leading zeros; `0` is one digit.
pub open spec fn digits(v: nat, radix: nat) -> Seq<char>
    decreases v
        via digits_decreases
{
    if radix < 2 || v < radix {
        seq![hex_char(v)]
    } else {
        digits(v / radix, radix).push(hex_char(v % radix))
    }
}

#[via_fn]
proof fn digits_decreases(v: nat, radix: nat) {
    if radix >= 2 && v >= radix {
        assert(v / radix < v) by (nonlinear_arith)
            requires
                radix >= 2,
                v >= radix,
        ;
    }
}

/// `n` zero characters.
pub open spec fn zeros(n: int) -> Seq<char>
    decreases n,
{
    if n <= 0 {
        Seq::empty()
    } else {
        zeros(n - 1).push('0')
    }
}

/// The hexadecimal digits of `v`, padded with zeros to at least eight.
pub open spec fn hex8(v: nat) -> Seq<char> {
    zeros(8 - digits(v, 16).len()) + digits(v, 16)
}

/// The suffix that follows resolved text: ` (0x` + eight or more hex digits + `)`.
pub open spec fn value_suffix(v: nat) -> Seq<char> {
    seq![' ', '(', '0', 'x'] + hex8(v) + seq![')']
}

fn digit_char(d: u128) -> (c: char)
    requires
        d < 16,
    ensures
        c == hex_char(d as nat),
{
    if d < 10 {
        ((d + 48) as u8) as char
    } else {
        ((d + 87) as u8) as char
    }
}

/// Appends the digits of `v` in base `radix`.
fn push_digits(s: &mut String, v: u128, radix: u128)
    requires
        radix == 10 || radix == 16,
    ensures
        final(s)@ == old(s)@ + digits(v as nat, radix as nat),
    decreases v,
{
    if v < radix {
        push_char(s, digit_char(v));
        assert(final(s)@ =~= old(s)@ + digits(v as nat, radix as nat));
    } else {
        push_digits(s, v / radix, radix);
        push_char(s, digit_char(v % radix));
        assert(final(s)@ =~= old(s)@ + digits(v as nat, radix as nat));
    }
}

/// The decimal digits of `v`.
pub fn decimal(v: u128) -> (r: String)
    ensures
        r@ == digits(v as nat, 10),
{
    let mut s = String::new();
    push_digits(&mut s, v, 10);
    assert(s@ =~= digits(v as nat, 10));
    s
}

/// Appends ` (0x` + the hex digits of `v`, padded to eight, + `)`.
pub fn push_value_suffix(s: &mut String, v: u128)
    ensures
        final(s)@ == old(s)@ + value_suffix(v as nat),
{
    push_char(s, ' ');
    push_char(s, '(');
    push_char(s, '0');
    push_char(s, 'x');
    let mut hex = String::new();
    push_digits(&mut hex, v, 16);
    let n = hex.as_str().unicode_len();
    let mut k: usize = n;
    let ghost start = s@;
    assert(zeros(0) =~= Seq::<char>::empty());
    while k < 8
        invariant
            n == digits(v as nat, 16).len(),
            n <= k <= 8 || (n > 8 && k == n),
            s@ == start + zeros(k - n),
        decreases 8 - k,
    {
        push_char(s, '0');
        k = k + 1;
        assert(s@ =~= start + zeros(k - n));
    }
    assert(zeros(k - n) == zeros(8 - n)) by {
        if n > 8 {
            assert(zeros(k - n) =~= Seq::<char>::empty());
            assert(zeros(8 - n) =~= Seq::<char>::empty());
        }
    }
    s.append(hex.as_str());
    push_char(s, ')');
    assert(final(s)@ =~= old(s)@ + value_suffix(v as nat));
}

/// The instruction resolver's text: the decoded instruction, or `?` where the
/// value matches no encoding, then the value.
pub open spec fn instr_spec(decoded: Option<Seq<char>>, v: nat) -> Seq<char> {
    let text = match decoded {
        Some(t) => t,
        None => seq!['?'],
    };
    text + value_suffix(v)
}

/// A resolver's text followed by the value it resolved: `text (0x0000beef)`.
pub fn annotation_text(text: &str, v: u128) -> (r: String)
    ensures
        r@ == text@ + value_suffix(v as nat),
{
    let mut s = text.to_owned();
    push_value_suffix(&mut s, v);
    s
}

/// What the instruction resolver writes: the decoded instruction, or `?`
/// where the value matches no encoding, then the value.
pub fn instruction_text(decoded: Option<&str>, v: u128) -> (r: String)
    ensures
        r@ == instr_spec(opt_str(decoded), v as nat),
{
    let mut s = String::new();
    match decoded {
        Some(t) => s.append(t),
        None => push_char(&mut s, '?'),
    }
    push_value_suffix(&mut s, v);
    assert(s@ =~= instr_spec(opt_str(decoded), v as nat));
    s
}

/// A source location: `file`, `file:line` or `file:line:column`; `?` without
/// a file.
pub open spec fn location_spec(file: Option<Seq<char>>, line: Option<u32>, column: Option<u32>) -> Seq<char> {
    match (file, line, column) {
        (None, _, _) => seq!['?'],
        (Some(f), None, _) => f,
        (Some(f), Some(l), None) => f + seq![':'] + digits(l as nat, 10),
        (Some(f), Some(l), Some(c)) => f + seq![':'] + digits(l as nat, 10) + seq![':'] + digits(
            c as nat,
            10,
        ),
    }
}

pub open spec fn opt_str(o: Option<&str>) -> Option<Seq<char>> {
    match o {
        Some(s) => Some(s@),
        None => None,
    }
}

/// Renders a source location whose file name is already trimmed.
pub fn location_text(file: Option<&str>, line: Option<u32>, column: Option<u32>) -> (r: String)
    ensures
        r@ == location_spec(opt_str(file), line, column),
{
    let mut s = String::new();
    match file {
        None => {
            push_char(&mut s, '?');
        },
        Some(f) => {
            s.append(f);
            match line {
                None => {},
                Some(l) => {
                    push_char(&mut s, ':');
                    push_digits(&mut s, l as u128, 10);
                    match column {
                        None => {},
                        Some(c) => {
                            push_char(&mut s, ':');
                            push_digits(&mut s, c as u128, 10);
                        },
                    }
                },
            }
        },
    }
    assert(s@ =~= location_spec(opt_str(file), line, column));
    s
}

/// A source location as a debug-info lookup reports it.
#[derive(Debug, Clone, PartialEq, Eq)]
pub struct SourceLocation {
    pub file: Option<String>,
    pub line: Option<u32>,
    pub column: Option<u32>,
}

/// A file as shown: the last component that the path gave, or the whole path
/// where it gave none.
pub open spec fn base_name(path: Seq<char>, name: Option<Seq<char>>) -> Seq<char> {
    match name {
        Some(n) => n,
        None => path,
    }
}

/// What `path_file_name` may give for a path: nothing, or a non-empty part of it.
pub open spec fn file_name_fits(path: Seq<char>, name: Option<Seq<char>>) -> bool {
    name matches Some(n) ==> n.len() > 0 && exists|i: int|
        0 <= i && i + n.len() <= path.len() && #[trigger] path.subrange(i, i + n.len()) == n
}

/// The file of a location as shown, given what `path_file_name` gave for it.
pub open spec fn trimmed_file(file: Option<Seq<char>>, name: Option<Seq<char>>) -> Option<Seq<char>> {
    match file {
        Some(p) => Some(base_name(p, name)),
        None => None,
    }
}

/// The location with its file replaced by the given last component, or kept
/// where there is none.
pub fn trim_location(l: &SourceLocation, name: Option<String>) -> (r: SourceLocation)
    ensures
        opt_string(r.file) == trimmed_file(opt_string(l.file), opt_string(name)),
        r.line == l.line,
        r.column == l.column,
{
    let file = match &l.file {
        Some(path) => match name {
            Some(n) => Some(n),
            None => Some(path.clone()),
        },
        None => None,
    };
    SourceLocation { file, line: l.line, column: l.column }
}

pub open spec fn opt_string(o: Option<String>) -> Option<Seq<char>> {
    match o {
        Some(s) => Some(s@),
        None => None,
    }
}

/// The last component that `path_file_name` gives for the location's file.
pub(crate) fn file_name_of(l: &SourceLocation) -> (r: Option<String>)
    ensures
        l.file matches Some(p) ==> file_name_fits(p@, opt_string(r)),
{
    match &l.file {
        Some(path) => path_file_name(path.as_str()),
        None => None,
    }
}

/// Renders a source location, with the file trimmed to its last component
/// where the path has one.
pub fn source_loc_str(loc: &Option<SourceLocation>) -> (r: String)
    ensures
        loc is None ==> r@ == seq!['?'],
        loc matches Some(l) ==> exists|name: Option<Seq<char>>|
            {
                &&& l.file matches Some(p) ==> file_name_fits(p@, name)
                &&& r@ == #[trigger] location_spec(
                    trimmed_file(opt_string(l.file), name),
                    l.line,
                    l.column,
                )
            },
{
    match loc {
        None => {
            let mut s = String::new();
            push_char(&mut s, '?');
            s
        },
        Some(l) => {
            let name = file_name_of(l);
            let ghost n = opt_string(name);
            let t = trim_location(l, name);
            let r = location_text(opt_as_str(&t.file), t.line, t.column);
            assert(r@ == location_spec(trimmed_file(opt_string(l.file), n), l.line, l.column));
            r
        },
    }
}

fn opt_as_str(o: &Option<String>) -> (r: Option<&str>)
    ensures
        opt_str(r) == opt_string(*o),
{
    match o {
        Some(s) => Some(s.as_str()),
        None => None,
    }
}

/// A function name: demangled if asked, `?` when unknown.
pub open spec fn function_spec(name: Option<Seq<char>>, language: Option<u16>, demangle: bool) -> Seq<char> {
    match name {
        None => seq!['?'],
        Some(n) => if demangle {
            demangled(n, language)
        } else {
            n
        },
    }
}

/// Renders a function name.
pub fn func_str(name: Option<&str>, language: Option<u16>, demangle: bool) -> (r: String)
    ensures
        r@ == function_spec(opt_str(name), language, demangle),
{
    match name {
        None => {
            let mut s = String::new();
            push_char(&mut s, '?');
            s
        },
        Some(n) => if demangle {
            demangle_name(n, language)
        } else {
            n.to_owned()
        },
    }
}

/// One frame of a call chain as text: location and function joined by `:`,
/// either alone, or `?` with neither.
pub open spec fn frame_spec(location: Option<Seq<char>>, function: Option<Seq<char>>) -> Seq<char> {
    match (location, function) {
        (None, None) => seq!['?'],
        (None, Some(f)) => f,
        (Some(l), None) => l,
        (Some(l), Some(f)) => l + seq![':'] + f,
    }
}

} // verus!
