//! The decoder of the WebAssembly binary format.

use crate::bounds;
use crate::grammar;
use crate::grammar::{Fault, Frame, Progress};
use crate::leb;
use crate::leb::LebError;
use crate::module::{Export, ExternKind, Func, FuncType, Import, Module, ModuleView, ValType};
use crate::structure;
use crate::text;
use crate::written_module;
use vstd::prelude::*;
use vstd::slice::slice_to_vec;
use vstd::string::StringExecFns;

verus! {

/// The four magic bytes at the start of every module.
pub const MAGIC: [u8; 4] = [0x00, 0x61, 0x73, 0x6D];

/// The only binary format version there is.
pub const VERSION: u32 = 1;

/// Upper bound on the number of locals a single function may declare.
pub const MAX_LOCALS: u64 = 100_000;

/// What made a module undecodable.
#[derive(Debug, Clone, PartialEq, Eq)]
pub enum ParseErrorKind {
    /// The file does not start with `\0asm`.
    NotWasm,
    /// The binary format version is not [`VERSION`].
    UnsupportedVersion(u32),
    /// The input ended in the middle of a structure.
    UnexpectedEof,
    /// A LEB128 value was malformed.
    Leb(LebError),
    /// A section id above the highest one there is.
    UnknownSectionId(u8),
    /// Non-custom sections must appear in increasing id order.
    SectionOutOfOrder {
        /// The id of the previous non-custom section.
        previous: u8,
        /// The id that appeared after it.
        found: u8,
    },
    /// A section did not consume exactly the number of bytes it declared.
    SectionSizeMismatch(u8),
    /// A byte that is not a value type.
    InvalidValType(u8),
    /// A type section entry that does not start with `0x60`.
    InvalidFuncType(u8),
    /// An import or export descriptor with an unknown kind byte.
    InvalidExternKind(u8),
    /// A limits descriptor with an unknown flags byte.
    InvalidLimits(u8),
    /// A name that is not valid UTF-8.
    InvalidUtf8,
    /// The function and code sections disagree about how many functions exist.
    FunctionCodeMismatch {
        /// Entries in the function section.
        declared: usize,
        /// Entries in the code section.
        bodies: usize,
    },
    /// A type index that no type section entry answers to.
    TypeIndexOutOfRange(u32),
    /// A function declaring an absurd number of locals.
    TooManyLocals(u64),
    /// A function body that does not end with the `end` opcode.
    MissingEnd,
}

impl ParseErrorKind {
    /// What went wrong, in words.
    pub open spec fn text(self) -> Seq<char> {
        match self {
            ParseErrorKind::NotWasm => "not a WebAssembly module"@,
            ParseErrorKind::UnsupportedVersion(v) => "unsupported binary format version "@
                + text::decimal(v as nat),
            ParseErrorKind::UnexpectedEof => "unexpected end of module"@,
            ParseErrorKind::Leb(err) => err.text(),
            ParseErrorKind::UnknownSectionId(id) => "unknown section id "@ + text::decimal(
                id as nat,
            ),
            ParseErrorKind::SectionOutOfOrder { previous, found } => "section "@ + text::decimal(
                found as nat,
            ) + " appears after section "@ + text::decimal(previous as nat)
                + ", ids must increase"@,
            ParseErrorKind::SectionSizeMismatch(id) => "section "@ + text::decimal(id as nat)
                + " does not match its declared size"@,
            ParseErrorKind::InvalidValType(b) => "invalid value type byte "@ + text::hex_byte(b),
            ParseErrorKind::InvalidFuncType(b) => "expected a function type, found byte "@
                + text::hex_byte(b),
            ParseErrorKind::InvalidExternKind(b) => "invalid extern kind "@ + text::hex_byte(b),
            ParseErrorKind::InvalidLimits(b) => "invalid limits flags "@ + text::hex_byte(b),
            ParseErrorKind::InvalidUtf8 => "name is not valid UTF-8"@,
            ParseErrorKind::FunctionCodeMismatch { declared, bodies } =>
            "function section declares "@ + text::decimal(declared as nat)
                + " functions but the code section has "@ + text::decimal(bodies as nat)
                + " bodies"@,
            ParseErrorKind::TypeIndexOutOfRange(index) => "type index "@ + text::decimal(
                index as nat,
            ) + " is out of range"@,
            ParseErrorKind::TooManyLocals(n) => "function declares "@ + text::decimal(n as nat)
                + " locals"@,
            ParseErrorKind::MissingEnd => "function body does not end with 'end'"@,
        }
    }

    /// What went wrong, in words.
    pub fn to_string(&self) -> (r: String)
        ensures
            r@ == self.text(),
    {
        let mut out = String::new();
        match self {
            ParseErrorKind::NotWasm => {
                out.append("not a WebAssembly module");
            },
            ParseErrorKind::UnsupportedVersion(v) => {
                out.append("unsupported binary format version ");
                text::push_decimal(&mut out, *v as u64);
            },
            ParseErrorKind::UnexpectedEof => {
                out.append("unexpected end of module");
            },
            ParseErrorKind::Leb(err) => {
                out.append(err.to_string().as_str());
            },
            ParseErrorKind::UnknownSectionId(id) => {
                out.append("unknown section id ");
                text::push_decimal(&mut out, *id as u64);
            },
            ParseErrorKind::SectionOutOfOrder { previous, found } => {
                out.append("section ");
                text::push_decimal(&mut out, *found as u64);
                out.append(" appears after section ");
                text::push_decimal(&mut out, *previous as u64);
                out.append(", ids must increase");
            },
            ParseErrorKind::SectionSizeMismatch(id) => {
                out.append("section ");
                text::push_decimal(&mut out, *id as u64);
                out.append(" does not match its declared size");
            },
            ParseErrorKind::InvalidValType(b) => {
                out.append("invalid value type byte ");
                text::push_hex_byte(&mut out, *b);
            },
            ParseErrorKind::InvalidFuncType(b) => {
                out.append("expected a function type, found byte ");
                text::push_hex_byte(&mut out, *b);
            },
            ParseErrorKind::InvalidExternKind(b) => {
                out.append("invalid extern kind ");
                text::push_hex_byte(&mut out, *b);
            },
            ParseErrorKind::InvalidLimits(b) => {
                out.append("invalid limits flags ");
                text::push_hex_byte(&mut out, *b);
            },
            ParseErrorKind::InvalidUtf8 => {
                out.append("name is not valid UTF-8");
            },
            ParseErrorKind::FunctionCodeMismatch { declared, bodies } => {
                out.append("function section declares ");
                text::push_decimal(&mut out, *declared as u64);
                out.append(" functions but the code section has ");
                text::push_decimal(&mut out, *bodies as u64);
                out.append(" bodies");
            },
            ParseErrorKind::TypeIndexOutOfRange(index) => {
                out.append("type index ");
                text::push_decimal(&mut out, *index as u64);
                out.append(" is out of range");
            },
            ParseErrorKind::TooManyLocals(n) => {
                out.append("function declares ");
                text::push_decimal(&mut out, *n);
                out.append(" locals");
            },
            ParseErrorKind::MissingEnd => {
                out.append("function body does not end with 'end'");
            },
        }
        assert(out@ =~= self.text());
        out
    }
}

/// A decoding failure together with the byte offset it was noticed at.
#[derive(Debug, Clone, PartialEq, Eq)]
pub struct ParseError {
    /// Offset into the module bytes.
    pub offset: usize,
    /// What went wrong.
    pub kind: ParseErrorKind,
}

impl View for ParseError {
    type V = Fault;

    open spec fn view(&self) -> Fault {
        Fault { at: self.offset as int, kind: self.kind }
    }
}

impl ParseError {
    /// The offset and what went wrong, in words.
    pub open spec fn text(self) -> Seq<char> {
        "at byte "@ + text::decimal(self.offset as nat) + ": "@ + self.kind.text()
    }

    /// The offset and what went wrong, in words.
    pub fn to_string(&self) -> (r: String)
        ensures
            r@ == self.text(),
            r@ == "at byte "@ + text::decimal(self.offset as nat) + ": "@ + self.kind.text(),
    {
        let mut out = String::new();
        out.append("at byte ");
        text::push_decimal(&mut out, self.offset as u64);
        out.append(": ");
        out.append(self.kind.to_string().as_str());
        assert(out@ =~= "at byte "@ + text::decimal(self.offset as nat) + ": "@
            + self.kind.text());
        out
    }
}

/// Whether `t` is `before` and then `b` in hexadecimal.
pub open spec fn says_byte(t: Seq<char>, before: Seq<char>, b: u8) -> bool {
    exists|h: Seq<char>| #[trigger] text::is_hex_byte(h, b) && t == before + h
}

/// Whether `t` says two numbers, with text before, between and after them.
pub open spec fn says_two(
    t: Seq<char>,
    before: Seq<char>,
    m: nat,
    between: Seq<char>,
    n: nat,
    after: Seq<char>,
) -> bool {
    exists|d: Seq<char>, e: Seq<char>|
        {
            &&& #[trigger] text::is_decimal(d, m)
            &&& #[trigger] text::is_decimal(e, n)
            &&& t == before + d + between + e + after
        }
}

/// The text of a kind says the numbers and bytes that the kind holds, in full.
pub proof fn law_kind_texts(kind: ParseErrorKind)
    ensures
        match kind {
            ParseErrorKind::NotWasm => kind.text() == "not a WebAssembly module"@,
            ParseErrorKind::UnsupportedVersion(v) => text::says_number(
                kind.text(),
                "unsupported binary format version "@,
                v as nat,
                Seq::empty(),
            ),
            ParseErrorKind::UnexpectedEof => kind.text() == "unexpected end of module"@,
            ParseErrorKind::Leb(err) => kind.text() == err.text(),
            ParseErrorKind::UnknownSectionId(id) => text::says_number(
                kind.text(),
                "unknown section id "@,
                id as nat,
                Seq::empty(),
            ),
            ParseErrorKind::SectionOutOfOrder { previous, found } => says_two(
                kind.text(),
                "section "@,
                found as nat,
                " appears after section "@,
                previous as nat,
                ", ids must increase"@,
            ),
            ParseErrorKind::SectionSizeMismatch(id) => text::says_number(
                kind.text(),
                "section "@,
                id as nat,
                " does not match its declared size"@,
            ),
            ParseErrorKind::InvalidValType(b) => says_byte(
                kind.text(),
                "invalid value type byte "@,
                b,
            ),
            ParseErrorKind::InvalidFuncType(b) => says_byte(
                kind.text(),
                "expected a function type, found byte "@,
                b,
            ),
            ParseErrorKind::InvalidExternKind(b) => says_byte(
                kind.text(),
                "invalid extern kind "@,
                b,
            ),
            ParseErrorKind::InvalidLimits(b) => says_byte(kind.text(), "invalid limits flags "@, b),
            ParseErrorKind::InvalidUtf8 => kind.text() == "name is not valid UTF-8"@,
            ParseErrorKind::FunctionCodeMismatch { declared, bodies } => says_two(
                kind.text(),
                "function section declares "@,
                declared as nat,
                " functions but the code section has "@,
                bodies as nat,
                " bodies"@,
            ),
            ParseErrorKind::TypeIndexOutOfRange(index) => text::says_number(
                kind.text(),
                "type index "@,
                index as nat,
                " is out of range"@,
            ),
            ParseErrorKind::TooManyLocals(n) => text::says_number(
                kind.text(),
                "function declares "@,
                n as nat,
                " locals"@,
            ),
            ParseErrorKind::MissingEnd => kind.text() == "function body does not end with 'end'"@,
        },
{
    match kind {
        ParseErrorKind::UnsupportedVersion(v) => {
            text::lemma_says_number(
                "unsupported binary format version "@,
                v as nat,
                Seq::empty(),
            );
        },
        ParseErrorKind::UnknownSectionId(id) => {
            text::lemma_says_number("unknown section id "@, id as nat, Seq::empty());
        },
        ParseErrorKind::SectionOutOfOrder { previous, found } => {
            text::law_decimal_text(text::decimal(found as nat), found as nat);
            text::law_decimal_text(text::decimal(previous as nat), previous as nat);
        },
        ParseErrorKind::SectionSizeMismatch(id) => {
            text::lemma_says_number(
                "section "@,
                id as nat,
                " does not match its declared size"@,
            );
        },
        ParseErrorKind::InvalidValType(b) => {
            text::law_hex_text(b);
        },
        ParseErrorKind::InvalidFuncType(b) => {
            text::law_hex_text(b);
        },
        ParseErrorKind::InvalidExternKind(b) => {
            text::law_hex_text(b);
        },
        ParseErrorKind::InvalidLimits(b) => {
            text::law_hex_text(b);
        },
        ParseErrorKind::FunctionCodeMismatch { declared, bodies } => {
            text::law_decimal_text(text::decimal(declared as nat), declared as nat);
            text::law_decimal_text(text::decimal(bodies as nat), bodies as nat);
        },
        ParseErrorKind::TypeIndexOutOfRange(index) => {
            text::lemma_says_number("type index "@, index as nat, " is out of range"@);
        },
        ParseErrorKind::TooManyLocals(n) => {
            text::lemma_says_number("function declares "@, n as nat, " locals"@);
        },
        _ => {},
    }
}

/// The text of an error says where it was noticed, and what the text of its kind says.
pub proof fn law_error_texts(e: ParseError)
    ensures
        text::says_number(e.text(), "at byte "@, e.offset as nat, ": "@ + e.kind.text()),
{
    text::lemma_says_number("at byte "@, e.offset as nat, ": "@ + e.kind.text());
    assert(e.text() =~= "at byte "@ + text::decimal(e.offset as nat) + (": "@ + e.kind.text()));
}

/// The view of an error has its offset and kind as they are.
pub proof fn law_error_view(e: ParseError)
    ensures
        e@.at == e.offset,
        e@.kind == e.kind,
{
}

/// The error of `core::str::from_utf8`. Nothing of it is looked at.
#[verifier::external_type_specification]
#[verifier::external_body]
pub struct ExUtf8Error(core::str::Utf8Error);

/// `core::str::from_utf8` accepts exactly the valid UTF-8, and the string it gives back
/// has the bytes it was given.
pub assume_specification[ core::str::from_utf8 ](v: &[u8]) -> (r: Result<
    &str,
    core::str::Utf8Error,
>)
    ensures
        r is Ok <==> vstd::utf8::valid_utf8(v@),
        r matches Ok(s) ==> vstd::utf8::encode_utf8(s@) == v@,
;

/// Decodes a module from its binary encoding.
pub fn parse(bytes: &[u8]) -> (r: Result<Module, ParseError>)
    ensures
        match grammar::module(bytes@) {
            Ok(m) => r matches Ok(module) && module@ == m,
            Err(f) => r matches Err(e) && e@ == f,
        },
        r matches Ok(module) ==> module@.well_formed(),
        r matches Err(e) ==> e.offset <= bytes@.len(),
        r matches Ok(module) ==> written_module::writes_module(bytes@, module@),
        forall|m: ModuleView| #[trigger]
            written_module::writes_module(bytes@, m) ==> (r matches Ok(module) && module@ == m),
{
    proof {
        assert forall|m: ModuleView| #[trigger]
            written_module::writes_module(bytes@, m) <==> grammar::module(bytes@) == Ok::<
                ModuleView,
                Fault,
            >(m) by {
            written_module::law_modules(bytes@, m);
        }
        structure::law_decoded_modules_are_well_formed(bytes@);
        bounds::law_fault_lies_in_the_module(bytes@);
    }
    let mut decoder = Decoder::new(bytes);
    decoder.module()
}

/// Appends `n` times `ty`.
fn push_repeated(locals: &mut Vec<ValType>, ty: ValType, n: u32)
    ensures
        final(locals)@ == old(locals)@ + Seq::new(n as nat, |i: int| ty),
{
    let mut i: u32 = 0;
    while i < n
        invariant
            i <= n,
            locals@ == old(locals)@ + Seq::new(i as nat, |i: int| ty),
        decreases n - i,
    {
        locals.push(ty);
        i += 1;
        assert(locals@ =~= old(locals)@ + Seq::new(i as nat, |i: int| ty));
    }
}

/// What the sections so far have said.
struct State {
    module: Module,
    declared: Vec<u32>,
    last: Option<u8>,
}

impl View for State {
    type V = Progress;

    closed spec fn view(&self) -> Progress {
        Progress { module: self.module@, declared: self.declared@, last: self.last }
    }
}

impl State {
    fn new() -> (r: State)
        ensures
            r@ == Progress::none(),
    {
        State { module: Module::default(), declared: Vec::new(), last: None }
    }

    /// The module that the sections have described, once the checks between sections
    /// hold. `len` is the length of the input.
    fn finish(self, len: usize) -> (r: Result<Module, ParseError>)
        ensures
            match grammar::complete(len as int, self@) {
                Ok(m) => r matches Ok(module) && module@ == m,
                Err(f) => r matches Err(e) && e@ == f,
            },
    {
        let module = self.module;
        let declared = self.declared.len();
        if declared != module.funcs.len() {
            return Err(
                ParseError {
                    offset: len,
                    kind: ParseErrorKind::FunctionCodeMismatch {
                        declared,
                        bodies: module.funcs.len(),
                    },
                },
            );
        }
        let mut i: usize = 0;
        while i < module.funcs.len()
            invariant
                i <= module.funcs.len(),
                module@ == self@.module,
                self@.declared.len() == self@.module.funcs.len(),
                grammar::untyped(module@, 0) == grammar::untyped(module@, i as int),
            decreases module.funcs.len() - i,
        {
            let type_index = module.funcs[i].type_index;
            if type_index as usize >= module.types.len() {
                return Err(
                    ParseError {
                        offset: len,
                        kind: ParseErrorKind::TypeIndexOutOfRange(type_index),
                    },
                );
            }
            i += 1;
        }
        Ok(module)
    }
}

/// A position in the bytes of a module.
struct Decoder<'a> {
    bytes: &'a [u8],
    pos: usize,
}

impl<'a> Decoder<'a> {
    fn new(bytes: &'a [u8]) -> (r: Self)
        ensures
            r.bytes == bytes,
            r.pos == 0,
    {
        Decoder { bytes, pos: 0 }
    }

    /// The failure `kind` at the current position.
    fn err<T>(&self, kind: ParseErrorKind) -> (r: Result<T, ParseError>)
        ensures
            r matches Err(e) && e@ == (Fault { at: self.pos as int, kind }),
    {
        Err(ParseError { offset: self.pos, kind })
    }

    fn byte(&mut self) -> (r: Result<u8, ParseError>)
        ensures
            final(self).bytes == old(self).bytes,
            match grammar::byte(old(self).bytes@, old(self).pos as int) {
                Ok((v, q)) => r == Ok::<u8, ParseError>(v) && final(self).pos == q,
                Err(f) => r matches Err(e) && e@ == f,
            },
    {
        if self.pos < self.bytes.len() {
            let byte = self.bytes[self.pos];
            self.pos += 1;
            Ok(byte)
        } else {
            self.err(ParseErrorKind::UnexpectedEof)
        }
    }

    /// The position `len` bytes further on, when it still lies inside the input.
    fn end_of(&self, len: usize) -> (r: Option<usize>)
        ensures
            match r {
                Some(end) => end == self.pos + len && end <= self.bytes@.len(),
                None => self.pos + len > self.bytes@.len(),
            },
    {
        let size = self.bytes.len();
        match self.pos.checked_add(len) {
            Some(end) => if end <= size {
                Some(end)
            } else {
                None
            },
            None => None,
        }
    }

    fn take(&mut self, len: usize) -> (r: Result<&'a [u8], ParseError>)
        ensures
            final(self).bytes == old(self).bytes,
            match grammar::raw(old(self).bytes@, old(self).pos as int, len as int) {
                Ok((v, q)) => r matches Ok(slice) && slice@ == v && final(self).pos == q,
                Err(f) => r matches Err(e) && e@ == f,
            },
    {
        let end = match self.end_of(len) {
            Some(end) => end,
            None => return self.err(ParseErrorKind::UnexpectedEof),
        };
        let slice = &self.bytes[self.pos..end];
        self.pos = end;
        Ok(slice)
    }

    fn u32(&mut self) -> (r: Result<u32, ParseError>)
        ensures
            final(self).bytes == old(self).bytes,
            match grammar::u32(old(self).bytes@, old(self).pos as int) {
                Ok((v, q)) => r == Ok::<u32, ParseError>(v) && final(self).pos == q,
                Err(f) => r matches Err(e) && e@ == f,
            },
    {
        let at = self.pos;
        match leb::read_u32(self.bytes, &mut self.pos) {
            Ok(value) => Ok(value),
            Err(err) => Err(ParseError { offset: at, kind: ParseErrorKind::Leb(err) }),
        }
    }

    fn name(&mut self) -> (r: Result<String, ParseError>)
        ensures
            final(self).bytes == old(self).bytes,
            match grammar::name(old(self).bytes@, old(self).pos as int) {
                Ok((v, q)) => r matches Ok(name) && name@ == v && final(self).pos == q,
                Err(f) => r matches Err(e) && e@ == f,
            },
    {
        let len = self.u32()? as usize;
        let at = self.pos;
        let raw = self.take(len)?;
        match core::str::from_utf8(raw) {
            Ok(text) => {
                proof {
                    vstd::utf8::encode_utf8_decode_utf8(text@);
                }
                Ok(text.to_owned())
            },
            Err(_) => Err(ParseError { offset: at, kind: ParseErrorKind::InvalidUtf8 }),
        }
    }

    fn val_type(&mut self) -> (r: Result<ValType, ParseError>)
        ensures
            final(self).bytes == old(self).bytes,
            match grammar::val_type(old(self).bytes@, old(self).pos as int) {
                Ok((v, q)) => r == Ok::<ValType, ParseError>(v) && final(self).pos == q,
                Err(f) => r matches Err(e) && e@ == f,
            },
    {
        let at = self.pos;
        let byte = self.byte()?;
        match ValType::from_byte(byte) {
            Some(ty) => Ok(ty),
            None => Err(ParseError { offset: at, kind: ParseErrorKind::InvalidValType(byte) }),
        }
    }

    fn extern_kind(&mut self) -> (r: Result<ExternKind, ParseError>)
        ensures
            final(self).bytes == old(self).bytes,
            match grammar::extern_kind(old(self).bytes@, old(self).pos as int) {
                Ok((v, q)) => r == Ok::<ExternKind, ParseError>(v) && final(self).pos == q,
                Err(f) => r matches Err(e) && e@ == f,
            },
    {
        let at = self.pos;
        let byte = self.byte()?;
        match ExternKind::from_byte(byte) {
            Some(kind) => Ok(kind),
            None => Err(ParseError { offset: at, kind: ParseErrorKind::InvalidExternKind(byte) }),
        }
    }

    fn val_types(&mut self) -> (r: Result<Vec<ValType>, ParseError>)
        ensures
            final(self).bytes == old(self).bytes,
            match grammar::val_types(old(self).bytes@, old(self).pos as int) {
                Ok((v, q)) => r matches Ok(types) && types@ == v && final(self).pos == q,
                Err(f) => r matches Err(e) && e@ == f,
            },
    {
        let count = self.u32()?;
        let ghost rule = grammar::val_type_rule();
        let ghost b = self.bytes@;
        let ghost start = self.pos as int;
        let mut out: Vec<ValType> = Vec::new();
        let mut i: u32 = 0;
        while i < count
            invariant
                i <= count,
                self.bytes == old(self).bytes,
                b == self.bytes@,
                rule == grammar::val_type_rule(),
                grammar::val_types(b, old(self).pos as int) == grammar::repeat(
                    rule,
                    b,
                    start,
                    count as nat,
                ),
                grammar::repeat(rule, b, start, i as nat) == Ok::<_, Fault>(
                    (out@, self.pos as int),
                ),
            decreases count - i,
        {
            proof {
                grammar::lemma_repeat_fault(rule, b, start, (i + 1) as nat, count as nat);
            }
            let ty = self.val_type()?;
            out.push(ty);
            i += 1;
        }
        Ok(out)
    }

    /// Skips a `limits` descriptor, used by table and memory declarations.
    fn skip_limits(&mut self) -> (r: Result<(), ParseError>)
        ensures
            final(self).bytes == old(self).bytes,
            match grammar::limits(old(self).bytes@, old(self).pos as int) {
                Ok((_, q)) => r is Ok && final(self).pos == q,
                Err(f) => r matches Err(e) && e@ == f,
            },
    {
        let at = self.pos;
        match self.byte()? {
            0x00 => {
                self.u32()?;
            },
            0x01 => {
                self.u32()?;
                self.u32()?;
            },
            other => {
                return Err(ParseError { offset: at, kind: ParseErrorKind::InvalidLimits(other) });
            },
        }
        Ok(())
    }

    /// An entry of the type section.
    fn func_type(&mut self) -> (r: Result<FuncType, ParseError>)
        ensures
            final(self).bytes == old(self).bytes,
            match grammar::func_type(old(self).bytes@, old(self).pos as int) {
                Ok((v, q)) => r matches Ok(ty) && ty@ == v && final(self).pos == q,
                Err(f) => r matches Err(e) && e@ == f,
            },
    {
        let at = self.pos;
        let tag = self.byte()?;
        if tag != 0x60 {
            return Err(ParseError { offset: at, kind: ParseErrorKind::InvalidFuncType(tag) });
        }
        let params = self.val_types()?;
        let results = self.val_types()?;
        Ok(FuncType { params, results })
    }

    fn type_section(&mut self) -> (r: Result<Vec<FuncType>, ParseError>)
        ensures
            final(self).bytes == old(self).bytes,
            match grammar::vector(
                grammar::func_type_rule(),
                old(self).bytes@,
                old(self).pos as int,
            ) {
                Ok((v, q)) => r matches Ok(types) && types@.map_values(|t: FuncType| t@) == v
                    && final(self).pos == q,
                Err(f) => r matches Err(e) && e@ == f,
            },
    {
        let count = self.u32()?;
        let ghost rule = grammar::func_type_rule();
        let ghost b = self.bytes@;
        let ghost start = self.pos as int;
        let mut types: Vec<FuncType> = Vec::new();
        let mut i: u32 = 0;
        assert(types@.map_values(|t: FuncType| t@) =~= Seq::empty());
        while i < count
            invariant
                i <= count,
                self.bytes == old(self).bytes,
                b == self.bytes@,
                rule == grammar::func_type_rule(),
                grammar::vector(rule, b, old(self).pos as int) == grammar::repeat(
                    rule,
                    b,
                    start,
                    count as nat,
                ),
                grammar::repeat(rule, b, start, i as nat) == Ok::<_, Fault>(
                    (types@.map_values(|t: FuncType| t@), self.pos as int),
                ),
            decreases count - i,
        {
            proof {
                grammar::lemma_repeat_fault(rule, b, start, (i + 1) as nat, count as nat);
            }
            let ghost before = types@.map_values(|t: FuncType| t@);
            let ty = self.func_type()?;
            types.push(ty);
            i += 1;
            assert(types@.map_values(|t: FuncType| t@) =~= before.push(ty@));
        }
        Ok(types)
    }

    /// An entry of the import section.
    fn import(&mut self) -> (r: Result<Import, ParseError>)
        ensures
            final(self).bytes == old(self).bytes,
            match grammar::import(old(self).bytes@, old(self).pos as int) {
                Ok((v, q)) => r matches Ok(import) && import@ == v && final(self).pos == q,
                Err(f) => r matches Err(e) && e@ == f,
            },
    {
        let module = self.name()?;
        let name = self.name()?;
        let kind = self.extern_kind()?;
        let type_index = match kind {
            ExternKind::Func => Some(self.u32()?),
            ExternKind::Table => {
                self.byte()?;  // reference type
                self.skip_limits()?;
                None
            },
            ExternKind::Memory => {
                self.skip_limits()?;
                None
            },
            ExternKind::Global => {
                self.val_type()?;
                self.byte()?;  // mutability
                None
            },
        };
        Ok(Import { module, name, kind, type_index })
    }

    fn import_section(&mut self) -> (r: Result<Vec<Import>, ParseError>)
        ensures
            final(self).bytes == old(self).bytes,
            match grammar::vector(grammar::import_rule(), old(self).bytes@, old(self).pos as int) {
                Ok((v, q)) => r matches Ok(imports) && imports@.map_values(|i: Import| i@) == v
                    && final(self).pos == q,
                Err(f) => r matches Err(e) && e@ == f,
            },
    {
        let count = self.u32()?;
        let ghost rule = grammar::import_rule();
        let ghost b = self.bytes@;
        let ghost start = self.pos as int;
        let mut imports: Vec<Import> = Vec::new();
        let mut i: u32 = 0;
        assert(imports@.map_values(|i: Import| i@) =~= Seq::empty());
        while i < count
            invariant
                i <= count,
                self.bytes == old(self).bytes,
                b == self.bytes@,
                rule == grammar::import_rule(),
                grammar::vector(rule, b, old(self).pos as int) == grammar::repeat(
                    rule,
                    b,
                    start,
                    count as nat,
                ),
                grammar::repeat(rule, b, start, i as nat) == Ok::<_, Fault>(
                    (imports@.map_values(|i: Import| i@), self.pos as int),
                ),
            decreases count - i,
        {
            proof {
                grammar::lemma_repeat_fault(rule, b, start, (i + 1) as nat, count as nat);
            }
            let ghost before = imports@.map_values(|i: Import| i@);
            let import = self.import()?;
            imports.push(import);
            i += 1;
            assert(imports@.map_values(|i: Import| i@) =~= before.push(import@));
        }
        Ok(imports)
    }

    /// The type indices of the function section.
    fn function_section(&mut self) -> (r: Result<Vec<u32>, ParseError>)
        ensures
            final(self).bytes == old(self).bytes,
            match grammar::vector(grammar::u32_rule(), old(self).bytes@, old(self).pos as int) {
                Ok((v, q)) => r matches Ok(declared) && declared@ == v && final(self).pos == q,
                Err(f) => r matches Err(e) && e@ == f,
            },
    {
        let count = self.u32()?;
        let ghost rule = grammar::u32_rule();
        let ghost b = self.bytes@;
        let ghost start = self.pos as int;
        let mut declared: Vec<u32> = Vec::new();
        let mut i: u32 = 0;
        while i < count
            invariant
                i <= count,
                self.bytes == old(self).bytes,
                b == self.bytes@,
                rule == grammar::u32_rule(),
                grammar::vector(rule, b, old(self).pos as int) == grammar::repeat(
                    rule,
                    b,
                    start,
                    count as nat,
                ),
                grammar::repeat(rule, b, start, i as nat) == Ok::<_, Fault>(
                    (declared@, self.pos as int),
                ),
            decreases count - i,
        {
            proof {
                grammar::lemma_repeat_fault(rule, b, start, (i + 1) as nat, count as nat);
            }
            let type_index = self.u32()?;
            declared.push(type_index);
            i += 1;
        }
        Ok(declared)
    }

    /// An entry of the export section.
    fn export(&mut self) -> (r: Result<Export, ParseError>)
        ensures
            final(self).bytes == old(self).bytes,
            match grammar::export(old(self).bytes@, old(self).pos as int) {
                Ok((v, q)) => r matches Ok(export) && export@ == v && final(self).pos == q,
                Err(f) => r matches Err(e) && e@ == f,
            },
    {
        let name = self.name()?;
        let kind = self.extern_kind()?;
        let index = self.u32()?;
        Ok(Export { name, kind, index })
    }

    fn export_section(&mut self) -> (r: Result<Vec<Export>, ParseError>)
        ensures
            final(self).bytes == old(self).bytes,
            match grammar::vector(grammar::export_rule(), old(self).bytes@, old(self).pos as int) {
                Ok((v, q)) => r matches Ok(exports) && exports@.map_values(|e: Export| e@) == v
                    && final(self).pos == q,
                Err(f) => r matches Err(e) && e@ == f,
            },
    {
        let count = self.u32()?;
        let ghost rule = grammar::export_rule();
        let ghost b = self.bytes@;
        let ghost start = self.pos as int;
        let mut exports: Vec<Export> = Vec::new();
        let mut i: u32 = 0;
        assert(exports@.map_values(|e: Export| e@) =~= Seq::empty());
        while i < count
            invariant
                i <= count,
                self.bytes == old(self).bytes,
                b == self.bytes@,
                rule == grammar::export_rule(),
                grammar::vector(rule, b, old(self).pos as int) == grammar::repeat(
                    rule,
                    b,
                    start,
                    count as nat,
                ),
                grammar::repeat(rule, b, start, i as nat) == Ok::<_, Fault>(
                    (exports@.map_values(|e: Export| e@), self.pos as int),
                ),
            decreases count - i,
        {
            proof {
                grammar::lemma_repeat_fault(rule, b, start, (i + 1) as nat, count as nat);
            }
            let ghost before = exports@.map_values(|e: Export| e@);
            let export = self.export()?;
            exports.push(export);
            i += 1;
            assert(exports@.map_values(|e: Export| e@) =~= before.push(export@));
        }
        Ok(exports)
    }

    /// The locals of a function, written out one at a time.
    fn locals(&mut self) -> (r: Result<Vec<ValType>, ParseError>)
        ensures
            final(self).bytes == old(self).bytes,
            match grammar::locals(old(self).bytes@, old(self).pos as int) {
                Ok((v, q)) => r matches Ok(locals) && locals@ == v && final(self).pos == q,
                Err(f) => r matches Err(e) && e@ == f,
            },
    {
        let groups = self.u32()?;
        let ghost b = self.bytes@;
        let ghost start = self.pos as int;
        let mut locals: Vec<ValType> = Vec::new();
        let mut total: u64 = 0;
        let mut i: u32 = 0;
        while i < groups
            invariant
                i <= groups,
                self.bytes == old(self).bytes,
                b == self.bytes@,
                total == locals@.len(),
                total <= MAX_LOCALS,
                grammar::locals(b, old(self).pos as int) == grammar::local_groups(
                    b,
                    start,
                    groups as nat,
                ),
                grammar::local_groups(b, start, i as nat) == Ok::<_, Fault>(
                    (locals@, self.pos as int),
                ),
            decreases groups - i,
        {
            proof {
                grammar::lemma_local_groups_fault(b, start, (i + 1) as nat, groups as nat);
            }
            let at = self.pos;
            let repeat = self.u32()?;
            let ty = self.val_type()?;
            total += repeat as u64;
            if total > MAX_LOCALS {
                return Err(
                    ParseError { offset: at, kind: ParseErrorKind::TooManyLocals(total) },
                );
            }
            push_repeated(&mut locals, ty, repeat);
            i += 1;
        }
        Ok(locals)
    }

    /// Entry `index` of a code section of `count` entries.
    fn code_entry(&mut self, declared: &[u32], index: u32, count: u32) -> (r: Result<
        Func,
        ParseError,
    >)
        ensures
            final(self).bytes == old(self).bytes,
            match grammar::code_entry(
                old(self).bytes@,
                old(self).pos as int,
                declared@,
                index as nat,
                count as nat,
            ) {
                Ok((v, q)) => r matches Ok(func) && func@ == v && final(self).pos == q,
                Err(f) => r matches Err(e) && e@ == f,
            },
    {
        let size = self.u32()? as usize;
        let entry_start = self.pos;
        let entry_end = match self.end_of(size) {
            Some(end) => end,
            None => return self.err(ParseErrorKind::UnexpectedEof),
        };
        let locals = self.locals()?;
        if self.pos > entry_end {
            return self.err(ParseErrorKind::UnexpectedEof);
        }
        let body = slice_to_vec(self.take(entry_end - self.pos)?);
        if body.len() == 0 || body[body.len() - 1] != 0x0B {
            return Err(ParseError { offset: entry_end, kind: ParseErrorKind::MissingEnd });
        }
        if index as usize >= declared.len() {
            return Err(
                ParseError {
                    offset: entry_start,
                    kind: ParseErrorKind::FunctionCodeMismatch {
                        declared: declared.len(),
                        bodies: count as usize,
                    },
                },
            );
        }
        Ok(Func { type_index: declared[index as usize], locals, body })
    }

    fn code_section(&mut self, declared: &[u32]) -> (r: Result<Vec<Func>, ParseError>)
        ensures
            final(self).bytes == old(self).bytes,
            match grammar::code(old(self).bytes@, old(self).pos as int, declared@) {
                Ok((v, q)) => r matches Ok(funcs) && funcs@.map_values(|f: Func| f@) == v
                    && final(self).pos == q,
                Err(f) => r matches Err(e) && e@ == f,
            },
    {
        let count = self.u32()?;
        let ghost b = self.bytes@;
        let ghost start = self.pos as int;
        let mut funcs: Vec<Func> = Vec::new();
        let mut index: u32 = 0;
        assert(funcs@.map_values(|f: Func| f@) =~= Seq::empty());
        while index < count
            invariant
                index <= count,
                self.bytes == old(self).bytes,
                b == self.bytes@,
                grammar::code(b, old(self).pos as int, declared@) == grammar::code_entries(
                    b,
                    start,
                    declared@,
                    count as nat,
                    count as nat,
                ),
                grammar::code_entries(b, start, declared@, count as nat, index as nat) == Ok::<
                    _,
                    Fault,
                >((funcs@.map_values(|f: Func| f@), self.pos as int)),
            decreases count - index,
        {
            proof {
                grammar::lemma_code_entries_fault(
                    b,
                    start,
                    declared@,
                    count as nat,
                    (index + 1) as nat,
                    count as nat,
                );
            }
            let ghost before = funcs@.map_values(|f: Func| f@);
            let func = self.code_entry(declared, index, count)?;
            funcs.push(func);
            index += 1;
            assert(funcs@.map_values(|f: Func| f@) =~= before.push(func@));
        }
        Ok(funcs)
    }

    /// The magic number and the version.
    fn header(&mut self) -> (r: Result<(), ParseError>)
        requires
            old(self).pos == 0,
        ensures
            final(self).bytes == old(self).bytes,
            match grammar::header(old(self).bytes@) {
                Ok((_, q)) => r is Ok && final(self).pos == q,
                Err(f) => r matches Err(e) && e@ == f,
            },
    {
        let magic = self.take(4)?;
        if magic[0] != MAGIC[0] || magic[1] != MAGIC[1] || magic[2] != MAGIC[2] || magic[3]
            != MAGIC[3] {
            return Err(ParseError { offset: 0, kind: ParseErrorKind::NotWasm });
        }
        assert(magic@ =~= MAGIC@);
        let at = self.pos;
        let bytes = self.take(4)?;
        let version: u32 = bytes[0] as u32 + 0x100 * (bytes[1] as u32) + 0x1_0000 * (
        bytes[2] as u32) + 0x100_0000 * (bytes[3] as u32);
        if version != VERSION {
            return Err(
                ParseError { offset: at, kind: ParseErrorKind::UnsupportedVersion(version) },
            );
        }
        Ok(())
    }

    /// The content of section `id`, which ends at `body_end`.
    ///
    /// A custom section has a name and then bytes of its own up to its end.
    fn content(&mut self, id: u8, body_end: usize, state: &mut State) -> (r: Result<
        (),
        ParseError,
    >)
        ensures
            final(self).bytes == old(self).bytes,
            match grammar::content(
                old(self).bytes@,
                Frame { id, start: old(self).pos as int, end: body_end as int },
                old(state)@,
            ) {
                Ok((next, q)) => r is Ok && final(state)@ == next && final(self).pos == q,
                Err(f) => r matches Err(e) && e@ == f,
            },
    {
        match id {
            0 => {
                let name = self.name()?;
                let ghost before = state@.module.custom_sections;
                state.module.custom_sections.push(name);
                assert(state@.module.custom_sections =~= before.push(name@));
                if self.pos <= body_end {
                    self.pos = body_end;
                }
            },
            1 => {
                state.module.types = self.type_section()?;
            },
            2 => {
                state.module.imports = self.import_section()?;
            },
            3 => {
                state.declared = self.function_section()?;
            },
            7 => {
                state.module.exports = self.export_section()?;
            },
            8 => {
                state.module.start = Some(self.u32()?);
            },
            10 => {
                state.module.funcs = self.code_section(state.declared.as_slice())?;
            },
            other => {
                state.module.skipped_sections.push(other);
                self.pos = body_end;
            },
        }
        Ok(())
    }

    /// One section.
    fn section(&mut self, state: &mut State) -> (r: Result<(), ParseError>)
        ensures
            final(self).bytes == old(self).bytes,
            match grammar::section(old(self).bytes@, old(self).pos as int, old(state)@) {
                Ok((next, q)) => r is Ok && final(state)@ == next && final(self).pos == q,
                Err(f) => r matches Err(e) && e@ == f,
            },
    {
        proof {
            reveal(grammar::section);
        }
        let id_at = self.pos;
        let id = self.byte()?;
        if id > 12 {
            return Err(ParseError { offset: id_at, kind: ParseErrorKind::UnknownSectionId(id) });
        }
        let size = self.u32()? as usize;
        let body_end = match self.end_of(size) {
            Some(end) => end,
            None => return self.err(ParseErrorKind::UnexpectedEof),
        };
        if id != 0 {
            if let Some(previous) = state.last {
                if id <= previous {
                    return Err(
                        ParseError {
                            offset: id_at,
                            kind: ParseErrorKind::SectionOutOfOrder { previous, found: id },
                        },
                    );
                }
            }
            state.last = Some(id);
        }
        self.content(id, body_end, state)?;
        if self.pos != body_end {
            return Err(
                ParseError { offset: id_at, kind: ParseErrorKind::SectionSizeMismatch(id) },
            );
        }
        Ok(())
    }

    fn module(&mut self) -> (r: Result<Module, ParseError>)
        requires
            old(self).pos == 0,
        ensures
            match grammar::module(old(self).bytes@) {
                Ok(m) => r matches Ok(module) && module@ == m,
                Err(f) => r matches Err(e) && e@ == f,
            },
    {
        self.header()?;
        let mut state = State::new();
        let ghost b = self.bytes@;
        let ghost start = self.pos as int;
        while self.pos < self.bytes.len()
            invariant
                self.bytes == old(self).bytes,
                b == self.bytes@,
                self.pos <= b.len(),
                grammar::header(b) == Ok::<((), int), Fault>(((), start)),
                grammar::sections(b, start, Progress::none()) == grammar::sections(
                    b,
                    self.pos as int,
                    state@,
                ),
            decreases b.len() - self.pos,
        {
            proof {
                grammar::lemma_section_advances(b, self.pos as int, state@);
            }
            self.section(&mut state)?;
        }
        state.finish(self.bytes.len())
    }
}

} // verus!
