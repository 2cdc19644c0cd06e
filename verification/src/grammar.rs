//! What the bytes of a module mean.
//!
//! Each function here reads one piece of the binary format from the bytes `b`, starting
//! at the offset `p`. It gives the value of that piece with the offset just past it, or
//! the fault that keeps the bytes from being such a piece.

use crate::leb;
use crate::module::{
    ExportView, ExternKind, FuncTypeView, FuncView, ImportView, ModuleView, ValType,
};
use crate::parser::{ParseErrorKind, MAGIC, MAX_LOCALS, VERSION};
use vstd::prelude::*;

verus! {

/// A defect of the bytes and the offset it is noticed at.
pub struct Fault {
    pub at: int,
    pub kind: ParseErrorKind,
}

/// A value with the offset just past its bytes, or the fault in them.
pub type Step<T> = Result<(T, int), Fault>;

/// How to read one item at an offset.
pub type Rule<T> = spec_fn(Seq<u8>, int) -> Step<T>;

/// A single byte.
pub open spec fn byte(b: Seq<u8>, p: int) -> Step<u8> {
    if 0 <= p < b.len() {
        Ok((b[p], p + 1))
    } else {
        Err(Fault { at: p, kind: ParseErrorKind::UnexpectedEof })
    }
}

/// `len` bytes as they stand.
pub open spec fn raw(b: Seq<u8>, p: int, len: int) -> Step<Seq<u8>> {
    if 0 <= p && 0 <= len && p + len <= b.len() {
        Ok((b.subrange(p, p + len), p + len))
    } else {
        Err(Fault { at: p, kind: ParseErrorKind::UnexpectedEof })
    }
}

/// An unsigned 32-bit integer in LEB128.
pub open spec fn u32(b: Seq<u8>, p: int) -> Step<u32> {
    match leb::uint_at(b, p, 32) {
        Ok((v, q)) => Ok((v as u32, q)),
        Err(e) => Err(Fault { at: p, kind: ParseErrorKind::Leb(e) }),
    }
}

/// A name: its length in bytes, then that many bytes of UTF-8.
pub open spec fn name(b: Seq<u8>, p: int) -> Step<Seq<char>> {
    match u32(b, p) {
        Ok((len, q)) => match raw(b, q, len as int) {
            Ok((text, r)) => if vstd::utf8::valid_utf8(text) {
                Ok((vstd::utf8::decode_utf8(text), r))
            } else {
                Err(Fault { at: q, kind: ParseErrorKind::InvalidUtf8 })
            },
            Err(f) => Err(f),
        },
        Err(f) => Err(f),
    }
}

/// A value type.
pub open spec fn val_type(b: Seq<u8>, p: int) -> Step<ValType> {
    match byte(b, p) {
        Ok((tag, q)) => match ValType::of_byte(tag) {
            Some(ty) => Ok((ty, q)),
            None => Err(Fault { at: p, kind: ParseErrorKind::InvalidValType(tag) }),
        },
        Err(f) => Err(f),
    }
}

/// The kind of an import or export.
pub open spec fn extern_kind(b: Seq<u8>, p: int) -> Step<ExternKind> {
    match byte(b, p) {
        Ok((tag, q)) => match ExternKind::of_byte(tag) {
            Some(kind) => Ok((kind, q)),
            None => Err(Fault { at: p, kind: ParseErrorKind::InvalidExternKind(tag) }),
        },
        Err(f) => Err(f),
    }
}

/// `n` items one after another.
pub open spec fn repeat<T>(rule: Rule<T>, b: Seq<u8>, p: int, n: nat) -> Step<Seq<T>>
    decreases n,
{
    if n == 0 {
        Ok((Seq::empty(), p))
    } else {
        match repeat(rule, b, p, (n - 1) as nat) {
            Ok((items, q)) => match rule(b, q) {
                Ok((item, r)) => Ok((items.push(item), r)),
                Err(f) => Err(f),
            },
            Err(f) => Err(f),
        }
    }
}

/// A fault among the first items is the fault of the whole.
pub proof fn lemma_repeat_fault<T>(rule: Rule<T>, b: Seq<u8>, p: int, m: nat, n: nat)
    requires
        m <= n,
    ensures
        repeat(rule, b, p, m) matches Err(f) ==> repeat(rule, b, p, n) == Err::<(Seq<T>, int), _>(
            f,
        ),
    decreases n,
{
    if m < n {
        lemma_repeat_fault(rule, b, p, m, (n - 1) as nat);
    }
}

/// A vector: the number of its items, then the items.
pub open spec fn vector<T>(rule: Rule<T>, b: Seq<u8>, p: int) -> Step<Seq<T>> {
    match u32(b, p) {
        Ok((n, q)) => repeat(rule, b, q, n as nat),
        Err(f) => Err(f),
    }
}

pub open spec fn val_type_rule() -> Rule<ValType> {
    |b: Seq<u8>, p: int| val_type(b, p)
}

/// A vector of value types.
pub open spec fn val_types(b: Seq<u8>, p: int) -> Step<Seq<ValType>> {
    vector(val_type_rule(), b, p)
}

/// The limits of a table or memory. Only their extent matters.
pub open spec fn limits(b: Seq<u8>, p: int) -> Step<()> {
    match byte(b, p) {
        Ok((flags, q)) => if flags == 0x00 {
            match u32(b, q) {
                Ok((_, r)) => Ok(((), r)),
                Err(f) => Err(f),
            }
        } else if flags == 0x01 {
            match u32(b, q) {
                Ok((_, r)) => match u32(b, r) {
                    Ok((_, s)) => Ok(((), s)),
                    Err(f) => Err(f),
                },
                Err(f) => Err(f),
            }
        } else {
            Err(Fault { at: p, kind: ParseErrorKind::InvalidLimits(flags) })
        },
        Err(f) => Err(f),
    }
}

/// An entry of the type section.
pub open spec fn func_type(b: Seq<u8>, p: int) -> Step<FuncTypeView> {
    match byte(b, p) {
        Ok((tag, q)) => if tag == 0x60 {
            match val_types(b, q) {
                Ok((params, r)) => match val_types(b, r) {
                    Ok((results, s)) => Ok((FuncTypeView { params, results }, s)),
                    Err(f) => Err(f),
                },
                Err(f) => Err(f),
            }
        } else {
            Err(Fault { at: p, kind: ParseErrorKind::InvalidFuncType(tag) })
        },
        Err(f) => Err(f),
    }
}

pub open spec fn func_type_rule() -> Rule<FuncTypeView> {
    |b: Seq<u8>, p: int| func_type(b, p)
}

/// What an import of `kind` says of the thing imported: for a function its type index,
/// for a table a reference type and limits, for a memory limits, for a global a value
/// type and its mutability.
pub open spec fn import_desc(b: Seq<u8>, p: int, kind: ExternKind) -> Step<Option<u32>> {
    match kind {
        ExternKind::Func => match u32(b, p) {
            Ok((type_index, q)) => Ok((Some(type_index), q)),
            Err(f) => Err(f),
        },
        ExternKind::Table => match byte(b, p) {
            Ok((_, q)) => match limits(b, q) {
                Ok((_, r)) => Ok((None, r)),
                Err(f) => Err(f),
            },
            Err(f) => Err(f),
        },
        ExternKind::Memory => match limits(b, p) {
            Ok((_, q)) => Ok((None, q)),
            Err(f) => Err(f),
        },
        ExternKind::Global => match val_type(b, p) {
            Ok((_, q)) => match byte(b, q) {
                Ok((_, r)) => Ok((None, r)),
                Err(f) => Err(f),
            },
            Err(f) => Err(f),
        },
    }
}

/// An entry of the import section.
pub open spec fn import(b: Seq<u8>, p: int) -> Step<ImportView> {
    match name(b, p) {
        Ok((module, q)) => match name(b, q) {
            Ok((field, r)) => match extern_kind(b, r) {
                Ok((kind, s)) => match import_desc(b, s, kind) {
                    Ok((type_index, t)) => Ok(
                        (ImportView { module, name: field, kind, type_index }, t),
                    ),
                    Err(f) => Err(f),
                },
                Err(f) => Err(f),
            },
            Err(f) => Err(f),
        },
        Err(f) => Err(f),
    }
}

pub open spec fn import_rule() -> Rule<ImportView> {
    |b: Seq<u8>, p: int| import(b, p)
}

/// An entry of the export section.
pub open spec fn export(b: Seq<u8>, p: int) -> Step<ExportView> {
    match name(b, p) {
        Ok((field, q)) => match extern_kind(b, q) {
            Ok((kind, r)) => match u32(b, r) {
                Ok((index, s)) => Ok((ExportView { name: field, kind, index }, s)),
                Err(f) => Err(f),
            },
            Err(f) => Err(f),
        },
        Err(f) => Err(f),
    }
}

pub open spec fn export_rule() -> Rule<ExportView> {
    |b: Seq<u8>, p: int| export(b, p)
}

pub open spec fn u32_rule() -> Rule<u32> {
    |b: Seq<u8>, p: int| u32(b, p)
}

/// `n` groups of locals, each a count and a type, written out one local at a time.
/// Together they hold at most [`MAX_LOCALS`].
pub open spec fn local_groups(b: Seq<u8>, p: int, n: nat) -> Step<Seq<ValType>>
    decreases n,
{
    if n == 0 {
        Ok((Seq::empty(), p))
    } else {
        match local_groups(b, p, (n - 1) as nat) {
            Ok((locals, q)) => match u32(b, q) {
                Ok((count, r)) => match val_type(b, r) {
                    Ok((ty, s)) => if locals.len() + count <= MAX_LOCALS {
                        Ok((locals + Seq::new(count as nat, |i: int| ty), s))
                    } else {
                        Err(
                            Fault {
                                at: q,
                                kind: ParseErrorKind::TooManyLocals((locals.len() + count) as u64),
                            },
                        )
                    },
                    Err(f) => Err(f),
                },
                Err(f) => Err(f),
            },
            Err(f) => Err(f),
        }
    }
}

/// A fault among the first groups is the fault of the whole.
pub proof fn lemma_local_groups_fault(b: Seq<u8>, p: int, m: nat, n: nat)
    requires
        m <= n,
    ensures
        local_groups(b, p, m) matches Err(f) ==> local_groups(b, p, n) == Err::<
            (Seq<ValType>, int),
            _,
        >(f),
    decreases n,
{
    if m < n {
        lemma_local_groups_fault(b, p, m, (n - 1) as nat);
    }
}

/// The locals that a function declares.
pub open spec fn locals(b: Seq<u8>, p: int) -> Step<Seq<ValType>> {
    match u32(b, p) {
        Ok((n, q)) => local_groups(b, q, n as nat),
        Err(f) => Err(f),
    }
}

/// Entry `index` of a code section that holds `count` entries: its size in bytes, then
/// the locals, then the instructions, which end with the `end` opcode. The function
/// section has given the entry its type index.
pub open spec fn code_entry(
    b: Seq<u8>,
    p: int,
    declared: Seq<u32>,
    index: nat,
    count: nat,
) -> Step<FuncView> {
    match u32(b, p) {
        Ok((size, start)) => {
            let end = start + size;
            if end > b.len() {
                Err(Fault { at: start, kind: ParseErrorKind::UnexpectedEof })
            } else {
                match locals(b, start) {
                    Ok((locals, q)) => if q > end {
                        Err(Fault { at: q, kind: ParseErrorKind::UnexpectedEof })
                    } else if q == end || b[end - 1] != 0x0B {
                        Err(Fault { at: end, kind: ParseErrorKind::MissingEnd })
                    } else if index >= declared.len() {
                        Err(
                            Fault {
                                at: start,
                                kind: ParseErrorKind::FunctionCodeMismatch {
                                    declared: declared.len() as usize,
                                    bodies: count as usize,
                                },
                            },
                        )
                    } else {
                        Ok(
                            (
                                FuncView {
                                    type_index: declared[index as int],
                                    locals,
                                    body: b.subrange(q, end),
                                },
                                end,
                            ),
                        )
                    },
                    Err(f) => Err(f),
                }
            }
        },
        Err(f) => Err(f),
    }
}

/// The first `n` entries of a code section that holds `count` entries.
pub open spec fn code_entries(
    b: Seq<u8>,
    p: int,
    declared: Seq<u32>,
    count: nat,
    n: nat,
) -> Step<Seq<FuncView>>
    decreases n,
{
    if n == 0 {
        Ok((Seq::empty(), p))
    } else {
        match code_entries(b, p, declared, count, (n - 1) as nat) {
            Ok((funcs, q)) => match code_entry(b, q, declared, (n - 1) as nat, count) {
                Ok((func, r)) => Ok((funcs.push(func), r)),
                Err(f) => Err(f),
            },
            Err(f) => Err(f),
        }
    }
}

/// A fault among the first entries is the fault of the whole.
pub proof fn lemma_code_entries_fault(
    b: Seq<u8>,
    p: int,
    declared: Seq<u32>,
    count: nat,
    m: nat,
    n: nat,
)
    requires
        m <= n,
    ensures
        code_entries(b, p, declared, count, m) matches Err(f) ==> code_entries(
            b,
            p,
            declared,
            count,
            n,
        ) == Err::<(Seq<FuncView>, int), _>(f),
    decreases n,
{
    if m < n {
        lemma_code_entries_fault(b, p, declared, count, m, (n - 1) as nat);
    }
}

/// The content of the code section.
pub open spec fn code(b: Seq<u8>, p: int, declared: Seq<u32>) -> Step<Seq<FuncView>> {
    match u32(b, p) {
        Ok((count, q)) => code_entries(b, q, declared, count as nat, count as nat),
        Err(f) => Err(f),
    }
}

/// The extent of a section: its id, and where its content starts and ends.
pub struct Frame {
    pub id: u8,
    pub start: int,
    pub end: int,
}

/// The id and size that open a section. The offset that follows is the start of the
/// content, all of which lies inside the module.
pub open spec fn frame(b: Seq<u8>, p: int) -> Step<Frame> {
    match byte(b, p) {
        Ok((id, q)) => if id > 12 {
            Err(Fault { at: p, kind: ParseErrorKind::UnknownSectionId(id) })
        } else {
            match u32(b, q) {
                Ok((size, start)) => if start + size <= b.len() {
                    Ok((Frame { id, start, end: start + size }, start))
                } else {
                    Err(Fault { at: start, kind: ParseErrorKind::UnexpectedEof })
                },
                Err(f) => Err(f),
            }
        },
        Err(f) => Err(f),
    }
}

/// What the sections up to some offset have said.
#[verifier::ext_equal]
pub struct Progress {
    /// The module so far.
    pub module: ModuleView,
    /// The type indices of the function section.
    pub declared: Seq<u32>,
    /// The id of the last section that is not custom.
    pub last: Option<u8>,
}

impl Progress {
    /// Nothing has been said yet.
    pub open spec fn none() -> Progress {
        Progress { module: ModuleView::none(), declared: Seq::empty(), last: None }
    }

    /// Whether a section `id` may stand here: the ids of the sections that are not
    /// custom increase.
    pub open spec fn admits(self, id: u8) -> bool {
        id == 0 || self.last is None || self.last->0 < id
    }

    /// `id` is the section at hand.
    pub open spec fn reach(self, id: u8) -> Progress {
        if id == 0 {
            self
        } else {
            Progress { last: Some(id), ..self }
        }
    }
}

/// The content of a section and what it adds. A custom section has a name and then bytes
/// of its own up to its end. The sections without a meaning here are skipped to their end.
pub open spec fn content(b: Seq<u8>, f: Frame, st: Progress) -> Step<Progress> {
    let m = st.module;
    if f.id == 0 {
        match name(b, f.start) {
            Ok((n, q)) => Ok(
                (
                    Progress {
                        module: ModuleView { custom_sections: m.custom_sections.push(n), ..m },
                        ..st
                    },
                    if q <= f.end {
                        f.end
                    } else {
                        q
                    },
                ),
            ),
            Err(e) => Err(e),
        }
    } else if f.id == 1 {
        match vector(func_type_rule(), b, f.start) {
            Ok((types, q)) => Ok((Progress { module: ModuleView { types, ..m }, ..st }, q)),
            Err(e) => Err(e),
        }
    } else if f.id == 2 {
        match vector(import_rule(), b, f.start) {
            Ok((imports, q)) => Ok((Progress { module: ModuleView { imports, ..m }, ..st }, q)),
            Err(e) => Err(e),
        }
    } else if f.id == 3 {
        match vector(u32_rule(), b, f.start) {
            Ok((declared, q)) => Ok((Progress { declared, ..st }, q)),
            Err(e) => Err(e),
        }
    } else if f.id == 7 {
        match vector(export_rule(), b, f.start) {
            Ok((exports, q)) => Ok((Progress { module: ModuleView { exports, ..m }, ..st }, q)),
            Err(e) => Err(e),
        }
    } else if f.id == 8 {
        match u32(b, f.start) {
            Ok((index, q)) => Ok(
                (Progress { module: ModuleView { start: Some(index), ..m }, ..st }, q),
            ),
            Err(e) => Err(e),
        }
    } else if f.id == 10 {
        match code(b, f.start, st.declared) {
            Ok((funcs, q)) => Ok((Progress { module: ModuleView { funcs, ..m }, ..st }, q)),
            Err(e) => Err(e),
        }
    } else {
        Ok(
            (
                Progress {
                    module: ModuleView { skipped_sections: m.skipped_sections.push(f.id), ..m },
                    ..st
                },
                f.end,
            ),
        )
    }
}

/// One section, which must stand in order and consume exactly the bytes that it declares.
#[verifier::opaque]
pub open spec fn section(b: Seq<u8>, p: int, st: Progress) -> Step<Progress> {
    match frame(b, p) {
        Ok((f, _)) => if !st.admits(f.id) {
            Err(
                Fault {
                    at: p,
                    kind: ParseErrorKind::SectionOutOfOrder { previous: st.last->0, found: f.id },
                },
            )
        } else {
            match content(b, f, st.reach(f.id)) {
                Ok((next, q)) => if q == f.end {
                    Ok((next, q))
                } else {
                    Err(Fault { at: p, kind: ParseErrorKind::SectionSizeMismatch(f.id) })
                },
                Err(e) => Err(e),
            }
        },
        Err(e) => Err(e),
    }
}

/// A section takes up bytes.
pub proof fn lemma_section_advances(b: Seq<u8>, p: int, st: Progress)
    ensures
        section(b, p, st) matches Ok((_, q)) ==> 0 <= p < q <= b.len(),
{
    reveal(section);
    leb::law_uint_fits_its_width(b, p + 1, 32);
}

/// The sections from `p` to the end of the module.
pub open spec fn sections(b: Seq<u8>, p: int, st: Progress) -> Result<Progress, Fault>
    decreases b.len() - p,
{
    if p >= b.len() {
        Ok(st)
    } else {
        match section(b, p, st) {
            Ok((next, q)) => {
                proof {
                    lemma_section_advances(b, p, st);
                }
                sections(b, q, next)
            },
            Err(f) => Err(f),
        }
    }
}

/// The unsigned 32-bit integer in four bytes, the lowest byte first.
pub open spec fn le_u32(s: Seq<u8>) -> int {
    s[0] + 0x100 * s[1] + 0x1_0000 * s[2] + 0x100_0000 * s[3]
}

/// The magic number and the version.
pub open spec fn header(b: Seq<u8>) -> Step<()> {
    match raw(b, 0, 4) {
        Ok((magic, p)) => if magic != MAGIC@ {
            Err(Fault { at: 0, kind: ParseErrorKind::NotWasm })
        } else {
            match raw(b, p, 4) {
                Ok((version, q)) => if le_u32(version) != VERSION {
                    Err(
                        Fault {
                            at: p,
                            kind: ParseErrorKind::UnsupportedVersion(le_u32(version) as u32),
                        },
                    )
                } else {
                    Ok(((), q))
                },
                Err(f) => Err(f),
            }
        },
        Err(f) => Err(f),
    }
}

/// The type index of the first function from number `i` on that no type answers to.
pub open spec fn untyped(m: ModuleView, i: int) -> Option<u32>
    decreases m.funcs.len() - i,
{
    if i < 0 || i >= m.funcs.len() {
        None
    } else if m.funcs[i].type_index >= m.types.len() {
        Some(m.funcs[i].type_index)
    } else {
        untyped(m, i + 1)
    }
}

/// What must hold between the sections: each declared function has a body, and each
/// function a type. A defect here is noticed at the end of the module, which is `len` bytes
/// long.
pub open spec fn complete(len: int, st: Progress) -> Result<ModuleView, Fault> {
    if st.declared.len() != st.module.funcs.len() {
        Err(
            Fault {
                at: len,
                kind: ParseErrorKind::FunctionCodeMismatch {
                    declared: st.declared.len() as usize,
                    bodies: st.module.funcs.len() as usize,
                },
            },
        )
    } else {
        match untyped(st.module, 0) {
            Some(t) => Err(Fault { at: len, kind: ParseErrorKind::TypeIndexOutOfRange(t) }),
            None => Ok(st.module),
        }
    }
}

/// The module that `b` encodes.
pub open spec fn module(b: Seq<u8>) -> Result<ModuleView, Fault> {
    match header(b) {
        Ok((_, p)) => match sections(b, p, Progress::none()) {
            Ok(st) => complete(b.len() as int, st),
            Err(f) => Err(f),
        },
        Err(f) => Err(f),
    }
}

} // verus!
