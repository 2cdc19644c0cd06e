//! What is wrong with bytes that are not a module, and where it is noticed: the first piece
//! that cannot be read decides.

use crate::bounds;
use crate::grammar;
use crate::grammar::{Fault, Progress, Rule, Step};
use crate::leb::LebError;
use crate::module::{ExternKind, FuncView, ModuleView, ValType};
use crate::parser::{ParseErrorKind, MAGIC};
use crate::writing;
use crate::writing::Group;
use vstd::prelude::*;

verus! {

/// Whether `step` failed with `kind` at offset `at`.
pub open spec fn fails<T>(step: Step<T>, at: int, kind: ParseErrorKind) -> bool {
    step == Err::<(T, int), Fault>(Fault { at, kind })
}

/// Whether a failure of `part` is a failure of `whole`, the same one.
pub open spec fn passes_on<S, T>(part: Step<S>, whole: Step<T>) -> bool {
    part matches Err(f) ==> whole == Err::<(T, int), Fault>(f)
}

/// A byte fails only at the end of the input.
pub proof fn law_byte_faults(b: Seq<u8>, p: int)
    requires
        0 <= p <= b.len(),
    ensures
        p < b.len() ==> grammar::byte(b, p) == Ok::<(u8, int), Fault>((b[p], p + 1)),
        p == b.len() ==> fails(grammar::byte(b, p), p, ParseErrorKind::UnexpectedEof),
{
}

/// Raw bytes fail exactly when the input holds fewer, at their start.
pub proof fn law_raw_faults(b: Seq<u8>, p: int, len: nat)
    requires
        0 <= p <= b.len(),
    ensures
        p + len <= b.len() ==> (grammar::raw(b, p, len as int) matches Ok((x, q)) && {
            &&& q == p + len
            &&& x.len() == len
            &&& forall|i: int| 0 <= i < len ==> x[i] == b[p + i]
        }),
        p + len > b.len() ==> fails(
            grammar::raw(b, p, len as int),
            p,
            ParseErrorKind::UnexpectedEof,
        ),
{
}

/// An integer that cannot be read fails at its first byte. It ends too soon when the input
/// ends after at most four bytes that all ask for another, and overflows otherwise.
pub proof fn law_u32_faults(b: Seq<u8>, p: int)
    requires
        0 <= p <= b.len(),
    ensures
        grammar::u32(b, p) is Err ==> {
            let short = b.len() - p <= 4 && forall|i: int| p <= i < b.len() ==> b[i] >= 0x80;
            &&& short ==> fails(
                grammar::u32(b, p),
                p,
                ParseErrorKind::Leb(LebError::UnexpectedEof),
            )
            &&& !short ==> fails(grammar::u32(b, p), p, ParseErrorKind::Leb(LebError::Overflow))
        },
{
    writing::law_integer_faults(b, p, 32);
}

/// A name fails where its length does, or just past the length: when the input holds fewer
/// bytes than that, or when the bytes are not UTF-8.
pub proof fn law_name_faults(b: Seq<u8>, p: int, len: u32, q: int)
    requires
        0 <= p <= b.len(),
    ensures
        passes_on(grammar::u32(b, p), grammar::name(b, p)),
        p <= q <= b.len() && writing::writes_uint(b.subrange(p, q), len as nat) ==> {
            &&& q + len > b.len() ==> fails(
                grammar::name(b, p),
                q,
                ParseErrorKind::UnexpectedEof,
            )
            &&& q + len <= b.len() && !vstd::utf8::valid_utf8(b.subrange(q, q + len)) ==> fails(
                grammar::name(b, p),
                q,
                ParseErrorKind::InvalidUtf8,
            )
            &&& q + len <= b.len() && vstd::utf8::valid_utf8(b.subrange(q, q + len))
                ==> grammar::name(b, p) is Ok
        },
{
    writing::law_u32(b, p, len, q);
}

/// A byte that is no value type fails as such, at its place.
pub proof fn law_val_type_faults(b: Seq<u8>, p: int)
    requires
        0 <= p <= b.len(),
    ensures
        p == b.len() ==> fails(grammar::val_type(b, p), p, ParseErrorKind::UnexpectedEof),
        p < b.len() && !(0x7C <= b[p] <= 0x7F) ==> fails(
            grammar::val_type(b, p),
            p,
            ParseErrorKind::InvalidValType(b[p]),
        ),
        p < b.len() && 0x7C <= b[p] <= 0x7F ==> grammar::val_type(b, p) is Ok,
{
}

/// A byte that is no kind fails as such, at its place.
pub proof fn law_extern_kind_faults(b: Seq<u8>, p: int)
    requires
        0 <= p <= b.len(),
    ensures
        p == b.len() ==> fails(grammar::extern_kind(b, p), p, ParseErrorKind::UnexpectedEof),
        p < b.len() && b[p] > 3 ==> fails(
            grammar::extern_kind(b, p),
            p,
            ParseErrorKind::InvalidExternKind(b[p]),
        ),
        p < b.len() && b[p] <= 3 ==> grammar::extern_kind(b, p) is Ok,
{
}

/// A vector fails where its count does, or where the first item that cannot be read does.
pub proof fn law_vector_faults<T>(rule: Rule<T>, b: Seq<u8>, p: int, k: nat)
    ensures
        passes_on(grammar::u32(b, p), grammar::vector(rule, b, p)),
        grammar::u32(b, p) matches Ok((n, q)) ==> {
            &&& k < n ==> (grammar::repeat(rule, b, q, k) matches Ok((_, r)) ==> passes_on(
                rule(b, r),
                grammar::vector(rule, b, p),
            ))
            &&& k == n && grammar::repeat(rule, b, q, k) is Ok ==> grammar::vector(rule, b, p) is Ok
        },
{
    if let Ok((n, q)) = grammar::u32(b, p) {
        if k < n {
            grammar::lemma_repeat_fault(rule, b, q, k + 1, n as nat);
        }
    }
}

proof fn lemma_types_before(b: Seq<u8>, q: int, k: nat)
    requires
        0 <= q,
        q + k <= b.len(),
        forall|i: int| 0 <= i < k ==> 0x7C <= #[trigger] b[q + i] <= 0x7F,
    ensures
        grammar::repeat(grammar::val_type_rule(), b, q, k) matches Ok((_, r)) && r == q + k,
    decreases k,
{
    if k > 0 {
        assert(0x7C <= b[q + (k - 1)] <= 0x7F);
        lemma_types_before(b, q, (k - 1) as nat);
    }
}

/// A vector of value types fails where its count does, or at the first byte that is not a
/// value type or not there.
pub proof fn law_val_types_faults(b: Seq<u8>, p: int, k: nat)
    requires
        0 <= p <= b.len(),
    ensures
        passes_on(grammar::u32(b, p), grammar::val_types(b, p)),
        grammar::u32(b, p) matches Ok((n, q)) ==> {
            k < n && q + k <= b.len() && (forall|i: int|
                0 <= i < k ==> 0x7C <= #[trigger] b[q + i] <= 0x7F) ==> {
                &&& q + k == b.len() ==> fails(
                    grammar::val_types(b, p),
                    q + k,
                    ParseErrorKind::UnexpectedEof,
                )
                &&& q + k < b.len() && !(0x7C <= b[q + k] <= 0x7F) ==> fails(
                    grammar::val_types(b, p),
                    q + k,
                    ParseErrorKind::InvalidValType(b[q + k]),
                )
            }
        },
{
    bounds::lemma_u32(b, p);
    if let Ok((n, q)) = grammar::u32(b, p) {
        if k < n && q + k <= b.len() && (forall|i: int|
            0 <= i < k ==> 0x7C <= #[trigger] b[q + i] <= 0x7F) {
            lemma_types_before(b, q, k);
            law_vector_faults(grammar::val_type_rule(), b, p, k);
        }
    }
}

/// Limits fail at a flag that is neither `0x00` nor `0x01`, or where a bound does. The
/// bounds themselves are never at fault.
pub proof fn law_limits_faults(b: Seq<u8>, p: int)
    requires
        0 <= p <= b.len(),
    ensures
        p == b.len() ==> fails(grammar::limits(b, p), p, ParseErrorKind::UnexpectedEof),
        p < b.len() && b[p] > 1 ==> fails(
            grammar::limits(b, p),
            p,
            ParseErrorKind::InvalidLimits(b[p]),
        ),
        p < b.len() && b[p] <= 1 ==> {
            &&& passes_on(grammar::u32(b, p + 1), grammar::limits(b, p))
            &&& grammar::u32(b, p + 1) matches Ok((_, q)) ==> {
                &&& b[p] == 0 ==> grammar::limits(b, p) is Ok
                &&& b[p] == 1 ==> passes_on(grammar::u32(b, q), grammar::limits(b, p))
            }
        },
{
}

/// A signature fails at a tag that is not `0x60`, or where its types do.
pub proof fn law_func_type_faults(b: Seq<u8>, p: int)
    requires
        0 <= p <= b.len(),
    ensures
        p == b.len() ==> fails(grammar::func_type(b, p), p, ParseErrorKind::UnexpectedEof),
        p < b.len() && b[p] != 0x60 ==> fails(
            grammar::func_type(b, p),
            p,
            ParseErrorKind::InvalidFuncType(b[p]),
        ),
        p < b.len() && b[p] == 0x60 ==> {
            &&& passes_on(grammar::val_types(b, p + 1), grammar::func_type(b, p))
            &&& grammar::val_types(b, p + 1) matches Ok((_, q)) ==> passes_on(
                grammar::val_types(b, q),
                grammar::func_type(b, p),
            )
        },
{
}

/// An import fails where the first of its parts does.
pub proof fn law_import_faults(b: Seq<u8>, p: int)
    ensures
        passes_on(grammar::name(b, p), grammar::import(b, p)),
        grammar::name(b, p) matches Ok((_, q)) ==> {
            &&& passes_on(grammar::name(b, q), grammar::import(b, p))
            &&& grammar::name(b, q) matches Ok((_, r)) ==> {
                &&& passes_on(grammar::extern_kind(b, r), grammar::import(b, p))
                &&& grammar::extern_kind(b, r) matches Ok((kind, s)) ==> match kind {
                    ExternKind::Func => passes_on(grammar::u32(b, s), grammar::import(b, p)),
                    ExternKind::Table => {
                        &&& passes_on(grammar::byte(b, s), grammar::import(b, p))
                        &&& grammar::byte(b, s) is Ok ==> passes_on(
                            grammar::limits(b, s + 1),
                            grammar::import(b, p),
                        )
                    },
                    ExternKind::Memory => passes_on(grammar::limits(b, s), grammar::import(b, p)),
                    ExternKind::Global => {
                        &&& passes_on(grammar::val_type(b, s), grammar::import(b, p))
                        &&& grammar::val_type(b, s) is Ok ==> passes_on(
                            grammar::byte(b, s + 1),
                            grammar::import(b, p),
                        )
                    },
                }
            }
        },
{
}

/// An export fails where the first of its parts does.
pub proof fn law_export_faults(b: Seq<u8>, p: int)
    ensures
        passes_on(grammar::name(b, p), grammar::export(b, p)),
        grammar::name(b, p) matches Ok((_, q)) ==> {
            &&& passes_on(grammar::extern_kind(b, q), grammar::export(b, p))
            &&& grammar::extern_kind(b, q) matches Ok((_, r)) ==> passes_on(
                grammar::u32(b, r),
                grammar::export(b, p),
            )
        },
{
}

/// Locals fail where the number of groups does, or at the first group that cannot be read,
/// or at the start of the group that takes them over 100 000, with how many that makes.
pub proof fn law_locals_faults(
    b: Seq<u8>,
    p: int,
    groups: Seq<Group>,
    before: Seq<ValType>,
    r: int,
)
    requires
        0 <= p <= b.len(),
    ensures
        passes_on(grammar::u32(b, p), grammar::locals(b, p)),
        grammar::u32(b, p) matches Ok((n, q)) ==> {
            q <= r <= b.len() && writing::writes_groups(b.subrange(q, r), groups, before)
                && groups.len() < n ==> {
                &&& passes_on(grammar::u32(b, r), grammar::locals(b, p))
                &&& grammar::u32(b, r) matches Ok((count, s)) ==> {
                    &&& passes_on(grammar::val_type(b, s), grammar::locals(b, p))
                    &&& grammar::val_type(b, s) is Ok && before.len() + count > 100_000 ==> fails(
                        grammar::locals(b, p),
                        r,
                        ParseErrorKind::TooManyLocals((before.len() + count) as u64),
                    )
                }
            }
        },
{
    bounds::lemma_u32(b, p);
    if let Ok((n, q)) = grammar::u32(b, p) {
        if q <= r <= b.len() && writing::writes_groups(b.subrange(q, r), groups, before)
            && groups.len() < n {
            writing::lemma_groups_read(b, q, groups, before, r);
            grammar::lemma_local_groups_fault(b, q, groups.len() + 1, n as nat);
        }
    }
}

/// An entry of the code section fails where its size or its locals do; where its content
/// starts, when the input is too short for it; where its locals end, when that is past the
/// entry; at its end, when the `end` opcode does not stand there; and where its content
/// starts, when the function section declares fewer functions.
pub proof fn law_code_entry_faults(
    b: Seq<u8>,
    p: int,
    declared: Seq<u32>,
    index: nat,
    count: nat,
)
    requires
        0 <= p <= b.len(),
        declared.len() <= usize::MAX,
        count <= usize::MAX,
    ensures
        ({
            let entry = grammar::code_entry(b, p, declared, index, count);
            &&& passes_on(grammar::u32(b, p), entry)
            &&& grammar::u32(b, p) matches Ok((size, start)) ==> {
                &&& start + size > b.len() ==> fails(entry, start, ParseErrorKind::UnexpectedEof)
                &&& start + size <= b.len() ==> {
                    &&& passes_on(grammar::locals(b, start), entry)
                    &&& grammar::locals(b, start) matches Ok((_, q)) ==> {
                        let end = start + size;
                        let ended = q < end && b[end - 1] == 0x0B;
                        &&& q > end ==> fails(entry, q, ParseErrorKind::UnexpectedEof)
                        &&& q <= end && !ended ==> fails(entry, end, ParseErrorKind::MissingEnd)
                        &&& ended && index < declared.len() ==> entry is Ok
                        &&& ended && index >= declared.len() ==> (entry matches Err(f) && {
                            &&& f.at == start
                            &&& f.kind matches ParseErrorKind::FunctionCodeMismatch {
                                declared: d,
                                bodies,
                            } && d == declared.len() && bodies == count
                        })
                    }
                }
            }
        }),
{
}

/// The code section fails where its count does, or where the first entry that cannot be read
/// does.
pub proof fn law_code_faults(b: Seq<u8>, p: int, declared: Seq<u32>, k: nat)
    ensures
        passes_on(grammar::u32(b, p), grammar::code(b, p, declared)),
        grammar::u32(b, p) matches Ok((n, q)) ==> {
            k < n ==> (grammar::code_entries(b, q, declared, n as nat, k) matches Ok((_, r))
                ==> passes_on(
                grammar::code_entry(b, r, declared, k, n as nat),
                grammar::code(b, p, declared),
            ))
        },
{
    if let Ok((n, q)) = grammar::u32(b, p) {
        if k < n {
            grammar::lemma_code_entries_fault(b, q, declared, n as nat, k + 1, n as nat);
        }
    }
}

/// The frame of a section fails at an id above 12, or where the size does, or where the
/// content starts, when the input is too short for it.
pub proof fn law_frame_faults(b: Seq<u8>, p: int)
    requires
        0 <= p < b.len(),
    ensures
        b[p] > 12 ==> fails(grammar::frame(b, p), p, ParseErrorKind::UnknownSectionId(b[p])),
        b[p] <= 12 ==> {
            &&& passes_on(grammar::u32(b, p + 1), grammar::frame(b, p))
            &&& grammar::u32(b, p + 1) matches Ok((size, start)) ==> {
                &&& start + size > b.len() ==> fails(
                    grammar::frame(b, p),
                    start,
                    ParseErrorKind::UnexpectedEof,
                )
                &&& start + size <= b.len() ==> grammar::frame(b, p) is Ok
            }
        },
{
}

/// Whether `section`, at `p`, fails as its content does, or for its size when the content
/// does not end at `end`.
pub open spec fn fills<S, T>(content: Step<S>, section: Step<T>, id: u8, p: int, end: int) -> bool {
    &&& passes_on(content, section)
    &&& content matches Ok((_, q)) ==> {
        &&& q != end ==> fails(section, p, ParseErrorKind::SectionSizeMismatch(id))
        &&& q == end ==> section is Ok
    }
}

/// A section fails where its frame does; at its id, when that does not come after the last
/// one; where its content does; and at its id, when the content does not fill the section.
/// A custom section only has to be long enough for its name, and no content of a skipped
/// section fails.
pub proof fn law_section_faults(b: Seq<u8>, p: int, st: Progress)
    requires
        0 <= p < b.len(),
    ensures
        passes_on(grammar::frame(b, p), grammar::section(b, p, st)),
        grammar::frame(b, p) matches Ok((f, _)) ==> {
            let section = grammar::section(b, p, st);
            let late = f.id != 0 && st.last is Some && st.last->0 >= f.id;
            &&& late ==> fails(
                section,
                p,
                ParseErrorKind::SectionOutOfOrder { previous: st.last->0, found: f.id },
            )
            &&& !late ==> {
                &&& f.id == 0 ==> {
                    &&& passes_on(grammar::name(b, f.start), section)
                    &&& grammar::name(b, f.start) matches Ok((_, q)) ==> {
                        &&& q > f.end ==> fails(section, p, ParseErrorKind::SectionSizeMismatch(0))
                        &&& q <= f.end ==> section is Ok
                    }
                }
                &&& f.id == 1 ==> fills(
                    grammar::vector(grammar::func_type_rule(), b, f.start),
                    section,
                    1,
                    p,
                    f.end,
                )
                &&& f.id == 2 ==> fills(
                    grammar::vector(grammar::import_rule(), b, f.start),
                    section,
                    2,
                    p,
                    f.end,
                )
                &&& f.id == 3 ==> fills(
                    grammar::vector(grammar::u32_rule(), b, f.start),
                    section,
                    3,
                    p,
                    f.end,
                )
                &&& f.id == 7 ==> fills(
                    grammar::vector(grammar::export_rule(), b, f.start),
                    section,
                    7,
                    p,
                    f.end,
                )
                &&& f.id == 8 ==> fills(grammar::u32(b, f.start), section, 8, p, f.end)
                &&& f.id == 10 ==> fills(
                    grammar::code(b, f.start, st.declared),
                    section,
                    10,
                    p,
                    f.end,
                )
                &&& (f.id == 4 || f.id == 5 || f.id == 6 || f.id == 9 || f.id == 11 || f.id == 12)
                    ==> section is Ok
            }
        },
{
    reveal(grammar::section);
}

/// What is known after a section: its own part is new, and the rest is as it was before.
pub proof fn law_sections_keep_the_rest(b: Seq<u8>, p: int, st: Progress)
    ensures
        grammar::section(b, p, st) matches Ok((next, q)) ==> (grammar::frame(b, p) matches Ok(
            (f, _),
        ) && {
            &&& q == f.end
            &&& next.last == if f.id == 0 { st.last } else { Some(f.id) }
            &&& f.id != 1 ==> next.module.types == st.module.types
            &&& f.id != 2 ==> next.module.imports == st.module.imports
            &&& f.id != 3 ==> next.declared == st.declared
            &&& f.id != 7 ==> next.module.exports == st.module.exports
            &&& f.id != 8 ==> next.module.start == st.module.start
            &&& f.id != 10 ==> next.module.funcs == st.module.funcs
            &&& f.id != 0 ==> next.module.custom_sections == st.module.custom_sections
            &&& f.id == 3 ==> grammar::vector(grammar::u32_rule(), b, f.start) == Ok::<_, Fault>(
                (next.declared, q),
            )
            &&& f.id == 10 ==> grammar::code(b, f.start, st.declared) == Ok::<_, Fault>(
                (next.module.funcs, q),
            )
            &&& f.id == 1 ==> grammar::vector(grammar::func_type_rule(), b, f.start) == Ok::<
                _,
                Fault,
            >((next.module.types, q))
        }),
{
    reveal(grammar::section);
}

/// The first section that cannot be read decides.
pub proof fn law_first_bad_section_decides(b: Seq<u8>, p: int, st: Progress)
    requires
        0 <= p <= b.len(),
    ensures
        p == b.len() ==> grammar::sections(b, p, st) == Ok::<Progress, Fault>(st),
        p < b.len() ==> match grammar::section(b, p, st) {
            Err(f) => grammar::sections(b, p, st) == Err::<Progress, Fault>(f),
            Ok((next, q)) => p < q <= b.len() && grammar::sections(b, p, st) == grammar::sections(
                b,
                q,
                next,
            ),
        },
{
    bounds::lemma_section(b, p, st);
}

/// A header fails at 0, when the input is shorter than the magic number or starts with other
/// bytes, and at 4, when it ends within the version or the version is another.
pub proof fn law_header_faults(b: Seq<u8>)
    ensures
        b.len() < 4 ==> fails(grammar::header(b), 0, ParseErrorKind::UnexpectedEof),
        b.len() >= 4 && !(b[0] == 0x00 && b[1] == 0x61 && b[2] == 0x73 && b[3] == 0x6D) ==> fails(
            grammar::header(b),
            0,
            ParseErrorKind::NotWasm,
        ),
        b.len() >= 4 && b[0] == 0x00 && b[1] == 0x61 && b[2] == 0x73 && b[3] == 0x6D ==> {
            let version = b[4] + 0x100 * b[5] + 0x1_0000 * b[6] + 0x100_0000 * b[7];
            &&& b.len() < 8 ==> fails(grammar::header(b), 4, ParseErrorKind::UnexpectedEof)
            &&& b.len() >= 8 && version != 1 ==> fails(
                grammar::header(b),
                4,
                ParseErrorKind::UnsupportedVersion(version as u32),
            )
        },
{
    assert(MAGIC@ =~= seq![0x00u8, 0x61u8, 0x73u8, 0x6Du8]);
    if b.len() >= 4 {
        let x = b.subrange(0, 4);
        assert(x[0] == b[0] && x[1] == b[1] && x[2] == b[2] && x[3] == b[3]);
        if b[0] == 0x00 && b[1] == 0x61 && b[2] == 0x73 && b[3] == 0x6D {
            assert(x =~= MAGIC@);
        }
        if b.len() >= 8 {
            let y = b.subrange(4, 8);
            assert(y[0] == b[4] && y[1] == b[5] && y[2] == b[6] && y[3] == b[7]);
        }
    }
}

/// The first function without a type, if there is one, is found.
proof fn lemma_first_untyped(m: ModuleView, i: int, k: int)
    requires
        0 <= i <= k < m.funcs.len(),
        m.funcs[k].type_index >= m.types.len(),
        forall|j: int| i <= j < k ==> (#[trigger] m.funcs[j]).type_index < m.types.len(),
    ensures
        grammar::untyped(m, i) == Some(m.funcs[k].type_index),
    decreases k - i,
{
    if i < k {
        assert(m.funcs[i].type_index < m.types.len());
        lemma_first_untyped(m, i + 1, k);
    }
}

/// A module fails where its header does, then where its sections do. Sections that can all
/// be read fail at the end of the module: for the numbers of functions that are declared and
/// that have bodies, when they differ, and otherwise for the type index of the first function
/// that has no type. `k` is the number of that function.
pub proof fn law_module_faults(b: Seq<u8>, k: int)
    ensures
        grammar::header(b) matches Err(f) ==> grammar::module(b) == Err::<ModuleView, Fault>(f),
        grammar::header(b) is Ok ==> match grammar::sections(b, 8, Progress::none()) {
            Err(f) => grammar::module(b) == Err::<ModuleView, Fault>(f),
            Ok(st) => {
                let funcs: Seq<FuncView> = st.module.funcs;
                &&& st.declared.len() != funcs.len() && st.declared.len() <= usize::MAX
                    && funcs.len() <= usize::MAX ==> (grammar::module(b) matches Err(f) && {
                    &&& f.at == b.len()
                    &&& f.kind matches ParseErrorKind::FunctionCodeMismatch {
                        declared,
                        bodies,
                    } && declared == st.declared.len() && bodies == funcs.len()
                })
                &&& st.declared.len() == funcs.len() && 0 <= k < funcs.len()
                    && funcs[k].type_index >= st.module.types.len() && (forall|j: int|
                    0 <= j < k ==> (#[trigger] funcs[j]).type_index < st.module.types.len())
                    ==> grammar::module(b) == Err::<ModuleView, Fault>(
                    Fault {
                        at: b.len() as int,
                        kind: ParseErrorKind::TypeIndexOutOfRange(funcs[k].type_index),
                    },
                )
            },
        },
{
    if grammar::header(b) is Ok {
        if let Ok(st) = grammar::sections(b, 8, Progress::none()) {
            let m = st.module;
            if 0 <= k < m.funcs.len() && m.funcs[k].type_index >= m.types.len() && (forall|j: int|
                0 <= j < k ==> (#[trigger] m.funcs[j]).type_index < m.types.len()) {
                lemma_first_untyped(m, 0, k);
            }
        }
    }
}

} // verus!
