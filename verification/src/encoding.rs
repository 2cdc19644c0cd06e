//! A plain encoding of modules, with one group for each local and empty skipped sections,
//! and the proof that it decodes to the module it was made from.

use crate::grammar;
use crate::grammar::{Fault, Frame, Progress, Rule};
use crate::leb;
use crate::module::{
    ExportView, ExternKind, FuncTypeView, FuncView, ImportView, ModuleView, ValType,
};
use crate::parser::{MAGIC, MAX_LOCALS};
use crate::structure;
use vstd::prelude::*;

verus! {

/// Whether the bytes `x` stand in `b` at offset `p`.
pub open spec fn stands(b: Seq<u8>, p: int, x: Seq<u8>) -> bool {
    &&& 0 <= p <= p + x.len() <= b.len()
    &&& b.subrange(p, p + x.len()) == x
}

/// Where two byte strings stand together, each stands in its place.
proof fn lemma_stands_split(b: Seq<u8>, p: int, x: Seq<u8>, y: Seq<u8>)
    requires
        stands(b, p, x + y),
    ensures
        stands(b, p, x),
        stands(b, p + x.len(), y),
{
    let xy = b.subrange(p, p + (x + y).len());
    assert(b.subrange(p, p + x.len()) =~= xy.subrange(0, x.len() as int));
    assert(x =~= (x + y).subrange(0, x.len() as int));
    assert(b.subrange(p + x.len(), p + x.len() + y.len()) =~= xy.subrange(
        x.len() as int,
        (x + y).len() as int,
    ));
    assert(y =~= (x + y).subrange(x.len() as int, (x + y).len() as int));
}

proof fn lemma_stands_byte(b: Seq<u8>, p: int, v: u8)
    requires
        stands(b, p, seq![v]),
    ensures
        grammar::byte(b, p) == Ok::<(u8, int), Fault>((v, p + 1)),
{
    assert(b.subrange(p, p + 1)[0] == v);
}

/// The encodings of `items`, one after another.
pub open spec fn concat<T>(bytes: spec_fn(T) -> Seq<u8>, items: Seq<T>) -> Seq<u8>
    decreases items.len(),
{
    if items.len() == 0 {
        Seq::empty()
    } else {
        concat(bytes, items.drop_last()) + bytes(items.last())
    }
}

/// The encoding of a vector.
pub open spec fn vector_bytes<T>(bytes: spec_fn(T) -> Seq<u8>, items: Seq<T>) -> Seq<u8> {
    leb::uint_bytes(items.len()) + concat(bytes, items)
}

/// Whether `rule` reads `item` back from its encoding, wherever in `b` that stands.
pub open spec fn reads_back<T>(
    b: Seq<u8>,
    rule: Rule<T>,
    bytes: spec_fn(T) -> Seq<u8>,
    item: T,
) -> bool {
    forall|p: int|
        stands(b, p, bytes(item)) ==> #[trigger] rule(b, p) == Ok::<(T, int), Fault>(
            (item, p + bytes(item).len()),
        )
}

proof fn lemma_u32(b: Seq<u8>, p: int, v: nat)
    requires
        v <= u32::MAX,
        stands(b, p, leb::uint_bytes(v)),
    ensures
        grammar::u32(b, p) == Ok::<(u32, int), Fault>((v as u32, p + leb::uint_bytes(v).len())),
{
    vstd::arithmetic::power2::lemma2_to64();
    leb::law_uint_reads_back(b, p, v, 32);
}

proof fn lemma_repeat<T>(
    b: Seq<u8>,
    p: int,
    rule: Rule<T>,
    bytes: spec_fn(T) -> Seq<u8>,
    items: Seq<T>,
)
    requires
        forall|i: int| 0 <= i < items.len() ==> reads_back(b, rule, bytes, #[trigger] items[i]),
        stands(b, p, concat(bytes, items)),
    ensures
        grammar::repeat(rule, b, p, items.len()) == Ok::<(Seq<T>, int), Fault>(
            (items, p + concat(bytes, items).len()),
        ),
    decreases items.len(),
{
    if items.len() > 0 {
        let init = items.drop_last();
        let last = items.last();
        assert(reads_back(b, rule, bytes, items[items.len() - 1]));
        lemma_stands_split(b, p, concat(bytes, init), bytes(last));
        assert forall|i: int| 0 <= i < init.len() implies reads_back(
            b,
            rule,
            bytes,
            #[trigger] init[i],
        ) by {
            assert(reads_back(b, rule, bytes, items[i]));
        }
        lemma_repeat(b, p, rule, bytes, init);
        let q = p + concat(bytes, init).len();
        assert(rule(b, q) == Ok::<(T, int), Fault>((last, q + bytes(last).len())));
        assert(init.push(last) =~= items);
    } else {
        assert(items =~= Seq::empty());
    }
}

/// A vector of readable items is read back.
proof fn lemma_vector<T>(
    b: Seq<u8>,
    p: int,
    rule: Rule<T>,
    bytes: spec_fn(T) -> Seq<u8>,
    items: Seq<T>,
)
    requires
        items.len() <= u32::MAX,
        forall|i: int| 0 <= i < items.len() ==> reads_back(b, rule, bytes, #[trigger] items[i]),
        stands(b, p, vector_bytes(bytes, items)),
    ensures
        grammar::vector(rule, b, p) == Ok::<(Seq<T>, int), Fault>(
            (items, p + vector_bytes(bytes, items).len()),
        ),
{
    lemma_stands_split(b, p, leb::uint_bytes(items.len()), concat(bytes, items));
    lemma_u32(b, p, items.len());
    lemma_repeat(b, p + leb::uint_bytes(items.len()).len(), rule, bytes, items);
}

/// Whether a `u32` counts the bytes of the name.
pub open spec fn name_fits(name: Seq<char>) -> bool {
    vstd::utf8::encode_utf8(name).len() <= u32::MAX
}

/// The encoding of a name.
pub open spec fn name_bytes(name: Seq<char>) -> Seq<u8> {
    leb::uint_bytes(vstd::utf8::encode_utf8(name).len()) + vstd::utf8::encode_utf8(name)
}

/// A name is read back from its encoding.
pub proof fn law_name_reads_back(b: Seq<u8>, p: int, name: Seq<char>)
    requires
        name_fits(name),
        stands(b, p, name_bytes(name)),
    ensures
        grammar::name(b, p) == Ok::<(Seq<char>, int), Fault>((name, p + name_bytes(name).len())),
{
    let text = vstd::utf8::encode_utf8(name);
    lemma_stands_split(b, p, leb::uint_bytes(text.len()), text);
    lemma_u32(b, p, text.len());
    vstd::utf8::encode_utf8_valid_utf8(name);
    vstd::utf8::encode_utf8_decode_utf8(name);
}

pub open spec fn val_type_bytes() -> spec_fn(ValType) -> Seq<u8> {
    |ty: ValType| seq![ty.byte()]
}

proof fn lemma_val_types(b: Seq<u8>, p: int, types: Seq<ValType>)
    requires
        types.len() <= u32::MAX,
        stands(b, p, vector_bytes(val_type_bytes(), types)),
    ensures
        grammar::val_types(b, p) == Ok::<(Seq<ValType>, int), Fault>(
            (types, p + vector_bytes(val_type_bytes(), types).len()),
        ),
{
    let rule = grammar::val_type_rule();
    let bytes = val_type_bytes();
    assert forall|i: int| 0 <= i < types.len() implies reads_back(
        b,
        rule,
        bytes,
        #[trigger] types[i],
    ) by {
        assert forall|p: int| stands(b, p, bytes(types[i])) implies #[trigger] rule(b, p) == Ok::<
            (ValType, int),
            Fault,
        >((types[i], p + bytes(types[i]).len())) by {
            lemma_stands_byte(b, p, types[i].byte());
        }
    }
    lemma_vector(b, p, rule, bytes, types);
}

/// Whether a `u32` counts the parameters and the results.
pub open spec fn func_type_fits(ty: FuncTypeView) -> bool {
    ty.params.len() <= u32::MAX && ty.results.len() <= u32::MAX
}

/// The encoding of an entry of the type section.
pub open spec fn func_type_bytes() -> spec_fn(FuncTypeView) -> Seq<u8> {
    |ty: FuncTypeView|
        seq![0x60u8] + (vector_bytes(val_type_bytes(), ty.params) + vector_bytes(
            val_type_bytes(),
            ty.results,
        ))
}

/// A signature is read back from its encoding.
pub proof fn law_func_type_reads_back(b: Seq<u8>, ty: FuncTypeView)
    requires
        func_type_fits(ty),
    ensures
        reads_back(b, grammar::func_type_rule(), func_type_bytes(), ty),
{
    let rule = grammar::func_type_rule();
    let bytes = func_type_bytes();
    let params = vector_bytes(val_type_bytes(), ty.params);
    let results = vector_bytes(val_type_bytes(), ty.results);
    assert forall|p: int| stands(b, p, bytes(ty)) implies #[trigger] rule(b, p) == Ok::<
        (FuncTypeView, int),
        Fault,
    >((ty, p + bytes(ty).len())) by {
        lemma_stands_split(b, p, seq![0x60u8], params + results);
        lemma_stands_byte(b, p, 0x60);
        lemma_stands_split(b, p + 1, params, results);
        lemma_val_types(b, p + 1, ty.params);
        lemma_val_types(b, p + 1 + params.len(), ty.results);
    }
}

/// Whether the names fit, and a type index is there just for a function.
pub open spec fn import_fits(import: ImportView) -> bool {
    &&& name_fits(import.module)
    &&& name_fits(import.name)
    &&& import.kind is Func <==> import.type_index is Some
}

/// What an import says of the thing imported. A table or memory has no elements or pages
/// to start with, and a global is an immutable `i32`.
pub open spec fn import_desc_bytes(import: ImportView) -> Seq<u8> {
    match import.kind {
        ExternKind::Func => leb::uint_bytes(import.type_index->0 as nat),
        ExternKind::Table => seq![0x70u8] + (seq![0x00u8] + leb::uint_bytes(0)),
        ExternKind::Memory => seq![0x00u8] + leb::uint_bytes(0),
        ExternKind::Global => seq![0x7Fu8] + seq![0x00u8],
    }
}

/// The encoding of an entry of the import section.
pub open spec fn import_bytes() -> spec_fn(ImportView) -> Seq<u8> {
    |import: ImportView|
        name_bytes(import.module) + (name_bytes(import.name) + (seq![import.kind.byte()]
            + import_desc_bytes(import)))
}

proof fn lemma_limits(b: Seq<u8>, p: int)
    requires
        stands(b, p, seq![0x00u8] + leb::uint_bytes(0)),
    ensures
        grammar::limits(b, p) == Ok::<((), int), Fault>(
            ((), p + 1 + leb::uint_bytes(0).len()),
        ),
{
    lemma_stands_split(b, p, seq![0x00u8], leb::uint_bytes(0));
    lemma_stands_byte(b, p, 0x00);
    lemma_u32(b, p + 1, 0);
}

proof fn lemma_import_desc(b: Seq<u8>, p: int, import: ImportView)
    requires
        import_fits(import),
        stands(b, p, import_desc_bytes(import)),
    ensures
        grammar::import_desc(b, p, import.kind) == Ok::<(Option<u32>, int), Fault>(
            (import.type_index, p + import_desc_bytes(import).len()),
        ),
{
    match import.kind {
        ExternKind::Func => {
            lemma_u32(b, p, import.type_index->0 as nat);
        },
        ExternKind::Table => {
            lemma_stands_split(b, p, seq![0x70u8], seq![0x00u8] + leb::uint_bytes(0));
            lemma_stands_byte(b, p, 0x70);
            lemma_limits(b, p + 1);
        },
        ExternKind::Memory => {
            lemma_limits(b, p);
        },
        ExternKind::Global => {
            lemma_stands_split(b, p, seq![0x7Fu8], seq![0x00u8]);
            lemma_stands_byte(b, p, 0x7F);
            lemma_stands_byte(b, p + 1, 0x00);
        },
    }
}

/// An import is read back from its encoding.
pub proof fn law_import_reads_back(b: Seq<u8>, import: ImportView)
    requires
        import_fits(import),
    ensures
        reads_back(b, grammar::import_rule(), import_bytes(), import),
{
    let rule = grammar::import_rule();
    let bytes = import_bytes();
    let module = name_bytes(import.module);
    let name = name_bytes(import.name);
    let kind = seq![import.kind.byte()];
    let desc = import_desc_bytes(import);
    assert forall|p: int| stands(b, p, bytes(import)) implies #[trigger] rule(b, p) == Ok::<
        (ImportView, int),
        Fault,
    >((import, p + bytes(import).len())) by {
        lemma_stands_split(b, p, module, name + (kind + desc));
        law_name_reads_back(b, p, import.module);
        let q = p + module.len();
        lemma_stands_split(b, q, name, kind + desc);
        law_name_reads_back(b, q, import.name);
        let r = q + name.len();
        lemma_stands_split(b, r, kind, desc);
        lemma_stands_byte(b, r, import.kind.byte());
        lemma_import_desc(b, r + 1, import);
    }
}

/// The encoding of an entry of the export section.
pub open spec fn export_bytes() -> spec_fn(ExportView) -> Seq<u8> {
    |export: ExportView|
        name_bytes(export.name) + (seq![export.kind.byte()] + leb::uint_bytes(export.index as nat))
}

/// An export is read back from its encoding.
pub proof fn law_export_reads_back(b: Seq<u8>, export: ExportView)
    requires
        name_fits(export.name),
    ensures
        reads_back(b, grammar::export_rule(), export_bytes(), export),
{
    let rule = grammar::export_rule();
    let bytes = export_bytes();
    let name = name_bytes(export.name);
    let kind = seq![export.kind.byte()];
    let index = leb::uint_bytes(export.index as nat);
    assert forall|p: int| stands(b, p, bytes(export)) implies #[trigger] rule(b, p) == Ok::<
        (ExportView, int),
        Fault,
    >((export, p + bytes(export).len())) by {
        lemma_stands_split(b, p, name, kind + index);
        law_name_reads_back(b, p, export.name);
        let q = p + name.len();
        lemma_stands_split(b, q, kind, index);
        lemma_stands_byte(b, q, export.kind.byte());
        lemma_u32(b, q + 1, export.index as nat);
    }
}

/// The encoding of a type index of the function section.
pub open spec fn index_bytes() -> spec_fn(u32) -> Seq<u8> {
    |index: u32| leb::uint_bytes(index as nat)
}

proof fn lemma_index(b: Seq<u8>, index: u32)
    ensures
        reads_back(b, grammar::u32_rule(), index_bytes(), index),
{
    let rule = grammar::u32_rule();
    let bytes = index_bytes();
    assert forall|p: int| stands(b, p, bytes(index)) implies #[trigger] rule(b, p) == Ok::<
        (u32, int),
        Fault,
    >((index, p + bytes(index).len())) by {
        lemma_u32(b, p, index as nat);
    }
}

/// The encoding of one local as a group of its own.
pub open spec fn local_bytes() -> spec_fn(ValType) -> Seq<u8> {
    |ty: ValType| leb::uint_bytes(1) + seq![ty.byte()]
}

proof fn lemma_local_groups(b: Seq<u8>, p: int, locals: Seq<ValType>)
    requires
        locals.len() <= MAX_LOCALS,
        stands(b, p, concat(local_bytes(), locals)),
    ensures
        grammar::local_groups(b, p, locals.len()) == Ok::<(Seq<ValType>, int), Fault>(
            (locals, p + concat(local_bytes(), locals).len()),
        ),
    decreases locals.len(),
{
    if locals.len() > 0 {
        let init = locals.drop_last();
        let ty = locals.last();
        let before = concat(local_bytes(), init);
        lemma_stands_split(b, p, before, local_bytes()(ty));
        lemma_local_groups(b, p, init);
        let q = p + before.len();
        lemma_stands_split(b, q, leb::uint_bytes(1), seq![ty.byte()]);
        lemma_u32(b, q, 1);
        lemma_stands_byte(b, q + leb::uint_bytes(1).len(), ty.byte());
        assert(init + Seq::new(1, |i: int| ty) =~= locals);
    } else {
        assert(locals =~= Seq::empty());
    }
}

/// Whether the function can stand in a code section.
pub open spec fn func_fits(f: FuncView) -> bool {
    &&& f.locals.len() <= MAX_LOCALS
    &&& f.body.len() > 0
    &&& f.body.last() == 0x0B
    &&& (vector_bytes(local_bytes(), f.locals) + f.body).len() <= u32::MAX
}

/// The encoding of an entry of the code section.
pub open spec fn func_bytes() -> spec_fn(FuncView) -> Seq<u8> {
    |f: FuncView|
        leb::uint_bytes((vector_bytes(local_bytes(), f.locals) + f.body).len()) + (vector_bytes(
            local_bytes(),
            f.locals,
        ) + f.body)
}

/// A function is read back from its encoding, with the type index that the function
/// section gives it.
pub proof fn law_func_reads_back(
    b: Seq<u8>,
    p: int,
    f: FuncView,
    declared: Seq<u32>,
    index: nat,
    count: nat,
)
    requires
        func_fits(f),
        index < declared.len(),
        declared[index as int] == f.type_index,
        stands(b, p, func_bytes()(f)),
    ensures
        grammar::code_entry(b, p, declared, index, count) == Ok::<(FuncView, int), Fault>(
            (f, p + func_bytes()(f).len()),
        ),
{
    let locals = vector_bytes(local_bytes(), f.locals);
    let entry = locals + f.body;
    let size = leb::uint_bytes(entry.len());
    lemma_stands_split(b, p, size, entry);
    lemma_u32(b, p, entry.len());
    let start = p + size.len();
    lemma_stands_split(b, start, locals, f.body);
    lemma_stands_split(
        b,
        start,
        leb::uint_bytes(f.locals.len()),
        concat(local_bytes(), f.locals),
    );
    lemma_u32(b, start, f.locals.len());
    lemma_local_groups(b, start + leb::uint_bytes(f.locals.len()).len(), f.locals);
    let q = start + locals.len();
    let end = q + f.body.len();
    assert(b[end - 1] == b.subrange(q, end)[f.body.len() - 1]);
}

proof fn lemma_code_entries(
    b: Seq<u8>,
    p: int,
    funcs: Seq<FuncView>,
    declared: Seq<u32>,
    count: nat,
)
    requires
        funcs.len() <= declared.len(),
        forall|i: int|
            #![trigger funcs[i]]
            0 <= i < funcs.len() ==> func_fits(funcs[i]) && funcs[i].type_index == declared[i],
        stands(b, p, concat(func_bytes(), funcs)),
    ensures
        grammar::code_entries(b, p, declared, count, funcs.len()) == Ok::<
            (Seq<FuncView>, int),
            Fault,
        >((funcs, p + concat(func_bytes(), funcs).len())),
    decreases funcs.len(),
{
    if funcs.len() > 0 {
        let init = funcs.drop_last();
        let k = init.len();
        let f = funcs[k as int];
        lemma_stands_split(b, p, concat(func_bytes(), init), func_bytes()(f));
        lemma_code_entries(b, p, init, declared, count);
        law_func_reads_back(b, p + concat(func_bytes(), init).len(), f, declared, k, count);
        assert(init.push(f) =~= funcs);
    } else {
        assert(funcs =~= Seq::empty());
    }
}

proof fn lemma_code(b: Seq<u8>, p: int, funcs: Seq<FuncView>, declared: Seq<u32>)
    requires
        funcs.len() == declared.len() <= u32::MAX,
        forall|i: int|
            #![trigger funcs[i]]
            0 <= i < funcs.len() ==> func_fits(funcs[i]) && funcs[i].type_index == declared[i],
        stands(b, p, vector_bytes(func_bytes(), funcs)),
    ensures
        grammar::code(b, p, declared) == Ok::<(Seq<FuncView>, int), Fault>(
            (funcs, p + vector_bytes(func_bytes(), funcs).len()),
        ),
{
    let n = leb::uint_bytes(funcs.len());
    lemma_stands_split(b, p, n, concat(func_bytes(), funcs));
    lemma_u32(b, p, funcs.len());
    lemma_code_entries(b, p + n.len(), funcs, declared, funcs.len());
}

/// The type indices that the function section lists.
pub open spec fn declared_of(m: ModuleView) -> Seq<u32> {
    m.funcs.map_values(|f: FuncView| f.type_index)
}

/// Whether the encoding of `m` has a section `id`: one for each kind of entry, a start
/// section when there is a start function, and the skipped sections.
pub open spec fn has_section(m: ModuleView, id: nat) -> bool {
    if structure::is_skipped(id as u8) {
        m.skipped_sections.contains(id as u8)
    } else {
        id == 8 ==> m.start is Some
    }
}

/// The content of section `id`. The skipped sections are empty.
pub open spec fn content_bytes(m: ModuleView, id: nat) -> Seq<u8> {
    if id == 1 {
        vector_bytes(func_type_bytes(), m.types)
    } else if id == 2 {
        vector_bytes(import_bytes(), m.imports)
    } else if id == 3 {
        vector_bytes(index_bytes(), declared_of(m))
    } else if id == 7 {
        vector_bytes(export_bytes(), m.exports)
    } else if id == 8 {
        leb::uint_bytes(m.start->0 as nat)
    } else if id == 10 {
        vector_bytes(func_bytes(), m.funcs)
    } else {
        Seq::empty()
    }
}

/// A section: its id, the size of its content, and the content.
pub open spec fn section_bytes(id: u8, content: Seq<u8>) -> Seq<u8> {
    seq![id] + (leb::uint_bytes(content.len()) + content)
}

/// A custom section that holds nothing but its name.
pub open spec fn custom_bytes() -> spec_fn(Seq<char>) -> Seq<u8> {
    |name: Seq<char>| section_bytes(0, name_bytes(name))
}

/// The custom sections, and then the sections up to `id`.
pub open spec fn sections_bytes(m: ModuleView, id: nat) -> Seq<u8>
    decreases id,
{
    if id == 0 {
        concat(custom_bytes(), m.custom_sections)
    } else if has_section(m, id) {
        sections_bytes(m, (id - 1) as nat) + section_bytes(id as u8, content_bytes(m, id))
    } else {
        sections_bytes(m, (id - 1) as nat)
    }
}

/// The plain encoding of `m`.
pub open spec fn module_bytes(m: ModuleView) -> Seq<u8> {
    MAGIC@ + (seq![0x01u8, 0x00u8, 0x00u8, 0x00u8] + sections_bytes(m, 12))
}

/// Whether the plain encoding can hold `m`: its functions are well-formed, a `u32` counts
/// the entries and the bytes of each part, and the skipped sections are sections that are
/// skipped, in order.
pub open spec fn module_fits(m: ModuleView) -> bool {
    &&& m.well_formed()
    &&& m.types.len() <= u32::MAX
    &&& m.imports.len() <= u32::MAX
    &&& m.exports.len() <= u32::MAX
    &&& forall|i: int| 0 <= i < m.types.len() ==> func_type_fits(#[trigger] m.types[i])
    &&& forall|i: int| 0 <= i < m.imports.len() ==> import_fits(#[trigger] m.imports[i])
    &&& forall|i: int| 0 <= i < m.exports.len() ==> name_fits((#[trigger] m.exports[i]).name)
    &&& forall|i: int| 0 <= i < m.funcs.len() ==> func_fits(#[trigger] m.funcs[i])
    &&& forall|i: int|
        #![trigger m.custom_sections[i]]
        0 <= i < m.custom_sections.len() ==> name_fits(m.custom_sections[i]) && name_bytes(
            m.custom_sections[i],
        ).len() <= u32::MAX
    &&& forall|id: nat| #[trigger] content_bytes(m, id).len() <= u32::MAX
    &&& forall|i: int|
        #![trigger m.skipped_sections[i]]
        0 <= i < m.skipped_sections.len() ==> structure::is_skipped(m.skipped_sections[i])
            && m.skipped_sections[i] <= 12
    &&& forall|i: int, j: int|
        0 <= i < j < m.skipped_sections.len() ==> m.skipped_sections[i] < m.skipped_sections[j]
}

/// What is known once section `id` of the encoding has been read.
spec fn told(m: ModuleView, id: nat, st: Progress) -> Progress {
    let n = st.module;
    let module = if id == 1 {
        ModuleView { types: m.types, ..n }
    } else if id == 2 {
        ModuleView { imports: m.imports, ..n }
    } else if id == 3 {
        n
    } else if id == 7 {
        ModuleView { exports: m.exports, ..n }
    } else if id == 8 {
        ModuleView { start: m.start, ..n }
    } else if id == 10 {
        ModuleView { funcs: m.funcs, ..n }
    } else {
        ModuleView { skipped_sections: n.skipped_sections.push(id as u8), ..n }
    };
    let declared = if id == 3 {
        declared_of(m)
    } else {
        st.declared
    };
    Progress { module, declared, last: Some(id as u8) }
}

/// What is known after the custom sections and the sections up to `id`.
spec fn known(m: ModuleView, id: nat) -> Progress
    decreases id,
{
    if id == 0 {
        after_customs(m.custom_sections)
    } else if has_section(m, id) {
        told(m, id, known(m, (id - 1) as nat))
    } else {
        known(m, (id - 1) as nat)
    }
}

/// What is known after custom sections with these names.
spec fn after_customs(names: Seq<Seq<char>>) -> Progress {
    Progress {
        module: ModuleView { custom_sections: names, ..ModuleView::none() },
        ..Progress::none()
    }
}

proof fn lemma_known_bounds(m: ModuleView, id: nat)
    requires
        id <= 12,
    ensures
        known(m, id).last matches Some(last) ==> last <= id,
        id >= 3 ==> known(m, id).declared == declared_of(m),
    decreases id,
{
    if id > 0 {
        lemma_known_bounds(m, (id - 1) as nat);
    }
}

/// The id and size of a section are read back.
proof fn lemma_frame(b: Seq<u8>, p: int, id: u8, content: Seq<u8>)
    requires
        id <= 12,
        content.len() <= u32::MAX,
        stands(b, p, section_bytes(id, content)),
    ensures
        ({
            let start = p + 1 + leb::uint_bytes(content.len()).len();
            let end = p + section_bytes(id, content).len();
            &&& grammar::frame(b, p) == Ok::<(Frame, int), Fault>((Frame { id, start, end }, start))
            &&& stands(b, start, content)
            &&& end == start + content.len()
        }),
{
    let size = leb::uint_bytes(content.len());
    lemma_stands_split(b, p, seq![id], size + content);
    lemma_stands_byte(b, p, id);
    lemma_stands_split(b, p + 1, size, content);
    lemma_u32(b, p + 1, content.len());
}

/// The content of section `id` is read back.
proof fn lemma_content(b: Seq<u8>, f: Frame, m: ModuleView, st: Progress)
    requires
        module_fits(m),
        1 <= f.id <= 12,
        has_section(m, f.id as nat),
        f.id == 10 ==> st.declared == declared_of(m),
        f.end == f.start + content_bytes(m, f.id as nat).len(),
        stands(b, f.start, content_bytes(m, f.id as nat)),
        st.last == Some(f.id),
    ensures
        grammar::content(b, f, st) == Ok::<(Progress, int), Fault>(
            (told(m, f.id as nat, st), f.end),
        ),
{
    let p = f.start;
    if f.id == 1 {
        assert forall|i: int| 0 <= i < m.types.len() implies reads_back(
            b,
            grammar::func_type_rule(),
            func_type_bytes(),
            #[trigger] m.types[i],
        ) by {
            law_func_type_reads_back(b, m.types[i]);
        }
        lemma_vector(b, p, grammar::func_type_rule(), func_type_bytes(), m.types);
    } else if f.id == 2 {
        assert forall|i: int| 0 <= i < m.imports.len() implies reads_back(
            b,
            grammar::import_rule(),
            import_bytes(),
            #[trigger] m.imports[i],
        ) by {
            law_import_reads_back(b, m.imports[i]);
        }
        lemma_vector(b, p, grammar::import_rule(), import_bytes(), m.imports);
    } else if f.id == 3 {
        let declared = declared_of(m);
        assert forall|i: int| 0 <= i < declared.len() implies reads_back(
            b,
            grammar::u32_rule(),
            index_bytes(),
            #[trigger] declared[i],
        ) by {
            lemma_index(b, declared[i]);
        }
        lemma_vector(b, p, grammar::u32_rule(), index_bytes(), declared);
    } else if f.id == 7 {
        assert forall|i: int| 0 <= i < m.exports.len() implies reads_back(
            b,
            grammar::export_rule(),
            export_bytes(),
            #[trigger] m.exports[i],
        ) by {
            law_export_reads_back(b, m.exports[i]);
        }
        lemma_vector(b, p, grammar::export_rule(), export_bytes(), m.exports);
    } else if f.id == 8 {
        lemma_u32(b, p, m.start->0 as nat);
    } else if f.id == 10 {
        lemma_code(b, p, m.funcs, declared_of(m));
    }
}

/// Section `id` is read back.
proof fn lemma_section(b: Seq<u8>, p: int, m: ModuleView, id: nat, st: Progress)
    requires
        module_fits(m),
        1 <= id <= 12,
        has_section(m, id),
        st.last matches Some(last) ==> last < id,
        id == 10 ==> st.declared == declared_of(m),
        stands(b, p, section_bytes(id as u8, content_bytes(m, id))),
    ensures
        grammar::section(b, p, st) == Ok::<(Progress, int), Fault>(
            (told(m, id, st), p + section_bytes(id as u8, content_bytes(m, id)).len()),
        ),
{
    reveal(grammar::section);
    let content = content_bytes(m, id);
    lemma_frame(b, p, id as u8, content);
    let (f, _) = grammar::frame(b, p)->Ok_0;
    lemma_content(b, f, m, st.reach(id as u8));
}

/// The custom sections are read back.
proof fn lemma_customs(b: Seq<u8>, p: int, names: Seq<Seq<char>>)
    requires
        forall|i: int|
            #![trigger names[i]]
            0 <= i < names.len() ==> name_fits(names[i]) && name_bytes(names[i]).len() <= u32::MAX,
        stands(b, p, concat(custom_bytes(), names)),
    ensures
        grammar::sections(b, p, Progress::none()) == grammar::sections(
            b,
            p + concat(custom_bytes(), names).len(),
            after_customs(names),
        ),
    decreases names.len(),
{
    if names.len() > 0 {
        let init = names.drop_last();
        let name = names[names.len() - 1];
        let before = concat(custom_bytes(), init);
        lemma_stands_split(b, p, before, custom_bytes()(name));
        lemma_customs(b, p, init);
        let q = p + before.len();
        let st = after_customs(init);
        lemma_frame(b, q, 0, name_bytes(name));
        let (f, _) = grammar::frame(b, q)->Ok_0;
        law_name_reads_back(b, f.start, name);
        assert(init.push(name) =~= names);
        assert(grammar::section(b, q, st) == Ok::<(Progress, int), Fault>(
            (after_customs(names), f.end),
        )) by {
            reveal(grammar::section);
        }
    } else {
        assert(names =~= Seq::empty());
    }
}

/// The sections up to `id` are read back.
proof fn lemma_sections(b: Seq<u8>, p: int, m: ModuleView, id: nat)
    requires
        module_fits(m),
        id <= 12,
        stands(b, p, sections_bytes(m, id)),
    ensures
        grammar::sections(b, p, Progress::none()) == grammar::sections(
            b,
            p + sections_bytes(m, id).len(),
            known(m, id),
        ),
    decreases id,
{
    if id == 0 {
        lemma_customs(b, p, m.custom_sections);
    } else {
        let k = (id - 1) as nat;
        if has_section(m, id) {
            let own = section_bytes(id as u8, content_bytes(m, id));
            lemma_stands_split(b, p, sections_bytes(m, k), own);
            lemma_sections(b, p, m, k);
            lemma_known_bounds(m, k);
            lemma_section(b, p + sections_bytes(m, k).len(), m, id, known(m, k));
        } else {
            lemma_sections(b, p, m, k);
        }
    }
}

/// The skipped sections up to `id` are the first of all skipped sections.
proof fn lemma_known_skipped(m: ModuleView, id: nat) -> (k: int)
    requires
        module_fits(m),
        id <= 12,
    ensures
        0 <= k <= m.skipped_sections.len(),
        known(m, id).module.skipped_sections == m.skipped_sections.take(k),
        forall|i: int| 0 <= i < k ==> (#[trigger] m.skipped_sections[i]) <= id,
        forall|i: int|
            k <= i < m.skipped_sections.len() ==> (#[trigger] m.skipped_sections[i]) > id,
    decreases id,
{
    let s = m.skipped_sections;
    if id == 0 {
        assert(s.take(0) =~= Seq::empty());
        assert forall|i: int| 0 <= i < s.len() implies (#[trigger] s[i]) > 0 by {
            assert(structure::is_skipped(s[i]));
        }
        0
    } else {
        let k = lemma_known_skipped(m, (id - 1) as nat);
        if k < s.len() && s[k] == id {
            assert(s.contains(id as u8));
            assert(s.take(k).push(s[k]) =~= s.take(k + 1));
            k + 1
        } else {
            assert(!s.contains(id as u8)) by {
                if s.contains(id as u8) {
                    let i = choose|i: int| 0 <= i < s.len() && s[i] == id as u8;
                    if i < k {
                        assert(s[i] <= id - 1);
                    } else {
                        assert(s[k] < s[i] || i == k);
                        assert(s[k] > id - 1);
                    }
                }
            }
            assert forall|i: int| k <= i < s.len() implies (#[trigger] s[i]) > id by {
                assert(s[i] > id - 1);
                if s[i] == id {
                    assert(s.contains(id as u8));
                }
            }
            k
        }
    }
}

proof fn lemma_known_all(m: ModuleView)
    requires
        module_fits(m),
    ensures
        known(m, 12).module == m,
        known(m, 12).declared == declared_of(m),
{
    reveal_with_fuel(known, 14);
    lemma_known_bounds(m, 12);
    let k = lemma_known_skipped(m, 12);
    assert(k == m.skipped_sections.len()) by {
        if k < m.skipped_sections.len() {
            assert(m.skipped_sections[k] <= 12);
        }
    }
    assert(m.skipped_sections.take(k) =~= m.skipped_sections);
}

/// Every module that the plain encoding can hold is decoded from it again.
pub proof fn law_encoded_module_decodes(m: ModuleView)
    requires
        module_fits(m),
    ensures
        grammar::module(module_bytes(m)) == Ok::<ModuleView, Fault>(m),
{
    let b = module_bytes(m);
    let version = seq![0x01u8, 0x00u8, 0x00u8, 0x00u8];
    let rest = sections_bytes(m, 12);
    assert(b.subrange(0, b.len() as int) =~= b);
    lemma_stands_split(b, 0, MAGIC@, version + rest);
    lemma_stands_split(b, 4, version, rest);
    assert(grammar::le_u32(version) == 1);
    lemma_sections(b, 8, m, 12);
    lemma_known_all(m);
    structure::lemma_untyped(m, 0);
}

} // verus!
