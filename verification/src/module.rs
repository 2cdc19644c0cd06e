//! The pieces of a WebAssembly module.
//!
//! A [`Module`] keeps the type, import, function, export, start and code sections.
//! Sections that only matter to features beyond these (memory, tables, globals,
//! element and data segments) are recorded as present and carry nothing else.

use crate::parser::MAX_LOCALS;
use crate::text;
use vstd::prelude::*;
use vstd::string::StringExecFns;

verus! {

/// A WebAssembly value type.
#[derive(Debug, Clone, Copy, PartialEq, Eq, Hash, Structural)]
pub enum ValType {
    /// 32-bit integer.
    I32,
    /// 64-bit integer.
    I64,
    /// 32-bit float. Decoded and reported, never executed.
    F32,
    /// 64-bit float. Decoded and reported, never executed.
    F64,
}

impl ValType {
    /// The byte that encodes this type.
    pub open spec fn byte(self) -> u8 {
        match self {
            ValType::I32 => 0x7F,
            ValType::I64 => 0x7E,
            ValType::F32 => 0x7D,
            ValType::F64 => 0x7C,
        }
    }

    /// The type that `byte` encodes, if it encodes one.
    pub open spec fn of_byte(byte: u8) -> Option<ValType> {
        if byte == 0x7F {
            Some(ValType::I32)
        } else if byte == 0x7E {
            Some(ValType::I64)
        } else if byte == 0x7D {
            Some(ValType::F32)
        } else if byte == 0x7C {
            Some(ValType::F64)
        } else {
            None
        }
    }

    /// The name used in the text format.
    pub open spec fn text(self) -> Seq<char> {
        match self {
            ValType::I32 => "i32"@,
            ValType::I64 => "i64"@,
            ValType::F32 => "f32"@,
            ValType::F64 => "f64"@,
        }
    }

    /// Decodes the single byte encoding of a value type.
    pub fn from_byte(byte: u8) -> (r: Option<ValType>)
        ensures
            r == ValType::of_byte(byte),
    {
        match byte {
            0x7F => Some(ValType::I32),
            0x7E => Some(ValType::I64),
            0x7D => Some(ValType::F32),
            0x7C => Some(ValType::F64),
            _ => None,
        }
    }

    /// True for the two integer types.
    pub fn is_integer(self) -> (r: bool)
        ensures
            r == (self is I32 || self is I64),
    {
        matches!(self, ValType::I32 | ValType::I64)
    }

    /// The name used in the text format.
    pub fn name(self) -> (r: &'static str)
        ensures
            r@ == self.text(),
    {
        match self {
            ValType::I32 => "i32",
            ValType::I64 => "i64",
            ValType::F32 => "f32",
            ValType::F64 => "f64",
        }
    }

    /// The name used in the text format, as an owned string.
    pub fn to_string(&self) -> (r: String)
        ensures
            r@ == self.text(),
    {
        self.name().to_owned()
    }
}

/// The names of `types`, separated by a comma and a space.
pub open spec fn type_list(types: Seq<ValType>) -> Seq<char>
    decreases types.len(),
{
    if types.len() == 0 {
        Seq::empty()
    } else if types.len() == 1 {
        types[0].text()
    } else {
        type_list(types.drop_last()) + ", "@ + types.last().text()
    }
}

/// Appends the names of `types`, separated by a comma and a space.
fn push_type_list(out: &mut String, types: &Vec<ValType>)
    ensures
        final(out)@ == old(out)@ + type_list(types@),
{
    let mut i: usize = 0;
    while i < types.len()
        invariant
            i <= types.len(),
            out@ == old(out)@ + type_list(types@.take(i as int)),
        decreases types.len() - i,
    {
        assert(types@.take(i + 1).drop_last() =~= types@.take(i as int));
        if i > 0 {
            out.append(", ");
        }
        out.append(types[i].name());
        i += 1;
    }
    assert(types@.take(i as int) =~= types@);
}

/// A function signature.
#[derive(Debug, Clone, PartialEq, Eq)]
pub struct FuncType {
    /// Parameter types, in order.
    pub params: Vec<ValType>,
    /// Result types. WebAssembly 1.0 allows at most one.
    pub results: Vec<ValType>,
}

/// What a [`FuncType`] stands for.
#[verifier::ext_equal]
pub struct FuncTypeView {
    pub params: Seq<ValType>,
    pub results: Seq<ValType>,
}

impl View for FuncType {
    type V = FuncTypeView;

    open spec fn view(&self) -> FuncTypeView {
        FuncTypeView { params: self.params@, results: self.results@ }
    }
}

impl FuncTypeView {
    /// The signature as text: `(i32, i64) -> i32`. No result is `()`, and several
    /// results stand in parentheses.
    pub open spec fn text(self) -> Seq<char> {
        "("@ + type_list(self.params) + ") -> "@ + if self.results.len() == 0 {
            "()"@
        } else if self.results.len() == 1 {
            self.results[0].text()
        } else {
            "("@ + type_list(self.results) + ")"@
        }
    }
}

impl FuncType {
    /// The signature as text: `(i32, i64) -> i32`.
    pub fn to_string(&self) -> (r: String)
        ensures
            r@ == self@.text(),
    {
        let mut out = String::new();
        out.append("(");
        push_type_list(&mut out, &self.params);
        out.append(") -> ");
        if self.results.len() == 0 {
            out.append("()");
        } else if self.results.len() == 1 {
            out.append(self.results[0].name());
        } else {
            out.append("(");
            push_type_list(&mut out, &self.results);
            out.append(")");
        }
        assert(out@ =~= self@.text());
        out
    }
}

/// What an import or export refers to.
#[derive(Debug, Clone, Copy, PartialEq, Eq, Structural)]
pub enum ExternKind {
    /// A function.
    Func,
    /// A table.
    Table,
    /// A linear memory.
    Memory,
    /// A global.
    Global,
}

impl ExternKind {
    /// The byte that encodes this kind.
    pub open spec fn byte(self) -> u8 {
        match self {
            ExternKind::Func => 0x00,
            ExternKind::Table => 0x01,
            ExternKind::Memory => 0x02,
            ExternKind::Global => 0x03,
        }
    }

    /// The kind that `byte` encodes, if it encodes one.
    pub open spec fn of_byte(byte: u8) -> Option<ExternKind> {
        if byte == 0x00 {
            Some(ExternKind::Func)
        } else if byte == 0x01 {
            Some(ExternKind::Table)
        } else if byte == 0x02 {
            Some(ExternKind::Memory)
        } else if byte == 0x03 {
            Some(ExternKind::Global)
        } else {
            None
        }
    }

    /// The name used in the text format.
    pub open spec fn text(self) -> Seq<char> {
        match self {
            ExternKind::Func => "func"@,
            ExternKind::Table => "table"@,
            ExternKind::Memory => "memory"@,
            ExternKind::Global => "global"@,
        }
    }

    /// Decodes the single byte kind tag used by the import and export sections.
    pub fn from_byte(byte: u8) -> (r: Option<ExternKind>)
        ensures
            r == ExternKind::of_byte(byte),
    {
        match byte {
            0x00 => Some(ExternKind::Func),
            0x01 => Some(ExternKind::Table),
            0x02 => Some(ExternKind::Memory),
            0x03 => Some(ExternKind::Global),
            _ => None,
        }
    }

    /// The name used in the text format.
    pub fn name(self) -> (r: &'static str)
        ensures
            r@ == self.text(),
    {
        match self {
            ExternKind::Func => "func",
            ExternKind::Table => "table",
            ExternKind::Memory => "memory",
            ExternKind::Global => "global",
        }
    }
}

/// An entry of the export section.
#[derive(Debug, Clone, PartialEq, Eq)]
pub struct Export {
    /// The exported name.
    pub name: String,
    /// What kind of thing is exported.
    pub kind: ExternKind,
    /// Index into the corresponding index space.
    pub index: u32,
}

/// What an [`Export`] stands for.
#[verifier::ext_equal]
pub struct ExportView {
    pub name: Seq<char>,
    pub kind: ExternKind,
    pub index: u32,
}

impl View for Export {
    type V = ExportView;

    open spec fn view(&self) -> ExportView {
        ExportView { name: self.name@, kind: self.kind, index: self.index }
    }
}

/// An entry of the import section.
#[derive(Debug, Clone, PartialEq, Eq)]
pub struct Import {
    /// Module name.
    pub module: String,
    /// Field name inside that module.
    pub name: String,
    /// What kind of thing is imported.
    pub kind: ExternKind,
    /// For function imports, the index into the type section.
    pub type_index: Option<u32>,
}

/// What an [`Import`] stands for.
#[verifier::ext_equal]
pub struct ImportView {
    pub module: Seq<char>,
    pub name: Seq<char>,
    pub kind: ExternKind,
    pub type_index: Option<u32>,
}

impl View for Import {
    type V = ImportView;

    open spec fn view(&self) -> ImportView {
        ImportView {
            module: self.module@,
            name: self.name@,
            kind: self.kind,
            type_index: self.type_index,
        }
    }
}

/// A function defined in this module.
#[derive(Debug, Clone, PartialEq, Eq)]
pub struct Func {
    /// Index into [`Module::types`].
    pub type_index: u32,
    /// Declared locals, already flattened out of their run-length encoding.
    pub locals: Vec<ValType>,
    /// The instruction bytes of the body, including its terminating `end`.
    pub body: Vec<u8>,
}

/// What a [`Func`] stands for.
#[verifier::ext_equal]
pub struct FuncView {
    pub type_index: u32,
    pub locals: Seq<ValType>,
    pub body: Seq<u8>,
}

impl View for Func {
    type V = FuncView;

    open spec fn view(&self) -> FuncView {
        FuncView { type_index: self.type_index, locals: self.locals@, body: self.body@ }
    }
}

/// A WebAssembly module.
#[derive(Debug, Clone, PartialEq, Eq)]
pub struct Module {
    /// The type section.
    pub types: Vec<FuncType>,
    /// The import section.
    pub imports: Vec<Import>,
    /// Locally defined functions, in code section order.
    pub funcs: Vec<Func>,
    /// The export section.
    pub exports: Vec<Export>,
    /// The start function, if the module declares one.
    pub start: Option<u32>,
    /// Section ids that were present but skipped.
    pub skipped_sections: Vec<u8>,
    /// Names of custom sections, in order.
    pub custom_sections: Vec<String>,
}

/// What a [`Module`] stands for.
#[verifier::ext_equal]
pub struct ModuleView {
    pub types: Seq<FuncTypeView>,
    pub imports: Seq<ImportView>,
    pub funcs: Seq<FuncView>,
    pub exports: Seq<ExportView>,
    pub start: Option<u32>,
    pub skipped_sections: Seq<u8>,
    pub custom_sections: Seq<Seq<char>>,
}

impl View for Module {
    type V = ModuleView;

    open spec fn view(&self) -> ModuleView {
        ModuleView {
            types: self.types@.map_values(|t: FuncType| t@),
            imports: self.imports@.map_values(|i: Import| i@),
            funcs: self.funcs@.map_values(|f: Func| f@),
            exports: self.exports@.map_values(|e: Export| e@),
            start: self.start,
            skipped_sections: self.skipped_sections@,
            custom_sections: self.custom_sections@.map_values(|s: String| s@),
        }
    }
}

impl Default for Module {
    /// A module without any section.
    fn default() -> (r: Module)
        ensures
            r@ == ModuleView::none(),
    {
        Module {
            types: Vec::new(),
            imports: Vec::new(),
            funcs: Vec::new(),
            exports: Vec::new(),
            start: None,
            skipped_sections: Vec::new(),
            custom_sections: Vec::new(),
        }
    }
}

/// The entries of an import section that import a function, in order.
pub open spec fn func_imports(imports: Seq<ImportView>) -> Seq<ImportView> {
    imports.filter(|i: ImportView| i.kind is Func)
}

/// Taking one more import adds it to the function imports when it is one.
proof fn lemma_func_imports_step(imports: Seq<ImportView>, i: int)
    requires
        0 <= i < imports.len(),
    ensures
        func_imports(imports.take(i + 1)) == if imports[i].kind is Func {
            func_imports(imports.take(i)).push(imports[i])
        } else {
            func_imports(imports.take(i))
        },
{
    reveal(Seq::filter);
    assert(imports.take(i + 1).drop_last() =~= imports.take(i));
}

/// The function imports of a prefix are a prefix of the function imports.
proof fn lemma_func_imports_prefix(imports: Seq<ImportView>, i: int)
    requires
        0 <= i <= imports.len(),
    ensures
        func_imports(imports.take(i)).len() <= func_imports(imports).len(),
        func_imports(imports.take(i)) == func_imports(imports).take(
            func_imports(imports.take(i)).len() as int,
        ),
    decreases imports.len() - i,
{
    if i < imports.len() {
        lemma_func_imports_step(imports, i);
        lemma_func_imports_prefix(imports, i + 1);
    } else {
        assert(imports.take(i) =~= imports);
        assert(func_imports(imports).take(func_imports(imports).len() as int) =~= func_imports(
            imports,
        ));
    }
}

impl ModuleView {
    /// The module without any section.
    pub open spec fn none() -> ModuleView {
        ModuleView {
            types: Seq::empty(),
            imports: Seq::empty(),
            funcs: Seq::empty(),
            exports: Seq::empty(),
            start: None,
            skipped_sections: Seq::empty(),
            custom_sections: Seq::empty(),
        }
    }

    /// What every decoded module keeps to: a `u32` counts its functions, and each function
    /// defined in it has a type, at most [`MAX_LOCALS`] locals, and a body that ends with
    /// the `end` opcode.
    pub open spec fn well_formed(self) -> bool {
        &&& func_imports(self.imports).len() + self.funcs.len() <= u32::MAX
        &&& forall|i: int|
            #![trigger self.funcs[i]]
            0 <= i < self.funcs.len() ==> {
                &&& self.funcs[i].type_index < self.types.len()
                &&& self.funcs[i].locals.len() <= MAX_LOCALS
                &&& self.funcs[i].body.len() > 0
                &&& self.funcs[i].body.last() == 0x0B
            }
    }

    /// Number of imported functions, as a `u32` counts it.
    pub open spec fn imported_func_count(self) -> nat {
        func_imports(self.imports).len() % 0x1_0000_0000
    }

    /// Number of functions defined here, as a `u32` counts it.
    pub open spec fn local_func_count(self) -> nat {
        self.funcs.len() % 0x1_0000_0000
    }

    /// The function at `index`, when it is defined here.
    pub open spec fn local_func(self, index: u32) -> Option<FuncView> {
        let i = index - self.imported_func_count();
        if 0 <= i < self.funcs.len() {
            Some(self.funcs[i])
        } else {
            None
        }
    }

    /// The type index that the import or the definition of function `index` gives.
    pub open spec fn func_type_index(self, index: u32) -> Option<u32> {
        if index < self.imported_func_count() {
            func_imports(self.imports)[index as int].type_index
        } else {
            match self.local_func(index) {
                Some(f) => Some(f.type_index),
                None => None,
            }
        }
    }

    /// The signature of function `index`, imported or not.
    pub open spec fn func_type(self, index: u32) -> Option<FuncTypeView> {
        match self.func_type_index(index) {
            Some(t) => if t < self.types.len() {
                Some(self.types[t as int])
            } else {
                None
            },
            None => None,
        }
    }

    /// The summary of one export.
    pub open spec fn export_line(self, e: ExportView) -> Seq<char> {
        match (e.kind, self.func_type(e.index)) {
            (ExternKind::Func, Some(signature)) => "func "@ + e.name + ": "@ + signature.text(),
            (kind, _) => kind.text() + " "@ + e.name + ": #"@ + text::decimal(e.index as nat),
        }
    }
}

impl ExportView {
    /// Whether this exports a function under `name`.
    pub open spec fn is_func_named(self, name: Seq<char>) -> bool {
        self.kind is Func && self.name == name
    }
}

/// The function imports are at most the imports.
pub proof fn lemma_func_imports_len(imports: Seq<ImportView>)
    ensures
        func_imports(imports).len() <= imports.len(),
{
    imports.lemma_filter_len(|i: ImportView| i.kind is Func);
}

/// The function index space: the imported functions take the low indices in the order of
/// their imports, the functions defined in the module follow in the order of their
/// definition, and no other index names a function.
pub proof fn law_function_index_space(m: ModuleView, index: u32)
    requires
        m.well_formed(),
    ensures
        ({
            let imports = func_imports(m.imports);
            let imported = imports.len();
            let total = imported + m.funcs.len();
            &&& m.imported_func_count() == imported
            &&& m.local_func_count() == m.funcs.len()
            &&& index < imported ==> {
                &&& m.local_func(index) is None
                &&& m.func_type_index(index) == imports[index as int].type_index
            }
            &&& imported <= index < total ==> {
                let f = m.funcs[index - imported];
                &&& m.local_func(index) == Some(f)
                &&& m.func_type(index) == Some(m.types[f.type_index as int])
            }
            &&& index >= total ==> {
                &&& m.local_func(index) is None
                &&& m.func_type(index) is None
            }
        }),
{
}

/// A value type has a name of three characters, of which none is a closing parenthesis and
/// the first is no opening one.
proof fn lemma_type_names(a: ValType, c: ValType)
    ensures
        a.text().len() == 3,
        forall|k: int| 0 <= k < 3 ==> #[trigger] a.text()[k] != ')',
        a.text()[0] != '(',
        a.text() == c.text() ==> a == c,
{
    reveal_strlit("i32");
    reveal_strlit("i64");
    reveal_strlit("f32");
    reveal_strlit("f64");
    assert(a.text()[0] == 'i' || a.text()[0] == 'f');
    assert(a.text()[1] == '3' || a.text()[1] == '6');
    assert(a.text()[0] == 'i' <==> a is I32 || a is I64);
    assert(a.text()[1] == '3' <==> a is I32 || a is F32);
    assert(c.text()[0] == 'i' <==> c is I32 || c is I64);
    assert(c.text()[1] == '3' <==> c is I32 || c is F32);
}

/// Whether a comma and a space follow name `i` of a list, each name having three characters.
pub open spec fn goes_on(x: Seq<char>, i: int) -> bool {
    x[5 * i + 3] == ',' && x[5 * i + 4] == ' '
}

/// Whether `x` lists the names of all `types` in order, with a comma and a space between two.
/// Each name has three characters.
pub open spec fn lists(x: Seq<char>, types: Seq<ValType>) -> bool {
    &&& x.len() == if types.len() == 0 { 0 } else { 5 * types.len() - 2 }
    &&& forall|i: int|
        0 <= i < types.len() ==> x.subrange(5 * i, 5 * i + 3) == (#[trigger] types[i]).text()
    &&& forall|i: int| 0 <= i < types.len() - 1 ==> #[trigger] goes_on(x, i)
}

proof fn lemma_lists_push(y: Seq<char>, init: Seq<ValType>, ty: ValType)
    requires
        lists(y, init),
        init.len() > 0,
    ensures
        lists(y + ", "@ + ty.text(), init.push(ty)),
{
    reveal_strlit(", ");
    lemma_type_names(ty, ty);
    let types = init.push(ty);
    let name = ty.text();
    let x = y + ", "@ + name;
    let k = init.len() as int;
    assert(y.len() == 5 * k - 2);
    assert forall|i: int| 0 <= i < types.len() implies x.subrange(5 * i, 5 * i + 3) == (
    #[trigger] types[i]).text() by {
        if i < k {
            assert(init[i] == types[i]);
            assert(x.subrange(5 * i, 5 * i + 3) =~= y.subrange(5 * i, 5 * i + 3));
        } else {
            assert(x.subrange(5 * i, 5 * i + 3) =~= name);
        }
    }
    assert forall|i: int| 0 <= i < types.len() - 1 implies #[trigger] goes_on(x, i) by {
        if i < k - 1 {
            assert(goes_on(y, i));
        }
    }
}

proof fn lemma_type_list(types: Seq<ValType>)
    ensures
        lists(type_list(types), types),
    decreases types.len(),
{
    let x = type_list(types);
    if types.len() == 1 {
        lemma_type_names(types[0], types[0]);
        assert(x.subrange(0, 3) =~= x);
    } else if types.len() > 1 {
        lemma_type_list(types.drop_last());
        lemma_lists_push(type_list(types.drop_last()), types.drop_last(), types.last());
        assert(types.drop_last().push(types.last()) =~= types);
    }
}

/// A list of names fixes the types, and holds no closing parenthesis.
proof fn lemma_lists(x: Seq<char>, a: Seq<ValType>, c: Seq<ValType>)
    requires
        lists(x, a),
        lists(x, c),
    ensures
        a == c,
        forall|k: int| 0 <= k < x.len() ==> #[trigger] x[k] != ')',
{
    assert(a.len() == c.len());
    assert forall|i: int| 0 <= i < a.len() implies a[i] == c[i] by {
        assert(x.subrange(5 * i, 5 * i + 3) == c[i].text());
        lemma_type_names(a[i], c[i]);
    }
    assert(a =~= c);
    assert forall|k: int| 0 <= k < x.len() implies #[trigger] x[k] != ')' by {
        let i = k / 5;
        let r = k % 5;
        assert(0 <= i < a.len());
        lemma_type_names(a[i], a[i]);
        if r < 3 {
            assert(x.subrange(5 * i, 5 * i + 3)[r] == x[k]);
            assert(a[i].text()[r] != ')');
        } else {
            assert(goes_on(x, i));
        }
    }
}

/// Whether `t` is the text of a signature with these parameters and results: the parameters
/// listed in parentheses, an arrow, and the results listed, in parentheses unless there is
/// just one.
pub open spec fn spells(t: Seq<char>, p: Seq<char>, r: Seq<char>, ty: FuncTypeView) -> bool {
    &&& lists(p, ty.params)
    &&& lists(r, ty.results)
    &&& t == "("@ + p + ") -> "@ + if ty.results.len() == 1 { r } else { "("@ + r + ")"@ }
}

/// The text of a signature lists all parameters and all results, each in order.
pub proof fn law_signature_text(ty: FuncTypeView)
    ensures
        exists|p: Seq<char>, r: Seq<char>| spells(ty.text(), p, r, ty),
{
    let p = type_list(ty.params);
    let r = type_list(ty.results);
    lemma_type_list(ty.params);
    lemma_type_list(ty.results);
    reveal_strlit("(");
    reveal_strlit(")");
    reveal_strlit("()");
    if ty.results.len() == 0 {
        assert(r =~= Seq::empty());
        assert("()"@ =~= "("@ + r + ")"@);
    }
    assert(spells(ty.text(), p, r, ty));
}

/// The text of a signature fixes it: two signatures with the same text have the same
/// parameters and the same results.
pub proof fn law_signature_text_fixes_the_signature(a: FuncTypeView, c: FuncTypeView)
    requires
        a.text() == c.text(),
    ensures
        a == c,
{
    reveal_strlit("(");
    reveal_strlit(")");
    reveal_strlit(") -> ");
    law_signature_text(a);
    law_signature_text(c);
    let t = a.text();
    let (p, r) = choose|p: Seq<char>, r: Seq<char>| spells(t, p, r, a);
    let (q, s) = choose|p: Seq<char>, r: Seq<char>| spells(t, p, r, c);
    let n = p.len() as int;
    let m = q.len() as int;
    lemma_lists(p, a.params, a.params);
    lemma_lists(q, c.params, c.params);
    assert(t[1 + n] == ')');
    assert(t[1 + m] == ')');
    if n < m {
        assert(t[1 + n] == q[n]);
    }
    if m < n {
        assert(t[1 + m] == p[m]);
    }
    assert(p =~= t.subrange(1, 1 + n));
    assert(q =~= t.subrange(1, 1 + m));
    lemma_lists(p, a.params, c.params);
    let at = 6 + n;
    let x = if a.results.len() == 1 { r } else { "("@ + r + ")"@ };
    let y = if c.results.len() == 1 { s } else { "("@ + s + ")"@ };
    assert(x =~= t.subrange(at, t.len() as int));
    assert(y =~= t.subrange(at, t.len() as int));
    if a.results.len() == 1 {
        lemma_type_names(a.results[0], a.results[0]);
        assert(r.subrange(0, 3) == a.results[0].text());
        assert(r.subrange(0, 3)[0] == x[0]);
    }
    if c.results.len() == 1 {
        lemma_type_names(c.results[0], c.results[0]);
        assert(s.subrange(0, 3) == c.results[0].text());
        assert(s.subrange(0, 3)[0] == y[0]);
    }
    assert(a.results.len() == 1 <==> c.results.len() == 1);
    if a.results.len() != 1 {
        assert(r =~= x.subrange(1, x.len() - 1));
        assert(s =~= y.subrange(1, y.len() - 1));
    }
    lemma_lists(r, a.results, c.results);
}

/// Whether `line` describes the export `e` of `m`: a function by its signature, whatever that
/// is, and everything else, as well as a function without a signature, by its index.
pub open spec fn describes(line: Seq<char>, m: ModuleView, e: ExportView) -> bool {
    if e.kind is Func && m.func_type(e.index) is Some {
        line == "func "@ + e.name + ": "@ + m.func_type(e.index)->0.text()
    } else {
        text::says_number(line, e.kind.text() + " "@ + e.name + ": #"@, e.index as nat, Seq::empty())
    }
}

/// An export of a function that has a signature is described by the signature, and any other
/// export by its kind and index.
pub proof fn law_export_lines(m: ModuleView, e: ExportView)
    ensures
        describes(m.export_line(e), m, e),
{
    text::lemma_says_number(
        e.kind.text() + " "@ + e.name + ": #"@,
        e.index as nat,
        Seq::empty(),
    );
}

/// Function exports of one name that have signatures are described alike only when the
/// signatures are the same.
pub proof fn law_export_lines_tell_signatures_apart(
    m: ModuleView,
    e: ExportView,
    n: ModuleView,
    g: ExportView,
)
    requires
        e.kind is Func,
        g.kind is Func,
        e.name == g.name,
        m.func_type(e.index) is Some,
        n.func_type(g.index) is Some,
        m.export_line(e) == n.export_line(g),
    ensures
        m.func_type(e.index) == n.func_type(g.index),
{
    law_export_lines(m, e);
    law_export_lines(n, g);
    let head = "func "@ + e.name + ": "@;
    let a = m.func_type(e.index)->0;
    let c = n.func_type(g.index)->0;
    let line = m.export_line(e);
    assert(a.text() =~= line.subrange(head.len() as int, line.len() as int));
    assert(c.text() =~= line.subrange(head.len() as int, line.len() as int));
    law_signature_text_fixes_the_signature(a, c);
}

/// How many of the first `n` imports are functions.
pub open spec fn funcs_before(imports: Seq<ImportView>, n: int) -> nat
    decreases n,
{
    if n <= 0 {
        0
    } else if imports[n - 1].kind is Func {
        funcs_before(imports, n - 1) + 1
    } else {
        funcs_before(imports, n - 1)
    }
}

proof fn lemma_funcs_before(imports: Seq<ImportView>, n: int)
    requires
        0 <= n <= imports.len(),
    ensures
        func_imports(imports.take(n)).len() == funcs_before(imports, n),
    decreases n,
{
    if n > 0 {
        lemma_func_imports_step(imports, n - 1);
        lemma_funcs_before(imports, n - 1);
    } else {
        reveal(Seq::filter);
    }
}

/// A function import stands among the function imports behind as many as come before it
/// among the imports, and no other import stands there.
pub proof fn law_function_imports(imports: Seq<ImportView>, i: int)
    requires
        0 <= i < imports.len(),
    ensures
        func_imports(imports).len() == funcs_before(imports, imports.len() as int),
        imports[i].kind is Func ==> {
            let k = funcs_before(imports, i);
            &&& k < func_imports(imports).len()
            &&& func_imports(imports)[k as int] == imports[i]
        },
{
    lemma_funcs_before(imports, imports.len() as int);
    assert(imports.take(imports.len() as int) =~= imports);
    if imports[i].kind is Func {
        lemma_funcs_before(imports, i);
        lemma_func_imports_step(imports, i);
        lemma_func_imports_prefix(imports, i + 1);
        let k = funcs_before(imports, i) as int;
        assert(func_imports(imports.take(i + 1))[k] == imports[i]);
    }
}

/// The signature of a function is the type at the type index that its import or its
/// definition gives, and there is none when no type index is given or no type has it. This
/// holds of any module. A `u32` counts the imported functions.
pub proof fn law_function_signatures(m: ModuleView, index: u32)
    ensures
        ({
            let imports = func_imports(m.imports);
            let imported = imports.len() % 0x1_0000_0000;
            let i = index - imported;
            &&& m.imported_func_count() == imported
            &&& m.local_func_count() == m.funcs.len() % 0x1_0000_0000
            &&& index < imported ==> {
                let t = imports[index as int].type_index;
                &&& m.local_func(index) is None
                &&& t is Some && t->0 < m.types.len() ==> m.func_type(index) == Some(
                    m.types[t->0 as int],
                )
                &&& t is None || t->0 >= m.types.len() ==> m.func_type(index) is None
            }
            &&& 0 <= i < m.funcs.len() ==> {
                let t = m.funcs[i].type_index;
                &&& m.local_func(index) == Some(m.funcs[i])
                &&& t < m.types.len() ==> m.func_type(index) == Some(m.types[t as int])
                &&& t >= m.types.len() ==> m.func_type(index) is None
            }
            &&& i >= m.funcs.len() ==> {
                &&& m.local_func(index) is None
                &&& m.func_type(index) is None
            }
        }),
{
}

/// The view of a module has every entry of every section, with its fields as they are.
pub proof fn law_module_view(m: Module)
    ensures
        m@.types.len() == m.types@.len(),
        forall|i: int|
            #![trigger m@.types[i]]
            0 <= i < m.types@.len() ==> m@.types[i].params == m.types@[i].params@
                && m@.types[i].results == m.types@[i].results@,
        m@.imports.len() == m.imports@.len(),
        forall|i: int|
            #![trigger m@.imports[i]]
            0 <= i < m.imports@.len() ==> {
                &&& m@.imports[i].module == m.imports@[i].module@
                &&& m@.imports[i].name == m.imports@[i].name@
                &&& m@.imports[i].kind == m.imports@[i].kind
                &&& m@.imports[i].type_index == m.imports@[i].type_index
            },
        m@.funcs.len() == m.funcs@.len(),
        forall|i: int|
            #![trigger m@.funcs[i]]
            0 <= i < m.funcs@.len() ==> {
                &&& m@.funcs[i].type_index == m.funcs@[i].type_index
                &&& m@.funcs[i].locals == m.funcs@[i].locals@
                &&& m@.funcs[i].body == m.funcs@[i].body@
            },
        m@.exports.len() == m.exports@.len(),
        forall|i: int|
            #![trigger m@.exports[i]]
            0 <= i < m.exports@.len() ==> {
                &&& m@.exports[i].name == m.exports@[i].name@
                &&& m@.exports[i].kind == m.exports@[i].kind
                &&& m@.exports[i].index == m.exports@[i].index
            },
        m@.start == m.start,
        m@.skipped_sections == m.skipped_sections@,
        m@.custom_sections.len() == m.custom_sections@.len(),
        forall|i: int|
            #![trigger m@.custom_sections[i]]
            0 <= i < m.custom_sections@.len() ==> m@.custom_sections[i] == m.custom_sections@[i]@,
{
}

/// The view of a signature has its parameters and results as they are.
pub proof fn law_func_type_view(ty: FuncType)
    ensures
        ty@.params == ty.params@,
        ty@.results == ty.results@,
{
}

/// The byte of a value type is the one byte that decodes to it.
pub proof fn law_val_type_bytes(ty: ValType, byte: u8)
    ensures
        ValType::of_byte(byte) == Some(ty) <==> byte == ty.byte(),
{
}

/// The byte of a kind is the one byte that decodes to it.
pub proof fn law_extern_kind_bytes(kind: ExternKind, byte: u8)
    ensures
        ExternKind::of_byte(byte) == Some(kind) <==> byte == kind.byte(),
{
}

/// The number of elements as a `u32` counts them.
fn count_u32(n: usize) -> (r: u32)
    ensures
        r == n as nat % 0x1_0000_0000,
{
    let wide = n as u64;
    assert(wide as u32 == wide % 0x1_0000_0000) by (bit_vector);
    wide as u32
}

impl Module {
    /// Number of imported functions, which occupy the low function indices.
    pub fn imported_func_count(&self) -> (r: u32)
        ensures
            r == self@.imported_func_count(),
    {
        let mut count: usize = 0;
        let mut i: usize = 0;
        while i < self.imports.len()
            invariant
                count <= i <= self.imports.len(),
                count == func_imports(self@.imports.take(i as int)).len(),
            decreases self.imports.len() - i,
        {
            proof {
                lemma_func_imports_step(self@.imports, i as int);
            }
            if self.imports[i].kind == ExternKind::Func {
                count += 1;
            }
            i += 1;
        }
        assert(self@.imports.take(i as int) =~= self@.imports);
        count_u32(count)
    }

    /// Total size of the function index space.
    pub fn func_count(&self) -> (r: u32)
        requires
            self@.imported_func_count() + self@.local_func_count() <= u32::MAX,
        ensures
            r == self@.imported_func_count() + self@.local_func_count(),
    {
        self.imported_func_count() + count_u32(self.funcs.len())
    }

    /// Resolves a function index into a locally defined function.
    ///
    /// Returns `None` for an out of range index and for imported functions, which have
    /// no body here.
    pub fn local_func(&self, index: u32) -> (r: Option<&Func>)
        ensures
            match self@.local_func(index) {
                Some(f) => r matches Some(func) && func@ == f,
                None => r is None,
            },
    {
        let imported = self.imported_func_count();
        if index < imported {
            return None;
        }
        let i = (index - imported) as usize;
        if i < self.funcs.len() {
            Some(&self.funcs[i])
        } else {
            None
        }
    }

    /// True when `index` refers to an imported function.
    pub fn is_imported_func(&self, index: u32) -> (r: bool)
        ensures
            r == (index < self@.imported_func_count()),
    {
        index < self.imported_func_count()
    }

    /// The type index of the `index`-th function import.
    fn imported_type_index(&self, index: u32) -> (r: Option<u32>)
        requires
            index < func_imports(self@.imports).len(),
        ensures
            r == func_imports(self@.imports)[index as int].type_index,
    {
        let mut seen: u32 = 0;
        let mut i: usize = 0;
        while i < self.imports.len()
            invariant
                i <= self.imports.len(),
                seen == func_imports(self@.imports.take(i as int)).len(),
                seen <= index,
                index < func_imports(self@.imports).len(),
            decreases self.imports.len() - i,
        {
            proof {
                lemma_func_imports_step(self@.imports, i as int);
                lemma_func_imports_prefix(self@.imports, i + 1);
            }
            if self.imports[i].kind == ExternKind::Func {
                if seen == index {
                    assert(func_imports(self@.imports.take(i + 1))[index as int]
                        == self@.imports[i as int]);
                    return self.imports[i].type_index;
                }
                seen += 1;
            }
            i += 1;
        }
        assert(self@.imports.take(i as int) =~= self@.imports);
        None
    }

    /// The signature of any function, imported or not.
    pub fn func_type(&self, index: u32) -> (r: Option<&FuncType>)
        ensures
            match self@.func_type(index) {
                Some(t) => r matches Some(ty) && ty@ == t,
                None => r is None,
            },
    {
        let type_index = if self.is_imported_func(index) {
            self.imported_type_index(index)?
        } else {
            self.local_func(index)?.type_index
        };
        if (type_index as usize) < self.types.len() {
            Some(&self.types[type_index as usize])
        } else {
            None
        }
    }

    /// Looks up an exported function by name and returns its function index.
    ///
    /// The first export of a function under that name decides.
    pub fn export_func(&self, name: &str) -> (r: Option<u32>)
        ensures
            match r {
                Some(index) => exists|i: int|
                    {
                        &&& 0 <= i < self@.exports.len()
                        &&& (#[trigger] self@.exports[i]).is_func_named(name@)
                        &&& self@.exports[i].index == index
                        &&& forall|j: int| 0 <= j < i ==> !self@.exports[j].is_func_named(name@)
                    },
                None => forall|i: int|
                    0 <= i < self@.exports.len() ==> !self@.exports[i].is_func_named(name@),
            },
            r matches Some(index) ==> exists|i: int|
                {
                    &&& 0 <= i < self.exports@.len()
                    &&& (#[trigger] self.exports@[i]).kind is Func
                    &&& self.exports@[i].name@ == name@
                    &&& self.exports@[i].index == index
                    &&& forall|j: int|
                        0 <= j < i ==> !((#[trigger] self.exports@[j]).kind is Func
                            && self.exports@[j].name@ == name@)
                },
            r is None ==> forall|i: int|
                0 <= i < self.exports@.len() ==> !((#[trigger] self.exports@[i]).kind is Func
                    && self.exports@[i].name@ == name@),
    {
        let mut i: usize = 0;
        while i < self.exports.len()
            invariant
                i <= self.exports.len(),
                forall|j: int| 0 <= j < i ==> !self@.exports[j].is_func_named(name@),
                forall|j: int|
                    0 <= j < i ==> !((#[trigger] self.exports@[j]).kind is Func
                        && self.exports@[j].name@ == name@),
            decreases self.exports.len() - i,
        {
            let export = &self.exports[i];
            if export.kind == ExternKind::Func && text::same_text(export.name.as_str(), name) {
                assert(self@.exports[i as int].is_func_named(name@));
                return Some(export.index);
            }
            i += 1;
        }
        None
    }

    /// The summary of one export.
    fn describe_export(&self, export: &Export) -> (r: String)
        ensures
            r@ == self@.export_line(export@),
    {
        let mut out = String::new();
        let signature = self.func_type(export.index);
        match (export.kind, signature) {
            (ExternKind::Func, Some(signature)) => {
                out.append("func ");
                out.append(export.name.as_str());
                out.append(": ");
                out.append(signature.to_string().as_str());
            },
            (kind, _) => {
                out.append(kind.name());
                out.append(" ");
                out.append(export.name.as_str());
                out.append(": #");
                text::push_decimal(&mut out, export.index as u64);
            },
        }
        assert(out@ =~= self@.export_line(export@));
        out
    }

    /// A one line summary per export, e.g. `func add: (i32, i32) -> i32`.
    ///
    /// This is what a host would print when asked what a module offers.
    pub fn describe_exports(&self) -> (r: Vec<String>)
        ensures
            r@.len() == self@.exports.len(),
            forall|i: int|
                0 <= i < r@.len() ==> (#[trigger] r@[i])@ == self@.export_line(self@.exports[i]),
            forall|i: int|
                0 <= i < r@.len() ==> describes((#[trigger] r@[i])@, self@, self@.exports[i]),
    {
        let mut lines: Vec<String> = Vec::new();
        let mut i: usize = 0;
        while i < self.exports.len()
            invariant
                i <= self.exports.len(),
                lines@.len() == i,
                forall|j: int|
                    0 <= j < i ==> (#[trigger] lines@[j])@ == self@.export_line(self@.exports[j]),
            decreases self.exports.len() - i,
        {
            lines.push(self.describe_export(&self.exports[i]));
            i += 1;
        }
        assert forall|i: int| 0 <= i < lines@.len() implies describes(
            (#[trigger] lines@[i])@,
            self@,
            self@.exports[i],
        ) by {
            law_export_lines(self@, self@.exports[i]);
        }
        lines
    }
}

} // verus!
