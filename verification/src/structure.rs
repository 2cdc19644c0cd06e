//! Which byte strings are modules, said without reference to the order of reading.

use crate::bounds;
use crate::grammar;
use crate::grammar::{Fault, Frame, Progress};
use crate::module;
use crate::module::ModuleView;
use crate::parser::MAX_LOCALS;
use vstd::prelude::*;

verus! {

/// Whether the sections `fs` stand one after another from offset `p` to the end of `b`.
pub open spec fn framed(b: Seq<u8>, p: int, fs: Seq<Frame>) -> bool
    decreases fs.len(),
{
    if fs.len() == 0 {
        p == b.len()
    } else {
        &&& grammar::frame(b, p) == Ok::<(Frame, int), Fault>((fs[0], fs[0].start))
        &&& framed(b, fs[0].end, fs.drop_first())
    }
}

/// Whether the ids of the sections that are not custom increase.
pub open spec fn ordered(fs: Seq<Frame>) -> bool {
    forall|i: int, j: int|
        0 <= i < j < fs.len() && fs[i].id != 0 && fs[j].id != 0 ==> fs[i].id < fs[j].id
}

/// Whether no section has the id `id`.
pub open spec fn lacks(fs: Seq<Frame>, id: u8) -> bool {
    forall|i: int| 0 <= i < fs.len() ==> (#[trigger] fs[i]).id != id
}

/// The names of the custom sections, in order.
pub open spec fn custom_names(b: Seq<u8>, fs: Seq<Frame>) -> Seq<Seq<char>>
    decreases fs.len(),
{
    if fs.len() == 0 {
        Seq::empty()
    } else if fs[0].id == 0 {
        seq![grammar::name(b, fs[0].start)->Ok_0.0] + custom_names(b, fs.drop_first())
    } else {
        custom_names(b, fs.drop_first())
    }
}

/// Whether a section with this id is recorded as present and nothing more.
pub open spec fn is_skipped(id: u8) -> bool {
    id != 0 && id != 1 && id != 2 && id != 3 && id != 7 && id != 8 && id != 10
}

/// The ids of the skipped sections, in order.
pub open spec fn skipped_ids(fs: Seq<Frame>) -> Seq<u8>
    decreases fs.len(),
{
    if fs.len() == 0 {
        Seq::empty()
    } else if is_skipped(fs[0].id) {
        seq![fs[0].id] + skipped_ids(fs.drop_first())
    } else {
        skipped_ids(fs.drop_first())
    }
}

/// Whether the content of section `f` is well-formed, fills the section exactly, and says
/// what `declared` and `m` hold. The bytes of a custom section after its name are free,
/// and so are all bytes of a skipped section.
#[verifier::opaque]
pub open spec fn says(b: Seq<u8>, f: Frame, declared: Seq<u32>, m: ModuleView) -> bool {
    if f.id == 0 {
        grammar::name(b, f.start) matches Ok((_, q)) && q <= f.end
    } else if f.id == 1 {
        grammar::vector(grammar::func_type_rule(), b, f.start) == Ok::<_, Fault>((m.types, f.end))
    } else if f.id == 2 {
        grammar::vector(grammar::import_rule(), b, f.start) == Ok::<_, Fault>((m.imports, f.end))
    } else if f.id == 3 {
        grammar::vector(grammar::u32_rule(), b, f.start) == Ok::<_, Fault>((declared, f.end))
    } else if f.id == 7 {
        grammar::vector(grammar::export_rule(), b, f.start) == Ok::<_, Fault>((m.exports, f.end))
    } else if f.id == 8 {
        &&& m.start is Some
        &&& grammar::u32(b, f.start) == Ok::<_, Fault>((m.start->0, f.end))
    } else if f.id == 10 {
        grammar::code(b, f.start, declared) == Ok::<_, Fault>((m.funcs, f.end))
    } else {
        true
    }
}

/// Whether `b` is an encoding of `m`, with the sections `fs` and with `declared` for the
/// content of its function section.
pub open spec fn encodes(b: Seq<u8>, fs: Seq<Frame>, declared: Seq<u32>, m: ModuleView) -> bool {
    &&& grammar::header(b) == Ok::<((), int), Fault>(((), 8))
    &&& framed(b, 8, fs)
    &&& ordered(fs)
    &&& forall|i: int| 0 <= i < fs.len() ==> says(b, #[trigger] fs[i], declared, m)
    &&& lacks(fs, 1) ==> m.types.len() == 0
    &&& lacks(fs, 2) ==> m.imports.len() == 0
    &&& lacks(fs, 3) ==> declared.len() == 0
    &&& lacks(fs, 7) ==> m.exports.len() == 0
    &&& lacks(fs, 8) ==> m.start is None
    &&& lacks(fs, 10) ==> m.funcs.len() == 0
    &&& m.custom_sections == custom_names(b, fs)
    &&& m.skipped_sections == skipped_ids(fs)
    &&& declared.len() == m.funcs.len()
    &&& forall|i: int|
        0 <= i < m.funcs.len() ==> (#[trigger] m.funcs[i]).type_index < m.types.len()
}

/// Whether the sections `fs`, which fill `b` from `p` on, lead from `st` to `fin`.
spec fn leads(b: Seq<u8>, p: int, st: Progress, fs: Seq<Frame>, fin: Progress) -> bool {
    &&& framed(b, p, fs)
    &&& ordered(fs)
    &&& forall|i: int| 0 <= i < fs.len() ==> st.admits((#[trigger] fs[i]).id)
    &&& forall|i: int|
        0 <= i < fs.len() ==> says(b, #[trigger] fs[i], fin.declared, fin.module)
    &&& lacks(fs, 1) ==> fin.module.types == st.module.types
    &&& lacks(fs, 2) ==> fin.module.imports == st.module.imports
    &&& lacks(fs, 3) ==> fin.declared == st.declared
    &&& lacks(fs, 7) ==> fin.module.exports == st.module.exports
    &&& lacks(fs, 8) ==> fin.module.start == st.module.start
    &&& lacks(fs, 10) ==> fin.module.funcs == st.module.funcs
    &&& fin.module.custom_sections == st.module.custom_sections + custom_names(b, fs)
    &&& fin.module.skipped_sections == st.module.skipped_sections + skipped_ids(fs)
}

proof fn lemma_cons(f: Frame, rest: Seq<Frame>)
    ensures
        (seq![f] + rest).drop_first() == rest,
        (seq![f] + rest)[0] == f,
        forall|i: int| 0 <= i < rest.len() ==> #[trigger] rest[i] == (seq![f] + rest)[i + 1],
        forall|i: int| 0 < i <= rest.len() ==> #[trigger] (seq![f] + rest)[i] == rest[i - 1],
        forall|id: u8|
            #[trigger] lacks(seq![f] + rest, id) <==> f.id != id && lacks(rest, id),
{
    let fs = seq![f] + rest;
    assert(fs.drop_first() =~= rest);
    assert forall|id: u8| #[trigger] lacks(fs, id) <==> f.id != id && lacks(rest, id) by {
        if lacks(fs, id) {
            assert(fs[0].id != id);
            assert forall|i: int| 0 <= i < rest.len() implies (#[trigger] rest[i]).id != id by {
                assert(fs[i + 1].id != id);
            }
        }
    }
}

/// The sections that were read are framed and say what was learned from them.
proof fn lemma_sections_lead(b: Seq<u8>, p: int, st: Progress, fin: Progress) -> (fs: Seq<Frame>)
    requires
        0 <= p <= b.len(),
        grammar::sections(b, p, st) == Ok::<Progress, Fault>(fin),
    ensures
        leads(b, p, st, fs, fin),
    decreases b.len() - p,
{
    if p == b.len() {
        let fs = Seq::<Frame>::empty();
        assert(fin.module.custom_sections =~= st.module.custom_sections + custom_names(b, fs));
        assert(fin.module.skipped_sections =~= st.module.skipped_sections + skipped_ids(fs));
        fs
    } else {
        bounds::lemma_frame(b, p);
        let (f, _) = grammar::frame(b, p)->Ok_0;
        let (next, q) = grammar::section(b, p, st)->Ok_0;
        reveal(grammar::section);
        let rest = lemma_sections_lead(b, q, next, fin);
        let fs = seq![f] + rest;
        lemma_cons(f, rest);
        assert forall|i: int| 0 <= i < fs.len() implies st.admits((#[trigger] fs[i]).id) by {
            if i > 0 {
                assert(next.admits(rest[i - 1].id));
            }
        }
        assert(ordered(fs)) by {
            assert forall|i: int, j: int|
                0 <= i < j < fs.len() && fs[i].id != 0 && fs[j].id != 0 implies fs[i].id
                < fs[j].id by {
                assert(next.admits(rest[j - 1].id));
                if i > 0 {
                    assert(rest[i - 1].id < rest[j - 1].id);
                }
            }
        }
        if f.id != 0 {
            assert forall|id: u8| 0 < id <= f.id implies #[trigger] lacks(rest, id) by {
                assert forall|i: int| 0 <= i < rest.len() implies (#[trigger] rest[i]).id != id by {
                    assert(next.admits(rest[i].id));
                }
            }
            assert(lacks(rest, f.id));
            if f.id == 10 {
                assert(lacks(rest, 3));
            }
        }
        assert(says(b, f, fin.declared, fin.module)) by {
            reveal(says);
        }
        assert forall|i: int| 0 <= i < fs.len() implies says(
            b,
            #[trigger] fs[i],
            fin.declared,
            fin.module,
        ) by {
            if i > 0 {
                assert(says(b, rest[i - 1], fin.declared, fin.module));
            }
        }
        assert(fin.module.custom_sections =~= st.module.custom_sections + custom_names(b, fs));
        assert(fin.module.skipped_sections =~= st.module.skipped_sections + skipped_ids(fs));
        fs
    }
}

/// Whether `next` is what is known after section `f`, on the way from `st` to `fin`.
spec fn follows(b: Seq<u8>, st: Progress, f: Frame, next: Progress, fin: Progress) -> bool {
    let m = next.module;
    &&& next.last == st.reach(f.id).last
    &&& m.types == if f.id == 1 { fin.module.types } else { st.module.types }
    &&& m.imports == if f.id == 2 { fin.module.imports } else { st.module.imports }
    &&& next.declared == if f.id == 3 { fin.declared } else { st.declared }
    &&& m.exports == if f.id == 7 { fin.module.exports } else { st.module.exports }
    &&& m.start == if f.id == 8 { fin.module.start } else { st.module.start }
    &&& m.funcs == if f.id == 10 { fin.module.funcs } else { st.module.funcs }
    &&& m.custom_sections == st.module.custom_sections + custom_names(b, seq![f])
    &&& m.skipped_sections == st.module.skipped_sections + skipped_ids(seq![f])
}

/// A section that may stand at `p` is read for what it says.
proof fn lemma_section_is_read(b: Seq<u8>, p: int, st: Progress, f: Frame, fin: Progress)
    requires
        0 <= p <= b.len(),
        grammar::frame(b, p) == Ok::<(Frame, int), Fault>((f, f.start)),
        st.admits(f.id),
        says(b, f, fin.declared, fin.module),
        f.id == 10 ==> st.declared == fin.declared,
    ensures
        grammar::section(b, p, st) matches Ok((next, q)) && q == f.end && follows(
            b,
            st,
            f,
            next,
            fin,
        ),
{
    reveal(grammar::section);
    reveal(says);
    let rest = seq![f].drop_first();
    assert(custom_names(b, rest) == Seq::<Seq<char>>::empty());
    assert(skipped_ids(rest) == Seq::<u8>::empty());
    let (next, _) = grammar::section(b, p, st)->Ok_0;
    assert(next.module.custom_sections =~= st.module.custom_sections + custom_names(b, seq![f]));
    assert(next.module.skipped_sections =~= st.module.skipped_sections + skipped_ids(seq![f]));
}

/// The first section comes first among the names and the skipped ids.
proof fn lemma_first_section(b: Seq<u8>, fs: Seq<Frame>)
    requires
        fs.len() > 0,
    ensures
        custom_names(b, fs) == custom_names(b, seq![fs[0]]) + custom_names(b, fs.drop_first()),
        skipped_ids(fs) == skipped_ids(seq![fs[0]]) + skipped_ids(fs.drop_first()),
{
    let rest = seq![fs[0]].drop_first();
    assert(custom_names(b, rest) == Seq::<Seq<char>>::empty());
    assert(skipped_ids(rest) == Seq::<u8>::empty());
    assert(custom_names(b, fs) =~= custom_names(b, seq![fs[0]]) + custom_names(
        b,
        fs.drop_first(),
    ));
    assert(skipped_ids(fs) =~= skipped_ids(seq![fs[0]]) + skipped_ids(fs.drop_first()));
}

/// After the first section the others lead on.
proof fn lemma_others_lead(
    b: Seq<u8>,
    p: int,
    st: Progress,
    fs: Seq<Frame>,
    next: Progress,
    fin: Progress,
)
    requires
        fs.len() > 0,
        leads(b, p, st, fs, fin),
        follows(b, st, fs[0], next, fin),
    ensures
        leads(b, fs[0].end, next, fs.drop_first(), fin),
{
    let f = fs[0];
    let rest = fs.drop_first();
    assert(fs =~= seq![f] + rest);
    lemma_cons(f, rest);
    lemma_first_section(b, fs);
    assert forall|i: int| 0 <= i < rest.len() implies next.admits((#[trigger] rest[i]).id) by {
        assert(st.admits(fs[i + 1].id));
        assert(fs[0].id != 0 && fs[i + 1].id != 0 ==> fs[0].id < fs[i + 1].id);
    }
    assert(ordered(rest)) by {
        assert forall|i: int, j: int|
            0 <= i < j < rest.len() && rest[i].id != 0 && rest[j].id != 0 implies rest[i].id
            < rest[j].id by {
            assert(fs[i + 1].id < fs[j + 1].id);
        }
    }
    assert forall|i: int| 0 <= i < rest.len() implies says(
        b,
        #[trigger] rest[i],
        fin.declared,
        fin.module,
    ) by {
        assert(says(b, fs[i + 1], fin.declared, fin.module));
    }
    assert(fin.module.custom_sections =~= next.module.custom_sections + custom_names(b, rest));
    assert(fin.module.skipped_sections =~= next.module.skipped_sections + skipped_ids(rest));
}

/// No section after the code section is a function section.
proof fn lemma_declared_before_code(fs: Seq<Frame>)
    requires
        fs.len() > 0,
        ordered(fs),
        fs[0].id == 10,
    ensures
        lacks(fs, 3),
{
    assert forall|i: int| 0 <= i < fs.len() implies (#[trigger] fs[i]).id != 3 by {
        if i > 0 {
            assert(fs[i].id == 0 || fs[0].id < fs[i].id);
        }
    }
}

/// Sections that are framed and in order are read for what they say.
proof fn lemma_leading_sections_are_read(
    b: Seq<u8>,
    p: int,
    st: Progress,
    fs: Seq<Frame>,
    fin: Progress,
)
    requires
        0 <= p <= b.len(),
        leads(b, p, st, fs, fin),
    ensures
        grammar::sections(b, p, st) matches Ok(r) && r.module == fin.module && r.declared
            == fin.declared,
    decreases fs.len(),
{
    if fs.len() == 0 {
        assert(lacks(fs, 1) && lacks(fs, 2) && lacks(fs, 3) && lacks(fs, 7) && lacks(fs, 8)
            && lacks(fs, 10));
        assert(st.module =~= fin.module);
    } else {
        bounds::lemma_frame(b, p);
        let f = fs[0];
        assert(st.admits(f.id));
        assert(says(b, f, fin.declared, fin.module));
        if f.id == 10 {
            lemma_declared_before_code(fs);
        }
        lemma_section_is_read(b, p, st, f, fin);
        let (next, q) = grammar::section(b, p, st)->Ok_0;
        lemma_others_lead(b, p, st, fs, next, fin);
        lemma_leading_sections_are_read(b, q, next, fs.drop_first(), fin);
    }
}

/// Either all functions from number `i` on have a type, or the first that has none is found.
pub proof fn lemma_untyped(m: ModuleView, i: int)
    requires
        0 <= i,
    ensures
        grammar::untyped(m, i) is None <==> forall|j: int|
            i <= j < m.funcs.len() ==> (#[trigger] m.funcs[j]).type_index < m.types.len(),
    decreases m.funcs.len() - i,
{
    if i < m.funcs.len() && m.funcs[i].type_index < m.types.len() {
        lemma_untyped(m, i + 1);
    }
}

/// Framed sections lie inside the module, and a `u32` counts the bytes of each.
proof fn lemma_framed_extent(b: Seq<u8>, p: int, fs: Seq<Frame>, i: int)
    requires
        0 <= p <= b.len(),
        framed(b, p, fs),
        0 <= i < fs.len(),
    ensures
        0 <= fs[i].start <= fs[i].end <= b.len(),
        fs[i].end - fs[i].start <= u32::MAX,
    decreases fs.len(),
{
    bounds::lemma_frame(b, p);
    if i > 0 {
        lemma_framed_extent(b, fs[0].end, fs.drop_first(), i - 1);
    }
}

/// What the import section says takes up four bytes an import.
proof fn lemma_import_count(b: Seq<u8>, f: Frame, declared: Seq<u32>, m: ModuleView)
    requires
        f.id == 2,
        0 <= f.start <= f.end <= b.len(),
        f.end - f.start <= u32::MAX,
        says(b, f, declared, m),
    ensures
        4 * m.imports.len() <= u32::MAX,
{
    reveal(says);
    bounds::lemma_rules(b);
    bounds::lemma_vector(grammar::import_rule(), b, f.start, 4);
}

/// What the code section says: functions of three bytes or more, with few enough locals
/// and a proper end.
proof fn lemma_code_says(b: Seq<u8>, f: Frame, declared: Seq<u32>, m: ModuleView)
    requires
        f.id == 10,
        0 <= f.start <= f.end <= b.len(),
        f.end - f.start <= u32::MAX,
        says(b, f, declared, m),
    ensures
        3 * m.funcs.len() <= u32::MAX,
        forall|i: int|
            #![trigger m.funcs[i]]
            0 <= i < m.funcs.len() ==> {
                &&& m.funcs[i].locals.len() <= MAX_LOCALS
                &&& m.funcs[i].body.len() > 0
                &&& m.funcs[i].body.last() == 0x0B
            },
{
    reveal(says);
    bounds::lemma_code(b, f.start, declared);
}

/// A module that decodes is well-formed.
pub proof fn law_decoded_modules_are_well_formed(b: Seq<u8>)
    ensures
        grammar::module(b) matches Ok(m) ==> m.well_formed(),
{
    if let Ok(m) = grammar::module(b) {
        law_decodes_exactly_the_encodings(b, m);
        let (fs, declared) = choose|fs: Seq<Frame>, declared: Seq<u32>|
            encodes(b, fs, declared, m);
        assert(4 * m.imports.len() <= u32::MAX) by {
            if !lacks(fs, 2) {
                let i = choose|i: int| 0 <= i < fs.len() && (#[trigger] fs[i]).id == 2;
                lemma_framed_extent(b, 8, fs, i);
                assert(says(b, fs[i], declared, m));
                lemma_import_count(b, fs[i], declared, m);
            }
        }
        if !lacks(fs, 10) {
            let i = choose|i: int| 0 <= i < fs.len() && (#[trigger] fs[i]).id == 10;
            lemma_framed_extent(b, 8, fs, i);
            assert(says(b, fs[i], declared, m));
            lemma_code_says(b, fs[i], declared, m);
        }
        module::lemma_func_imports_len(m.imports);
    }
}

/// The byte strings that decode are exactly the encodings of modules, and each decodes to
/// the module it encodes: it opens with the magic number and the version, its sections
/// follow one another to the end, the ids of those that are not custom increase, each
/// section is filled exactly by well-formed content, and the module holds what the
/// sections say, with nothing for a section that is absent.
pub proof fn law_decodes_exactly_the_encodings(b: Seq<u8>, m: ModuleView)
    ensures
        grammar::module(b) == Ok::<ModuleView, Fault>(m) <==> exists|
            fs: Seq<Frame>,
            declared: Seq<u32>,
        |
            encodes(b, fs, declared, m),
{
    let none = Progress::none();
    if grammar::module(b) == Ok::<ModuleView, Fault>(m) {
        let fin = grammar::sections(b, 8, none)->Ok_0;
        let fs = lemma_sections_lead(b, 8, none, fin);
        lemma_untyped(m, 0);
        assert(m.custom_sections =~= custom_names(b, fs));
        assert(m.skipped_sections =~= skipped_ids(fs));
        assert(encodes(b, fs, fin.declared, m));
    }
    if exists|fs: Seq<Frame>, declared: Seq<u32>| encodes(b, fs, declared, m) {
        let (fs, declared) = choose|fs: Seq<Frame>, declared: Seq<u32>|
            encodes(b, fs, declared, m);
        let fin = Progress { module: m, declared, last: None };
        assert(lacks(fs, 1) ==> m.types =~= none.module.types);
        assert(lacks(fs, 2) ==> m.imports =~= none.module.imports);
        assert(lacks(fs, 3) ==> declared =~= none.declared);
        assert(lacks(fs, 7) ==> m.exports =~= none.module.exports);
        assert(lacks(fs, 10) ==> m.funcs =~= none.module.funcs);
        assert(m.custom_sections =~= none.module.custom_sections + custom_names(b, fs));
        assert(m.skipped_sections =~= none.module.skipped_sections + skipped_ids(fs));
        assert(leads(b, 8, none, fs, fin));
        lemma_leading_sections_are_read(b, 8, none, fs, fin);
        lemma_untyped(m, 0);
    }
}

} // verus!
