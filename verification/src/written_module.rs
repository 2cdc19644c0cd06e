//! Whole modules from the writer's side: which byte strings write which modules, and that a
//! byte string decodes to a module exactly when it writes that module.

use crate::bounds;
use crate::grammar;
use crate::grammar::{Fault, Frame};
use crate::module::{ExportView, FuncTypeView, FuncView, ImportView, ModuleView};
use crate::parser::MAGIC;
use crate::structure;
use crate::writing;
use vstd::prelude::*;

verus! {

/// A section: its id and its content.
#[verifier::ext_equal]
pub struct Section {
    pub id: u8,
    pub content: Seq<u8>,
}

/// Whether `x` writes the section `s`: its id, the size of its content, and the content.
pub open spec fn writes_section(x: Seq<u8>, s: Section) -> bool {
    &&& s.id <= 12
    &&& exists|n: Seq<u8>|
        #[trigger] writing::writes_uint(n, s.content.len()) && x == seq![s.id] + (n + s.content)
}

/// Whether `x` writes the sections `secs`, one after another.
pub open spec fn writes_sections(x: Seq<u8>, secs: Seq<Section>) -> bool
    decreases secs.len(),
{
    if secs.len() == 0 {
        x.len() == 0
    } else {
        exists|y: Seq<u8>, z: Seq<u8>|
            {
                &&& x == #[trigger] (y + z)
                &&& writes_section(y, secs[0])
                &&& writes_sections(z, secs.drop_first())
            }
    }
}

/// Whether the ids of the sections that are not custom increase.
pub open spec fn in_order(secs: Seq<Section>) -> bool {
    forall|i: int, j: int|
        0 <= i < j < secs.len() && secs[i].id != 0 && secs[j].id != 0 ==> secs[i].id < secs[j].id
}

/// Whether there is no section `id`.
pub open spec fn is_missing(secs: Seq<Section>, id: u8) -> bool {
    forall|i: int| 0 <= i < secs.len() ==> (#[trigger] secs[i]).id != id
}

/// Whether `content` is the name `n` and then any bytes.
pub open spec fn opens_with(content: Seq<u8>, n: Seq<char>) -> bool {
    exists|x: Seq<u8>, rest: Seq<u8>|
        content == #[trigger] (x + rest) && writing::writes_name(x, n)
}

/// Whether the custom sections have these names, in order.
pub open spec fn are_named(secs: Seq<Section>, names: Seq<Seq<char>>) -> bool
    decreases secs.len(),
{
    if secs.len() == 0 {
        names.len() == 0
    } else if secs[0].id == 0 {
        &&& names.len() > 0
        &&& opens_with(secs[0].content, names[0])
        &&& are_named(secs.drop_first(), names.drop_first())
    } else {
        are_named(secs.drop_first(), names)
    }
}

/// The ids of the table, memory, global, element, data and data count sections, in order.
pub open spec fn recorded(secs: Seq<Section>) -> Seq<u8>
    decreases secs.len(),
{
    if secs.len() == 0 {
        Seq::empty()
    } else {
        let id = secs[0].id;
        let rest = recorded(secs.drop_first());
        if id == 4 || id == 5 || id == 6 || id == 9 || id == 11 || id == 12 {
            seq![id] + rest
        } else {
            rest
        }
    }
}

/// The type index of each function.
pub open spec fn type_indices(funcs: Seq<FuncView>) -> Seq<u32> {
    Seq::new(funcs.len(), |i: int| funcs[i].type_index)
}

/// Whether the section says what `m` holds. What a custom section says is its name, and the
/// other sections without a part in `m` may hold any bytes.
pub open spec fn tells(s: Section, m: ModuleView) -> bool {
    &&& s.id == 1 ==> writing::writes_vector(writing::writes_func_type(), s.content, m.types)
    &&& s.id == 2 ==> writing::writes_vector(writing::writes_import(), s.content, m.imports)
    &&& s.id == 3 ==> writing::writes_vector(
        writing::writes_index(),
        s.content,
        type_indices(m.funcs),
    )
    &&& s.id == 7 ==> writing::writes_vector(writing::writes_export(), s.content, m.exports)
    &&& s.id == 8 ==> m.start is Some && writing::writes_uint(s.content, m.start->0 as nat)
    &&& s.id == 10 ==> writing::writes_vector(writing::writes_func(), s.content, m.funcs)
}

/// Whether the sections `secs` make up `m`.
pub open spec fn make_up(secs: Seq<Section>, m: ModuleView) -> bool {
    &&& in_order(secs)
    &&& forall|i: int| 0 <= i < secs.len() ==> tells(#[trigger] secs[i], m)
    &&& is_missing(secs, 1) ==> m.types.len() == 0
    &&& is_missing(secs, 2) ==> m.imports.len() == 0
    &&& is_missing(secs, 3) || is_missing(secs, 10) ==> m.funcs.len() == 0
    &&& is_missing(secs, 7) ==> m.exports.len() == 0
    &&& is_missing(secs, 8) ==> m.start is None
    &&& are_named(secs, m.custom_sections)
    &&& m.skipped_sections == recorded(secs)
    &&& forall|i: int|
        0 <= i < m.funcs.len() ==> (#[trigger] m.funcs[i]).type_index < m.types.len()
}

/// The magic number and version 1.
pub open spec fn opening() -> Seq<u8> {
    seq![0x00u8, 0x61u8, 0x73u8, 0x6Du8, 0x01u8, 0x00u8, 0x00u8, 0x00u8]
}

/// Whether `x` writes the module `m`.
pub open spec fn writes_module(x: Seq<u8>, m: ModuleView) -> bool {
    exists|rest: Seq<u8>, secs: Seq<Section>|
        {
            &&& #[trigger] writes_sections(rest, secs)
            &&& x == opening() + rest
            &&& make_up(secs, m)
        }
}

/// The header is read exactly where the magic number and version 1 stand.
pub proof fn law_header(b: Seq<u8>)
    ensures
        grammar::header(b) is Ok <==> b.len() >= 8 && b.take(8) == opening(),
        grammar::header(b) is Ok ==> grammar::header(b) == Ok::<((), int), Fault>(((), 8)),
{
    if b.len() >= 8 {
        let x = b.subrange(0, 4);
        let y = b.subrange(4, 8);
        assert(MAGIC@ =~= seq![0x00u8, 0x61u8, 0x73u8, 0x6Du8]);
        assert(x[0] == b[0] && x[1] == b[1] && x[2] == b[2] && x[3] == b[3]);
        assert(y[0] == b[4] && y[1] == b[5] && y[2] == b[6] && y[3] == b[7]);
        if b.take(8) == opening() {
            let t = b.take(8);
            assert(t[0] == b[0] && t[1] == b[1] && t[2] == b[2] && t[3] == b[3]);
            assert(t[4] == b[4] && t[5] == b[5] && t[6] == b[6] && t[7] == b[7]);
            assert(x =~= MAGIC@);
        }
        if grammar::header(b) is Ok {
            assert(x == MAGIC@);
            assert(b.take(8) =~= opening());
        }
    }
}

/// The content of the section that `f` frames.
spec fn framed_section(b: Seq<u8>, f: Frame) -> Section {
    Section { id: f.id, content: b.subrange(f.start, f.end) }
}

/// A section is framed exactly where it is written.
pub proof fn law_frames(b: Seq<u8>, p: int, f: Frame)
    requires
        0 <= p <= b.len(),
    ensures
        grammar::frame(b, p) == Ok::<(Frame, int), Fault>((f, f.start)) <==> {
            &&& p <= f.start <= f.end <= b.len()
            &&& writes_section(
                b.subrange(p, f.end),
                Section { id: f.id, content: b.subrange(f.start, f.end) },
            )
        },
{
    let s = framed_section(b, f);
    if grammar::frame(b, p) == Ok::<(Frame, int), Fault>((f, f.start)) {
        bounds::lemma_frame(b, p);
        let (size, r) = grammar::u32(b, p + 1)->Ok_0;
        writing::law_u32(b, p + 1, size, r);
        writing::lemma_one(b, p, p + 1, f.id);
        writing::lemma_join(b, p + 1, r, f.end);
        writing::lemma_join(b, p, p + 1, f.end);
        assert(writing::writes_uint(b.subrange(p + 1, r), s.content.len()));
    }
    if p <= f.start <= f.end <= b.len() && writes_section(b.subrange(p, f.end), s) {
        let n = choose|n: Seq<u8>|
            #[trigger] writing::writes_uint(n, s.content.len()) && b.subrange(p, f.end)
                == seq![s.id] + (n + s.content);
        writing::lemma_cut(b, p, f.end, seq![s.id], n + s.content);
        writing::lemma_one(b, p, p + 1, s.id);
        writing::lemma_cut(b, p + 1, f.end, n, s.content);
        writing::law_u32(b, p + 1, s.content.len() as u32, p + 1 + n.len());
    }
}

/// Whether `secs` are the sections that `fs` frame.
spec fn match_up(b: Seq<u8>, fs: Seq<Frame>, secs: Seq<Section>) -> bool {
    &&& fs.len() == secs.len()
    &&& forall|i: int|
        #![trigger fs[i]]
        #![trigger secs[i]]
        0 <= i < fs.len() ==> {
            &&& 0 <= fs[i].start <= fs[i].end <= b.len()
            &&& secs[i] == framed_section(b, fs[i])
        }
}

proof fn lemma_match_rest(b: Seq<u8>, fs: Seq<Frame>, secs: Seq<Section>)
    requires
        match_up(b, fs, secs),
        fs.len() > 0,
    ensures
        match_up(b, fs.drop_first(), secs.drop_first()),
{
    let gs = fs.drop_first();
    let ts = secs.drop_first();
    assert forall|i: int|
        #![trigger gs[i]]
        #![trigger ts[i]]
        0 <= i < gs.len() implies {
        &&& 0 <= gs[i].start <= gs[i].end <= b.len()
        &&& ts[i] == framed_section(b, gs[i])
    } by {
        assert(gs[i] == fs[i + 1]);
        assert(ts[i] == secs[i + 1]);
    }
}

/// Framed sections are written.
proof fn lemma_framed_are_written(b: Seq<u8>, p: int, fs: Seq<Frame>) -> (secs: Seq<Section>)
    requires
        0 <= p <= b.len(),
        structure::framed(b, p, fs),
    ensures
        writes_sections(b.subrange(p, b.len() as int), secs),
        match_up(b, fs, secs),
    decreases fs.len(),
{
    reveal_with_fuel(writes_sections, 2);
    let end = b.len() as int;
    if fs.len() == 0 {
        Seq::empty()
    } else {
        let f = fs[0];
        law_frames(b, p, f);
        let rest = lemma_framed_are_written(b, f.end, fs.drop_first());
        let s = framed_section(b, f);
        let secs = seq![s] + rest;
        assert(secs.drop_first() =~= rest);
        writing::lemma_join(b, p, f.end, end);
        assert forall|i: int|
            #![trigger fs[i]]
            #![trigger secs[i]]
            0 <= i < fs.len() implies {
            &&& 0 <= fs[i].start <= fs[i].end <= b.len()
            &&& secs[i] == framed_section(b, fs[i])
        } by {
            if i > 0 {
                assert(fs.drop_first()[i - 1] == fs[i]);
                assert(rest[i - 1] == secs[i]);
            }
        }
        secs
    }
}

/// Written sections are framed.
proof fn lemma_written_are_framed(b: Seq<u8>, p: int, secs: Seq<Section>) -> (fs: Seq<Frame>)
    requires
        0 <= p <= b.len(),
        writes_sections(b.subrange(p, b.len() as int), secs),
    ensures
        structure::framed(b, p, fs),
        match_up(b, fs, secs),
    decreases secs.len(),
{
    reveal_with_fuel(writes_sections, 2);
    let end = b.len() as int;
    if secs.len() == 0 {
        Seq::empty()
    } else {
        let s = secs[0];
        let (y, z) = choose|y: Seq<u8>, z: Seq<u8>|
            {
                &&& b.subrange(p, end) == #[trigger] (y + z)
                &&& writes_section(y, s)
                &&& writes_sections(z, secs.drop_first())
            };
        writing::lemma_cut(b, p, end, y, z);
        let q = p + y.len();
        let n = choose|n: Seq<u8>|
            #[trigger] writing::writes_uint(n, s.content.len()) && y == seq![s.id] + (n
                + s.content);
        writing::lemma_cut(b, p, q, seq![s.id], n + s.content);
        writing::lemma_cut(b, p + 1, q, n, s.content);
        let f = Frame { id: s.id, start: p + 1 + n.len(), end: q };
        assert(framed_section(b, f) =~= s);
        law_frames(b, p, f);
        let rest = lemma_written_are_framed(b, q, secs.drop_first());
        let fs = seq![f] + rest;
        assert(fs.drop_first() =~= rest);
        assert forall|i: int|
            #![trigger fs[i]]
            #![trigger secs[i]]
            0 <= i < fs.len() implies {
            &&& 0 <= fs[i].start <= fs[i].end <= b.len()
            &&& secs[i] == framed_section(b, fs[i])
        } by {
            if i > 0 {
                assert(secs.drop_first()[i - 1] == secs[i]);
                assert(rest[i - 1] == fs[i]);
            }
        }
        fs
    }
}

/// The items of the sections are read exactly where they are written.
proof fn lemma_rules(b: Seq<u8>)
    ensures
        writing::agrees(b, grammar::func_type_rule(), writing::writes_func_type()),
        writing::agrees(b, grammar::import_rule(), writing::writes_import()),
        writing::agrees(b, grammar::u32_rule(), writing::writes_index()),
        writing::agrees(b, grammar::export_rule(), writing::writes_export()),
{
    assert forall|p: int, v: FuncTypeView, q: int| 0 <= p implies #[trigger] writing::reads_just(
        b,
        grammar::func_type_rule(),
        writing::writes_func_type(),
        p,
        v,
        q,
    ) by {
        writing::law_func_types(b, p, v, q);
    }
    assert forall|p: int, v: ImportView, q: int| 0 <= p implies #[trigger] writing::reads_just(
        b,
        grammar::import_rule(),
        writing::writes_import(),
        p,
        v,
        q,
    ) by {
        writing::law_imports(b, p, v, q);
    }
    assert forall|p: int, v: u32, q: int| 0 <= p implies #[trigger] writing::reads_just(
        b,
        grammar::u32_rule(),
        writing::writes_index(),
        p,
        v,
        q,
    ) by {
        writing::law_u32(b, p, v, q);
    }
    assert forall|p: int, v: ExportView, q: int| 0 <= p implies #[trigger] writing::reads_just(
        b,
        grammar::export_rule(),
        writing::writes_export(),
        p,
        v,
        q,
    ) by {
        writing::law_exports(b, p, v, q);
    }
}

/// A custom section that opens with a name gives that name.
proof fn lemma_opening_name(b: Seq<u8>, f: Frame, n: Seq<char>)
    requires
        0 <= f.start <= f.end <= b.len(),
    ensures
        opens_with(b.subrange(f.start, f.end), n) <==> (grammar::name(b, f.start) matches Ok((t, q))
            && t == n && q <= f.end),
{
    let content = b.subrange(f.start, f.end);
    if opens_with(content, n) {
        let (x, rest) = choose|x: Seq<u8>, rest: Seq<u8>|
            content == #[trigger] (x + rest) && writing::writes_name(x, n);
        writing::lemma_cut(b, f.start, f.end, x, rest);
        writing::law_names(b, f.start, n, f.start + x.len());
    }
    if let Ok((t, q)) = grammar::name(b, f.start) {
        if t == n && q <= f.end {
            writing::law_names(b, f.start, n, q);
            writing::lemma_join(b, f.start, q, f.end);
            assert(content == b.subrange(f.start, q) + b.subrange(q, f.end));
        }
    }
}

/// A section says the same on both sides.
proof fn lemma_tells(b: Seq<u8>, f: Frame, m: ModuleView)
    requires
        0 <= f.start <= f.end <= b.len(),
        f.id != 0,
    ensures
        structure::says(b, f, type_indices(m.funcs), m) <==> tells(framed_section(b, f), m),
{
    reveal(structure::says);
    lemma_rules(b);
    let p = f.start;
    let q = f.end;
    if f.id == 1 {
        writing::law_vectors(
            b,
            grammar::func_type_rule(),
            writing::writes_func_type(),
            p,
            m.types,
            q,
        );
    } else if f.id == 2 {
        writing::law_vectors(
            b,
            grammar::import_rule(),
            writing::writes_import(),
            p,
            m.imports,
            q,
        );
    } else if f.id == 3 {
        writing::law_vectors(
            b,
            grammar::u32_rule(),
            writing::writes_index(),
            p,
            type_indices(m.funcs),
            q,
        );
    } else if f.id == 7 {
        writing::law_vectors(
            b,
            grammar::export_rule(),
            writing::writes_export(),
            p,
            m.exports,
            q,
        );
    } else if f.id == 8 {
        if let Some(index) = m.start {
            writing::law_u32(b, p, index, q);
        }
    } else if f.id == 10 {
        writing::law_code(b, p, type_indices(m.funcs), m.funcs, q);
    }
}

/// The names that framed custom sections give are those they are written with.
proof fn lemma_names(b: Seq<u8>, fs: Seq<Frame>, secs: Seq<Section>, names: Seq<Seq<char>>)
    requires
        match_up(b, fs, secs),
    ensures
        are_named(secs, names) <==> {
            &&& names == structure::custom_names(b, fs)
            &&& forall|i: int|
                0 <= i < fs.len() && (#[trigger] fs[i]).id == 0 ==> (grammar::name(b, fs[i].start) matches Ok(
                    (_, q),
                ) && q <= fs[i].end)
        },
    decreases fs.len(),
{
    if fs.len() == 0 {
        if names.len() == 0 {
            assert(names =~= structure::custom_names(b, fs));
        }
    } else {
        let f = fs[0];
        let gs = fs.drop_first();
        let ts = secs.drop_first();
        assert(secs[0] == framed_section(b, f));
        lemma_match_rest(b, fs, secs);
        let good = forall|i: int|
            0 <= i < fs.len() && (#[trigger] fs[i]).id == 0 ==> (grammar::name(b, fs[i].start) matches Ok(
                (_, q),
            ) && q <= fs[i].end);
        let rest_good = forall|i: int|
            0 <= i < gs.len() && (#[trigger] gs[i]).id == 0 ==> (grammar::name(b, gs[i].start) matches Ok(
                (_, q),
            ) && q <= gs[i].end);
        assert(good ==> rest_good) by {
            if good {
                assert forall|i: int|
                    0 <= i < gs.len() && (#[trigger] gs[i]).id == 0 implies (grammar::name(
                    b,
                    gs[i].start,
                ) matches Ok((_, q)) && q <= gs[i].end) by {
                    assert(gs[i] == fs[i + 1]);
                }
            }
        }
        let first_good = f.id == 0 ==> (grammar::name(b, f.start) matches Ok((_, q)) && q <= f.end);
        assert(rest_good && first_good ==> good) by {
            if rest_good && first_good {
                assert forall|i: int|
                    0 <= i < fs.len() && (#[trigger] fs[i]).id == 0 implies (grammar::name(
                    b,
                    fs[i].start,
                ) matches Ok((_, q)) && q <= fs[i].end) by {
                    if i > 0 {
                        assert(gs[i - 1] == fs[i]);
                    }
                }
            }
        }
        if f.id == 0 {
            let all = structure::custom_names(b, fs);
            let given = structure::custom_names(b, gs);
            let own = grammar::name(b, f.start)->Ok_0.0;
            assert(all == seq![own] + given);
            assert(all.drop_first() =~= given);
            assert(all[0] == own);
            if names.len() > 0 {
                lemma_opening_name(b, f, names[0]);
                lemma_names(b, gs, ts, names.drop_first());
                assert(names =~= seq![names[0]] + names.drop_first());
            }
        } else {
            lemma_names(b, gs, ts, names);
        }
    }
}

proof fn lemma_recorded(b: Seq<u8>, fs: Seq<Frame>, secs: Seq<Section>)
    requires
        match_up(b, fs, secs),
        forall|i: int| 0 <= i < fs.len() ==> (#[trigger] fs[i]).id <= 12,
    ensures
        recorded(secs) == structure::skipped_ids(fs),
    decreases fs.len(),
{
    if fs.len() > 0 {
        let gs = fs.drop_first();
        assert(secs[0] == framed_section(b, fs[0]));
        assert(fs[0].id <= 12);
        lemma_match_rest(b, fs, secs);
        assert forall|i: int| 0 <= i < gs.len() implies (#[trigger] gs[i]).id <= 12 by {
            assert(gs[i] == fs[i + 1]);
        }
        lemma_recorded(b, gs, secs.drop_first());
    }
}

/// The ids of framed sections are known ones.
proof fn lemma_known_ids(b: Seq<u8>, p: int, fs: Seq<Frame>)
    requires
        0 <= p <= b.len(),
        structure::framed(b, p, fs),
    ensures
        forall|i: int| 0 <= i < fs.len() ==> (#[trigger] fs[i]).id <= 12,
    decreases fs.len(),
{
    if fs.len() > 0 {
        bounds::lemma_frame(b, p);
        lemma_known_ids(b, fs[0].end, fs.drop_first());
        assert forall|i: int| 0 <= i < fs.len() implies (#[trigger] fs[i]).id <= 12 by {
            if i > 0 {
                assert(fs.drop_first()[i - 1] == fs[i]);
            }
        }
    }
}

proof fn lemma_missing(b: Seq<u8>, fs: Seq<Frame>, secs: Seq<Section>, id: u8)
    requires
        match_up(b, fs, secs),
    ensures
        structure::lacks(fs, id) <==> is_missing(secs, id),
{
    if structure::lacks(fs, id) {
        assert forall|i: int| 0 <= i < secs.len() implies (#[trigger] secs[i]).id != id by {
            assert(fs[i].id != id);
        }
    }
    if is_missing(secs, id) {
        assert forall|i: int| 0 <= i < fs.len() implies (#[trigger] fs[i]).id != id by {
            assert(secs[i].id != id);
        }
    }
}

/// What does not depend on which section is which.
proof fn lemma_match_facts(b: Seq<u8>, fs: Seq<Frame>, secs: Seq<Section>, m: ModuleView)
    requires
        match_up(b, fs, secs),
        structure::framed(b, 8, fs),
        b.len() >= 8,
    ensures
        forall|id: u8| #[trigger] structure::lacks(fs, id) <==> is_missing(secs, id),
        structure::ordered(fs) <==> in_order(secs),
        recorded(secs) == structure::skipped_ids(fs),
{
    assert forall|id: u8| #[trigger] structure::lacks(fs, id) <==> is_missing(secs, id) by {
        lemma_missing(b, fs, secs, id);
    }
    if structure::ordered(fs) {
        assert forall|i: int, j: int|
            0 <= i < j < secs.len() && secs[i].id != 0 && secs[j].id != 0 implies secs[i].id
            < secs[j].id by {
            assert(fs[i].id == secs[i].id && fs[j].id == secs[j].id);
        }
    }
    if in_order(secs) {
        assert forall|i: int, j: int|
            0 <= i < j < fs.len() && fs[i].id != 0 && fs[j].id != 0 implies fs[i].id
            < fs[j].id by {
            assert(fs[i].id == secs[i].id && fs[j].id == secs[j].id);
        }
    }
    lemma_known_ids(b, 8, fs);
    lemma_recorded(b, fs, secs);
}

/// The type indices of the function section are those of the functions.
proof fn lemma_declared(
    b: Seq<u8>,
    fs: Seq<Frame>,
    declared: Seq<u32>,
    m: ModuleView,
)
    requires
        structure::encodes(b, fs, declared, m),
        b.len() >= 8,
    ensures
        declared == type_indices(m.funcs),
{
    if structure::lacks(fs, 10) {
        assert(declared =~= type_indices(m.funcs));
    } else {
        let i = choose|i: int| 0 <= i < fs.len() && (#[trigger] fs[i]).id == 10;
        assert(structure::says(b, fs[i], declared, m));
        reveal(structure::says);
        let secs = lemma_framed_are_written(b, 8, fs);
        assert(secs[i] == framed_section(b, fs[i]));
        writing::law_code(b, fs[i].start, declared, m.funcs, fs[i].end);
        assert forall|k: int| 0 <= k < declared.len() implies declared[k] == type_indices(
            m.funcs,
        )[k] by {
            assert(m.funcs[k].type_index == declared[k]);
        }
        assert(declared =~= type_indices(m.funcs));
    }
}

proof fn lemma_encodings_are_written(b: Seq<u8>, fs: Seq<Frame>, declared: Seq<u32>, m: ModuleView)
    requires
        structure::encodes(b, fs, declared, m),
    ensures
        writes_module(b, m),
{
    law_header(b);
    let secs = lemma_framed_are_written(b, 8, fs);
    lemma_match_facts(b, fs, secs, m);
    lemma_declared(b, fs, declared, m);
    assert forall|i: int| 0 <= i < secs.len() implies tells(#[trigger] secs[i], m) by {
        assert(structure::says(b, fs[i], declared, m));
        if fs[i].id != 0 {
            lemma_tells(b, fs[i], m);
        }
    }
    assert forall|i: int| 0 <= i < fs.len() && (#[trigger] fs[i]).id == 0 implies (grammar::name(
        b,
        fs[i].start,
    ) matches Ok((_, q)) && q <= fs[i].end) by {
        assert(structure::says(b, fs[i], declared, m));
        reveal(structure::says);
    }
    lemma_names(b, fs, secs, m.custom_sections);
    let rest = b.subrange(8, b.len() as int);
    assert(b =~= b.take(8) + rest);
    assert(structure::lacks(fs, 1) == is_missing(secs, 1));
    assert(structure::lacks(fs, 2) == is_missing(secs, 2));
    assert(structure::lacks(fs, 3) == is_missing(secs, 3));
    assert(structure::lacks(fs, 7) == is_missing(secs, 7));
    assert(structure::lacks(fs, 8) == is_missing(secs, 8));
    assert(structure::lacks(fs, 10) == is_missing(secs, 10));
    assert(make_up(secs, m));
}

proof fn lemma_written_encode(b: Seq<u8>, rest: Seq<u8>, secs: Seq<Section>, m: ModuleView)
    requires
        writes_sections(rest, secs),
        b == opening() + rest,
        make_up(secs, m),
    ensures
        exists|fs: Seq<Frame>, declared: Seq<u32>| structure::encodes(b, fs, declared, m),
{
    let declared = type_indices(m.funcs);
    assert(b.take(8) =~= opening());
    assert(b.subrange(8, b.len() as int) =~= rest);
    law_header(b);
    let fs = lemma_written_are_framed(b, 8, secs);
    lemma_match_facts(b, fs, secs, m);
    lemma_names(b, fs, secs, m.custom_sections);
    assert forall|i: int| 0 <= i < fs.len() implies structure::says(
        b,
        #[trigger] fs[i],
        declared,
        m,
    ) by {
        assert(tells(secs[i], m));
        if fs[i].id != 0 {
            lemma_tells(b, fs[i], m);
        } else {
            reveal(structure::says);
        }
    }
    assert(structure::lacks(fs, 1) == is_missing(secs, 1));
    assert(structure::lacks(fs, 2) == is_missing(secs, 2));
    assert(structure::lacks(fs, 3) == is_missing(secs, 3));
    assert(structure::lacks(fs, 7) == is_missing(secs, 7));
    assert(structure::lacks(fs, 8) == is_missing(secs, 8));
    assert(structure::lacks(fs, 10) == is_missing(secs, 10));
    assert(structure::encodes(b, fs, declared, m));
}

/// A byte string decodes to a module exactly when it writes that module.
pub proof fn law_modules(b: Seq<u8>, m: ModuleView)
    ensures
        grammar::module(b) == Ok::<ModuleView, Fault>(m) <==> writes_module(b, m),
{
    structure::law_decodes_exactly_the_encodings(b, m);
    if grammar::module(b) == Ok::<ModuleView, Fault>(m) {
        let (fs, declared) = choose|fs: Seq<Frame>, declared: Seq<u32>|
            structure::encodes(b, fs, declared, m);
        lemma_encodings_are_written(b, fs, declared, m);
    }
    if writes_module(b, m) {
        let (rest, secs) = choose|rest: Seq<u8>, secs: Seq<Section>|
            {
                &&& #[trigger] writes_sections(rest, secs)
                &&& b == opening() + rest
                &&& make_up(secs, m)
            };
        lemma_written_encode(b, rest, secs, m);
    }
}

} // verus!
