//! Skipped sections: those that only matter to memories, tables, globals, element and data
//! segments. They are recorded as present and bear on nothing else.

use crate::bounds;
use crate::grammar;
use crate::grammar::{Fault, Progress};
use crate::locality;
use crate::module::ModuleView;
use crate::structure;
use vstd::prelude::*;

verus! {

/// Whether `c` is a single section with the id `id`, one that is skipped.
pub open spec fn is_skipped_section(c: Seq<u8>, id: u8) -> bool {
    grammar::frame(c, 0) matches Ok((f, _)) && {
        &&& f.id == id
        &&& f.end == c.len()
        &&& structure::is_skipped(id)
    }
}

/// `m` with other ids of skipped sections.
spec fn with_skipped(m: ModuleView, ids: Seq<u8>) -> ModuleView {
    ModuleView { skipped_sections: ids, ..m }
}

/// Whether every section that may follow `last` may follow `prior` too.
spec fn no_later(prior: Option<u8>, last: Option<u8>) -> bool {
    prior is None || (last is Some && prior->0 <= last->0)
}

/// Sections that may follow `st` say the same from a state that differs in the skipped
/// sections before them, and in a last section that is no later.
proof fn lemma_skipped_apart(
    b: Seq<u8>,
    p: int,
    st: Progress,
    ids: Seq<u8>,
    last: Option<u8>,
) -> (added: Seq<u8>)
    requires
        0 <= p <= b.len(),
        grammar::sections(b, p, st) is Ok,
        no_later(last, st.last),
    ensures
        ({
            let from = Progress { module: with_skipped(st.module, ids), last, ..st };
            let fin = grammar::sections(b, p, st)->Ok_0;
            &&& fin.module.skipped_sections == st.module.skipped_sections + added
            &&& grammar::sections(b, p, from) matches Ok(other) && {
                &&& other.declared == fin.declared
                &&& other.module == with_skipped(fin.module, ids + added)
            }
        }),
    decreases b.len() - p,
{
    let from = Progress { module: with_skipped(st.module, ids), last, ..st };
    if p < b.len() {
        bounds::lemma_section(b, p, st);
        let (f, _) = grammar::frame(b, p)->Ok_0;
        let (next, q) = grammar::section(b, p, st)->Ok_0;
        reveal(grammar::section);
        let here: Seq<u8> = if structure::is_skipped(f.id) {
            seq![f.id]
        } else {
            Seq::empty()
        };
        let reached = from.reach(f.id).last;
        let after = Progress { module: with_skipped(next.module, ids + here), last: reached, ..next };
        assert(next.module.skipped_sections =~= st.module.skipped_sections + here);
        assert(grammar::section(b, p, from) == Ok::<(Progress, int), Fault>((after, q))) by {
            assert(structure::is_skipped(f.id) ==> ids.push(f.id) =~= ids + here);
            assert(!structure::is_skipped(f.id) ==> ids =~= ids + here);
        }
        let later = lemma_skipped_apart(b, q, next, ids + here, reached);
        let added = here + later;
        assert(st.module.skipped_sections + here + later =~= st.module.skipped_sections + added);
        assert(ids + here + later =~= ids + added);
        added
    } else {
        let added = Seq::<u8>::empty();
        assert(st.module.skipped_sections + added =~= st.module.skipped_sections);
        assert(ids + added =~= ids);
        added
    }
}

/// A skipped section whose id may stand after `st` is recorded, whatever it holds.
proof fn lemma_skipped_section(c: Seq<u8>, id: u8, st: Progress)
    requires
        is_skipped_section(c, id),
        st.admits(id),
    ensures
        grammar::section(c, 0, st) == Ok::<(Progress, int), Fault>(
            (
                Progress {
                    module: with_skipped(st.module, st.module.skipped_sections.push(id)),
                    last: Some(id),
                    ..st
                },
                c.len() as int,
            ),
        ),
{
    reveal(grammar::section);
}

/// After the sections of `a`, a skipped section `c` is read and then `z`.
proof fn lemma_skipped_between(a: Seq<u8>, c: Seq<u8>, z: Seq<u8>, id: u8)
    requires
        a.len() >= 8,
        grammar::sections(a, 8, Progress::none()) is Ok,
        is_skipped_section(c, id),
        grammar::sections(a, 8, Progress::none())->Ok_0.admits(id),
    ensures
        ({
            let mid = grammar::sections(a, 8, Progress::none())->Ok_0;
            let next = Progress {
                module: with_skipped(mid.module, mid.module.skipped_sections.push(id)),
                last: Some(id),
                ..mid
            };
            grammar::sections(a + c + z, 8, Progress::none()) == grammar::sections(
                a + c + z,
                (a + c).len() as int,
                next,
            )
        }),
{
    let d = a + c + z;
    assert(d =~= a + (c + z));
    let mid = grammar::sections(a, 8, Progress::none())->Ok_0;
    locality::lemma_sections_then(a, c + z, 8, Progress::none());
    lemma_skipped_section(c, id, mid);
    assert(c.subrange(0, c.len() as int) =~= d.subrange(a.len() as int, (a + c).len() as int));
    locality::law_section_is_local(c, 0, d, a.len() as int, mid);
    bounds::lemma_section(c, 0, mid);
}

/// A section that was read stands in order.
proof fn lemma_in_order(a: Seq<u8>, c: Seq<u8>, z: Seq<u8>, id: u8)
    requires
        a.len() >= 8,
        grammar::sections(a, 8, Progress::none()) is Ok,
        is_skipped_section(c, id),
        grammar::sections(a + c + z, 8, Progress::none()) is Ok,
    ensures
        grammar::sections(a, 8, Progress::none())->Ok_0.admits(id),
{
    let d = a + c + z;
    let p = a.len() as int;
    assert(d =~= a + (c + z));
    let mid = grammar::sections(a, 8, Progress::none())->Ok_0;
    locality::lemma_sections_then(a, c + z, 8, Progress::none());
    bounds::lemma_frame(c, 0);
    assert(d[p] == c[0]);
    assert(grammar::section(d, p, mid) is Ok);
    reveal(grammar::section);
}

/// A module that has a skipped section is, but for the record of that section, the module
/// without it: its types, imports, functions, exports and the rest are the same.
pub proof fn law_skipped_sections_bear_on_nothing_else(
    a: Seq<u8>,
    c: Seq<u8>,
    z: Seq<u8>,
    id: u8,
    m: ModuleView,
)
    requires
        grammar::header(a) is Ok,
        grammar::sections(a, 8, Progress::none()) is Ok,
        is_skipped_section(c, id),
        grammar::module(a + c + z) == Ok::<ModuleView, Fault>(m),
    ensures
        ({
            let k = grammar::sections(a, 8, Progress::none())->Ok_0.module.skipped_sections.len();
            &&& k < m.skipped_sections.len()
            &&& m.skipped_sections[k as int] == id
            &&& grammar::module(a + z) == Ok::<ModuleView, Fault>(
                ModuleView { skipped_sections: m.skipped_sections.remove(k as int), ..m },
            )
        }),
{
    let none = Progress::none();
    let d = a + c + z;
    let mid = grammar::sections(a, 8, none)->Ok_0;
    let ids = mid.module.skipped_sections;
    locality::lemma_header_then(a, z);
    locality::lemma_header_then(a, c + z);
    assert(d =~= a + (c + z));
    locality::lemma_sections_then(a, z, 8, none);
    locality::lemma_sections_then(a, c + z, 8, none);
    lemma_in_order(a, c, z, id);
    lemma_skipped_between(a, c, z, id);
    let next = Progress {
        module: with_skipped(mid.module, ids.push(id)),
        last: Some(id),
        ..mid
    };
    locality::lemma_sections_after(a + c, a, z, 0, next);
    let added = lemma_skipped_apart(a + z, a.len() as int, next, ids, mid.last);
    assert(with_skipped(next.module, ids) =~= mid.module);
    assert((ids.push(id) + added).remove(ids.len() as int) =~= ids + added);
    let fin = grammar::sections(d, 8, none)->Ok_0;
    locality::lemma_untyped_apart(fin.module, with_skipped(fin.module, ids + added), 0);
}

/// A module stays a module when a skipped section `c` is put in between two of its
/// sections where the ids go on increasing. Its id is recorded in its place among the
/// skipped sections, whatever it holds, and nothing else changes.
pub proof fn law_skipped_sections_stand_in_order(
    a: Seq<u8>,
    c: Seq<u8>,
    z: Seq<u8>,
    id: u8,
    m: ModuleView,
)
    requires
        grammar::header(a) is Ok,
        grammar::sections(a, 8, Progress::none()) is Ok,
        is_skipped_section(c, id),
        grammar::module(a + z) == Ok::<ModuleView, Fault>(m),
        grammar::sections(a, 8, Progress::none())->Ok_0.admits(id),
        grammar::sections(
            a + z,
            a.len() as int,
            grammar::sections(a, 8, Progress::none())->Ok_0.reach(id),
        ) is Ok,
    ensures
        ({
            let k = grammar::sections(a, 8, Progress::none())->Ok_0.module.skipped_sections.len();
            &&& k <= m.skipped_sections.len()
            &&& grammar::module(a + c + z) == Ok::<ModuleView, Fault>(
                ModuleView { skipped_sections: m.skipped_sections.insert(k as int, id), ..m },
            )
        }),
{
    let none = Progress::none();
    let mid = grammar::sections(a, 8, none)->Ok_0;
    let ids = mid.module.skipped_sections;
    let p = a.len() as int;
    locality::lemma_header_then(a, z);
    locality::lemma_header_then(a, c + z);
    assert(a + c + z =~= a + (c + z));
    locality::lemma_sections_then(a, z, 8, none);
    lemma_skipped_between(a, c, z, id);
    let here = mid.reach(id);
    assert(with_skipped(here.module, ids) =~= mid.module);
    let before = lemma_skipped_apart(a + z, p, here, ids, mid.last);
    let added = lemma_skipped_apart(a + z, p, here, ids.push(id), Some(id));
    assert(before =~= added) by {
        let s = ids + before;
        assert(before =~= s.skip(ids.len() as int));
        assert(added =~= (ids + added).skip(ids.len() as int));
    }
    let next = Progress {
        module: with_skipped(mid.module, ids.push(id)),
        last: Some(id),
        ..mid
    };
    locality::lemma_sections_after(a, a + c, z, 0, next);
    assert((ids + added).insert(ids.len() as int, id) =~= ids.push(id) + added);
    locality::lemma_untyped_apart(m, with_skipped(m, ids.push(id) + added), 0);
}

} // verus!
