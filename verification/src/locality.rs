//! Reading is local: what a piece means depends on its own bytes alone, not on where they
//! stand nor on what surrounds them.

use crate::bounds;
use crate::grammar;
use crate::grammar::{Fault, Frame, Progress, Rule, Step};
use crate::leb;
use crate::module::{ExternKind, ModuleView};
use vstd::prelude::*;

verus! {

/// Whether the `n` bytes of `b` from `p` on are those of `c` from `q` on.
pub open spec fn same(b: Seq<u8>, p: int, c: Seq<u8>, q: int, n: int) -> bool {
    &&& 0 <= n
    &&& 0 <= p <= p + n <= b.len()
    &&& 0 <= q <= q + n <= c.len()
    &&& b.subrange(p, p + n) == c.subrange(q, q + n)
}

/// Whether `step`, read from `b` at `p`, gave a value, and its bytes stand in `c` at `q`.
pub open spec fn copied<T>(b: Seq<u8>, p: int, c: Seq<u8>, q: int, step: Step<T>) -> bool {
    &&& 0 <= p <= b.len()
    &&& step matches Ok((_, r)) && same(b, p, c, q, r - p)
}

/// Whether `to`, read at `q`, is the same value of the same length as `from`, read at `p`.
pub open spec fn moved<T>(from: Step<T>, p: int, to: Step<T>, q: int) -> bool {
    from matches Ok((v, r)) && to == Ok::<(T, int), Fault>((v, q + (r - p)))
}

/// Whether `rule` reads a copy as it reads the original.
pub open spec fn is_local<T>(b: Seq<u8>, c: Seq<u8>, rule: Rule<T>) -> bool {
    forall|p: int, q: int|
        #![trigger rule(b, p), rule(c, q)]
        copied(b, p, c, q, rule(b, p)) ==> moved(rule(b, p), p, rule(c, q), q)
}

/// Equal bytes are equal in each of two parts.
proof fn lemma_split(b: Seq<u8>, p: int, c: Seq<u8>, q: int, n: int, k: int)
    requires
        same(b, p, c, q, n),
        0 <= k <= n,
    ensures
        same(b, p, c, q, k),
        same(b, p + k, c, q + k, n - k),
{
    let x = b.subrange(p, p + n);
    let y = c.subrange(q, q + n);
    assert(b.subrange(p, p + k) =~= x.subrange(0, k));
    assert(c.subrange(q, q + k) =~= y.subrange(0, k));
    assert(b.subrange(p + k, p + n) =~= x.subrange(k, n));
    assert(c.subrange(q + k, q + n) =~= y.subrange(k, n));
}

/// Equal bytes are equal one by one.
proof fn lemma_same_byte(b: Seq<u8>, p: int, c: Seq<u8>, q: int, n: int, k: int)
    requires
        same(b, p, c, q, n),
        0 <= k < n,
    ensures
        b[p + k] == c[q + k],
{
    assert(b.subrange(p, p + n)[k] == c.subrange(q, q + n)[k]);
}

proof fn lemma_byte(b: Seq<u8>, p: int, c: Seq<u8>, q: int)
    requires
        copied(b, p, c, q, grammar::byte(b, p)),
    ensures
        moved(grammar::byte(b, p), p, grammar::byte(c, q), q),
{
    lemma_same_byte(b, p, c, q, 1, 0);
}

/// An integer is read alike wherever its bytes stand.
pub proof fn law_uint_is_local(b: Seq<u8>, p: int, c: Seq<u8>, q: int, bits: nat)
    requires
        leb::uint_at(b, p, bits) matches Ok((_, r)) && same(b, p, c, q, r - p),
    ensures
        leb::uint_at(b, p, bits) matches Ok((v, r)) && leb::uint_at(c, q, bits) == Ok::<
            (nat, int),
            leb::LebError,
        >((v, q + (r - p))),
    decreases bits,
{
    leb::law_uint_fits_its_width(b, p, bits);
    let (_, r) = leb::uint_at(b, p, bits)->Ok_0;
    lemma_same_byte(b, p, c, q, r - p, 0);
    if b[p] >= 0x80 {
        leb::law_uint_fits_its_width(b, p + 1, (bits - 7) as nat);
        lemma_split(b, p, c, q, r - p, 1);
        law_uint_is_local(b, p + 1, c, q + 1, (bits - 7) as nat);
    }
}

proof fn lemma_u32(b: Seq<u8>, p: int, c: Seq<u8>, q: int)
    requires
        copied(b, p, c, q, grammar::u32(b, p)),
    ensures
        moved(grammar::u32(b, p), p, grammar::u32(c, q), q),
{
    law_uint_is_local(b, p, c, q, 32);
}

proof fn lemma_name(b: Seq<u8>, p: int, c: Seq<u8>, q: int)
    requires
        copied(b, p, c, q, grammar::name(b, p)),
    ensures
        moved(grammar::name(b, p), p, grammar::name(c, q), q),
{
    bounds::lemma_u32(b, p);
    let (len, x) = grammar::u32(b, p)->Ok_0;
    let (_, end) = grammar::name(b, p)->Ok_0;
    lemma_split(b, p, c, q, end - p, x - p);
    lemma_u32(b, p, c, q);
}

proof fn lemma_val_type(b: Seq<u8>, p: int, c: Seq<u8>, q: int)
    requires
        copied(b, p, c, q, grammar::val_type(b, p)),
    ensures
        moved(grammar::val_type(b, p), p, grammar::val_type(c, q), q),
{
    lemma_byte(b, p, c, q);
}

proof fn lemma_extern_kind(b: Seq<u8>, p: int, c: Seq<u8>, q: int)
    requires
        copied(b, p, c, q, grammar::extern_kind(b, p)),
    ensures
        moved(grammar::extern_kind(b, p), p, grammar::extern_kind(c, q), q),
{
    lemma_byte(b, p, c, q);
}

proof fn lemma_repeat<T>(rule: Rule<T>, b: Seq<u8>, p: int, c: Seq<u8>, q: int, n: nat)
    requires
        bounds::keeps_within(b, 0, rule),
        is_local(b, c, rule),
        copied(b, p, c, q, grammar::repeat(rule, b, p, n)),
    ensures
        moved(grammar::repeat(rule, b, p, n), p, grammar::repeat(rule, c, q, n), q),
    decreases n,
{
    if n > 0 {
        bounds::lemma_repeat(rule, b, p, (n - 1) as nat, 0);
        let (_, x) = grammar::repeat(rule, b, p, (n - 1) as nat)->Ok_0;
        let (_, end) = grammar::repeat(rule, b, p, n)->Ok_0;
        assert(bounds::within(b, x, 0, rule(b, x)));
        lemma_split(b, p, c, q, end - p, x - p);
        lemma_repeat(rule, b, p, c, q, (n - 1) as nat);
        let y = q + (x - p);
        assert(copied(b, x, c, y, rule(b, x)));
        assert(moved(rule(b, x), x, rule(c, y), y));
    }
}

proof fn lemma_vector<T>(rule: Rule<T>, b: Seq<u8>, p: int, c: Seq<u8>, q: int)
    requires
        bounds::keeps_within(b, 0, rule),
        is_local(b, c, rule),
        copied(b, p, c, q, grammar::vector(rule, b, p)),
    ensures
        moved(grammar::vector(rule, b, p), p, grammar::vector(rule, c, q), q),
{
    bounds::lemma_u32(b, p);
    let (n, x) = grammar::u32(b, p)->Ok_0;
    let (_, end) = grammar::vector(rule, b, p)->Ok_0;
    bounds::lemma_repeat(rule, b, x, n as nat, 0);
    lemma_split(b, p, c, q, end - p, x - p);
    lemma_u32(b, p, c, q);
    lemma_repeat(rule, b, x, c, q + (x - p), n as nat);
}

proof fn lemma_val_types(b: Seq<u8>, p: int, c: Seq<u8>, q: int)
    requires
        copied(b, p, c, q, grammar::val_types(b, p)),
    ensures
        moved(grammar::val_types(b, p), p, grammar::val_types(c, q), q),
{
    let rule = grammar::val_type_rule();
    assert forall|p: int, q: int|
        #![trigger rule(b, p), rule(c, q)]
        copied(b, p, c, q, rule(b, p)) implies moved(rule(b, p), p, rule(c, q), q) by {
        lemma_val_type(b, p, c, q);
    }
    lemma_vector(rule, b, p, c, q);
}

proof fn lemma_limits(b: Seq<u8>, p: int, c: Seq<u8>, q: int)
    requires
        copied(b, p, c, q, grammar::limits(b, p)),
    ensures
        moved(grammar::limits(b, p), p, grammar::limits(c, q), q),
{
    let (flags, x) = grammar::byte(b, p)->Ok_0;
    let (_, end) = grammar::limits(b, p)->Ok_0;
    bounds::lemma_u32(b, x);
    let (_, y) = grammar::u32(b, x)->Ok_0;
    bounds::lemma_u32(b, y);
    lemma_split(b, p, c, q, end - p, 1);
    lemma_byte(b, p, c, q);
    lemma_split(b, x, c, q + 1, end - x, y - x);
    lemma_u32(b, x, c, q + 1);
    if flags == 0x01 {
        lemma_u32(b, y, c, q + (y - p));
    }
}

proof fn lemma_func_type(b: Seq<u8>, p: int, c: Seq<u8>, q: int)
    requires
        copied(b, p, c, q, grammar::func_type(b, p)),
    ensures
        moved(grammar::func_type(b, p), p, grammar::func_type(c, q), q),
{
    let (_, x) = grammar::byte(b, p)->Ok_0;
    let (_, end) = grammar::func_type(b, p)->Ok_0;
    bounds::lemma_val_types(b, x);
    let (_, y) = grammar::val_types(b, x)->Ok_0;
    bounds::lemma_val_types(b, y);
    lemma_split(b, p, c, q, end - p, 1);
    lemma_byte(b, p, c, q);
    lemma_split(b, x, c, q + 1, end - x, y - x);
    lemma_val_types(b, x, c, q + 1);
    lemma_val_types(b, y, c, q + (y - p));
}

proof fn lemma_import_desc(b: Seq<u8>, p: int, c: Seq<u8>, q: int, kind: ExternKind)
    requires
        copied(b, p, c, q, grammar::import_desc(b, p, kind)),
    ensures
        moved(grammar::import_desc(b, p, kind), p, grammar::import_desc(c, q, kind), q),
{
    let (_, end) = grammar::import_desc(b, p, kind)->Ok_0;
    match kind {
        ExternKind::Func => {
            lemma_u32(b, p, c, q);
        },
        ExternKind::Table => {
            let (_, x) = grammar::byte(b, p)->Ok_0;
            bounds::lemma_limits(b, x);
            lemma_split(b, p, c, q, end - p, 1);
            lemma_byte(b, p, c, q);
            lemma_limits(b, x, c, q + 1);
        },
        ExternKind::Memory => {
            lemma_limits(b, p, c, q);
        },
        ExternKind::Global => {
            lemma_split(b, p, c, q, end - p, 1);
            lemma_val_type(b, p, c, q);
            lemma_byte(b, p + 1, c, q + 1);
        },
    }
}

proof fn lemma_import(b: Seq<u8>, p: int, c: Seq<u8>, q: int)
    requires
        copied(b, p, c, q, grammar::import(b, p)),
    ensures
        moved(grammar::import(b, p), p, grammar::import(c, q), q),
{
    let (_, end) = grammar::import(b, p)->Ok_0;
    bounds::lemma_name(b, p);
    let (_, x) = grammar::name(b, p)->Ok_0;
    bounds::lemma_name(b, x);
    let (_, y) = grammar::name(b, x)->Ok_0;
    let (kind, z) = grammar::extern_kind(b, y)->Ok_0;
    bounds::lemma_import_desc(b, z, kind);
    lemma_split(b, p, c, q, end - p, x - p);
    lemma_name(b, p, c, q);
    lemma_split(b, x, c, q + (x - p), end - x, y - x);
    lemma_name(b, x, c, q + (x - p));
    lemma_split(b, y, c, q + (y - p), end - y, 1);
    lemma_extern_kind(b, y, c, q + (y - p));
    lemma_import_desc(b, z, c, q + (z - p), kind);
}

proof fn lemma_export(b: Seq<u8>, p: int, c: Seq<u8>, q: int)
    requires
        copied(b, p, c, q, grammar::export(b, p)),
    ensures
        moved(grammar::export(b, p), p, grammar::export(c, q), q),
{
    let (_, end) = grammar::export(b, p)->Ok_0;
    bounds::lemma_name(b, p);
    let (_, x) = grammar::name(b, p)->Ok_0;
    let (_, y) = grammar::extern_kind(b, x)->Ok_0;
    bounds::lemma_u32(b, y);
    lemma_split(b, p, c, q, end - p, x - p);
    lemma_name(b, p, c, q);
    lemma_split(b, x, c, q + (x - p), end - x, 1);
    lemma_extern_kind(b, x, c, q + (x - p));
    lemma_u32(b, y, c, q + (y - p));
}

/// The items of the vectors that make up sections are read alike in a copy.
proof fn lemma_rules(b: Seq<u8>, c: Seq<u8>)
    ensures
        is_local(b, c, grammar::func_type_rule()),
        is_local(b, c, grammar::import_rule()),
        is_local(b, c, grammar::u32_rule()),
        is_local(b, c, grammar::export_rule()),
        bounds::keeps_within(b, 0, grammar::func_type_rule()),
        bounds::keeps_within(b, 0, grammar::import_rule()),
        bounds::keeps_within(b, 0, grammar::u32_rule()),
        bounds::keeps_within(b, 0, grammar::export_rule()),
{
    bounds::lemma_rules(b);
    let types = grammar::func_type_rule();
    let imports = grammar::import_rule();
    let indices = grammar::u32_rule();
    let exports = grammar::export_rule();
    assert forall|p: int| 0 <= p <= b.len() implies bounds::within(
        b,
        p,
        0,
        #[trigger] types(b, p),
    ) by {
        assert(bounds::within(b, p, 3, types(b, p)));
    }
    assert forall|p: int| 0 <= p <= b.len() implies bounds::within(
        b,
        p,
        0,
        #[trigger] imports(b, p),
    ) by {
        assert(bounds::within(b, p, 4, imports(b, p)));
    }
    assert forall|p: int| 0 <= p <= b.len() implies bounds::within(
        b,
        p,
        0,
        #[trigger] indices(b, p),
    ) by {
        assert(bounds::within(b, p, 1, indices(b, p)));
    }
    assert forall|p: int| 0 <= p <= b.len() implies bounds::within(
        b,
        p,
        0,
        #[trigger] exports(b, p),
    ) by {
        assert(bounds::within(b, p, 3, exports(b, p)));
    }
    assert forall|p: int, q: int|
        #![trigger types(b, p), types(c, q)]
        copied(b, p, c, q, types(b, p)) implies moved(types(b, p), p, types(c, q), q) by {
        lemma_func_type(b, p, c, q);
    }
    assert forall|p: int, q: int|
        #![trigger imports(b, p), imports(c, q)]
        copied(b, p, c, q, imports(b, p)) implies moved(imports(b, p), p, imports(c, q), q) by {
        lemma_import(b, p, c, q);
    }
    assert forall|p: int, q: int|
        #![trigger indices(b, p), indices(c, q)]
        copied(b, p, c, q, indices(b, p)) implies moved(indices(b, p), p, indices(c, q), q) by {
        lemma_u32(b, p, c, q);
    }
    assert forall|p: int, q: int|
        #![trigger exports(b, p), exports(c, q)]
        copied(b, p, c, q, exports(b, p)) implies moved(exports(b, p), p, exports(c, q), q) by {
        lemma_export(b, p, c, q);
    }
}

proof fn lemma_local_groups(b: Seq<u8>, p: int, c: Seq<u8>, q: int, n: nat)
    requires
        copied(b, p, c, q, grammar::local_groups(b, p, n)),
    ensures
        moved(grammar::local_groups(b, p, n), p, grammar::local_groups(c, q, n), q),
    decreases n,
{
    if n > 0 {
        bounds::lemma_local_groups(b, p, (n - 1) as nat);
        let (_, x) = grammar::local_groups(b, p, (n - 1) as nat)->Ok_0;
        bounds::lemma_u32(b, x);
        let (_, y) = grammar::u32(b, x)->Ok_0;
        let (_, end) = grammar::local_groups(b, p, n)->Ok_0;
        lemma_split(b, p, c, q, end - p, x - p);
        lemma_local_groups(b, p, c, q, (n - 1) as nat);
        lemma_split(b, x, c, q + (x - p), end - x, y - x);
        lemma_u32(b, x, c, q + (x - p));
        lemma_val_type(b, y, c, q + (y - p));
    }
}

proof fn lemma_locals(b: Seq<u8>, p: int, c: Seq<u8>, q: int)
    requires
        copied(b, p, c, q, grammar::locals(b, p)),
    ensures
        moved(grammar::locals(b, p), p, grammar::locals(c, q), q),
{
    bounds::lemma_u32(b, p);
    let (n, x) = grammar::u32(b, p)->Ok_0;
    bounds::lemma_local_groups(b, x, n as nat);
    let (_, end) = grammar::locals(b, p)->Ok_0;
    lemma_split(b, p, c, q, end - p, x - p);
    lemma_u32(b, p, c, q);
    lemma_local_groups(b, x, c, q + (x - p), n as nat);
}

proof fn lemma_code_entry(
    b: Seq<u8>,
    p: int,
    c: Seq<u8>,
    q: int,
    declared: Seq<u32>,
    index: nat,
    count: nat,
)
    requires
        copied(b, p, c, q, grammar::code_entry(b, p, declared, index, count)),
    ensures
        moved(
            grammar::code_entry(b, p, declared, index, count),
            p,
            grammar::code_entry(c, q, declared, index, count),
            q,
        ),
{
    bounds::lemma_u32(b, p);
    let (_, start) = grammar::u32(b, p)->Ok_0;
    bounds::lemma_locals(b, start);
    let (_, x) = grammar::locals(b, start)->Ok_0;
    let (_, end) = grammar::code_entry(b, p, declared, index, count)->Ok_0;
    lemma_split(b, p, c, q, end - p, start - p);
    lemma_u32(b, p, c, q);
    lemma_split(b, start, c, q + (start - p), end - start, x - start);
    lemma_locals(b, start, c, q + (start - p));
    lemma_same_byte(b, x, c, q + (x - p), end - x, end - x - 1);
}

proof fn lemma_code_entries(
    b: Seq<u8>,
    p: int,
    c: Seq<u8>,
    q: int,
    declared: Seq<u32>,
    count: nat,
    n: nat,
)
    requires
        copied(b, p, c, q, grammar::code_entries(b, p, declared, count, n)),
    ensures
        moved(
            grammar::code_entries(b, p, declared, count, n),
            p,
            grammar::code_entries(c, q, declared, count, n),
            q,
        ),
    decreases n,
{
    if n > 0 {
        let k = (n - 1) as nat;
        bounds::lemma_code_entries(b, p, declared, count, k);
        let (_, x) = grammar::code_entries(b, p, declared, count, k)->Ok_0;
        bounds::lemma_code_entry(b, x, declared, k, count);
        let (_, end) = grammar::code_entries(b, p, declared, count, n)->Ok_0;
        lemma_split(b, p, c, q, end - p, x - p);
        lemma_code_entries(b, p, c, q, declared, count, k);
        lemma_code_entry(b, x, c, q + (x - p), declared, k, count);
    }
}

proof fn lemma_code(b: Seq<u8>, p: int, c: Seq<u8>, q: int, declared: Seq<u32>)
    requires
        copied(b, p, c, q, grammar::code(b, p, declared)),
    ensures
        moved(grammar::code(b, p, declared), p, grammar::code(c, q, declared), q),
{
    bounds::lemma_u32(b, p);
    let (n, x) = grammar::u32(b, p)->Ok_0;
    bounds::lemma_code_entries(b, x, declared, n as nat, n as nat);
    let (_, end) = grammar::code(b, p, declared)->Ok_0;
    lemma_split(b, p, c, q, end - p, x - p);
    lemma_u32(b, p, c, q);
    lemma_code_entries(b, x, c, q + (x - p), declared, n as nat, n as nat);
}

/// The section `f`, moved by `d` bytes.
pub open spec fn shift(f: Frame, d: int) -> Frame {
    Frame { id: f.id, start: f.start + d, end: f.end + d }
}

proof fn lemma_frame(b: Seq<u8>, p: int, c: Seq<u8>, q: int)
    requires
        0 <= p <= b.len(),
        grammar::frame(b, p) matches Ok((f, _)) && same(b, p, c, q, f.end - p),
    ensures
        grammar::frame(b, p) matches Ok((f, x)) && grammar::frame(c, q) == Ok::<
            (Frame, int),
            Fault,
        >((shift(f, q - p), x + (q - p))),
{
    bounds::lemma_frame(b, p);
    let (f, x) = grammar::frame(b, p)->Ok_0;
    lemma_split(b, p, c, q, f.end - p, 1);
    lemma_byte(b, p, c, q);
    lemma_split(b, p + 1, c, q + 1, f.end - p - 1, x - p - 1);
    lemma_u32(b, p + 1, c, q + 1);
}

proof fn lemma_content(b: Seq<u8>, f: Frame, c: Seq<u8>, d: int, st: Progress)
    requires
        0 <= f.start <= f.end <= b.len(),
        same(b, f.start, c, f.start + d, f.end - f.start),
        grammar::content(b, f, st) matches Ok((_, x)) && x == f.end,
    ensures
        moved(
            grammar::content(b, f, st),
            f.start,
            grammar::content(c, shift(f, d), st),
            f.start + d,
        ),
{
    let p = f.start;
    let q = f.start + d;
    lemma_rules(b, c);
    if f.id == 0 {
        bounds::lemma_name(b, p);
        let (_, x) = grammar::name(b, p)->Ok_0;
        lemma_split(b, p, c, q, f.end - p, x - p);
        lemma_name(b, p, c, q);
    } else if f.id == 1 {
        lemma_vector(grammar::func_type_rule(), b, p, c, q);
    } else if f.id == 2 {
        lemma_vector(grammar::import_rule(), b, p, c, q);
    } else if f.id == 3 {
        lemma_vector(grammar::u32_rule(), b, p, c, q);
    } else if f.id == 7 {
        lemma_vector(grammar::export_rule(), b, p, c, q);
    } else if f.id == 8 {
        lemma_u32(b, p, c, q);
    } else if f.id == 10 {
        lemma_code(b, p, c, q, st.declared);
    }
}

/// A section says the same wherever its bytes stand.
pub proof fn law_section_is_local(b: Seq<u8>, p: int, c: Seq<u8>, q: int, st: Progress)
    requires
        copied(b, p, c, q, grammar::section(b, p, st)),
    ensures
        moved(grammar::section(b, p, st), p, grammar::section(c, q, st), q),
{
    reveal(grammar::section);
    bounds::lemma_frame(b, p);
    let (f, _) = grammar::frame(b, p)->Ok_0;
    lemma_frame(b, p, c, q);
    lemma_split(b, p, c, q, f.end - p, f.start - p);
    lemma_content(b, f, c, q - p, st.reach(f.id));
}

/// Whole sections at the start of the bytes are read first, whatever follows them.
pub(crate) proof fn lemma_sections_then(a: Seq<u8>, z: Seq<u8>, p: int, st: Progress)
    requires
        0 <= p <= a.len(),
        grammar::sections(a, p, st) is Ok,
    ensures
        grammar::sections(a, p, st) matches Ok(mid) && grammar::sections(a + z, p, st)
            == grammar::sections(a + z, a.len() as int, mid),
    decreases a.len() - p,
{
    if p < a.len() {
        bounds::lemma_section(a, p, st);
        let (next, q) = grammar::section(a, p, st)->Ok_0;
        assert(a.subrange(p, q) =~= (a + z).subrange(p, q));
        law_section_is_local(a, p, a + z, p, st);
        lemma_sections_then(a, z, q, next);
    }
}

/// Sections up to the end of the bytes are read alike after another start.
pub(crate) proof fn lemma_sections_after(x: Seq<u8>, y: Seq<u8>, z: Seq<u8>, p: int, st: Progress)
    requires
        0 <= p <= z.len(),
        grammar::sections(x + z, x.len() + p, st) is Ok,
    ensures
        grammar::sections(y + z, y.len() + p, st) == grammar::sections(x + z, x.len() + p, st),
    decreases z.len() - p,
{
    if p < z.len() {
        let b = x + z;
        let c = y + z;
        bounds::lemma_section(b, x.len() + p, st);
        let (next, q) = grammar::section(b, x.len() + p, st)->Ok_0;
        assert(b.subrange(x.len() + p, q) =~= c.subrange(
            y.len() + p,
            y.len() + p + (q - (x.len() + p)),
        ));
        law_section_is_local(b, x.len() + p, c, y.len() + p, st);
        lemma_sections_after(x, y, z, q - x.len(), next);
    }
}

/// `st` with other names of custom sections.
spec fn with_customs(st: Progress, names: Seq<Seq<char>>) -> Progress {
    Progress { module: ModuleView { custom_sections: names, ..st.module }, ..st }
}

/// The names of the custom sections before `p` bear on nothing but themselves.
proof fn lemma_customs_apart(
    b: Seq<u8>,
    p: int,
    st: Progress,
    names: Seq<Seq<char>>,
) -> (added: Seq<Seq<char>>)
    requires
        0 <= p <= b.len(),
        grammar::sections(b, p, st) is Ok,
    ensures
        grammar::sections(b, p, st) matches Ok(fin) && {
            &&& fin.module.custom_sections == st.module.custom_sections + added
            &&& grammar::sections(b, p, with_customs(st, names)) == Ok::<Progress, Fault>(
                with_customs(fin, names + added),
            )
        },
    decreases b.len() - p,
{
    if p < b.len() {
        bounds::lemma_section(b, p, st);
        let (f, _) = grammar::frame(b, p)->Ok_0;
        let (next, q) = grammar::section(b, p, st)->Ok_0;
        reveal(grammar::section);
        let here: Seq<Seq<char>> = if f.id == 0 {
            seq![grammar::name(b, f.start)->Ok_0.0]
        } else {
            Seq::empty()
        };
        assert(next.module.custom_sections =~= st.module.custom_sections + here);
        assert(grammar::section(b, p, with_customs(st, names)) == Ok::<(Progress, int), Fault>(
            (with_customs(next, names + here), q),
        )) by {
            assert(f.id == 0 ==> names.push(here[0]) =~= names + here);
            assert(f.id != 0 ==> names =~= names + here);
        }
        let later = lemma_customs_apart(b, q, next, names + here);
        let added = here + later;
        assert(st.module.custom_sections + here + later =~= st.module.custom_sections + added);
        assert(names + here + later =~= names + added);
        added
    } else {
        let added = Seq::<Seq<char>>::empty();
        assert(st.module.custom_sections + added =~= st.module.custom_sections);
        assert(names + added =~= names);
        added
    }
}

/// Whether `c` is a single custom section with the name `n`.
pub open spec fn is_custom_section(c: Seq<u8>, n: Seq<char>) -> bool {
    grammar::frame(c, 0) matches Ok((f, _)) && {
        &&& f.id == 0
        &&& f.end == c.len()
        &&& grammar::name(c, f.start) matches Ok((text, q)) && text == n && q <= f.end
    }
}

/// A custom section may stand after any other section, and its name is learned.
proof fn lemma_custom_section(c: Seq<u8>, n: Seq<char>, st: Progress)
    requires
        is_custom_section(c, n),
    ensures
        grammar::section(c, 0, st) == Ok::<(Progress, int), Fault>(
            (with_customs(st, st.module.custom_sections.push(n)), c.len() as int),
        ),
{
    reveal(grammar::section);
}

/// What follows the header does not bear on it.
pub(crate) proof fn lemma_header_then(a: Seq<u8>, z: Seq<u8>)
    requires
        grammar::header(a) is Ok,
    ensures
        a.len() >= 8,
        grammar::header(a + z) == Ok::<((), int), Fault>(((), 8)),
{
    assert((a + z).subrange(0, 4) =~= a.subrange(0, 4));
    assert((a + z).subrange(4, 8) =~= a.subrange(4, 8));
}

/// A custom section between `a` and `z` adds its name to what the sections say.
proof fn lemma_insert_custom(
    a: Seq<u8>,
    c: Seq<u8>,
    z: Seq<u8>,
    n: Seq<char>,
    st: Progress,
) -> (added: Seq<Seq<char>>)
    requires
        a.len() >= 8,
        grammar::sections(a, 8, st) is Ok,
        is_custom_section(c, n),
        grammar::sections(a + z, 8, st) is Ok,
    ensures
        ({
            let names = grammar::sections(a, 8, st)->Ok_0.module.custom_sections;
            let fin = grammar::sections(a + z, 8, st)->Ok_0;
            &&& fin.module.custom_sections == names + added
            &&& grammar::sections(a + c + z, 8, st) == Ok::<Progress, Fault>(
                with_customs(fin, names.push(n) + added),
            )
        }),
{
    let d = a + c + z;
    let cz = c + z;
    assert(d =~= a + cz);
    let p = a.len() as int;
    let q = (a + c).len() as int;
    let mid = grammar::sections(a, 8, st)->Ok_0;
    lemma_sections_then(a, z, 8, st);
    lemma_sections_then(a, cz, 8, st);
    let named = mid.module.custom_sections.push(n);
    lemma_custom_section(c, n, mid);
    assert(c.subrange(0, c.len() as int) =~= d.subrange(p, q));
    law_section_is_local(c, 0, d, p, mid);
    bounds::lemma_section(c, 0, mid);
    assert(grammar::sections(d, p, mid) == grammar::sections(d, q, with_customs(mid, named)));
    lemma_sections_after(a, a + c, z, 0, mid);
    lemma_customs_apart(d, q, mid, named)
}

/// Custom sections may stand anywhere: where a module can be cut between two sections,
/// into `a` and `z`, a custom section `c` put in there adds its name, in its place among
/// the custom sections, and changes nothing else.
pub proof fn law_custom_sections_stand_anywhere(
    a: Seq<u8>,
    c: Seq<u8>,
    z: Seq<u8>,
    n: Seq<char>,
    m: ModuleView,
)
    requires
        grammar::header(a) is Ok,
        grammar::sections(a, 8, Progress::none()) is Ok,
        is_custom_section(c, n),
        grammar::module(a + z) == Ok::<ModuleView, Fault>(m),
    ensures
        ({
            let k = grammar::sections(a, 8, Progress::none())->Ok_0.module.custom_sections.len();
            &&& k <= m.custom_sections.len()
            &&& grammar::module(a + c + z) == Ok::<ModuleView, Fault>(
                ModuleView { custom_sections: m.custom_sections.insert(k as int, n), ..m },
            )
        }),
{
    let none = Progress::none();
    lemma_header_then(a, z);
    lemma_header_then(a, c + z);
    assert(a + c + z =~= a + (c + z));
    let names = grammar::sections(a, 8, none)->Ok_0.module.custom_sections;
    let fin = grammar::sections(a + z, 8, none)->Ok_0;
    let added = lemma_insert_custom(a, c, z, n, none);
    assert((names + added).insert(names.len() as int, n) =~= names.push(n) + added);
    lemma_untyped_apart(fin.module, with_customs(fin, names.push(n) + added).module, 0);
}

/// Whether functions have types does not depend on the custom sections.
pub(crate) proof fn lemma_untyped_apart(m: ModuleView, o: ModuleView, i: int)
    requires
        m.funcs == o.funcs,
        m.types == o.types,
    ensures
        grammar::untyped(m, i) == grammar::untyped(o, i),
    decreases m.funcs.len() - i,
{
    if 0 <= i < m.funcs.len() {
        lemma_untyped_apart(m, o, i + 1);
    }
}

} // verus!
