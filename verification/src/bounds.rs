//! Where reading stops: every piece ends inside the module, and so does every fault.

use crate::grammar;
use crate::grammar::{Frame, Progress, Rule, Step};
use crate::leb;
use crate::module::ExternKind;
use crate::parser::MAX_LOCALS;
use vstd::prelude::*;

verus! {

/// A piece read from `p` takes up at least `least` bytes and ends inside `b`, or its fault
/// lies between `p` and the end of `b`.
pub open spec fn within<T>(b: Seq<u8>, p: int, least: int, step: Step<T>) -> bool {
    match step {
        Ok((_, q)) => p + least <= q <= b.len(),
        Err(f) => p <= f.at <= b.len(),
    }
}

/// Every item that `rule` reads from `b` is within it.
pub open spec fn keeps_within<T>(b: Seq<u8>, least: int, rule: Rule<T>) -> bool {
    forall|p: int| 0 <= p <= b.len() ==> within(b, p, least, #[trigger] rule(b, p))
}

pub(crate) proof fn lemma_u32(b: Seq<u8>, p: int)
    requires
        0 <= p <= b.len(),
    ensures
        within(b, p, 1, grammar::u32(b, p)),
{
    leb::law_uint_fits_its_width(b, p, 32);
}

pub(crate) proof fn lemma_name(b: Seq<u8>, p: int)
    requires
        0 <= p <= b.len(),
    ensures
        within(b, p, 1, grammar::name(b, p)),
{
    lemma_u32(b, p);
}

pub(crate) proof fn lemma_repeat<T>(rule: Rule<T>, b: Seq<u8>, p: int, n: nat, least: int)
    requires
        0 <= p <= b.len(),
        0 <= least,
        keeps_within(b, least, rule),
    ensures
        within(b, p, n * least, grammar::repeat(rule, b, p, n)) || grammar::repeat(
            rule,
            b,
            p,
            n,
        ) is Err && within(b, p, 0, grammar::repeat(rule, b, p, n)),
        grammar::repeat(rule, b, p, n) matches Ok((items, q)) ==> items.len() == n,
    decreases n,
{
    if n > 0 {
        lemma_repeat(rule, b, p, (n - 1) as nat, least);
        assert(n * least == (n - 1) * least + least) by (nonlinear_arith);
        assert((n - 1) * least >= 0) by (nonlinear_arith)
            requires
                n >= 1,
                least >= 0,
        ;
        if let Ok((items, q)) = grammar::repeat(rule, b, p, (n - 1) as nat) {
            assert(within(b, q, least, rule(b, q)));
        }
    }
}

/// A vector ends inside the module, and its items take up at least `least` bytes each.
pub(crate) proof fn lemma_vector<T>(rule: Rule<T>, b: Seq<u8>, p: int, least: int)
    requires
        0 <= p <= b.len(),
        0 <= least,
        keeps_within(b, least, rule),
    ensures
        within(b, p, 1, grammar::vector(rule, b, p)),
        grammar::vector(rule, b, p) matches Ok((items, q)) ==> p + 1 + items.len() * least <= q,
{
    lemma_u32(b, p);
    if let Ok((n, q)) = grammar::u32(b, p) {
        lemma_repeat(rule, b, q, n as nat, least);
        assert(n * least >= 0) by (nonlinear_arith)
            requires
                least >= 0,
        ;
    }
}

pub(crate) proof fn lemma_val_types(b: Seq<u8>, p: int)
    requires
        0 <= p <= b.len(),
    ensures
        within(b, p, 1, grammar::val_types(b, p)),
{
    lemma_vector(grammar::val_type_rule(), b, p, 1);
}

pub(crate) proof fn lemma_limits(b: Seq<u8>, p: int)
    requires
        0 <= p <= b.len(),
    ensures
        within(b, p, 2, grammar::limits(b, p)),
{
    if let Ok((_, q)) = grammar::byte(b, p) {
        lemma_u32(b, q);
        if let Ok((_, r)) = grammar::u32(b, q) {
            lemma_u32(b, r);
        }
    }
}

pub(crate) proof fn lemma_func_type(b: Seq<u8>, p: int)
    requires
        0 <= p <= b.len(),
    ensures
        within(b, p, 3, grammar::func_type(b, p)),
{
    if let Ok((_, q)) = grammar::byte(b, p) {
        lemma_val_types(b, q);
        if let Ok((_, r)) = grammar::val_types(b, q) {
            lemma_val_types(b, r);
        }
    }
}

pub(crate) proof fn lemma_import_desc(b: Seq<u8>, p: int, kind: ExternKind)
    requires
        0 <= p <= b.len(),
    ensures
        within(b, p, 1, grammar::import_desc(b, p, kind)),
{
    lemma_u32(b, p);
    lemma_limits(b, p);
    if let Ok((_, q)) = grammar::byte(b, p) {
        lemma_limits(b, q);
    }
}

pub(crate) proof fn lemma_import(b: Seq<u8>, p: int)
    requires
        0 <= p <= b.len(),
    ensures
        within(b, p, 4, grammar::import(b, p)),
{
    lemma_name(b, p);
    if let Ok((_, q)) = grammar::name(b, p) {
        lemma_name(b, q);
        if let Ok((_, r)) = grammar::name(b, q) {
            if let Ok((kind, s)) = grammar::extern_kind(b, r) {
                lemma_import_desc(b, s, kind);
            }
        }
    }
}

pub(crate) proof fn lemma_export(b: Seq<u8>, p: int)
    requires
        0 <= p <= b.len(),
    ensures
        within(b, p, 3, grammar::export(b, p)),
{
    lemma_name(b, p);
    if let Ok((_, q)) = grammar::name(b, p) {
        if let Ok((_, r)) = grammar::extern_kind(b, q) {
            lemma_u32(b, r);
        }
    }
}

/// The items of the vectors that make up sections stay inside the module.
pub(crate) proof fn lemma_rules(b: Seq<u8>)
    ensures
        keeps_within(b, 3, grammar::func_type_rule()),
        keeps_within(b, 4, grammar::import_rule()),
        keeps_within(b, 1, grammar::u32_rule()),
        keeps_within(b, 3, grammar::export_rule()),
{
    assert forall|p: int| 0 <= p <= b.len() implies within(
        b,
        p,
        3,
        #[trigger] grammar::func_type_rule()(b, p),
    ) by {
        lemma_func_type(b, p);
    }
    assert forall|p: int| 0 <= p <= b.len() implies within(
        b,
        p,
        4,
        #[trigger] grammar::import_rule()(b, p),
    ) by {
        lemma_import(b, p);
    }
    assert forall|p: int| 0 <= p <= b.len() implies within(
        b,
        p,
        1,
        #[trigger] grammar::u32_rule()(b, p),
    ) by {
        lemma_u32(b, p);
    }
    assert forall|p: int| 0 <= p <= b.len() implies within(
        b,
        p,
        3,
        #[trigger] grammar::export_rule()(b, p),
    ) by {
        lemma_export(b, p);
    }
}

pub(crate) proof fn lemma_local_groups(b: Seq<u8>, p: int, n: nat)
    requires
        0 <= p <= b.len(),
    ensures
        within(b, p, 0, grammar::local_groups(b, p, n)),
        grammar::local_groups(b, p, n) matches Ok((locals, _)) ==> locals.len() <= MAX_LOCALS,
    decreases n,
{
    if n > 0 {
        lemma_local_groups(b, p, (n - 1) as nat);
        if let Ok((_, q)) = grammar::local_groups(b, p, (n - 1) as nat) {
            lemma_u32(b, q);
        }
    }
}

pub(crate) proof fn lemma_locals(b: Seq<u8>, p: int)
    requires
        0 <= p <= b.len(),
    ensures
        within(b, p, 1, grammar::locals(b, p)),
        grammar::locals(b, p) matches Ok((locals, _)) ==> locals.len() <= MAX_LOCALS,
{
    lemma_u32(b, p);
    if let Ok((n, q)) = grammar::u32(b, p) {
        lemma_local_groups(b, q, n as nat);
    }
}

pub(crate) proof fn lemma_code_entry(
    b: Seq<u8>,
    p: int,
    declared: Seq<u32>,
    index: nat,
    count: nat,
)
    requires
        0 <= p <= b.len(),
    ensures
        within(b, p, 3, grammar::code_entry(b, p, declared, index, count)),
        grammar::code_entry(b, p, declared, index, count) matches Ok((f, _)) ==> {
            &&& f.locals.len() <= MAX_LOCALS
            &&& f.body.len() > 0
            &&& f.body.last() == 0x0B
            &&& index < declared.len()
            &&& f.type_index == declared[index as int]
        },
{
    lemma_u32(b, p);
    if let Ok((_, start)) = grammar::u32(b, p) {
        lemma_locals(b, start);
    }
}

pub(crate) proof fn lemma_code_entries(
    b: Seq<u8>,
    p: int,
    declared: Seq<u32>,
    count: nat,
    n: nat,
)
    requires
        0 <= p <= b.len(),
    ensures
        within(b, p, 0, grammar::code_entries(b, p, declared, count, n)),
        grammar::code_entries(b, p, declared, count, n) matches Ok((funcs, q)) ==> {
            &&& funcs.len() == n
            &&& p + 3 * n <= q
            &&& n <= declared.len()
            &&& forall|i: int|
                #![trigger funcs[i]]
                0 <= i < n ==> {
                    &&& funcs[i].locals.len() <= MAX_LOCALS
                    &&& funcs[i].body.len() > 0
                    &&& funcs[i].body.last() == 0x0B
                    &&& funcs[i].type_index == declared[i]
                }
        },
    decreases n,
{
    if n > 0 {
        lemma_code_entries(b, p, declared, count, (n - 1) as nat);
        if let Ok((_, q)) = grammar::code_entries(b, p, declared, count, (n - 1) as nat) {
            lemma_code_entry(b, q, declared, (n - 1) as nat, count);
        }
    }
}

pub(crate) proof fn lemma_code(b: Seq<u8>, p: int, declared: Seq<u32>)
    requires
        0 <= p <= b.len(),
    ensures
        within(b, p, 1, grammar::code(b, p, declared)),
        grammar::code(b, p, declared) matches Ok((funcs, q)) ==> {
            &&& p + 1 + 3 * funcs.len() <= q
            &&& funcs.len() <= declared.len()
            &&& forall|i: int|
                #![trigger funcs[i]]
                0 <= i < funcs.len() ==> {
                    &&& funcs[i].locals.len() <= MAX_LOCALS
                    &&& funcs[i].body.len() > 0
                    &&& funcs[i].body.last() == 0x0B
                    &&& funcs[i].type_index == declared[i]
                }
        },
{
    lemma_u32(b, p);
    if let Ok((n, q)) = grammar::u32(b, p) {
        lemma_code_entries(b, q, declared, n as nat, n as nat);
    }
}

pub(crate) proof fn lemma_frame(b: Seq<u8>, p: int)
    requires
        0 <= p <= b.len(),
    ensures
        within(b, p, 2, grammar::frame(b, p)),
        grammar::frame(b, p) matches Ok((f, q)) ==> {
            &&& f.id <= 12
            &&& p + 2 <= f.start <= f.end <= b.len()
            &&& f.start == q
            &&& f.end - f.start <= u32::MAX
        },
{
    if let Ok((_, q)) = grammar::byte(b, p) {
        lemma_u32(b, q);
    }
}

pub(crate) proof fn lemma_content(b: Seq<u8>, f: Frame, st: Progress)
    requires
        0 <= f.start <= f.end <= b.len(),
    ensures
        within(b, f.start, 0, grammar::content(b, f, st)),
{
    lemma_rules(b);
    lemma_name(b, f.start);
    lemma_vector(grammar::func_type_rule(), b, f.start, 3);
    lemma_vector(grammar::import_rule(), b, f.start, 4);
    lemma_vector(grammar::u32_rule(), b, f.start, 1);
    lemma_vector(grammar::export_rule(), b, f.start, 3);
    lemma_u32(b, f.start);
    lemma_code(b, f.start, st.declared);
}

pub(crate) proof fn lemma_section(b: Seq<u8>, p: int, st: Progress)
    requires
        0 <= p <= b.len(),
    ensures
        within(b, p, 2, grammar::section(b, p, st)),
{
    reveal(grammar::section);
    lemma_frame(b, p);
    if let Ok((f, _)) = grammar::frame(b, p) {
        lemma_content(b, f, st.reach(f.id));
    }
}

pub(crate) proof fn lemma_sections(b: Seq<u8>, p: int, st: Progress)
    requires
        0 <= p <= b.len(),
    ensures
        grammar::sections(b, p, st) matches Err(f) ==> p <= f.at <= b.len(),
    decreases b.len() - p,
{
    if p < b.len() {
        lemma_section(b, p, st);
        if let Ok((next, q)) = grammar::section(b, p, st) {
            lemma_sections(b, q, next);
        }
    }
}

/// A module that does not decode has its defect at an offset inside it, or at its end.
pub proof fn law_fault_lies_in_the_module(b: Seq<u8>)
    ensures
        grammar::module(b) matches Err(f) ==> 0 <= f.at <= b.len(),
{
    if let Ok((_, p)) = grammar::header(b) {
        lemma_sections(b, p, Progress::none());
    }
}

} // verus!
