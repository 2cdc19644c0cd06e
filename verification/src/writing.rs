//! The format from the writer's side: which byte strings write which values, with every
//! choice that a writer has, and that reading gives a value exactly where it is written.
//!
//! The relations here are about bytes and values alone. None of them speaks of reading.

use crate::grammar;
use crate::grammar::{Fault, Rule};
use crate::leb;
use crate::module::{ExportView, ExternKind, FuncTypeView, FuncView, ImportView, ValType};
use vstd::arithmetic::power2;
use vstd::prelude::*;

verus! {

/// Which byte strings write which values.
pub type Writes<T> = spec_fn(Seq<u8>, T) -> bool;

/// The number whose base 128 digits, the lowest first, are the low seven bits of `x`.
pub open spec fn low_bits(x: Seq<u8>) -> nat
    decreases x.len(),
{
    if x.len() == 0 {
        0
    } else {
        (x[0] % 0x80) as nat + 0x80 * low_bits(x.drop_first())
    }
}

/// Whether every byte of `x` but the last has its high bit set.
pub open spec fn is_chain(x: Seq<u8>) -> bool {
    &&& x.len() > 0
    &&& x.last() < 0x80
    &&& forall|i: int| 0 <= i < x.len() - 1 ==> x[i] >= 0x80
}

/// Whether `x` writes the integer `v` of `bits` bits in LEB128, padded or not.
pub open spec fn writes_bits(x: Seq<u8>, v: nat, bits: nat) -> bool {
    &&& is_chain(x)
    &&& 7 * (x.len() - 1) < bits
    &&& v == low_bits(x)
    &&& v < power2::pow2(bits)
}

/// Whether `x` writes the unsigned 32-bit integer `v`, in up to five bytes.
pub open spec fn writes_uint(x: Seq<u8>, v: nat) -> bool {
    &&& is_chain(x)
    &&& x.len() <= 5
    &&& v == low_bits(x)
    &&& v <= u32::MAX
}

/// An integer is read exactly where it is written.
pub proof fn law_integers(b: Seq<u8>, p: int, bits: nat, v: nat, q: int)
    requires
        0 <= p,
        bits > 0,
    ensures
        leb::uint_at(b, p, bits) == Ok::<(nat, int), leb::LebError>((v, q)) <==> p <= q <= b.len()
            && writes_bits(b.subrange(p, q), v, bits),
    decreases bits,
{
    if p <= q <= b.len() {
        let x = b.subrange(p, q);
        if x.len() > 0 {
            assert(x[0] == b[p]);
            assert(x.drop_first() =~= b.subrange(p + 1, q));
            let y = x.drop_first();
            assert(x.len() == 1 ==> low_bits(y) == 0);
            if b[p] >= 0x80 && bits > 7 {
                let high = low_bits(y);
                leb::lemma_pow2_shift_7((bits - 7) as nat);
                law_integers(b, p + 1, (bits - 7) as nat, high, q);
                assert(y.len() > 0 ==> y.last() == x.last());
                assert forall|i: int| 0 <= i < y.len() - 1 implies y[i] == x[i + 1] by {}
                if is_chain(y) {
                    assert forall|i: int| 0 <= i < x.len() - 1 implies x[i] >= 0x80 by {
                        if i > 0 {
                            assert(x[i] == y[i - 1]);
                        }
                    }
                }
                if is_chain(x) {
                    assert forall|i: int| 0 <= i < y.len() - 1 implies y[i] >= 0x80 by {
                        assert(y[i] == x[i + 1]);
                    }
                }
                leb::law_uint_fits_its_width(b, p + 1, (bits - 7) as nat);
                if let Ok((h, r)) = leb::uint_at(b, p + 1, (bits - 7) as nat) {
                    if r == q {
                        law_integers(b, p + 1, (bits - 7) as nat, h, q);
                    }
                }
            }
        }
    }
    leb::law_uint_fits_its_width(b, p, bits);
}

/// An integer ends too soon exactly when the input does, while every byte up to its end
/// asks for another and there is room for one. All else that is not an integer overflows.
pub proof fn law_integer_faults(b: Seq<u8>, p: int, bits: nat)
    requires
        0 <= p <= b.len(),
        bits > 0,
    ensures
        leb::uint_at(b, p, bits) == Err::<(nat, int), leb::LebError>(leb::LebError::UnexpectedEof)
            <==> 7 * (b.len() - p) < bits && forall|i: int| p <= i < b.len() ==> b[i] >= 0x80,
    decreases bits,
{
    if p < b.len() && b[p] >= 0x80 && bits > 7 {
        law_integer_faults(b, p + 1, (bits - 7) as nat);
    }
}

/// A 32-bit integer is read exactly where it is written.
pub proof fn law_u32(b: Seq<u8>, p: int, v: u32, q: int)
    requires
        0 <= p,
    ensures
        grammar::u32(b, p) == Ok::<(u32, int), Fault>((v, q)) <==> p <= q <= b.len()
            && writes_uint(b.subrange(p, q), v as nat),
{
    power2::lemma2_to64();
    leb::law_uint_fits_its_width(b, p, 32);
    law_integers(b, p, 32, v as nat, q);
    if let Ok((w, r)) = leb::uint_at(b, p, 32) {
        assert((w as u32) as nat == w);
    }
}

/// Where two byte strings follow one another, each has its place.
pub(crate) proof fn lemma_cut(b: Seq<u8>, p: int, q: int, x: Seq<u8>, y: Seq<u8>)
    requires
        0 <= p <= q <= b.len(),
        b.subrange(p, q) == x + y,
    ensures
        p + x.len() + y.len() == q,
        b.subrange(p, p + x.len()) == x,
        b.subrange(p + x.len(), q) == y,
{
    let s = b.subrange(p, q);
    let n = x.len() as int;
    assert(s.len() == x.len() + y.len());
    assert(b.subrange(p, p + n) =~= s.subrange(0, n));
    assert((x + y).subrange(0, n) =~= x);
    assert(b.subrange(p + n, q) =~= s.subrange(n, s.len() as int));
    assert((x + y).subrange(n, s.len() as int) =~= y);
}

/// Byte strings that stand side by side make one.
pub(crate) proof fn lemma_join(b: Seq<u8>, p: int, r: int, q: int)
    requires
        0 <= p <= r <= q <= b.len(),
    ensures
        b.subrange(p, q) == b.subrange(p, r) + b.subrange(r, q),
{
    assert(b.subrange(p, q) =~= b.subrange(p, r) + b.subrange(r, q));
}

/// A single byte has a place of length one.
pub(crate) proof fn lemma_one(b: Seq<u8>, p: int, q: int, c: u8)
    requires
        0 <= p <= q <= b.len(),
    ensures
        b.subrange(p, q) == seq![c] <==> q == p + 1 && b[p] == c,
{
    if q == p + 1 {
        assert(b.subrange(p, q)[0] == b[p]);
        if b[p] == c {
            assert(b.subrange(p, q) =~= seq![c]);
        }
    }
    if b.subrange(p, q) == seq![c] {
        assert(b.subrange(p, q).len() == 1);
    }
}

/// Whether `x` writes the name `n`: the number of bytes of its UTF-8, and these bytes.
pub open spec fn writes_name(x: Seq<u8>, n: Seq<char>) -> bool {
    exists|l: Seq<u8>|
        #[trigger] writes_uint(l, vstd::utf8::encode_utf8(n).len()) && x == l
            + vstd::utf8::encode_utf8(n)
}

/// A name is read exactly where it is written.
pub proof fn law_names(b: Seq<u8>, p: int, n: Seq<char>, q: int)
    requires
        0 <= p,
    ensures
        grammar::name(b, p) == Ok::<(Seq<char>, int), Fault>((n, q)) <==> p <= q <= b.len()
            && writes_name(b.subrange(p, q), n),
{
    let text = vstd::utf8::encode_utf8(n);
    if grammar::name(b, p) == Ok::<(Seq<char>, int), Fault>((n, q)) {
        let (len, r) = grammar::u32(b, p)->Ok_0;
        law_u32(b, p, len, r);
        lemma_join(b, p, r, q);
        vstd::utf8::decode_utf8_encode_utf8(b.subrange(r, q));
        assert(writes_uint(b.subrange(p, r), text.len()));
    }
    if p <= q <= b.len() && writes_name(b.subrange(p, q), n) {
        let l = choose|l: Seq<u8>|
            #[trigger] writes_uint(l, text.len()) && b.subrange(p, q) == l + text;
        lemma_cut(b, p, q, l, text);
        law_u32(b, p, text.len() as u32, p + l.len());
        vstd::utf8::encode_utf8_valid_utf8(n);
        vstd::utf8::encode_utf8_decode_utf8(n);
    }
}

/// The byte of a value type writes it.
pub open spec fn writes_val_type() -> Writes<ValType> {
    |x: Seq<u8>, ty: ValType| x == seq![ty.byte()]
}

/// A value type is read exactly where it is written.
pub proof fn law_val_types(b: Seq<u8>, p: int, ty: ValType, q: int)
    requires
        0 <= p,
    ensures
        grammar::val_type(b, p) == Ok::<(ValType, int), Fault>((ty, q)) <==> p <= q <= b.len()
            && b.subrange(p, q) == seq![ty.byte()],
{
    if p <= q <= b.len() {
        lemma_one(b, p, q, ty.byte());
    }
}

/// A kind is read exactly where it is written.
pub proof fn law_extern_kinds(b: Seq<u8>, p: int, kind: ExternKind, q: int)
    requires
        0 <= p,
    ensures
        grammar::extern_kind(b, p) == Ok::<(ExternKind, int), Fault>((kind, q)) <==> p <= q
            <= b.len() && b.subrange(p, q) == seq![kind.byte()],
{
    if p <= q <= b.len() {
        lemma_one(b, p, q, kind.byte());
    }
}

/// Whether `x` writes `items`, one after another.
pub open spec fn writes_items<T>(w: Writes<T>, x: Seq<u8>, items: Seq<T>) -> bool
    decreases items.len(),
{
    if items.len() == 0 {
        x.len() == 0
    } else {
        exists|y: Seq<u8>, z: Seq<u8>|
            {
                &&& x == #[trigger] (y + z)
                &&& writes_items(w, y, items.drop_last())
                &&& w(z, items.last())
            }
    }
}

/// Whether `x` writes a vector: the number of its items, and the items.
pub open spec fn writes_vector<T>(w: Writes<T>, x: Seq<u8>, items: Seq<T>) -> bool {
    exists|n: Seq<u8>, y: Seq<u8>|
        {
            &&& #[trigger] writes_uint(n, items.len())
            &&& #[trigger] writes_items(w, y, items)
            &&& x == n + y
        }
}

/// Whether `rule` reads `v` at `p`, up to `q`, exactly where it is written.
pub open spec fn reads_just<T>(b: Seq<u8>, rule: Rule<T>, w: Writes<T>, p: int, v: T, q: int) -> bool {
    rule(b, p) == Ok::<(T, int), Fault>((v, q)) <==> p <= q <= b.len() && w(b.subrange(p, q), v)
}

/// Whether `rule` reads every value exactly where it is written.
pub open spec fn agrees<T>(b: Seq<u8>, rule: Rule<T>, w: Writes<T>) -> bool {
    forall|p: int, v: T, q: int| 0 <= p ==> #[trigger] reads_just(b, rule, w, p, v, q)
}

proof fn lemma_items<T>(b: Seq<u8>, rule: Rule<T>, w: Writes<T>, p: int, items: Seq<T>, q: int)
    requires
        0 <= p <= b.len(),
        agrees(b, rule, w),
    ensures
        grammar::repeat(rule, b, p, items.len()) == Ok::<(Seq<T>, int), Fault>((items, q)) <==> p
            <= q <= b.len() && writes_items(w, b.subrange(p, q), items),
    decreases items.len(),
{
    reveal_with_fuel(writes_items, 2);
    if items.len() == 0 {
        assert(items =~= Seq::empty());
    } else {
        let init = items.drop_last();
        let last = items.last();
        assert(init.push(last) =~= items);
        if grammar::repeat(rule, b, p, items.len()) == Ok::<(Seq<T>, int), Fault>((items, q)) {
            let (before, r) = grammar::repeat(rule, b, p, init.len())->Ok_0;
            let (item, _) = rule(b, r)->Ok_0;
            assert(before.push(item).drop_last() =~= before);
            assert(before.push(item).last() == item);
            lemma_items(b, rule, w, p, init, r);
            assert(reads_just(b, rule, w, r, last, q));
            lemma_join(b, p, r, q);
        }
        if p <= q <= b.len() && writes_items(w, b.subrange(p, q), items) {
            let (y, z) = choose|y: Seq<u8>, z: Seq<u8>|
                {
                    &&& b.subrange(p, q) == #[trigger] (y + z)
                    &&& writes_items(w, y, init)
                    &&& w(z, last)
                };
            lemma_cut(b, p, q, y, z);
            lemma_items(b, rule, w, p, init, p + y.len());
            assert(reads_just(b, rule, w, p + y.len(), last, q));
        }
    }
}

/// Items that were read are as many as were asked for.
proof fn lemma_repeat_len<T>(b: Seq<u8>, rule: Rule<T>, p: int, n: nat)
    ensures
        grammar::repeat(rule, b, p, n) matches Ok((items, _)) ==> items.len() == n,
    decreases n,
{
    if n > 0 {
        lemma_repeat_len(b, rule, p, (n - 1) as nat);
    }
}

/// A vector of items that are read exactly where they are written is itself read exactly
/// where it is written.
pub proof fn law_vectors<T>(b: Seq<u8>, rule: Rule<T>, w: Writes<T>, p: int, items: Seq<T>, q: int)
    requires
        0 <= p,
        agrees(b, rule, w),
    ensures
        grammar::vector(rule, b, p) == Ok::<(Seq<T>, int), Fault>((items, q)) <==> p <= q <= b.len()
            && writes_vector(w, b.subrange(p, q), items),
{
    if grammar::vector(rule, b, p) == Ok::<(Seq<T>, int), Fault>((items, q)) {
        let (n, r) = grammar::u32(b, p)->Ok_0;
        law_u32(b, p, n, r);
        lemma_repeat_len(b, rule, r, n as nat);
        lemma_items(b, rule, w, r, items, q);
        lemma_join(b, p, r, q);
        assert(writes_uint(b.subrange(p, r), items.len()));
        assert(writes_items(w, b.subrange(r, q), items));
    }
    if p <= q <= b.len() && writes_vector(w, b.subrange(p, q), items) {
        let (n, y) = choose|n: Seq<u8>, y: Seq<u8>|
            {
                &&& #[trigger] writes_uint(n, items.len())
                &&& #[trigger] writes_items(w, y, items)
                &&& b.subrange(p, q) == n + y
            };
        lemma_cut(b, p, q, n, y);
        law_u32(b, p, items.len() as u32, p + n.len());
        lemma_items(b, rule, w, p + n.len(), items, q);
    }
}

/// A vector of value types is read exactly where it is written.
pub proof fn law_val_type_vectors(b: Seq<u8>, p: int, types: Seq<ValType>, q: int)
    requires
        0 <= p,
    ensures
        grammar::val_types(b, p) == Ok::<(Seq<ValType>, int), Fault>((types, q)) <==> p <= q
            <= b.len() && writes_vector(writes_val_type(), b.subrange(p, q), types),
{
    let rule = grammar::val_type_rule();
    let w = writes_val_type();
    assert forall|p: int, v: ValType, q: int| 0 <= p implies #[trigger] reads_just(
        b,
        rule,
        w,
        p,
        v,
        q,
    ) by {
        law_val_types(b, p, v, q);
    }
    law_vectors(b, rule, w, p, types, q);
}

/// A signature is written as `0x60`, its parameters and its results.
pub open spec fn writes_func_type() -> Writes<FuncTypeView> {
    |x: Seq<u8>, ty: FuncTypeView|
        exists|params: Seq<u8>, results: Seq<u8>|
            {
                &&& #[trigger] writes_vector(writes_val_type(), params, ty.params)
                &&& #[trigger] writes_vector(writes_val_type(), results, ty.results)
                &&& x == seq![0x60u8] + (params + results)
            }
}

/// A signature is read exactly where it is written.
pub proof fn law_func_types(b: Seq<u8>, p: int, ty: FuncTypeView, q: int)
    requires
        0 <= p,
    ensures
        reads_just(b, grammar::func_type_rule(), writes_func_type(), p, ty, q),
{
    let w = writes_val_type();
    if grammar::func_type(b, p) == Ok::<(FuncTypeView, int), Fault>((ty, q)) {
        let (_, r) = grammar::val_types(b, p + 1)->Ok_0;
        law_val_type_vectors(b, p + 1, ty.params, r);
        law_val_type_vectors(b, r, ty.results, q);
        lemma_one(b, p, p + 1, 0x60);
        lemma_join(b, p + 1, r, q);
        lemma_join(b, p, p + 1, q);
        assert(writes_vector(w, b.subrange(p + 1, r), ty.params));
        assert(writes_vector(w, b.subrange(r, q), ty.results));
    }
    if p <= q <= b.len() && writes_func_type()(b.subrange(p, q), ty) {
        let (x, y) = choose|x: Seq<u8>, y: Seq<u8>|
            {
                &&& #[trigger] writes_vector(w, x, ty.params)
                &&& #[trigger] writes_vector(w, y, ty.results)
                &&& b.subrange(p, q) == seq![0x60u8] + (x + y)
            };
        lemma_cut(b, p, q, seq![0x60u8], x + y);
        lemma_one(b, p, p + 1, 0x60);
        lemma_cut(b, p + 1, q, x, y);
        law_val_type_vectors(b, p + 1, ty.params, p + 1 + x.len());
        law_val_type_vectors(b, p + 1 + x.len(), ty.results, q);
    }
}

/// Whether `x` writes limits with the lower bound `min` alone.
pub open spec fn writes_lower_limit(x: Seq<u8>, min: u32) -> bool {
    exists|l: Seq<u8>| #[trigger] writes_uint(l, min as nat) && x == seq![0x00u8] + l
}

/// Whether `x` writes limits with the bounds `min` and `max`.
pub open spec fn writes_both_limits(x: Seq<u8>, min: u32, max: u32) -> bool {
    exists|l: Seq<u8>, h: Seq<u8>|
        {
            &&& #[trigger] writes_uint(l, min as nat)
            &&& #[trigger] writes_uint(h, max as nat)
            &&& x == seq![0x01u8] + (l + h)
        }
}

/// Whether `x` writes limits, whatever the bounds.
pub open spec fn writes_limits(x: Seq<u8>) -> bool {
    ||| exists|min: u32| writes_lower_limit(x, min)
    ||| exists|min: u32, max: u32| writes_both_limits(x, min, max)
}

/// Limits are read exactly where they are written, whatever the bounds.
pub proof fn law_limits(b: Seq<u8>, p: int, q: int)
    requires
        0 <= p,
    ensures
        grammar::limits(b, p) == Ok::<((), int), Fault>(((), q)) <==> p <= q <= b.len()
            && writes_limits(b.subrange(p, q)),
{
    if grammar::limits(b, p) == Ok::<((), int), Fault>(((), q)) {
        let (flags, _) = grammar::byte(b, p)->Ok_0;
        let (min, r) = grammar::u32(b, p + 1)->Ok_0;
        law_u32(b, p + 1, min, r);
        lemma_one(b, p, p + 1, flags);
        if flags == 0x00 {
            lemma_join(b, p, p + 1, q);
            assert(writes_uint(b.subrange(p + 1, q), min as nat));
            assert(writes_lower_limit(b.subrange(p, q), min));
        } else {
            let (max, _) = grammar::u32(b, r)->Ok_0;
            law_u32(b, r, max, q);
            lemma_join(b, p + 1, r, q);
            lemma_join(b, p, p + 1, q);
            assert(writes_uint(b.subrange(p + 1, r), min as nat));
            assert(writes_uint(b.subrange(r, q), max as nat));
            assert(writes_both_limits(b.subrange(p, q), min, max));
        }
    }
    if p <= q <= b.len() {
        let x = b.subrange(p, q);
        if exists|min: u32| writes_lower_limit(x, min) {
            let min = choose|min: u32| writes_lower_limit(x, min);
            let l = choose|l: Seq<u8>|
                #[trigger] writes_uint(l, min as nat) && x == seq![0x00u8] + l;
            lemma_cut(b, p, q, seq![0x00u8], l);
            lemma_one(b, p, p + 1, 0x00);
            law_u32(b, p + 1, min, q);
        }
        if exists|min: u32, max: u32| writes_both_limits(x, min, max) {
            let (min, max) = choose|min: u32, max: u32| writes_both_limits(x, min, max);
            let (l, h) = choose|l: Seq<u8>, h: Seq<u8>|
                {
                    &&& #[trigger] writes_uint(l, min as nat)
                    &&& #[trigger] writes_uint(h, max as nat)
                    &&& x == seq![0x01u8] + (l + h)
                };
            lemma_cut(b, p, q, seq![0x01u8], l + h);
            lemma_one(b, p, p + 1, 0x01);
            lemma_cut(b, p + 1, q, l, h);
            law_u32(b, p + 1, min, p + 1 + l.len());
            law_u32(b, p + 1 + l.len(), max, q);
        }
    }
}

/// Whether `x` writes a table: any reference type, and limits.
pub open spec fn writes_table(x: Seq<u8>) -> bool {
    exists|t: u8, l: Seq<u8>| x == #[trigger] (seq![t] + l) && writes_limits(l)
}

/// Whether `x` writes a global: a value type, and any mutability.
pub open spec fn writes_global(x: Seq<u8>) -> bool {
    exists|ty: ValType, mutability: u8| x == #[trigger] (seq![ty.byte()] + seq![mutability])
}

/// Whether `x` writes what an import of `kind` says of the thing imported: a type index
/// just for a function.
pub open spec fn writes_import_desc(x: Seq<u8>, kind: ExternKind, type_index: Option<u32>) -> bool {
    match kind {
        ExternKind::Func => type_index is Some && writes_uint(x, type_index->0 as nat),
        ExternKind::Table => type_index is None && writes_table(x),
        ExternKind::Memory => type_index is None && writes_limits(x),
        ExternKind::Global => type_index is None && writes_global(x),
    }
}

/// What an import says of the thing imported is read exactly where it is written: the
/// limits and the types of tables, memories and globals may be any.
pub proof fn law_import_descs(
    b: Seq<u8>,
    p: int,
    kind: ExternKind,
    type_index: Option<u32>,
    q: int,
)
    requires
        0 <= p,
    ensures
        grammar::import_desc(b, p, kind) == Ok::<(Option<u32>, int), Fault>((type_index, q)) <==> p
            <= q <= b.len() && writes_import_desc(b.subrange(p, q), kind, type_index),
{
    match kind {
        ExternKind::Func => {
            if let Some(t) = type_index {
                law_u32(b, p, t, q);
            }
        },
        ExternKind::Table => {
            law_limits(b, p + 1, q);
            if grammar::import_desc(b, p, kind) == Ok::<(Option<u32>, int), Fault>((type_index, q)) {
                lemma_one(b, p, p + 1, b[p]);
                lemma_join(b, p, p + 1, q);
                assert(b.subrange(p, q) == seq![b[p]] + b.subrange(p + 1, q));
            }
            if p <= q <= b.len() && writes_table(b.subrange(p, q)) {
                let (t, l) = choose|t: u8, l: Seq<u8>|
                    b.subrange(p, q) == #[trigger] (seq![t] + l) && writes_limits(l);
                lemma_cut(b, p, q, seq![t], l);
            }
        },
        ExternKind::Memory => {
            law_limits(b, p, q);
        },
        ExternKind::Global => {
            if grammar::import_desc(b, p, kind) == Ok::<(Option<u32>, int), Fault>((type_index, q)) {
                let (ty, _) = grammar::val_type(b, p)->Ok_0;
                law_val_types(b, p, ty, p + 1);
                lemma_one(b, p + 1, q, b[p + 1]);
                lemma_join(b, p, p + 1, q);
                assert(b.subrange(p, q) == seq![ty.byte()] + seq![b[p + 1]]);
            }
            if p <= q <= b.len() && writes_global(b.subrange(p, q)) {
                let (ty, mutability) = choose|ty: ValType, mutability: u8|
                    b.subrange(p, q) == #[trigger] (seq![ty.byte()] + seq![mutability]);
                lemma_cut(b, p, q, seq![ty.byte()], seq![mutability]);
                law_val_types(b, p, ty, p + 1);
                lemma_one(b, p + 1, q, mutability);
            }
        },
    }
}

/// An import is written as its two names, its kind, and what it says of the thing imported.
pub open spec fn writes_import() -> Writes<ImportView> {
    |x: Seq<u8>, import: ImportView|
        exists|m: Seq<u8>, n: Seq<u8>, d: Seq<u8>|
            {
                &&& #[trigger] writes_name(m, import.module)
                &&& #[trigger] writes_name(n, import.name)
                &&& #[trigger] writes_import_desc(d, import.kind, import.type_index)
                &&& x == m + (n + (seq![import.kind.byte()] + d))
            }
}

/// An import is read exactly where it is written.
pub proof fn law_imports(b: Seq<u8>, p: int, import: ImportView, q: int)
    requires
        0 <= p,
    ensures
        reads_just(b, grammar::import_rule(), writes_import(), p, import, q),
{
    let kind = seq![import.kind.byte()];
    if grammar::import(b, p) == Ok::<(ImportView, int), Fault>((import, q)) {
        let (_, r) = grammar::name(b, p)->Ok_0;
        let (_, s) = grammar::name(b, r)->Ok_0;
        law_names(b, p, import.module, r);
        law_names(b, r, import.name, s);
        law_extern_kinds(b, s, import.kind, s + 1);
        law_import_descs(b, s + 1, import.kind, import.type_index, q);
        lemma_join(b, s, s + 1, q);
        lemma_join(b, r, s, q);
        lemma_join(b, p, r, q);
        assert(writes_name(b.subrange(p, r), import.module));
        assert(writes_name(b.subrange(r, s), import.name));
        assert(writes_import_desc(b.subrange(s + 1, q), import.kind, import.type_index));
    }
    if p <= q <= b.len() && writes_import()(b.subrange(p, q), import) {
        let (m, n, d) = choose|m: Seq<u8>, n: Seq<u8>, d: Seq<u8>|
            {
                &&& #[trigger] writes_name(m, import.module)
                &&& #[trigger] writes_name(n, import.name)
                &&& #[trigger] writes_import_desc(d, import.kind, import.type_index)
                &&& b.subrange(p, q) == m + (n + (seq![import.kind.byte()] + d))
            };
        let r = p + m.len();
        let s = r + n.len();
        lemma_cut(b, p, q, m, n + (kind + d));
        lemma_cut(b, r, q, n, kind + d);
        lemma_cut(b, s, q, kind, d);
        law_names(b, p, import.module, r);
        law_names(b, r, import.name, s);
        law_extern_kinds(b, s, import.kind, s + 1);
        law_import_descs(b, s + 1, import.kind, import.type_index, q);
    }
}

/// An export is written as its name, its kind and its index.
pub open spec fn writes_export() -> Writes<ExportView> {
    |x: Seq<u8>, export: ExportView|
        exists|n: Seq<u8>, i: Seq<u8>|
            {
                &&& #[trigger] writes_name(n, export.name)
                &&& #[trigger] writes_uint(i, export.index as nat)
                &&& x == n + (seq![export.kind.byte()] + i)
            }
}

/// An export is read exactly where it is written.
pub proof fn law_exports(b: Seq<u8>, p: int, export: ExportView, q: int)
    requires
        0 <= p,
    ensures
        reads_just(b, grammar::export_rule(), writes_export(), p, export, q),
{
    let kind = seq![export.kind.byte()];
    if grammar::export(b, p) == Ok::<(ExportView, int), Fault>((export, q)) {
        let (_, r) = grammar::name(b, p)->Ok_0;
        law_names(b, p, export.name, r);
        law_extern_kinds(b, r, export.kind, r + 1);
        law_u32(b, r + 1, export.index, q);
        lemma_join(b, r, r + 1, q);
        lemma_join(b, p, r, q);
        assert(writes_name(b.subrange(p, r), export.name));
        assert(writes_uint(b.subrange(r + 1, q), export.index as nat));
    }
    if p <= q <= b.len() && writes_export()(b.subrange(p, q), export) {
        let (n, i) = choose|n: Seq<u8>, i: Seq<u8>|
            {
                &&& #[trigger] writes_name(n, export.name)
                &&& #[trigger] writes_uint(i, export.index as nat)
                &&& b.subrange(p, q) == n + (seq![export.kind.byte()] + i)
            };
        let r = p + n.len();
        lemma_cut(b, p, q, n, kind + i);
        lemma_cut(b, r, q, kind, i);
        law_names(b, p, export.name, r);
        law_extern_kinds(b, r, export.kind, r + 1);
        law_u32(b, r + 1, export.index, q);
    }
}

/// The type index of a function is written as an integer.
pub open spec fn writes_index() -> Writes<u32> {
    |x: Seq<u8>, index: u32| writes_uint(x, index as nat)
}

/// A group of locals: how many there are, and of what type.
pub struct Group {
    pub count: nat,
    pub ty: ValType,
}

/// A group is written as its count and its type.
pub open spec fn writes_group() -> Writes<Group> {
    |x: Seq<u8>, g: Group|
        exists|n: Seq<u8>| #[trigger] writes_uint(n, g.count) && x == n + seq![g.ty.byte()]
}

/// How many locals the groups hold together.
pub open spec fn total(groups: Seq<Group>) -> nat
    decreases groups.len(),
{
    if groups.len() == 0 {
        0
    } else {
        total(groups.drop_last()) + groups.last().count
    }
}

/// Whether local `j` falls in group `g`: the groups before it hold `j` locals or fewer, and
/// together with it they hold more.
pub open spec fn falls_in(groups: Seq<Group>, g: int, j: int) -> bool {
    0 <= g < groups.len() && total(groups.take(g)) <= j < total(groups.take(g + 1))
}

/// Whether `locals` are the locals of the groups, written out one at a time: as many as the
/// groups hold, each of the type of the group that it falls in.
pub open spec fn flattens(groups: Seq<Group>, locals: Seq<ValType>) -> bool {
    &&& locals.len() == total(groups)
    &&& forall|g: int, j: int| #[trigger] falls_in(groups, g, j) ==> locals[j] == groups[g].ty
}

proof fn lemma_falls_in_push(groups: Seq<Group>, last: Group, g: int, j: int)
    requires
        0 <= g <= groups.len(),
    ensures
        groups.push(last).drop_last() == groups,
        total(groups.push(last)) == total(groups) + last.count,
        g < groups.len() ==> (falls_in(groups.push(last), g, j) <==> falls_in(groups, g, j)),
        falls_in(groups.push(last), groups.len() as int, j) <==> total(groups) <= j < total(groups)
            + last.count,
{
    let all = groups.push(last);
    assert(all.drop_last() =~= groups);
    assert(all.take(groups.len() as int) =~= groups);
    assert(all.take(all.len() as int) =~= all);
    if g < groups.len() {
        assert(all.take(g) =~= groups.take(g));
        assert(all.take(g + 1) =~= groups.take(g + 1));
    }
}

/// A local that falls in a group is one of the locals.
proof fn lemma_total_take(groups: Seq<Group>, g: int)
    requires
        0 <= g <= groups.len(),
    ensures
        total(groups.take(g)) <= total(groups),
    decreases groups.len(),
{
    if g < groups.len() {
        assert(groups.drop_last().take(g) =~= groups.take(g));
        lemma_total_take(groups.drop_last(), g);
    } else {
        assert(groups.take(g) =~= groups);
    }
}

/// Every local falls in some group.
proof fn lemma_some_group(groups: Seq<Group>, j: int) -> (g: int)
    requires
        0 <= j < total(groups),
    ensures
        falls_in(groups, g, j),
    decreases groups.len(),
{
    let init = groups.drop_last();
    assert(init.push(groups.last()) =~= groups);
    if j < total(init) {
        let g = lemma_some_group(init, j);
        lemma_falls_in_push(init, groups.last(), g, j);
        g
    } else {
        lemma_falls_in_push(init, groups.last(), init.len() as int, j);
        init.len() as int
    }
}

/// The groups fix the locals.
pub proof fn law_groups_fix_the_locals(groups: Seq<Group>, a: Seq<ValType>, c: Seq<ValType>)
    requires
        flattens(groups, a),
        flattens(groups, c),
    ensures
        a == c,
{
    assert forall|j: int| 0 <= j < a.len() implies a[j] == c[j] by {
        let g = lemma_some_group(groups, j);
    }
    assert(a =~= c);
}

/// One more group puts its locals behind the others.
proof fn lemma_flattens_push(groups: Seq<Group>, last: Group, locals: Seq<ValType>)
    requires
        flattens(groups, locals),
    ensures
        flattens(groups.push(last), locals + Seq::new(last.count, |i: int| last.ty)),
{
    let all = groups.push(last);
    let more = locals + Seq::new(last.count, |i: int| last.ty);
    lemma_falls_in_push(groups, last, 0, 0);
    assert forall|g: int, j: int| #[trigger] falls_in(all, g, j) implies more[j] == all[g].ty by {
        lemma_falls_in_push(groups, last, g, j);
        if g < groups.len() {
            assert(falls_in(groups, g, j));
            lemma_total_take(groups, g + 1);
        }
    }
}

/// Without the last group its locals are gone.
proof fn lemma_flattens_drop(groups: Seq<Group>, locals: Seq<ValType>)
    requires
        groups.len() > 0,
        flattens(groups, locals),
    ensures
        ({
            let before = locals.take(total(groups.drop_last()) as int);
            &&& flattens(groups.drop_last(), before)
            &&& locals == before + Seq::new(groups.last().count, |i: int| groups.last().ty)
        }),
{
    let init = groups.drop_last();
    let last = groups.last();
    let before = locals.take(total(init) as int);
    assert(init.push(last) =~= groups);
    assert forall|g: int, j: int| #[trigger] falls_in(init, g, j) implies before[j]
        == init[g].ty by {
        lemma_falls_in_push(init, last, g, j);
        lemma_total_take(init, g + 1);
        assert(falls_in(groups, g, j));
    }
    lemma_flattens_push(init, last, before);
    law_groups_fix_the_locals(
        groups,
        locals,
        before + Seq::new(groups.last().count, |i: int| groups.last().ty),
    );
}

/// Whether `x` writes these groups of locals, and they hold `locals`, which are not too many.
pub open spec fn writes_groups(x: Seq<u8>, groups: Seq<Group>, locals: Seq<ValType>) -> bool {
    &&& writes_items(writes_group(), x, groups)
    &&& flattens(groups, locals)
    &&& locals.len() <= 100_000
}

pub(crate) proof fn lemma_groups_read(b: Seq<u8>, p: int, groups: Seq<Group>, locals: Seq<ValType>, q: int)
    requires
        0 <= p <= q <= b.len(),
        writes_groups(b.subrange(p, q), groups, locals),
    ensures
        grammar::local_groups(b, p, groups.len()) == Ok::<(Seq<ValType>, int), Fault>((locals, q)),
    decreases groups.len(),
{
    reveal_with_fuel(writes_items, 2);
    if groups.len() == 0 {
        assert(locals =~= Seq::empty());
    } else {
        let w = writes_group();
        let init = groups.drop_last();
        let last = groups.last();
        let (y, z) = choose|y: Seq<u8>, z: Seq<u8>|
            {
                &&& b.subrange(p, q) == #[trigger] (y + z)
                &&& writes_items(w, y, init)
                &&& w(z, last)
            };
        lemma_cut(b, p, q, y, z);
        let r = p + y.len();
        let before = locals.take(total(init) as int);
        lemma_flattens_drop(groups, locals);
        lemma_groups_read(b, p, init, before, r);
        let n = choose|n: Seq<u8>|
            #[trigger] writes_uint(n, last.count) && z == n + seq![last.ty.byte()];
        lemma_cut(b, r, q, n, seq![last.ty.byte()]);
        law_u32(b, r, last.count as u32, r + n.len());
        law_val_types(b, r + n.len(), last.ty, q);
        let count = last.count as u32;
        let ty = last.ty;
        assert(Seq::new(count as nat, |i: int| ty) =~= Seq::new(
            groups.last().count,
            |i: int| groups.last().ty,
        ));
    }
}

proof fn lemma_groups_written(b: Seq<u8>, p: int, n: nat, locals: Seq<ValType>, q: int) -> (groups:
    Seq<Group>)
    requires
        0 <= p <= b.len(),
        grammar::local_groups(b, p, n) == Ok::<(Seq<ValType>, int), Fault>((locals, q)),
    ensures
        p <= q <= b.len(),
        groups.len() == n,
        writes_groups(b.subrange(p, q), groups, locals),
    decreases n,
{
    reveal_with_fuel(writes_items, 2);
    if n == 0 {
        let groups = Seq::<Group>::empty();
        assert(flattens(groups, locals));
        groups
    } else {
        let w = writes_group();
        let (before, r) = grammar::local_groups(b, p, (n - 1) as nat)->Ok_0;
        let init = lemma_groups_written(b, p, (n - 1) as nat, before, r);
        let (count, s) = grammar::u32(b, r)->Ok_0;
        let (ty, _) = grammar::val_type(b, s)->Ok_0;
        law_u32(b, r, count, s);
        law_val_types(b, s, ty, q);
        let last = Group { count: count as nat, ty };
        let groups = init.push(last);
        lemma_flattens_push(init, last, before);
        assert(Seq::new(count as nat, |i: int| ty) =~= Seq::new(last.count, |i: int| last.ty));
        lemma_join(b, r, s, q);
        lemma_join(b, p, r, q);
        assert(writes_uint(b.subrange(r, s), last.count));
        assert(w(b.subrange(r, q), last));
        assert(groups.drop_last() =~= init);
        assert(groups.last() == last);
        groups
    }
}

/// Whether `x` writes `locals`, in groups of any size.
pub open spec fn writes_locals(x: Seq<u8>, locals: Seq<ValType>) -> bool {
    exists|n: Seq<u8>, y: Seq<u8>, groups: Seq<Group>|
        {
            &&& #[trigger] writes_uint(n, groups.len())
            &&& #[trigger] writes_groups(y, groups, locals)
            &&& x == n + y
        }
}

/// Locals are read exactly where they are written, however they are grouped: as many as the
/// counts of the groups come to, each of the type of the group that it falls in.
pub proof fn law_locals(b: Seq<u8>, p: int, locals: Seq<ValType>, q: int)
    requires
        0 <= p,
    ensures
        grammar::locals(b, p) == Ok::<(Seq<ValType>, int), Fault>((locals, q)) <==> p <= q
            <= b.len() && writes_locals(b.subrange(p, q), locals),
{
    if grammar::locals(b, p) == Ok::<(Seq<ValType>, int), Fault>((locals, q)) {
        let (n, r) = grammar::u32(b, p)->Ok_0;
        law_u32(b, p, n, r);
        let groups = lemma_groups_written(b, r, n as nat, locals, q);
        lemma_join(b, p, r, q);
        assert(writes_uint(b.subrange(p, r), groups.len()));
        assert(writes_groups(b.subrange(r, q), groups, locals));
    }
    if p <= q <= b.len() && writes_locals(b.subrange(p, q), locals) {
        let (n, y, groups) = choose|n: Seq<u8>, y: Seq<u8>, groups: Seq<Group>|
            {
                &&& #[trigger] writes_uint(n, groups.len())
                &&& #[trigger] writes_groups(y, groups, locals)
                &&& b.subrange(p, q) == n + y
            };
        lemma_cut(b, p, q, n, y);
        law_u32(b, p, groups.len() as u32, p + n.len());
        lemma_groups_read(b, p + n.len(), groups, locals, q);
    }
}

/// A function is written as the size of what follows, its locals, and its body, which ends
/// with the `end` opcode. Its type index is not written here.
pub open spec fn writes_func() -> Writes<FuncView> {
    |x: Seq<u8>, f: FuncView|
        {
            &&& f.body.len() > 0
            &&& f.body.last() == 0x0B
            &&& exists|n: Seq<u8>, l: Seq<u8>|
                {
                    &&& #[trigger] writes_uint(n, l.len() + f.body.len())
                    &&& #[trigger] writes_locals(l, f.locals)
                    &&& x == n + (l + f.body)
                }
        }
}

/// An entry of the code section is read exactly where it is written, and has the type index
/// that the function section gives it.
pub proof fn law_funcs(
    b: Seq<u8>,
    p: int,
    declared: Seq<u32>,
    index: nat,
    count: nat,
    f: FuncView,
    q: int,
)
    requires
        0 <= p,
    ensures
        grammar::code_entry(b, p, declared, index, count) == Ok::<(FuncView, int), Fault>((f, q))
            <==> {
            &&& p <= q <= b.len()
            &&& writes_func()(b.subrange(p, q), f)
            &&& index < declared.len()
            &&& f.type_index == declared[index as int]
        },
{
    if grammar::code_entry(b, p, declared, index, count) == Ok::<(FuncView, int), Fault>((f, q)) {
        let (size, r) = grammar::u32(b, p)->Ok_0;
        law_u32(b, p, size, r);
        let (_, s) = grammar::locals(b, r)->Ok_0;
        law_locals(b, r, f.locals, s);
        lemma_join(b, r, s, q);
        lemma_join(b, p, r, q);
        assert(f.body.last() == b[q - 1]);
        let l = b.subrange(r, s);
        assert(writes_uint(b.subrange(p, r), l.len() + f.body.len()));
        assert(writes_locals(l, f.locals));
    }
    if p <= q <= b.len() && writes_func()(b.subrange(p, q), f) {
        let (n, l) = choose|n: Seq<u8>, l: Seq<u8>|
            {
                &&& #[trigger] writes_uint(n, l.len() + f.body.len())
                &&& #[trigger] writes_locals(l, f.locals)
                &&& b.subrange(p, q) == n + (l + f.body)
            };
        lemma_cut(b, p, q, n, l + f.body);
        let r = p + n.len();
        law_u32(b, p, (l.len() + f.body.len()) as u32, r);
        lemma_cut(b, r, q, l, f.body);
        law_locals(b, r, f.locals, r + l.len());
        assert(b.subrange(r + l.len(), q)[f.body.len() - 1] == b[q - 1]);
    }
}

/// Whether the functions have the first of the type indices `declared`, in order.
pub open spec fn typed_by(funcs: Seq<FuncView>, declared: Seq<u32>) -> bool {
    &&& funcs.len() <= declared.len()
    &&& forall|i: int| 0 <= i < funcs.len() ==> (#[trigger] funcs[i]).type_index == declared[i]
}

proof fn lemma_entries(
    b: Seq<u8>,
    p: int,
    declared: Seq<u32>,
    count: nat,
    funcs: Seq<FuncView>,
    q: int,
)
    requires
        0 <= p <= b.len(),
    ensures
        grammar::code_entries(b, p, declared, count, funcs.len()) == Ok::<
            (Seq<FuncView>, int),
            Fault,
        >((funcs, q)) <==> {
            &&& p <= q <= b.len()
            &&& writes_items(writes_func(), b.subrange(p, q), funcs)
            &&& typed_by(funcs, declared)
        },
    decreases funcs.len(),
{
    reveal_with_fuel(writes_items, 2);
    if funcs.len() == 0 {
        assert(funcs =~= Seq::empty());
    } else {
        let w = writes_func();
        let init = funcs.drop_last();
        let last = funcs.last();
        let k = init.len();
        assert(init.push(last) =~= funcs);
        if grammar::code_entries(b, p, declared, count, funcs.len()) == Ok::<
            (Seq<FuncView>, int),
            Fault,
        >((funcs, q)) {
            let (before, r) = grammar::code_entries(b, p, declared, count, k)->Ok_0;
            let (func, _) = grammar::code_entry(b, r, declared, k, count)->Ok_0;
            assert(before.push(func).drop_last() =~= before);
            assert(before.push(func).last() == func);
            lemma_entries(b, p, declared, count, init, r);
            law_funcs(b, r, declared, k, count, last, q);
            lemma_join(b, p, r, q);
            assert forall|i: int| 0 <= i < funcs.len() implies (#[trigger] funcs[i]).type_index
                == declared[i] by {
                if i < k {
                    assert(init[i].type_index == declared[i]);
                }
            }
        }
        if p <= q <= b.len() && writes_items(w, b.subrange(p, q), funcs) && typed_by(
            funcs,
            declared,
        ) {
            let (y, z) = choose|y: Seq<u8>, z: Seq<u8>|
                {
                    &&& b.subrange(p, q) == #[trigger] (y + z)
                    &&& writes_items(w, y, init)
                    &&& w(z, last)
                };
            lemma_cut(b, p, q, y, z);
            assert forall|i: int| 0 <= i < init.len() implies (#[trigger] init[i]).type_index
                == declared[i] by {
                assert(funcs[i].type_index == declared[i]);
            }
            assert(funcs[k as int].type_index == declared[k as int]);
            lemma_entries(b, p, declared, count, init, p + y.len());
            law_funcs(b, p + y.len(), declared, k, count, last, q);
        }
    }
}

proof fn lemma_entries_len(b: Seq<u8>, p: int, declared: Seq<u32>, count: nat, n: nat)
    ensures
        grammar::code_entries(b, p, declared, count, n) matches Ok((funcs, _)) ==> funcs.len() == n,
    decreases n,
{
    if n > 0 {
        lemma_entries_len(b, p, declared, count, (n - 1) as nat);
    }
}

/// The content of the code section is read exactly where it is written.
pub proof fn law_code(b: Seq<u8>, p: int, declared: Seq<u32>, funcs: Seq<FuncView>, q: int)
    requires
        0 <= p,
    ensures
        grammar::code(b, p, declared) == Ok::<(Seq<FuncView>, int), Fault>((funcs, q)) <==> {
            &&& p <= q <= b.len()
            &&& writes_vector(writes_func(), b.subrange(p, q), funcs)
            &&& typed_by(funcs, declared)
        },
{
    let w = writes_func();
    if grammar::code(b, p, declared) == Ok::<(Seq<FuncView>, int), Fault>((funcs, q)) {
        let (n, r) = grammar::u32(b, p)->Ok_0;
        law_u32(b, p, n, r);
        lemma_entries_len(b, r, declared, n as nat, n as nat);
        lemma_entries(b, r, declared, n as nat, funcs, q);
        lemma_join(b, p, r, q);
        assert(writes_uint(b.subrange(p, r), funcs.len()));
        assert(writes_items(w, b.subrange(r, q), funcs));
    }
    if p <= q <= b.len() && writes_vector(w, b.subrange(p, q), funcs) && typed_by(funcs, declared) {
        let (n, y) = choose|n: Seq<u8>, y: Seq<u8>|
            {
                &&& #[trigger] writes_uint(n, funcs.len())
                &&& #[trigger] writes_items(w, y, funcs)
                &&& b.subrange(p, q) == n + y
            };
        lemma_cut(b, p, q, n, y);
        law_u32(b, p, funcs.len() as u32, p + n.len());
        lemma_entries(b, p + n.len(), declared, funcs.len(), funcs, q);
    }
}

} // verus!
