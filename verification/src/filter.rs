//! The filter query model: a recursive boolean-algebra AST over attribute
//! assertions, a hand-written total order on trees, and canonicalization
//! (flatten, sort, deduplicate) proved idempotent and order-insensitive.
//!
//! Convention for empty combinators: `And([])` denotes "always true" and
//! `Or([])` denotes "always false"; each is its own canonical (sentinel)
//! form and canonicalization leaves both unchanged.

use vstd::prelude::*;
use vstd::relations::{sorted_by, total_ordering};
use vstd::seq_lib::lemma_multiset_commutative;
use vstd::seq_lib::lemma_sorted_unique;
use crate::errors::OperationError;

verus! {

/// A recursive query expression over entry attributes.
///
/// `SelfUUID` is a placeholder for "the identity of the requesting
/// principal"; it is resolved by the backend, never by this model.
#[derive(Debug, PartialEq, Eq)]
pub enum Filter {
    // This is attr - value
    Eq(String, String),
    Sub(String, String),
    Pres(String),
    Or(Vec<Filter>),
    And(Vec<Filter>),
    AndNot(Box<Filter>),
    SelfUUID,
}

/// The UTF-8 bytes of a string value; the form in which all attribute
/// names and assertion values appear in the model.
pub open spec fn str_bytes(s: &String) -> Seq<u8> {
    vstd::utf8::encode_utf8(s@)
}

/// The mathematical model of a [`Filter`]: the same tree with every string
/// replaced by its UTF-8 byte sequence.
pub enum FilterV {
    Eq(Seq<u8>, Seq<u8>),
    Sub(Seq<u8>, Seq<u8>),
    Pres(Seq<u8>),
    Or(Seq<FilterV>),
    And(Seq<FilterV>),
    AndNot(Box<FilterV>),
    SelfUUID,
}

/// The model of a [`Filter`] tree; free-standing so that it can recurse.
pub open spec fn filter_view(f: Filter) -> FilterV
    decreases f,
{
    match f {
        Filter::Eq(a, v) => FilterV::Eq(str_bytes(&a), str_bytes(&v)),
        Filter::Sub(a, v) => FilterV::Sub(str_bytes(&a), str_bytes(&v)),
        Filter::Pres(a) => FilterV::Pres(str_bytes(&a)),
        Filter::Or(cs) => FilterV::Or(filters_view(cs@)),
        Filter::And(cs) => FilterV::And(filters_view(cs@)),
        Filter::AndNot(b) => FilterV::AndNot(Box::new(filter_view(*b))),
        Filter::SelfUUID => FilterV::SelfUUID,
    }
}

/// The models of a sequence of filters, in order.
pub open spec fn filters_view(cs: Seq<Filter>) -> Seq<FilterV>
    decreases cs,
{
    if cs.len() == 0 {
        Seq::empty()
    } else {
        seq![filter_view(cs[0])] + filters_view(cs.subrange(1, cs.len() as int))
    }
}

impl View for Filter {
    type V = FilterV;

    open spec fn view(&self) -> FilterV {
        filter_view(*self)
    }
}

/// `filters_view` is the elementwise model of its argument.
pub proof fn lemma_filters_view(cs: Seq<Filter>)
    ensures
        filters_view(cs).len() == cs.len(),
        forall|i: int| 0 <= i < cs.len() ==> #[trigger] filters_view(cs)[i] == filter_view(cs[i]),
    decreases cs.len(),
{
    if cs.len() > 0 {
        lemma_filters_view(cs.subrange(1, cs.len() as int));
    }
}

// ---------------------------------------------------------------------------
// The total order on filter trees
// ---------------------------------------------------------------------------

/// Three-way lexicographic comparison of byte strings: -1, 0 or 1.
pub open spec fn cmp_bytes(a: Seq<u8>, b: Seq<u8>) -> int
    decreases a.len(),
{
    if a.len() == 0 && b.len() == 0 {
        0
    } else if a.len() == 0 {
        -1
    } else if b.len() == 0 {
        1
    } else if a[0] < b[0] {
        -1
    } else if a[0] > b[0] {
        1
    } else {
        cmp_bytes(a.subrange(1, a.len() as int), b.subrange(1, b.len() as int))
    }
}

/// The rank of a variant: the first key of the total order, so that trees
/// of different kinds compare by kind alone.
pub open spec fn rank_of(f: FilterV) -> int {
    match f {
        FilterV::Eq(_, _) => 0,
        FilterV::Sub(_, _) => 1,
        FilterV::Pres(_) => 2,
        FilterV::Or(_) => 3,
        FilterV::And(_) => 4,
        FilterV::AndNot(_) => 5,
        FilterV::SelfUUID => 6,
    }
}

/// Three-way comparison of filter trees: variant rank first, then fields,
/// recursing into children. A hand-written order, not a derived one, so
/// that the contract does not rest on field declaration order.
pub open spec fn cmp_filters(a: FilterV, b: FilterV) -> int
    decreases a,
{
    let ra = rank_of(a);
    let rb = rank_of(b);
    if ra < rb {
        -1
    } else if ra > rb {
        1
    } else {
        match (a, b) {
            (FilterV::Eq(x1, y1), FilterV::Eq(x2, y2)) => {
                let c = cmp_bytes(x1, x2);
                if c != 0 {
                    c
                } else {
                    cmp_bytes(y1, y2)
                }
            },
            (FilterV::Sub(x1, y1), FilterV::Sub(x2, y2)) => {
                let c = cmp_bytes(x1, x2);
                if c != 0 {
                    c
                } else {
                    cmp_bytes(y1, y2)
                }
            },
            (FilterV::Pres(x1), FilterV::Pres(x2)) => cmp_bytes(x1, x2),
            (FilterV::Or(c1), FilterV::Or(c2)) => cmp_children(c1, c2),
            (FilterV::And(c1), FilterV::And(c2)) => cmp_children(c1, c2),
            (FilterV::AndNot(b1), FilterV::AndNot(b2)) => cmp_filters(*b1, *b2),
            _ => 0,
        }
    }
}

/// Lexicographic three-way comparison of child sequences.
pub open spec fn cmp_children(x: Seq<FilterV>, y: Seq<FilterV>) -> int
    decreases x,
{
    if x.len() == 0 && y.len() == 0 {
        0
    } else if x.len() == 0 {
        -1
    } else if y.len() == 0 {
        1
    } else {
        let c = cmp_filters(x[0], y[0]);
        if c != 0 {
            c
        } else {
            cmp_children(x.subrange(1, x.len() as int), y.subrange(1, y.len() as int))
        }
    }
}

/// The order that canonicalization sorts by.
pub open spec fn filter_le(a: FilterV, b: FilterV) -> bool {
    cmp_filters(a, b) <= 0
}

/// The order as a first-class relation, for the sorting lemmas.
pub open spec fn filter_leq_fn() -> spec_fn(FilterV, FilterV) -> bool {
    |a: FilterV, b: FilterV| filter_le(a, b)
}

proof fn lemma_cmp_bytes_flip(a: Seq<u8>, b: Seq<u8>)
    ensures
        cmp_bytes(a, b) == -cmp_bytes(b, a),
    decreases a.len(),
{
    if a.len() > 0 && b.len() > 0 && a[0] == b[0] {
        lemma_cmp_bytes_flip(a.subrange(1, a.len() as int), b.subrange(1, b.len() as int));
    }
}

proof fn lemma_cmp_bytes_zero(a: Seq<u8>, b: Seq<u8>)
    requires
        cmp_bytes(a, b) == 0,
    ensures
        a == b,
    decreases a.len(),
{
    if a.len() == 0 {
        assert(a =~= b);
    } else {
        let at = a.subrange(1, a.len() as int);
        let bt = b.subrange(1, b.len() as int);
        lemma_cmp_bytes_zero(at, bt);
        assert forall|i: int| 0 <= i < a.len() implies a[i] == b[i] by {
            if i > 0 {
                assert(a[i] == at[i - 1]);
                assert(b[i] == bt[i - 1]);
            }
        }
        assert(a =~= b);
    }
}

proof fn lemma_cmp_bytes_strict_trans(a: Seq<u8>, b: Seq<u8>, c: Seq<u8>)
    requires
        cmp_bytes(a, b) < 0,
        cmp_bytes(b, c) < 0,
    ensures
        cmp_bytes(a, c) < 0,
    decreases a.len(),
{
    if a.len() == 0 {
        // b must be non-empty, hence c non-empty, so cmp(a, c) == -1.
        assert(b.len() > 0);
        assert(c.len() > 0);
    } else {
        assert(b.len() > 0);
        assert(c.len() > 0);
        if a[0] == b[0] && b[0] == c[0] {
            lemma_cmp_bytes_strict_trans(
                a.subrange(1, a.len() as int),
                b.subrange(1, b.len() as int),
                c.subrange(1, c.len() as int),
            );
        }
    }
}

proof fn lemma_cmp_filters_flip(a: FilterV, b: FilterV)
    ensures
        cmp_filters(a, b) == -cmp_filters(b, a),
    decreases a,
{
    if rank_of(a) == rank_of(b) {
        match (a, b) {
            (FilterV::Eq(x1, y1), FilterV::Eq(x2, y2)) => {
                lemma_cmp_bytes_flip(x1, x2);
                lemma_cmp_bytes_flip(y1, y2);
            },
            (FilterV::Sub(x1, y1), FilterV::Sub(x2, y2)) => {
                lemma_cmp_bytes_flip(x1, x2);
                lemma_cmp_bytes_flip(y1, y2);
            },
            (FilterV::Pres(x1), FilterV::Pres(x2)) => {
                lemma_cmp_bytes_flip(x1, x2);
            },
            (FilterV::Or(c1), FilterV::Or(c2)) => {
                lemma_cmp_children_flip(c1, c2);
            },
            (FilterV::And(c1), FilterV::And(c2)) => {
                lemma_cmp_children_flip(c1, c2);
            },
            (FilterV::AndNot(b1), FilterV::AndNot(b2)) => {
                lemma_cmp_filters_flip(*b1, *b2);
            },
            _ => {},
        }
    }
}

proof fn lemma_cmp_children_flip(x: Seq<FilterV>, y: Seq<FilterV>)
    ensures
        cmp_children(x, y) == -cmp_children(y, x),
    decreases x,
{
    if x.len() > 0 && y.len() > 0 {
        lemma_cmp_filters_flip(x[0], y[0]);
        if cmp_filters(x[0], y[0]) == 0 {
            lemma_cmp_children_flip(
                x.subrange(1, x.len() as int),
                y.subrange(1, y.len() as int),
            );
        }
    }
}

proof fn lemma_cmp_filters_zero(a: FilterV, b: FilterV)
    requires
        cmp_filters(a, b) == 0,
    ensures
        a == b,
    decreases a,
{
    match (a, b) {
        (FilterV::Eq(x1, y1), FilterV::Eq(x2, y2)) => {
            if cmp_bytes(x1, x2) == 0 {
                lemma_cmp_bytes_zero(x1, x2);
                lemma_cmp_bytes_zero(y1, y2);
            }
        },
        (FilterV::Sub(x1, y1), FilterV::Sub(x2, y2)) => {
            if cmp_bytes(x1, x2) == 0 {
                lemma_cmp_bytes_zero(x1, x2);
                lemma_cmp_bytes_zero(y1, y2);
            }
        },
        (FilterV::Pres(x1), FilterV::Pres(x2)) => {
            lemma_cmp_bytes_zero(x1, x2);
        },
        (FilterV::Or(c1), FilterV::Or(c2)) => {
            lemma_cmp_children_zero(c1, c2);
        },
        (FilterV::And(c1), FilterV::And(c2)) => {
            lemma_cmp_children_zero(c1, c2);
        },
        (FilterV::AndNot(b1), FilterV::AndNot(b2)) => {
            lemma_cmp_filters_zero(*b1, *b2);
        },
        _ => {},
    }
}

proof fn lemma_cmp_children_zero(x: Seq<FilterV>, y: Seq<FilterV>)
    requires
        cmp_children(x, y) == 0,
    ensures
        x == y,
    decreases x,
{
    if x.len() == 0 {
        assert(x =~= y);
    } else {
        let xt = x.subrange(1, x.len() as int);
        let yt = y.subrange(1, y.len() as int);
        lemma_cmp_filters_zero(x[0], y[0]);
        lemma_cmp_children_zero(xt, yt);
        assert forall|i: int| 0 <= i < x.len() implies x[i] == y[i] by {
            if i > 0 {
                assert(x[i] == xt[i - 1]);
                assert(y[i] == yt[i - 1]);
            }
        }
        assert(x =~= y);
    }
}

proof fn lemma_cmp_filters_strict_trans(a: FilterV, b: FilterV, c: FilterV)
    requires
        cmp_filters(a, b) < 0,
        cmp_filters(b, c) < 0,
    ensures
        cmp_filters(a, c) < 0,
    decreases a,
{
    if rank_of(a) == rank_of(b) && rank_of(b) == rank_of(c) {
        match (a, b, c) {
            (FilterV::Eq(x1, y1), FilterV::Eq(x2, y2), FilterV::Eq(x3, y3)) => {
                lemma_cmp_bytes_pair_trans(x1, y1, x2, y2, x3, y3);
            },
            (FilterV::Sub(x1, y1), FilterV::Sub(x2, y2), FilterV::Sub(x3, y3)) => {
                lemma_cmp_bytes_pair_trans(x1, y1, x2, y2, x3, y3);
            },
            (FilterV::Pres(x1), FilterV::Pres(x2), FilterV::Pres(x3)) => {
                lemma_cmp_bytes_strict_trans(x1, x2, x3);
            },
            (FilterV::Or(c1), FilterV::Or(c2), FilterV::Or(c3)) => {
                lemma_cmp_children_strict_trans(c1, c2, c3);
            },
            (FilterV::And(c1), FilterV::And(c2), FilterV::And(c3)) => {
                lemma_cmp_children_strict_trans(c1, c2, c3);
            },
            (FilterV::AndNot(b1), FilterV::AndNot(b2), FilterV::AndNot(b3)) => {
                lemma_cmp_filters_strict_trans(*b1, *b2, *b3);
            },
            _ => {},
        }
    }
}

/// Strict transitivity for the (attr, value) double-key comparison.
proof fn lemma_cmp_bytes_pair_trans(
    x1: Seq<u8>,
    y1: Seq<u8>,
    x2: Seq<u8>,
    y2: Seq<u8>,
    x3: Seq<u8>,
    y3: Seq<u8>,
)
    requires
        (if cmp_bytes(x1, x2) != 0 {
            cmp_bytes(x1, x2)
        } else {
            cmp_bytes(y1, y2)
        }) < 0,
        (if cmp_bytes(x2, x3) != 0 {
            cmp_bytes(x2, x3)
        } else {
            cmp_bytes(y2, y3)
        }) < 0,
    ensures
        (if cmp_bytes(x1, x3) != 0 {
            cmp_bytes(x1, x3)
        } else {
            cmp_bytes(y1, y3)
        }) < 0,
{
    if cmp_bytes(x1, x2) == 0 {
        lemma_cmp_bytes_zero(x1, x2);
        if cmp_bytes(y2, y3) == 0 {
            lemma_cmp_bytes_zero(y2, y3);
        } else if cmp_bytes(x2, x3) == 0 {
            lemma_cmp_bytes_zero(x2, x3);
            lemma_cmp_bytes_strict_trans(y1, y2, y3);
        }
    } else if cmp_bytes(x2, x3) == 0 {
        lemma_cmp_bytes_zero(x2, x3);
    } else {
        lemma_cmp_bytes_strict_trans(x1, x2, x3);
    }
}

proof fn lemma_cmp_children_strict_trans(x: Seq<FilterV>, y: Seq<FilterV>, z: Seq<FilterV>)
    requires
        cmp_children(x, y) < 0,
        cmp_children(y, z) < 0,
    ensures
        cmp_children(x, z) < 0,
    decreases x,
{
    if x.len() == 0 {
        assert(y.len() > 0);
        assert(z.len() > 0);
    } else {
        assert(y.len() > 0);
        assert(z.len() > 0);
        let cxy = cmp_filters(x[0], y[0]);
        let cyz = cmp_filters(y[0], z[0]);
        if cxy == 0 {
            lemma_cmp_filters_zero(x[0], y[0]);
            if cyz == 0 {
                lemma_cmp_filters_zero(y[0], z[0]);
                lemma_cmp_children_strict_trans(
                    x.subrange(1, x.len() as int),
                    y.subrange(1, y.len() as int),
                    z.subrange(1, z.len() as int),
                );
            }
        } else if cyz == 0 {
            lemma_cmp_filters_zero(y[0], z[0]);
        } else {
            lemma_cmp_filters_strict_trans(x[0], y[0], z[0]);
        }
    }
}

/// Transitivity of the non-strict order, derived from the strict form.
proof fn lemma_cmp_filters_le_trans(a: FilterV, b: FilterV, c: FilterV)
    requires
        cmp_filters(a, b) <= 0,
        cmp_filters(b, c) <= 0,
    ensures
        cmp_filters(a, c) <= 0,
{
    if cmp_filters(a, b) == 0 {
        lemma_cmp_filters_zero(a, b);
    } else if cmp_filters(b, c) == 0 {
        lemma_cmp_filters_zero(b, c);
    } else {
        lemma_cmp_filters_strict_trans(a, b, c);
    }
}

/// The hand-written comparison is a total order on filter models: the
/// foundation of canonical sorting and of deduplication by comparison.
pub proof fn lemma_filter_le_total_ordering()
    ensures
        total_ordering(filter_leq_fn()),
{
    let r = filter_leq_fn();
    assert forall|a: FilterV| #[trigger] r(a, a) by {
        lemma_cmp_filters_flip(a, a);
    }
    assert forall|a: FilterV, b: FilterV| #[trigger] r(a, b) && #[trigger] r(b, a) implies a == b by {
        lemma_cmp_filters_flip(a, b);
        lemma_cmp_filters_zero(a, b);
    }
    assert forall|a: FilterV, b: FilterV, c: FilterV|
        #[trigger] r(a, b) && #[trigger] r(b, c) implies r(a, c) by {
        lemma_cmp_filters_le_trans(a, b, c);
    }
    assert forall|a: FilterV, b: FilterV| #[trigger] r(a, b) || #[trigger] r(b, a) by {
        lemma_cmp_filters_flip(a, b);
    }
}

// ---------------------------------------------------------------------------
// Canonical form
// ---------------------------------------------------------------------------

/// True for the `Or` kind when `k`, for the `And` kind otherwise; the
/// flattening step treats the two combinators identically up to this flag.
pub open spec fn kind_of(f: FilterV, k: bool) -> bool {
    if k {
        f matches FilterV::Or(_)
    } else {
        f matches FilterV::And(_)
    }
}

/// The child sequence of a combinator node.
pub open spec fn grp_children(f: FilterV) -> Seq<FilterV> {
    match f {
        FilterV::Or(gs) => gs,
        FilterV::And(gs) => gs,
        _ => Seq::empty(),
    }
}

/// No element of `s` is a combinator of kind `k`.
pub open spec fn no_kind(s: Seq<FilterV>, k: bool) -> bool {
    forall|i: int| 0 <= i < s.len() ==> !kind_of(#[trigger] s[i], k)
}

/// Splices the children of same-kind combinators into the parent sequence
/// (associativity of `And`/`Or`), one level deep.
pub open spec fn flatten_grp(s: Seq<FilterV>, k: bool) -> Seq<FilterV>
    decreases s.len(),
{
    if s.len() == 0 {
        Seq::empty()
    } else {
        (if kind_of(s[0], k) {
            grp_children(s[0])
        } else {
            seq![s[0]]
        }) + flatten_grp(s.subrange(1, s.len() as int), k)
    }
}

/// Removes adjacent duplicates; on a sorted sequence this removes all
/// duplicates.
pub open spec fn dedup_adj(s: Seq<FilterV>) -> Seq<FilterV>
    decreases s.len(),
{
    if s.len() <= 1 {
        s
    } else {
        dedup_adj(s.drop_last()) + (if s[s.len() - 1] == s[s.len() - 2] {
            Seq::empty()
        } else {
            seq![s.last()]
        })
    }
}

/// Canonicalizes every element of a child sequence, in order.
pub open spec fn canon_children(cs: Seq<FilterV>) -> Seq<FilterV>
    decreases cs,
{
    if cs.len() == 0 {
        Seq::empty()
    } else {
        seq![canon(cs[0])] + canon_children(cs.subrange(1, cs.len() as int))
    }
}

/// The canonical child sequence of an `And`/`Or`: children already
/// canonical, then flattened, sorted under the total order, and freed of
/// duplicates.
pub open spec fn norm_grp(cs: Seq<FilterV>, k: bool) -> Seq<FilterV> {
    dedup_adj(flatten_grp(cs, k).sort_by(filter_leq_fn()))
}

/// The canonical form of a filter tree: children first (post-order), then
/// flatten same-kind nesting, sort under the total order, and drop exact
/// duplicates. Pure and total; two trees are equivalent under reordering
/// and duplication of `And`/`Or` children iff their canonical forms are
/// identical.
pub open spec fn canon(f: FilterV) -> FilterV
    decreases f,
{
    match f {
        FilterV::Or(cs) => FilterV::Or(norm_grp(canon_children(cs), true)),
        FilterV::And(cs) => FilterV::And(norm_grp(canon_children(cs), false)),
        FilterV::AndNot(b) => FilterV::AndNot(Box::new(canon(*b))),
        _ => f,
    }
}

/// Adjacent elements strictly increase under the total order; a sorted,
/// duplicate-free sequence.
pub open spec fn strictly_sorted(s: Seq<FilterV>) -> bool {
    forall|i: int| 1 <= i < s.len() ==> cmp_filters(#[trigger] s[i - 1], s[i]) < 0
}

/// Every element of the sequence is in canonical form.
pub open spec fn children_canon(cs: Seq<FilterV>) -> bool
    decreases cs,
{
    if cs.len() == 0 {
        true
    } else {
        is_canon(cs[0]) && children_canon(cs.subrange(1, cs.len() as int))
    }
}

/// A tree is canonical when every `And`/`Or` child list is strictly
/// sorted, contains no same-kind combinator, and has canonical elements.
pub open spec fn is_canon(f: FilterV) -> bool
    decreases f,
{
    match f {
        FilterV::Or(cs) => strictly_sorted(cs) && no_kind(cs, true) && children_canon(cs),
        FilterV::And(cs) => strictly_sorted(cs) && no_kind(cs, false) && children_canon(cs),
        FilterV::AndNot(b) => is_canon(*b),
        _ => true,
    }
}

proof fn lemma_children_canon_index(cs: Seq<FilterV>)
    ensures
        children_canon(cs) <==> (forall|i: int| 0 <= i < cs.len() ==> is_canon(#[trigger] cs[i])),
    decreases cs.len(),
{
    if cs.len() > 0 {
        let t = cs.subrange(1, cs.len() as int);
        lemma_children_canon_index(t);
        assert forall|i: int| 1 <= i < cs.len() implies cs[i] == t[i - 1] by {}
        if forall|i: int| 0 <= i < cs.len() ==> is_canon(#[trigger] cs[i]) {
            assert forall|i: int| 0 <= i < t.len() implies is_canon(#[trigger] t[i]) by {
                assert(t[i] == cs[i + 1]);
            }
        }
    }
}

proof fn lemma_canon_children_index(cs: Seq<FilterV>)
    ensures
        canon_children(cs).len() == cs.len(),
        forall|i: int| 0 <= i < cs.len() ==> #[trigger] canon_children(cs)[i] == canon(cs[i]),
    decreases cs.len(),
{
    if cs.len() > 0 {
        lemma_canon_children_index(cs.subrange(1, cs.len() as int));
    }
}

proof fn lemma_canon_children_concat(a: Seq<FilterV>, b: Seq<FilterV>)
    ensures
        canon_children(a + b) == canon_children(a) + canon_children(b),
    decreases a.len(),
{
    if a.len() == 0 {
        assert(a + b =~= b);
        assert(canon_children(a) + canon_children(b) =~= canon_children(b));
    } else {
        assert((a + b).subrange(1, (a + b).len() as int) =~= a.subrange(1, a.len() as int) + b);
        lemma_canon_children_concat(a.subrange(1, a.len() as int), b);
        assert(seq![canon((a + b)[0])] + (canon_children(a.subrange(1, a.len() as int))
            + canon_children(b)) =~= (seq![canon(a[0])] + canon_children(
            a.subrange(1, a.len() as int),
        )) + canon_children(b));
    }
}

proof fn lemma_flatten_grp_concat(a: Seq<FilterV>, b: Seq<FilterV>, k: bool)
    ensures
        flatten_grp(a + b, k) == flatten_grp(a, k) + flatten_grp(b, k),
    decreases a.len(),
{
    if a.len() == 0 {
        assert(a + b =~= b);
        assert(flatten_grp(a, k) + flatten_grp(b, k) =~= flatten_grp(b, k));
    } else {
        assert((a + b).subrange(1, (a + b).len() as int) =~= a.subrange(1, a.len() as int) + b);
        lemma_flatten_grp_concat(a.subrange(1, a.len() as int), b, k);
        let h = if kind_of(a[0], k) {
            grp_children(a[0])
        } else {
            seq![a[0]]
        };
        assert(h + (flatten_grp(a.subrange(1, a.len() as int), k) + flatten_grp(b, k)) =~= (h
            + flatten_grp(a.subrange(1, a.len() as int), k)) + flatten_grp(b, k));
    }
}

/// Flattening a sequence of canonical elements yields canonical elements,
/// none of which is a combinator of the flattened kind.
proof fn lemma_flatten_grp_elems(s: Seq<FilterV>, k: bool)
    requires
        children_canon(s),
    ensures
        children_canon(flatten_grp(s, k)),
        no_kind(flatten_grp(s, k), k),
    decreases s.len(),
{
    lemma_children_canon_index(s);
    if s.len() > 0 {
        let t = s.subrange(1, s.len() as int);
        lemma_children_canon_index(t);
        lemma_flatten_grp_elems(t, k);
        let h = if kind_of(s[0], k) {
            grp_children(s[0])
        } else {
            seq![s[0]]
        };
        if kind_of(s[0], k) {
            lemma_children_canon_index(grp_children(s[0]));
        }
        let fl = flatten_grp(s, k);
        assert(fl == h + flatten_grp(t, k));
        lemma_children_canon_index(fl);
        assert forall|i: int| 0 <= i < fl.len() implies is_canon(#[trigger] fl[i]) && !kind_of(
            fl[i],
            k,
        ) by {
            if i < h.len() {
                assert(fl[i] == h[i]);
            } else {
                assert(fl[i] == flatten_grp(t, k)[i - h.len()]);
                lemma_children_canon_index(flatten_grp(t, k));
            }
        }
    }
}

/// A chained strict comparison along a strictly sorted sequence.
proof fn lemma_strict_chain(s: Seq<FilterV>, i: int, j: int)
    requires
        strictly_sorted(s),
        0 <= i < j < s.len(),
    ensures
        cmp_filters(s[i], s[j]) < 0,
    decreases j - i,
{
    if j == i + 1 {
    } else {
        lemma_strict_chain(s, i, j - 1);
        lemma_cmp_filters_strict_trans(s[i], s[j - 1], s[j]);
    }
}

proof fn lemma_strict_implies_sorted(s: Seq<FilterV>)
    requires
        strictly_sorted(s),
    ensures
        sorted_by(s, filter_leq_fn()),
{
    let r = filter_leq_fn();
    assert forall|i: int, j: int| 0 <= i < j < s.len() implies #[trigger] r(s[i], s[j]) by {
        lemma_strict_chain(s, i, j);
    }
}

/// Every element of the deduplicated sequence comes from the original.
proof fn lemma_dedup_adj_elems(s: Seq<FilterV>)
    ensures
        forall|x: FilterV| dedup_adj(s).contains(x) ==> s.contains(x),
        dedup_adj(s).len() > 0 <==> s.len() > 0,
        dedup_adj(s).len() > 0 ==> dedup_adj(s).last() == s.last(),
    decreases s.len(),
{
    if s.len() > 1 {
        lemma_dedup_adj_elems(s.drop_last());
        assert forall|x: FilterV| dedup_adj(s).contains(x) implies s.contains(x) by {
            if dedup_adj(s.drop_last()).contains(x) {
                assert(s.drop_last().contains(x));
                let i = choose|i: int|
                    0 <= i < s.drop_last().len() && s.drop_last()[i] == x;
                assert(s[i] == x);
            } else {
                assert(x == s.last());
                assert(s[s.len() - 1] == x);
            }
        }
        if s[s.len() - 1] == s[s.len() - 2] {
            assert(dedup_adj(s) =~= dedup_adj(s.drop_last()));
            assert(s.drop_last().last() == s[s.len() - 2]);
        }
    }
}

/// Deduplicating a sorted sequence leaves it strictly sorted.
proof fn lemma_dedup_adj_strict(s: Seq<FilterV>)
    requires
        sorted_by(s, filter_leq_fn()),
    ensures
        strictly_sorted(dedup_adj(s)),
    decreases s.len(),
{
    if s.len() > 1 {
        let d = s.drop_last();
        assert(sorted_by(d, filter_leq_fn()));
        lemma_dedup_adj_strict(d);
        lemma_dedup_adj_elems(d);
        let dd = dedup_adj(d);
        let out = dedup_adj(s);
        if s[s.len() - 1] == s[s.len() - 2] {
            assert(out =~= dd);
        } else {
            assert(out =~= dd + seq![s.last()]);
            assert forall|i: int| 1 <= i < out.len() implies cmp_filters(
                #[trigger] out[i - 1],
                out[i],
            ) < 0 by {
                if i < dd.len() {
                    assert(out[i - 1] == dd[i - 1]);
                    assert(out[i] == dd[i]);
                } else {
                    assert(out[i] == s.last());
                    assert(out[i - 1] == dd.last());
                    assert(dd.last() == d.last());
                    assert(d.last() == s[s.len() - 2]);
                    let r = filter_leq_fn();
                    assert(r(s[s.len() - 2], s[s.len() - 1]));
                    if cmp_filters(s[s.len() - 2], s[s.len() - 1]) == 0 {
                        lemma_cmp_filters_zero(s[s.len() - 2], s[s.len() - 1]);
                    }
                }
            }
        }
    }
}

/// Deduplication does not change a sequence that is already strictly
/// sorted.
proof fn lemma_dedup_adj_id(s: Seq<FilterV>)
    requires
        strictly_sorted(s),
    ensures
        dedup_adj(s) == s,
    decreases s.len(),
{
    if s.len() > 1 {
        assert(strictly_sorted(s.drop_last()));
        lemma_dedup_adj_id(s.drop_last());
        assert(cmp_filters(s[s.len() - 2], s[s.len() - 1]) < 0);
        if s[s.len() - 1] == s[s.len() - 2] {
            lemma_cmp_filters_flip(s[s.len() - 1], s[s.len() - 1]);
            assert(false);
        }
        assert(dedup_adj(s) =~= s.drop_last() + seq![s.last()]);
        assert(s.drop_last() + seq![s.last()] =~= s);
    }
}

/// Canonicalization produces a canonical tree.
pub proof fn lemma_canon_is_canon(f: FilterV)
    ensures
        is_canon(canon(f)),
    decreases f, 1int,
{
    match f {
        FilterV::Or(cs) => {
            lemma_canon_children_canon(cs);
            lemma_norm_grp_canon(canon_children(cs), true);
        },
        FilterV::And(cs) => {
            lemma_canon_children_canon(cs);
            lemma_norm_grp_canon(canon_children(cs), false);
        },
        FilterV::AndNot(b) => {
            lemma_canon_is_canon(*b);
        },
        _ => {},
    }
}

proof fn lemma_canon_children_canon(cs: Seq<FilterV>)
    ensures
        children_canon(canon_children(cs)),
    decreases cs, 0int,
{
    if cs.len() > 0 {
        lemma_canon_is_canon(cs[0]);
        lemma_canon_children_canon(cs.subrange(1, cs.len() as int));
        lemma_children_canon_index(canon_children(cs.subrange(1, cs.len() as int)));
        lemma_children_canon_index(canon_children(cs));
        lemma_canon_children_index(cs);
        lemma_canon_children_index(cs.subrange(1, cs.len() as int));
    }
}

/// Normalizing a sequence of canonical children yields a strictly sorted,
/// same-kind-free, canonical child sequence.
proof fn lemma_norm_grp_canon(cs: Seq<FilterV>, k: bool)
    requires
        children_canon(cs),
    ensures
        strictly_sorted(norm_grp(cs, k)),
        no_kind(norm_grp(cs, k), k),
        children_canon(norm_grp(cs, k)),
{
    let fl = flatten_grp(cs, k);
    lemma_flatten_grp_elems(cs, k);
    lemma_filter_le_total_ordering();
    fl.lemma_sort_by_ensures(filter_leq_fn());
    let so = fl.sort_by(filter_leq_fn());
    assert forall|x: FilterV| so.contains(x) implies fl.contains(x) by {}
    lemma_dedup_adj_strict(so);
    lemma_dedup_adj_elems(so);
    let out = dedup_adj(so);
    lemma_children_canon_index(fl);
    lemma_children_canon_index(out);
    assert forall|i: int| 0 <= i < out.len() implies is_canon(#[trigger] out[i]) && !kind_of(
        out[i],
        k,
    ) by {
        assert(out.contains(out[i]));
        assert(fl.contains(out[i]));
        let j = choose|j: int| 0 <= j < fl.len() && fl[j] == out[i];
        assert(is_canon(fl[j]));
        assert(!kind_of(fl[j], k));
    }
}

/// Canonicalization is the identity on canonical trees.
pub proof fn lemma_canon_id(f: FilterV)
    requires
        is_canon(f),
    ensures
        canon(f) == f,
    decreases f, 1int,
{
    match f {
        FilterV::Or(cs) => {
            lemma_canon_children_id(cs);
            lemma_norm_grp_id(cs, true);
        },
        FilterV::And(cs) => {
            lemma_canon_children_id(cs);
            lemma_norm_grp_id(cs, false);
        },
        FilterV::AndNot(b) => {
            lemma_canon_id(*b);
        },
        _ => {},
    }
}

proof fn lemma_canon_children_id(cs: Seq<FilterV>)
    requires
        children_canon(cs),
    ensures
        canon_children(cs) == cs,
    decreases cs, 0int,
{
    if cs.len() > 0 {
        lemma_canon_id(cs[0]);
        lemma_canon_children_id(cs.subrange(1, cs.len() as int));
        assert(canon_children(cs) =~= cs);
    }
}

proof fn lemma_flatten_grp_id(s: Seq<FilterV>, k: bool)
    requires
        no_kind(s, k),
    ensures
        flatten_grp(s, k) == s,
    decreases s.len(),
{
    if s.len() > 0 {
        let t = s.subrange(1, s.len() as int);
        assert forall|i: int| 0 <= i < t.len() implies !kind_of(#[trigger] t[i], k) by {
            assert(t[i] == s[i + 1]);
        }
        lemma_flatten_grp_id(t, k);
        assert(flatten_grp(s, k) =~= s);
    }
}

proof fn lemma_norm_grp_id(cs: Seq<FilterV>, k: bool)
    requires
        strictly_sorted(cs),
        no_kind(cs, k),
    ensures
        norm_grp(cs, k) == cs,
{
    lemma_flatten_grp_id(cs, k);
    lemma_filter_le_total_ordering();
    lemma_strict_implies_sorted(cs);
    cs.lemma_sort_by_ensures(filter_leq_fn());
    lemma_sorted_unique(cs, cs.sort_by(filter_leq_fn()), filter_leq_fn());
    lemma_dedup_adj_id(cs);
}

/// Canonicalization is idempotent: applying it to its own output changes
/// nothing.
pub proof fn lemma_canon_idempotent(f: FilterV)
    ensures
        canon(canon(f)) == canon(f),
{
    lemma_canon_is_canon(f);
    lemma_canon_id(canon(f));
}

/// The multiset of flattened canonical children depends only on the
/// multiset of the original children.
proof fn lemma_fc_multiset(cs1: Seq<FilterV>, cs2: Seq<FilterV>, k: bool)
    requires
        cs1.to_multiset() == cs2.to_multiset(),
    ensures
        flatten_grp(canon_children(cs1), k).to_multiset() == flatten_grp(
            canon_children(cs2),
            k,
        ).to_multiset(),
    decreases cs1.len(),
{
    broadcast use vstd::seq_lib::group_to_multiset_ensures;

    if cs1.len() == 0 {
        assert(cs1.to_multiset().len() == cs1.len());
        assert(cs2.to_multiset().len() == cs2.len());
        assert(cs1 =~= cs2);
    } else {
        let x = cs1[0];
        assert(cs1.contains(x));
        assert(cs1.to_multiset().contains(x));
        assert(cs2.to_multiset().contains(x));
        assert(cs2.contains(x));
        let j = choose|j: int| 0 <= j < cs2.len() && cs2[j] == x;
        let t1 = cs1.subrange(1, cs1.len() as int);
        let t2 = cs2.remove(j);
        assert(cs1.remove(0) =~= t1);
        assert(t1.to_multiset() == cs1.to_multiset().remove(x));
        assert(t2.to_multiset() == cs2.to_multiset().remove(x));
        lemma_fc_multiset(t1, t2, k);
        // Split cs2 around position j and distribute both maps over the
        // concatenations.
        let a = cs2.subrange(0, j);
        let b = cs2.subrange(j + 1, cs2.len() as int);
        assert(cs2 =~= a + (seq![x] + b));
        assert(t2 =~= a + b);
        lemma_fc_concat_multiset(a, seq![x] + b, k);
        lemma_fc_concat_multiset(seq![x], b, k);
        lemma_fc_concat_multiset(a, b, k);
        lemma_fc_concat_multiset(seq![x], t1, k);
        assert(cs1 =~= seq![x] + t1);
        assert(flatten_grp(canon_children(cs1), k).to_multiset() =~= flatten_grp(
            canon_children(seq![x]),
            k,
        ).to_multiset().add(flatten_grp(canon_children(t1), k).to_multiset()));
        assert(flatten_grp(canon_children(cs2), k).to_multiset() =~= flatten_grp(
            canon_children(a),
            k,
        ).to_multiset().add(
            flatten_grp(canon_children(seq![x]), k).to_multiset().add(
                flatten_grp(canon_children(b), k).to_multiset(),
            ),
        ));
        assert(flatten_grp(canon_children(t2), k).to_multiset() =~= flatten_grp(
            canon_children(a),
            k,
        ).to_multiset().add(flatten_grp(canon_children(b), k).to_multiset()));
        assert(flatten_grp(canon_children(cs1), k).to_multiset() =~= flatten_grp(
            canon_children(cs2),
            k,
        ).to_multiset());
    }
}

/// Flattened canonical children distribute over concatenation, at the
/// multiset level.
proof fn lemma_fc_concat_multiset(a: Seq<FilterV>, b: Seq<FilterV>, k: bool)
    ensures
        flatten_grp(canon_children(a + b), k).to_multiset() == flatten_grp(
            canon_children(a),
            k,
        ).to_multiset().add(flatten_grp(canon_children(b), k).to_multiset()),
{
    lemma_canon_children_concat(a, b);
    lemma_flatten_grp_concat(canon_children(a), canon_children(b), k);
    lemma_multiset_commutative(
        flatten_grp(canon_children(a), k),
        flatten_grp(canon_children(b), k),
    );
    assert(flatten_grp(canon_children(a + b), k).to_multiset() =~= flatten_grp(
        canon_children(a),
        k,
    ).to_multiset().add(flatten_grp(canon_children(b), k).to_multiset()));
}

/// Canonicalization is insensitive to the order (and to exact duplication)
/// of `And`/`Or` children: any two child sequences with the same multiset
/// canonicalize to the same combinator.
pub proof fn lemma_canon_order_insensitive(cs1: Seq<FilterV>, cs2: Seq<FilterV>)
    requires
        cs1.to_multiset() == cs2.to_multiset(),
    ensures
        canon(FilterV::Or(cs1)) == canon(FilterV::Or(cs2)),
        canon(FilterV::And(cs1)) == canon(FilterV::And(cs2)),
{
    lemma_filter_le_total_ordering();
    lemma_norm_grp_of_multiset(cs1, cs2, true);
    lemma_norm_grp_of_multiset(cs1, cs2, false);
}

proof fn lemma_norm_grp_of_multiset(cs1: Seq<FilterV>, cs2: Seq<FilterV>, k: bool)
    requires
        cs1.to_multiset() == cs2.to_multiset(),
    ensures
        norm_grp(canon_children(cs1), k) == norm_grp(canon_children(cs2), k),
{
    lemma_fc_multiset(cs1, cs2, k);
    lemma_filter_le_total_ordering();
    let f1 = flatten_grp(canon_children(cs1), k);
    let f2 = flatten_grp(canon_children(cs2), k);
    f1.lemma_sort_by_ensures(filter_leq_fn());
    f2.lemma_sort_by_ensures(filter_leq_fn());
    lemma_sorted_unique(f1.sort_by(filter_leq_fn()), f2.sort_by(filter_leq_fn()), filter_leq_fn());
    assert(f1.sort_by(filter_leq_fn()) == f2.sort_by(filter_leq_fn()));
}

// ---------------------------------------------------------------------------
// Executable comparison
// ---------------------------------------------------------------------------

proof fn lemma_cmp_bytes_step(a: Seq<u8>, b: Seq<u8>, i: int)
    requires
        0 <= i,
        i + 1 <= a.len(),
        i + 1 <= b.len(),
        a[i] == b[i],
    ensures
        cmp_bytes(a.subrange(i, a.len() as int), b.subrange(i, b.len() as int)) == cmp_bytes(
            a.subrange(i + 1, a.len() as int),
            b.subrange(i + 1, b.len() as int),
        ),
{
    let sa = a.subrange(i, a.len() as int);
    let sb = b.subrange(i, b.len() as int);
    assert(sa.subrange(1, sa.len() as int) =~= a.subrange(i + 1, a.len() as int));
    assert(sb.subrange(1, sb.len() as int) =~= b.subrange(i + 1, b.len() as int));
}

/// Compares two strings by their UTF-8 bytes, three-way.
fn str_cmp(a: &String, b: &String) -> (r: i32)
    ensures
        r as int == cmp_bytes(str_bytes(a), str_bytes(b)),
{
    let ab = a.as_str().as_bytes();
    let bb = b.as_str().as_bytes();
    let av = Ghost(str_bytes(a));
    let bv = Ghost(str_bytes(b));
    let mut i: usize = 0;
    proof {
        assert(av@.subrange(0, av@.len() as int) =~= av@);
        assert(bv@.subrange(0, bv@.len() as int) =~= bv@);
    }
    while i < ab.len() && i < bb.len()
        invariant
            av@ == str_bytes(a),
            bv@ == str_bytes(b),
            ab@ == av@,
            bb@ == bv@,
            i <= av@.len(),
            i <= bv@.len(),
            cmp_bytes(av@, bv@) == cmp_bytes(
                av@.subrange(i as int, av@.len() as int),
                bv@.subrange(i as int, bv@.len() as int),
            ),
        decreases av@.len() - i,
    {
        let x = ab[i];
        let y = bb[i];
        if x < y {
            proof {
                let sa = av@.subrange(i as int, av@.len() as int);
                let sb = bv@.subrange(i as int, bv@.len() as int);
                assert(sa.len() > 0);
                assert(sb.len() > 0);
                assert(sa[0] == av@[i as int]);
                assert(sb[0] == bv@[i as int]);
                assert(sa[0] < sb[0]);
                assert(cmp_bytes(sa, sb) == -1);
            }
            return -1;
        }
        if x > y {
            proof {
                let sa = av@.subrange(i as int, av@.len() as int);
                let sb = bv@.subrange(i as int, bv@.len() as int);
                assert(sa[0] == av@[i as int]);
                assert(sb[0] == bv@[i as int]);
                assert(cmp_bytes(sa, sb) == 1);
            }
            return 1;
        }
        proof {
            lemma_cmp_bytes_step(av@, bv@, i as int);
        }
        i = i + 1;
    }
    if ab.len() == bb.len() {
        0
    } else if ab.len() < bb.len() {
        -1
    } else {
        1
    }
}

/// The variant rank of a tree, executably.
fn rank_exec(f: &Filter) -> (r: i32)
    ensures
        r as int == rank_of(f@),
{
    match f {
        Filter::Eq(_, _) => 0,
        Filter::Sub(_, _) => 1,
        Filter::Pres(_) => 2,
        Filter::Or(_) => 3,
        Filter::And(_) => 4,
        Filter::AndNot(_) => 5,
        Filter::SelfUUID => 6,
    }
}

proof fn lemma_cmp_children_step(x: Seq<FilterV>, y: Seq<FilterV>, i: int)
    requires
        0 <= i,
        i + 1 <= x.len(),
        i + 1 <= y.len(),
        cmp_filters(x[i], y[i]) == 0,
    ensures
        cmp_children(x.subrange(i, x.len() as int), y.subrange(i, y.len() as int)) == cmp_children(
            x.subrange(i + 1, x.len() as int),
            y.subrange(i + 1, y.len() as int),
        ),
{
    let sx = x.subrange(i, x.len() as int);
    let sy = y.subrange(i, y.len() as int);
    assert(sx.subrange(1, sx.len() as int) =~= x.subrange(i + 1, x.len() as int));
    assert(sy.subrange(1, sy.len() as int) =~= y.subrange(i + 1, y.len() as int));
}

/// Lexicographic three-way comparison of two child vectors.
fn children_cmp(x: &Vec<Filter>, y: &Vec<Filter>) -> (r: i32)
    ensures
        r as int == cmp_children(filters_view(x@), filters_view(y@)),
    decreases x@,
{
    let xv = Ghost(filters_view(x@));
    let yv = Ghost(filters_view(y@));
    proof {
        lemma_filters_view(x@);
        lemma_filters_view(y@);
        assert(xv@.subrange(0, xv@.len() as int) =~= xv@);
        assert(yv@.subrange(0, yv@.len() as int) =~= yv@);
    }
    let mut i: usize = 0;
    while i < x.len() && i < y.len()
        invariant
            xv@ == filters_view(x@),
            yv@ == filters_view(y@),
            xv@.len() == x@.len(),
            yv@.len() == y@.len(),
            forall|j: int| 0 <= j < x@.len() ==> #[trigger] xv@[j] == filter_view(x@[j]),
            forall|j: int| 0 <= j < y@.len() ==> #[trigger] yv@[j] == filter_view(y@[j]),
            i <= x@.len(),
            i <= y@.len(),
            cmp_children(xv@, yv@) == cmp_children(
                xv@.subrange(i as int, xv@.len() as int),
                yv@.subrange(i as int, yv@.len() as int),
            ),
        decreases x@.len() - i,
    {
        let c = filter_cmp(&x[i], &y[i]);
        if c != 0 {
            proof {
                let sx = xv@.subrange(i as int, xv@.len() as int);
                let sy = yv@.subrange(i as int, yv@.len() as int);
                assert(sx[0] == xv@[i as int]);
                assert(sy[0] == yv@[i as int]);
            }
            return c;
        }
        proof {
            lemma_cmp_children_step(xv@, yv@, i as int);
        }
        i = i + 1;
    }
    if x.len() == y.len() {
        0
    } else if x.len() < y.len() {
        -1
    } else {
        1
    }
}

/// Three-way comparison of two filter trees under the canonical total
/// order: variant kind first, then attribute, value and children.
pub fn filter_cmp(a: &Filter, b: &Filter) -> (r: i32)
    ensures
        r as int == cmp_filters(a@, b@),
    decreases *a,
{
    let ra = rank_exec(a);
    let rb = rank_exec(b);
    if ra < rb {
        return -1;
    }
    if ra > rb {
        return 1;
    }
    match (a, b) {
        (Filter::Eq(x1, y1), Filter::Eq(x2, y2)) => {
            let c = str_cmp(x1, x2);
            if c != 0 {
                c
            } else {
                str_cmp(y1, y2)
            }
        },
        (Filter::Sub(x1, y1), Filter::Sub(x2, y2)) => {
            let c = str_cmp(x1, x2);
            if c != 0 {
                c
            } else {
                str_cmp(y1, y2)
            }
        },
        (Filter::Pres(x1), Filter::Pres(x2)) => str_cmp(x1, x2),
        (Filter::Or(c1), Filter::Or(c2)) => children_cmp(c1, c2),
        (Filter::And(c1), Filter::And(c2)) => children_cmp(c1, c2),
        (Filter::AndNot(b1), Filter::AndNot(b2)) => filter_cmp(b1, b2),
        _ => 0,
    }
}

// ---------------------------------------------------------------------------
// Depth and SelfUUID detection
// ---------------------------------------------------------------------------

/// The nesting depth of a filter tree; a single leaf has depth one.
pub open spec fn fdepth(f: FilterV) -> nat
    decreases f,
{
    match f {
        FilterV::Or(cs) => 1 + fdepth_children(cs),
        FilterV::And(cs) => 1 + fdepth_children(cs),
        FilterV::AndNot(b) => 1 + fdepth(*b),
        _ => 1,
    }
}

/// The greatest depth among the children; zero for no children.
pub open spec fn fdepth_children(cs: Seq<FilterV>) -> nat
    decreases cs,
{
    if cs.len() == 0 {
        0
    } else {
        let rest = fdepth_children(cs.subrange(1, cs.len() as int));
        if fdepth(cs[0]) >= rest {
            fdepth(cs[0])
        } else {
            rest
        }
    }
}

proof fn lemma_fdepth_children_index(cs: Seq<FilterV>, d: nat)
    ensures
        fdepth_children(cs) <= d <==> (forall|i: int|
            0 <= i < cs.len() ==> fdepth(#[trigger] cs[i]) <= d),
    decreases cs.len(),
{
    if cs.len() > 0 {
        let t = cs.subrange(1, cs.len() as int);
        lemma_fdepth_children_index(t, d);
        assert forall|i: int| 1 <= i < cs.len() implies cs[i] == t[i - 1] by {}
        if forall|i: int| 0 <= i < cs.len() ==> fdepth(#[trigger] cs[i]) <= d {
            assert forall|i: int| 0 <= i < t.len() implies fdepth(#[trigger] t[i]) <= d by {
                assert(t[i] == cs[i + 1]);
            }
        }
    }
}

/// The depth bound imposed on attacker-controlled filter trees before
/// canonicalization will recurse into them.
pub const FILTER_MAX_DEPTH: usize = 16;

/// Decides whether the tree is no deeper than `limit`.
pub fn depth_within(f: &Filter, limit: usize) -> (b: bool)
    ensures
        b == (fdepth(f@) <= limit as nat),
    decreases *f,
{
    match f {
        Filter::Eq(_, _) => limit >= 1,
        Filter::Sub(_, _) => limit >= 1,
        Filter::Pres(_) => limit >= 1,
        Filter::SelfUUID => limit >= 1,
        Filter::AndNot(b) => limit >= 1 && depth_within(b, limit - 1),
        Filter::Or(cs) => depth_children_within(cs, limit),
        Filter::And(cs) => depth_children_within(cs, limit),
    }
}

/// Decides whether every child is within `limit - 1`; shared by both
/// combinator kinds.
fn depth_children_within(cs: &Vec<Filter>, limit: usize) -> (b: bool)
    ensures
        b == (1 + fdepth_children(filters_view(cs@)) <= limit as nat),
    decreases cs@,
{
    if limit == 0 {
        return false;
    }
    let fv = Ghost(filters_view(cs@));
    proof {
        lemma_filters_view(cs@);
        lemma_fdepth_children_index(fv@, (limit - 1) as nat);
    }
    let mut i: usize = 0;
    while i < cs.len()
        invariant
            fv@ == filters_view(cs@),
            fv@.len() == cs@.len(),
            forall|j: int| 0 <= j < cs@.len() ==> #[trigger] fv@[j] == filter_view(cs@[j]),
            limit >= 1,
            i <= cs@.len(),
            forall|j: int| 0 <= j < i ==> fdepth(#[trigger] fv@[j]) <= (limit - 1) as nat,
        decreases cs@.len() - i,
    {
        if !depth_within(&cs[i], limit - 1) {
            proof {
                assert(fv@[i as int] == filter_view(cs@[i as int]));
                assert(fdepth(fv@[i as int]) > (limit - 1) as nat);
                lemma_fdepth_children_index(fv@, (limit - 1) as nat);
            }
            return false;
        }
        i = i + 1;
    }
    proof {
        lemma_fdepth_children_index(fv@, (limit - 1) as nat);
    }
    true
}

/// True when `SelfUUID` occurs anywhere in the tree.
pub open spec fn has_self_uuid(f: FilterV) -> bool
    decreases f,
{
    match f {
        FilterV::SelfUUID => true,
        FilterV::Or(cs) => children_have_self_uuid(cs),
        FilterV::And(cs) => children_have_self_uuid(cs),
        FilterV::AndNot(b) => has_self_uuid(*b),
        _ => false,
    }
}

/// True when `SelfUUID` occurs in any element of the sequence.
pub open spec fn children_have_self_uuid(cs: Seq<FilterV>) -> bool
    decreases cs,
{
    if cs.len() == 0 {
        false
    } else {
        has_self_uuid(cs[0]) || children_have_self_uuid(cs.subrange(1, cs.len() as int))
    }
}

proof fn lemma_children_have_self_uuid_index(cs: Seq<FilterV>)
    ensures
        children_have_self_uuid(cs) <==> (exists|i: int|
            0 <= i < cs.len() && has_self_uuid(#[trigger] cs[i])),
    decreases cs.len(),
{
    if cs.len() > 0 {
        let t = cs.subrange(1, cs.len() as int);
        lemma_children_have_self_uuid_index(t);
        if children_have_self_uuid(cs) {
            if !has_self_uuid(cs[0]) {
                let i = choose|i: int| 0 <= i < t.len() && has_self_uuid(#[trigger] t[i]);
                assert(cs[i + 1] == t[i]);
                assert(has_self_uuid(cs[i + 1]));
            }
        } else {
            assert forall|i: int| 0 <= i < cs.len() implies !has_self_uuid(#[trigger] cs[i]) by {
                if i > 0 {
                    assert(cs[i] == t[i - 1]);
                }
            }
        }
    }
}

/// Reports whether the tree mentions the requesting principal anywhere,
/// so the backend can decide resolvability before evaluation.
pub fn contains_self_uuid(f: &Filter) -> (b: bool)
    ensures
        b == has_self_uuid(f@),
    decreases *f,
{
    match f {
        Filter::SelfUUID => true,
        Filter::Eq(_, _) => false,
        Filter::Sub(_, _) => false,
        Filter::Pres(_) => false,
        Filter::AndNot(b) => contains_self_uuid(b),
        Filter::Or(cs) => vec_contains_self_uuid(cs),
        Filter::And(cs) => vec_contains_self_uuid(cs),
    }
}

fn vec_contains_self_uuid(cs: &Vec<Filter>) -> (b: bool)
    ensures
        b == children_have_self_uuid(filters_view(cs@)),
    decreases cs@,
{
    let fv = Ghost(filters_view(cs@));
    proof {
        lemma_filters_view(cs@);
        lemma_children_have_self_uuid_index(fv@);
    }
    let mut i: usize = 0;
    while i < cs.len()
        invariant
            fv@ == filters_view(cs@),
            fv@.len() == cs@.len(),
            forall|j: int| 0 <= j < cs@.len() ==> #[trigger] fv@[j] == filter_view(cs@[j]),
            i <= cs@.len(),
            forall|j: int| 0 <= j < i ==> !has_self_uuid(#[trigger] fv@[j]),
        decreases cs@.len() - i,
    {
        if contains_self_uuid(&cs[i]) {
            proof {
                assert(fv@[i as int] == filter_view(cs@[i as int]));
                assert(has_self_uuid(fv@[i as int]));
                lemma_children_have_self_uuid_index(fv@);
            }
            return true;
        }
        i = i + 1;
    }
    proof {
        lemma_children_have_self_uuid_index(fv@);
    }
    false
}

// ---------------------------------------------------------------------------
// Executable canonicalization
// ---------------------------------------------------------------------------

proof fn lemma_fv_concat(a: Seq<Filter>, b: Seq<Filter>)
    ensures
        filters_view(a + b) == filters_view(a) + filters_view(b),
{
    lemma_filters_view(a);
    lemma_filters_view(b);
    lemma_filters_view(a + b);
    assert forall|i: int| 0 <= i < a.len() + b.len() implies filters_view(a + b)[i]
        == (filters_view(a) + filters_view(b))[i] by {
        if i < a.len() {
            assert((a + b)[i] == a[i]);
        } else {
            assert((a + b)[i] == b[i - a.len()]);
        }
    }
    assert(filters_view(a + b) =~= filters_view(a) + filters_view(b));
}

proof fn lemma_fv_tail(s: Seq<Filter>)
    requires
        s.len() > 0,
    ensures
        filters_view(s.subrange(1, s.len() as int)) == filters_view(s).subrange(
            1,
            s.len() as int,
        ),
{
    lemma_filters_view(s);
    lemma_filters_view(s.subrange(1, s.len() as int));
    assert(filters_view(s.subrange(1, s.len() as int)) =~= filters_view(s).subrange(
        1,
        s.len() as int,
    ));
}

/// Splices the children of same-kind combinators into the parent list.
fn flatten_vec(v: Vec<Filter>, k: bool) -> (r: Vec<Filter>)
    ensures
        filters_view(r@) == flatten_grp(filters_view(v@), k),
{
    let orig = Ghost(filters_view(v@));
    let mut inp = v;
    let mut out: Vec<Filter> = Vec::new();
    proof {
        lemma_filters_view(inp@);
        assert(orig@.subrange(0, 0) =~= Seq::<FilterV>::empty());
        assert(orig@.subrange(0, orig@.len() as int) =~= orig@);
        assert(filters_view(out@) =~= Seq::<FilterV>::empty());
    }
    while inp.len() > 0
        invariant
            inp@.len() <= orig@.len(),
            filters_view(inp@) == orig@.subrange(
                orig@.len() - inp@.len(),
                orig@.len() as int,
            ),
            filters_view(out@) == flatten_grp(
                orig@.subrange(0, orig@.len() - inp@.len()),
                k,
            ),
        decreases inp@.len(),
    {
        let ghost d = orig@.len() - inp@.len();
        let ghost prev = inp@;
        let ghost prev_out = out@;
        let x = inp.remove(0);
        proof {
            lemma_filters_view(prev);
            assert(filters_view(prev)[0] == filter_view(prev[0]));
            assert(filters_view(prev)[0] == orig@[d]);
            assert(inp@ =~= prev.subrange(1, prev.len() as int));
            lemma_fv_tail(prev);
            assert(filters_view(inp@) =~= orig@.subrange(d + 1, orig@.len() as int));
        }
        let spliced: bool;
        match x {
            Filter::Or(mut gs) => {
                if k {
                    proof {
                        assert(filter_view(Filter::Or(gs)) == FilterV::Or(filters_view(gs@)));
                    }
                    let ghost gsv = gs@;
                    out.append(&mut gs);
                    proof {
                        lemma_fv_concat(prev_out, gsv);
                        assert(grp_children(orig@[d]) == filters_view(gsv));
                    }
                    spliced = true;
                } else {
                    out.push(Filter::Or(gs));
                    spliced = false;
                }
            },
            Filter::And(mut gs) => {
                if !k {
                    proof {
                        assert(filter_view(Filter::And(gs)) == FilterV::And(filters_view(gs@)));
                    }
                    let ghost gsv = gs@;
                    out.append(&mut gs);
                    proof {
                        lemma_fv_concat(prev_out, gsv);
                        assert(grp_children(orig@[d]) == filters_view(gsv));
                    }
                    spliced = true;
                } else {
                    out.push(Filter::And(gs));
                    spliced = false;
                }
            },
            other => {
                out.push(other);
                spliced = false;
            },
        }
        proof {
            let h = if kind_of(orig@[d], k) {
                grp_children(orig@[d])
            } else {
                seq![orig@[d]]
            };
            if !spliced {
                let e = out@[out@.len() - 1];
                assert(out@ =~= prev_out.push(e));
                assert(prev_out.push(e) =~= prev_out + seq![e]);
                lemma_fv_concat(prev_out, seq![e]);
                lemma_filters_view(seq![e]);
                assert(filter_view(e) == orig@[d]);
                assert(filters_view(seq![e]) =~= seq![orig@[d]]);
            }
            // One more element of the original has been flattened.
            assert(orig@.subrange(0, d + 1) =~= orig@.subrange(0, d) + seq![orig@[d]]);
            lemma_flatten_grp_concat(orig@.subrange(0, d), seq![orig@[d]], k);
            assert(seq![orig@[d]].subrange(1, 1) =~= Seq::<FilterV>::empty());
            assert(flatten_grp(Seq::<FilterV>::empty(), k) =~= Seq::<FilterV>::empty());
            assert(flatten_grp(seq![orig@[d]], k) == (if kind_of(seq![orig@[d]][0], k) {
                grp_children(seq![orig@[d]][0])
            } else {
                seq![seq![orig@[d]][0]]
            }) + flatten_grp(seq![orig@[d]].subrange(1, 1), k));
            assert(flatten_grp(seq![orig@[d]], k) =~= h);
            assert(filters_view(out@) =~= flatten_grp(orig@.subrange(0, d + 1), k));
        }
    }
    proof {
        assert(orig@.subrange(0, orig@.len() as int) =~= orig@);
    }
    out
}

/// Sorts a child list under the canonical total order, by repeated
/// selection of a least remaining element.
fn sort_filters(v: Vec<Filter>) -> (r: Vec<Filter>)
    ensures
        sorted_by(filters_view(r@), filter_leq_fn()),
        filters_view(r@).to_multiset() == filters_view(v@).to_multiset(),
{
    let origm = Ghost(filters_view(v@).to_multiset());
    let mut inp = v;
    let mut out: Vec<Filter> = Vec::new();
    proof {
        broadcast use vstd::seq_lib::group_to_multiset_ensures;
        broadcast use vstd::multiset::group_multiset_axioms;

        assert(filters_view(out@) =~= Seq::<FilterV>::empty());
        assert(filters_view(out@).to_multiset().add(filters_view(inp@).to_multiset())
            =~= origm@);
    }
    while inp.len() > 0
        invariant
            filters_view(out@).to_multiset().add(filters_view(inp@).to_multiset()) == origm@,
            sorted_by(filters_view(out@), filter_leq_fn()),
            forall|oi: int, rj: int|
                0 <= oi < filters_view(out@).len() && 0 <= rj < filters_view(inp@).len()
                    ==> cmp_filters(
                    #[trigger] filters_view(out@)[oi],
                    #[trigger] filters_view(inp@)[rj],
                ) <= 0,
        decreases inp@.len(),
    {
        let ghost inpv = filters_view(inp@);
        proof {
            lemma_filters_view(inp@);
            lemma_cmp_filters_flip(inpv[0], inpv[0]);
        }
        // Select the index of a least remaining element.
        let mut m: usize = 0;
        let mut t: usize = 1;
        while t < inp.len()
            invariant
                inpv == filters_view(inp@),
                inpv.len() == inp@.len(),
                forall|j: int| 0 <= j < inp@.len() ==> #[trigger] inpv[j] == filter_view(inp@[j]),
                inp@.len() > 0,
                m < inp@.len(),
                t <= inp@.len(),
                forall|u: int| 0 <= u < t ==> cmp_filters(inpv[m as int], #[trigger] inpv[u]) <= 0,
            decreases inp@.len() - t,
        {
            let c = filter_cmp(&inp[t], &inp[m]);
            proof {
                lemma_cmp_filters_flip(inpv[t as int], inpv[m as int]);
            }
            if c < 0 {
                let ghost old_m = m as int;
                m = t;
                proof {
                    assert forall|u: int| 0 <= u < t + 1 implies cmp_filters(
                        inpv[m as int],
                        #[trigger] inpv[u],
                    ) <= 0 by {
                        if u < t {
                            lemma_cmp_filters_le_trans(inpv[m as int], inpv[old_m], inpv[u]);
                        } else {
                            lemma_cmp_filters_flip(inpv[u], inpv[u]);
                        }
                    }
                }
            }
            t = t + 1;
        }
        let ghost prev_out = out@;
        let ghost prev_inp = inp@;
        let x = inp.remove(m);
        out.push(x);
        proof {
            broadcast use vstd::seq_lib::group_to_multiset_ensures;
            broadcast use vstd::multiset::group_multiset_axioms;

            let xv = filter_view(x);
            lemma_filters_view(prev_inp);
            lemma_filters_view(inp@);
            lemma_filters_view(prev_out);
            lemma_filters_view(out@);
            assert(xv == inpv[m as int]);
            assert(out@ =~= prev_out.push(x));
            assert(filters_view(out@) =~= filters_view(prev_out).push(xv));
            assert(inp@ =~= prev_inp.remove(m as int));
            assert(filters_view(inp@) =~= inpv.remove(m as int));
            assert(filters_view(out@).to_multiset() =~= filters_view(
                prev_out,
            ).to_multiset().insert(xv));
            assert(inpv.remove(m as int).to_multiset() =~= inpv.to_multiset().remove(xv));
            assert(inpv.to_multiset().contains(xv));
            assert(filters_view(out@).to_multiset().add(filters_view(inp@).to_multiset())
                =~= filters_view(prev_out).to_multiset().add(inpv.to_multiset()));
            // Sortedness with the new last element.
            assert forall|i: int, j: int|
                0 <= i < j < filters_view(out@).len() implies filter_leq_fn()(
                filters_view(out@)[i],
                filters_view(out@)[j],
            ) by {
                if j == filters_view(out@).len() - 1 {
                    assert(filters_view(out@)[i] == filters_view(prev_out)[i]);
                    assert(cmp_filters(filters_view(prev_out)[i], inpv[m as int]) <= 0);
                } else {
                    assert(filters_view(out@)[i] == filters_view(prev_out)[i]);
                    assert(filters_view(out@)[j] == filters_view(prev_out)[j]);
                }
            }
            // The selected element bounds everything that remains.
            assert forall|oi: int, rj: int|
                0 <= oi < filters_view(out@).len() && 0 <= rj < filters_view(
                    inp@,
                ).len() implies cmp_filters(
                #[trigger] filters_view(out@)[oi],
                #[trigger] filters_view(inp@)[rj],
            ) <= 0 by {
                let rv = filters_view(inp@)[rj];
                assert(rv == if rj < m as int {
                    inpv[rj]
                } else {
                    inpv[rj + 1]
                });
                if oi < filters_view(prev_out).len() {
                    assert(filters_view(out@)[oi] == filters_view(prev_out)[oi]);
                } else {
                    assert(filters_view(out@)[oi] == xv);
                }
            }
        }
    }
    proof {
        assert(filters_view(inp@) =~= Seq::<FilterV>::empty());
        assert(filters_view(out@).to_multiset().add(Seq::<FilterV>::empty().to_multiset())
            =~= filters_view(out@).to_multiset());
        broadcast use vstd::multiset::group_multiset_axioms;
        broadcast use vstd::seq_lib::group_to_multiset_ensures;
    }
    out
}

/// Removes adjacent duplicates from a sorted child list.
fn dedup_vec(v: Vec<Filter>) -> (r: Vec<Filter>)
    ensures
        filters_view(r@) == dedup_adj(filters_view(v@)),
{
    let sv = Ghost(filters_view(v@));
    let mut inp = v;
    let mut out: Vec<Filter> = Vec::new();
    proof {
        lemma_filters_view(inp@);
        assert(sv@.subrange(0, 0) =~= Seq::<FilterV>::empty());
        assert(sv@.subrange(0, sv@.len() as int) =~= sv@);
        assert(filters_view(out@) =~= Seq::<FilterV>::empty());
    }
    while inp.len() > 0
        invariant
            inp@.len() <= sv@.len(),
            filters_view(inp@) == sv@.subrange(sv@.len() - inp@.len(), sv@.len() as int),
            filters_view(out@) == dedup_adj(sv@.subrange(0, sv@.len() - inp@.len())),
        decreases inp@.len(),
    {
        let ghost d = sv@.len() - inp@.len();
        let ghost p = sv@.subrange(0, d);
        let ghost q = sv@.subrange(0, d + 1);
        let ghost prev_inp = inp@;
        let ghost prev_out = out@;
        let x = inp.remove(0);
        proof {
            lemma_filters_view(prev_inp);
            assert(filters_view(prev_inp)[0] == filter_view(prev_inp[0]));
            assert(filter_view(x) == sv@[d]);
            assert(inp@ =~= prev_inp.subrange(1, prev_inp.len() as int));
            lemma_fv_tail(prev_inp);
            assert(filters_view(inp@) =~= sv@.subrange(d + 1, sv@.len() as int));
            assert(q.drop_last() =~= p);
            assert(q.last() == sv@[d]);
            lemma_dedup_adj_elems(p);
        }
        if out.len() == 0 {
            proof {
                assert(p.len() == 0);
                assert(q.len() == 1);
            }
            out.push(x);
            proof {
                lemma_filters_view(prev_out.push(x));
                assert(filters_view(out@) =~= q);
                assert(dedup_adj(q) =~= q);
            }
        } else {
            let c = filter_cmp(&out[out.len() - 1], &x);
            proof {
                lemma_filters_view(prev_out);
                assert(filters_view(prev_out)[prev_out.len() - 1] == filter_view(
                    prev_out[prev_out.len() - 1],
                ));
                assert(filters_view(prev_out).last() == p.last());
                assert(p.len() > 0);
                assert(p.last() == q[q.len() - 2]);
            }
            if c != 0 {
                proof {
                    if q[q.len() - 1] == q[q.len() - 2] {
                        lemma_cmp_filters_flip(q[q.len() - 1], q[q.len() - 1]);
                    }
                }
                out.push(x);
                proof {
                    lemma_filters_view(prev_out.push(x));
                    lemma_filters_view(prev_out);
                    assert(filters_view(out@) =~= filters_view(prev_out).push(sv@[d]));
                    assert(dedup_adj(q) =~= dedup_adj(p) + seq![sv@[d]]);
                    assert(filters_view(prev_out).push(sv@[d]) =~= filters_view(prev_out) + seq![
                        sv@[d],
                    ]);
                }
            } else {
                proof {
                    lemma_cmp_filters_zero(p.last(), sv@[d]);
                    assert(q[q.len() - 1] == q[q.len() - 2]);
                    assert(dedup_adj(q) =~= dedup_adj(p));
                }
            }
        }
    }
    proof {
        assert(sv@.subrange(0, sv@.len() as int) =~= sv@);
    }
    out
}

/// Flattens, sorts and deduplicates a list of already canonical children.
fn norm_vec(v: Vec<Filter>, k: bool) -> (r: Vec<Filter>)
    ensures
        filters_view(r@) == norm_grp(filters_view(v@), k),
{
    let fl = flatten_vec(v, k);
    let flv = Ghost(filters_view(fl@));
    let so = sort_filters(fl);
    proof {
        lemma_filter_le_total_ordering();
        flv@.lemma_sort_by_ensures(filter_leq_fn());
        lemma_sorted_unique(
            filters_view(so@),
            flv@.sort_by(filter_leq_fn()),
            filter_leq_fn(),
        );
    }
    dedup_vec(so)
}

/// Canonicalizes each element of a child list, in order.
fn canon_vec(cs: &Vec<Filter>) -> (r: Vec<Filter>)
    ensures
        filters_view(r@) == canon_children(filters_view(cs@)),
    decreases cs@,
{
    let mut out: Vec<Filter> = Vec::new();
    let mut i: usize = 0;
    while i < cs.len()
        invariant
            i <= cs@.len(),
            out@.len() == i,
            forall|j: int|
                0 <= j < i ==> filter_view(#[trigger] out@[j]) == canon(filter_view(cs@[j])),
        decreases cs@.len() - i,
    {
        let c = canon_exec(&cs[i]);
        out.push(c);
        i = i + 1;
    }
    proof {
        lemma_filters_view(out@);
        lemma_filters_view(cs@);
        lemma_canon_children_index(filters_view(cs@));
        assert(filters_view(out@) =~= canon_children(filters_view(cs@)));
    }
    out
}

/// Rebuilds the tree in canonical form: children first, then flatten,
/// sort and deduplicate each combinator's child list.
fn canon_exec(f: &Filter) -> (r: Filter)
    ensures
        r@ == canon(f@),
    decreases *f,
{
    match f {
        Filter::Eq(a, v) => Filter::Eq(a.clone(), v.clone()),
        Filter::Sub(a, v) => Filter::Sub(a.clone(), v.clone()),
        Filter::Pres(a) => Filter::Pres(a.clone()),
        Filter::SelfUUID => Filter::SelfUUID,
        Filter::AndNot(b) => Filter::AndNot(Box::new(canon_exec(b))),
        Filter::Or(cs) => {
            let kids = canon_vec(cs);
            let r = norm_vec(kids, true);
            Filter::Or(r)
        },
        Filter::And(cs) => {
            let kids = canon_vec(cs);
            let r = norm_vec(kids, false);
            Filter::And(r)
        },
    }
}

/// Produces the canonical form of a filter, or rejects trees nested
/// deeper than [`FILTER_MAX_DEPTH`] with a filter-generation error, since
/// the recursive shape is attacker-controlled input.
pub fn canonicalize(f: &Filter) -> (r: Result<Filter, OperationError>)
    ensures
        fdepth(f@) <= FILTER_MAX_DEPTH as nat ==> (r matches Ok(g) && g@ == canon(f@)),
        fdepth(f@) > FILTER_MAX_DEPTH as nat ==> r == Err::<Filter, OperationError>(
            OperationError::FilterGeneration,
        ),
{
    if depth_within(f, FILTER_MAX_DEPTH) {
        Ok(canon_exec(f))
    } else {
        Err(OperationError::FilterGeneration)
    }
}

} // verus!
