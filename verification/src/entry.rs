//! The entry model: a directory object as an ordered mapping from
//! attribute name to a sequence of values, and the left-to-right
//! semantics of modification lists. Later modifications on the same
//! attribute override earlier ones, so a purge after an add leaves the
//! attribute absent.

use vstd::prelude::*;

verus! {

/// One attribute: its name and its insertion-ordered values. Duplicate
/// values are permitted at this layer; deduplication is a schema and
/// backend concern.
#[derive(Debug, Clone, PartialEq, Eq)]
pub struct Attr {
    pub name: String,
    pub values: Vec<String>,
}

/// A directory object: attribute names are unique, attributes keep their
/// insertion order. Immutable at this layer; mutation is expressed only
/// through [`Modify`] values applied by the backend.
#[derive(Debug, Clone, PartialEq, Eq)]
pub struct Entry {
    pub attrs: Vec<Attr>,
}

/// One atomic attribute mutation.
#[derive(Debug, Clone, PartialEq, Eq)]
pub enum Modify {
    Present(String, String),
    Removed(String, String),
    Purged(String),
}

/// An ordered sequence of mutations, applied left to right; the order is
/// semantically significant and is preserved verbatim over the wire.
#[derive(Debug, Clone, PartialEq, Eq)]
pub struct ModifyList {
    pub mods: Vec<Modify>,
}

impl ModifyList {
    /// Wraps a list of mutations in their given order.
    pub fn new_list(mods: Vec<Modify>) -> (r: Self)
        ensures
            r.mods == mods,
    {
        ModifyList { mods: mods }
    }
}

/// The model of a value list: each string as its character sequence.
pub open spec fn vals_view(vs: Seq<String>) -> Seq<Seq<char>> {
    Seq::new(vs.len(), |i: int| vs[i]@)
}

/// The model of one attribute: name and values as character sequences.
pub open spec fn attr_view(a: Attr) -> (Seq<char>, Seq<Seq<char>>) {
    (a.name@, vals_view(a.values@))
}

/// The model of an attribute list.
pub open spec fn attrs_view(s: Seq<Attr>) -> Seq<(Seq<char>, Seq<Seq<char>>)> {
    Seq::new(s.len(), |i: int| attr_view(s[i]))
}

/// The model of an entry: the ordered association list of its attributes.
pub open spec fn entry_view(e: Entry) -> Seq<(Seq<char>, Seq<Seq<char>>)> {
    attrs_view(e.attrs@)
}

/// The model of one mutation.
pub enum ModifyV {
    Present(Seq<char>, Seq<char>),
    Removed(Seq<char>, Seq<char>),
    Purged(Seq<char>),
}

/// The model of a [`Modify`].
pub open spec fn modify_view(m: Modify) -> ModifyV {
    match m {
        Modify::Present(a, v) => ModifyV::Present(a@, v@),
        Modify::Removed(a, v) => ModifyV::Removed(a@, v@),
        Modify::Purged(a) => ModifyV::Purged(a@),
    }
}

/// The models of a mutation list, in order.
pub open spec fn mods_view(ms: Seq<Modify>) -> Seq<ModifyV> {
    Seq::new(ms.len(), |i: int| modify_view(ms[i]))
}

/// Attribute names are unique.
pub open spec fn attrs_wf(s: Seq<(Seq<char>, Seq<Seq<char>>)>) -> bool {
    forall|i: int, j: int|
        0 <= i < j < s.len() ==> (#[trigger] s[i]).0 != (#[trigger] s[j]).0
}

impl Entry {
    /// The entry's internal invariant: attribute names are unique.
    pub open spec fn wf(self) -> bool {
        attrs_wf(entry_view(self))
    }
}

/// The attribute named `name` exists in the list.
pub open spec fn has_attr(s: Seq<(Seq<char>, Seq<Seq<char>>)>, name: Seq<char>) -> bool {
    exists|i: int| 0 <= i < s.len() && (#[trigger] s[i]).0 == name
}

/// The index of the attribute named `name`; meaningful under `attrs_wf`
/// when `has_attr` holds.
pub open spec fn attr_at(s: Seq<(Seq<char>, Seq<Seq<char>>)>, name: Seq<char>) -> int {
    choose|i: int| 0 <= i < s.len() && (#[trigger] s[i]).0 == name
}

/// The values of `vs` with every occurrence of `v` removed.
pub open spec fn drop_vals(vs: Seq<Seq<char>>, v: Seq<char>) -> Seq<Seq<char>>
    decreases vs.len(),
{
    if vs.len() == 0 {
        Seq::empty()
    } else {
        (if vs[0] == v {
            Seq::empty()
        } else {
            seq![vs[0]]
        }) + drop_vals(vs.subrange(1, vs.len() as int), v)
    }
}

/// What one mutation does to an entry's attribute list:
/// - `Present(a, v)` appends `v` to `a`'s values, creating `a` at the end
///   when absent;
/// - `Removed(a, v)` removes every occurrence of `v` from `a`'s values,
///   dropping the attribute when no value is left;
/// - `Purged(a)` drops the attribute entirely.
pub open spec fn apply_one(
    s: Seq<(Seq<char>, Seq<Seq<char>>)>,
    m: ModifyV,
) -> Seq<(Seq<char>, Seq<Seq<char>>)> {
    match m {
        ModifyV::Present(name, v) => {
            if has_attr(s, name) {
                let i = attr_at(s, name);
                s.update(i, (name, s[i].1.push(v)))
            } else {
                s.push((name, seq![v]))
            }
        },
        ModifyV::Removed(name, v) => {
            if has_attr(s, name) {
                let i = attr_at(s, name);
                let nv = drop_vals(s[i].1, v);
                if nv.len() == 0 {
                    s.remove(i)
                } else {
                    s.update(i, (name, nv))
                }
            } else {
                s
            }
        },
        ModifyV::Purged(name) => {
            if has_attr(s, name) {
                s.remove(attr_at(s, name))
            } else {
                s
            }
        },
    }
}

/// A whole modification list applied left to right.
pub open spec fn apply_all(
    s: Seq<(Seq<char>, Seq<Seq<char>>)>,
    ms: Seq<ModifyV>,
) -> Seq<(Seq<char>, Seq<Seq<char>>)>
    decreases ms.len(),
{
    if ms.len() == 0 {
        s
    } else {
        apply_all(apply_one(s, ms[0]), ms.subrange(1, ms.len() as int))
    }
}

/// Each mutation preserves uniqueness of attribute names.
proof fn lemma_apply_one_wf(s: Seq<(Seq<char>, Seq<Seq<char>>)>, m: ModifyV)
    requires
        attrs_wf(s),
    ensures
        attrs_wf(apply_one(s, m)),
{
    match m {
        ModifyV::Present(name, v) => {
            if !has_attr(s, name) {
                let t = s.push((name, seq![v]));
                assert forall|i: int, j: int|
                    0 <= i < j < t.len() implies (#[trigger] t[i]).0 != (#[trigger] t[j]).0 by {
                    if j == t.len() - 1 {
                        assert(t[i] == s[i]);
                        assert(!(s[i].0 == name));
                    }
                }
            }
        },
        ModifyV::Removed(name, v) => {},
        ModifyV::Purged(name) => {},
    }
}

/// Extending a modification list by one step composes with `apply_one`.
proof fn lemma_apply_all_snoc(
    s: Seq<(Seq<char>, Seq<Seq<char>>)>,
    ms: Seq<ModifyV>,
    m: ModifyV,
)
    ensures
        apply_all(s, ms.push(m)) == apply_one(apply_all(s, ms), m),
    decreases ms.len(),
{
    if ms.len() == 0 {
        assert(ms.push(m).subrange(1, 1) =~= Seq::<ModifyV>::empty());
        assert(apply_all(apply_one(s, m), Seq::<ModifyV>::empty()) == apply_one(s, m));
    } else {
        assert(ms.push(m).subrange(1, ms.len() as int + 1) =~= ms.subrange(
            1,
            ms.len() as int,
        ).push(m));
        lemma_apply_all_snoc(apply_one(s, ms[0]), ms.subrange(1, ms.len() as int), m);
    }
}

/// Finds the index of the attribute named `name`, if any.
fn find_attr(attrs: &Vec<Attr>, name: &String) -> (r: Option<usize>)
    ensures
        match r {
            Some(i) => i < attrs@.len() && attrs@[i as int].name@ == name@,
            None => !has_attr(attrs_view(attrs@), name@),
        },
{
    let mut i: usize = 0;
    while i < attrs.len()
        invariant
            i <= attrs@.len(),
            forall|j: int| 0 <= j < i ==> (#[trigger] attrs@[j]).name@ != name@,
        decreases attrs@.len() - i,
    {
        if attrs[i].name == *name {
            return Some(i);
        }
        i = i + 1;
    }
    proof {
        assert forall|j: int| 0 <= j < attrs_view(attrs@).len() implies (#[trigger] attrs_view(
            attrs@,
        )[j]).0 != name@ by {
            assert(attrs_view(attrs@)[j].0 == attrs@[j].name@);
        }
    }
    None
}

/// Removes every occurrence of `v` from a value list.
fn drop_vals_exec(vs: Vec<String>, v: &String) -> (r: Vec<String>)
    ensures
        vals_view(r@) == drop_vals(vals_view(vs@), v@),
{
    let ghost sv = vals_view(vs@);
    let mut inp = vs;
    let mut out: Vec<String> = Vec::new();
    proof {
        assert(sv.subrange(0, 0) =~= Seq::<Seq<char>>::empty());
        assert(vals_view(out@) =~= Seq::<Seq<char>>::empty());
        assert(drop_vals(Seq::<Seq<char>>::empty(), v@) =~= Seq::<Seq<char>>::empty());
        assert(vals_view(inp@) =~= sv.subrange(0, sv.len() as int));
    }
    while inp.len() > 0
        invariant
            inp@.len() <= sv.len(),
            vals_view(inp@) == sv.subrange(sv.len() - inp@.len(), sv.len() as int),
            vals_view(out@) == drop_vals(sv.subrange(0, sv.len() - inp@.len()), v@),
        decreases inp@.len(),
    {
        let ghost d = sv.len() - inp@.len();
        let ghost prev = inp@;
        let ghost prev_out = out@;
        let x = inp.remove(0);
        proof {
            assert(inp@ =~= prev.subrange(1, prev.len() as int));
            assert(vals_view(prev)[0] == prev[0]@);
            assert(vals_view(prev)[0] == sv[d]);
            assert forall|j: int| 0 <= j < inp@.len() implies vals_view(inp@)[j] == sv[d + 1
                + j] by {
                assert(vals_view(inp@)[j] == inp@[j]@);
                assert(inp@[j] == prev[j + 1]);
                assert(vals_view(prev)[j + 1] == prev[j + 1]@);
            }
            assert(vals_view(inp@) =~= sv.subrange(d + 1, sv.len() as int));
            assert(x@ == sv[d]);
        }
        let keep = !(x == *v);
        if keep {
            out.push(x);
        }
        proof {
            let p = sv.subrange(0, d);
            let q = sv.subrange(0, d + 1);
            assert(q =~= p + seq![sv[d]]);
            lemma_drop_vals_concat(p, seq![sv[d]], v@);
            assert(seq![sv[d]].subrange(1, 1) =~= Seq::<Seq<char>>::empty());
            assert(drop_vals(Seq::<Seq<char>>::empty(), v@) =~= Seq::<Seq<char>>::empty());
            if keep {
                assert(drop_vals(seq![sv[d]], v@) =~= seq![sv[d]]);
                assert(vals_view(out@) =~= vals_view(prev_out).push(sv[d]));
                assert(vals_view(out@) =~= drop_vals(p, v@) + seq![sv[d]]);
            } else {
                assert(drop_vals(seq![sv[d]], v@) =~= Seq::<Seq<char>>::empty());
                assert(vals_view(out@) =~= drop_vals(p, v@));
            }
            assert(vals_view(out@) =~= drop_vals(q, v@));
        }
    }
    proof {
        assert(sv.subrange(0, sv.len() as int) =~= sv);
    }
    out
}

proof fn lemma_drop_vals_concat(a: Seq<Seq<char>>, b: Seq<Seq<char>>, v: Seq<char>)
    ensures
        drop_vals(a + b, v) == drop_vals(a, v) + drop_vals(b, v),
    decreases a.len(),
{
    if a.len() == 0 {
        assert(a + b =~= b);
        assert(drop_vals(a, v) + drop_vals(b, v) =~= drop_vals(b, v));
    } else {
        assert((a + b).subrange(1, (a + b).len() as int) =~= a.subrange(1, a.len() as int) + b);
        lemma_drop_vals_concat(a.subrange(1, a.len() as int), b, v);
        let h = if a[0] == v {
            Seq::<Seq<char>>::empty()
        } else {
            seq![a[0]]
        };
        assert(h + (drop_vals(a.subrange(1, a.len() as int), v) + drop_vals(b, v)) =~= (h
            + drop_vals(a.subrange(1, a.len() as int), v)) + drop_vals(b, v));
    }
}

/// Applies one mutation to an entry.
pub fn apply_modify(e: Entry, m: &Modify) -> (r: Entry)
    requires
        e.wf(),
    ensures
        r.wf(),
        entry_view(r) == apply_one(entry_view(e), modify_view(*m)),
{
    let ghost s = entry_view(e);
    proof {
        lemma_apply_one_wf(s, modify_view(*m));
    }
    let mut attrs = e.attrs;
    match m {
        Modify::Present(name, v) => {
            match find_attr(&attrs, name) {
                Some(i) => {
                    proof {
                        assert(s[i as int].0 == attrs@[i as int].name@);
                        assert(has_attr(s, name@));
                        assert forall|j: int|
                            0 <= j < s.len() && (#[trigger] s[j]).0 == name@ implies j
                            == i as int by {}
                        assert(attr_at(s, name@) == i as int);
                    }
                    let ghost pa = attrs@;
                    let old_a = attrs.remove(i);
                    let ghost vo = old_a.values@;
                    let mut vals = old_a.values;
                    vals.push(v.clone());
                    let na = Attr { name: old_a.name, values: vals };
                    let ghost nav = na;
                    attrs.insert(i, na);
                    proof {
                        assert(attrs@ =~= pa.update(i as int, nav));
                        assert(vals_view(nav.values@) =~~= vals_view(vo).push(v@));
                        assert(vals_view(vo) =~~= s[i as int].1);
                        assert(attrs_view(attrs@) =~~= s.update(
                            i as int,
                            (name@, s[i as int].1.push(v@)),
                        ));
                    }
                },
                None => {
                    let mut vals: Vec<String> = Vec::new();
                    vals.push(v.clone());
                    attrs.push(Attr { name: name.clone(), values: vals });
                    proof {
                        assert(attrs_view(attrs@) =~~= s.push((name@, seq![v@])));
                    }
                },
            }
        },
        Modify::Removed(name, v) => {
            match find_attr(&attrs, name) {
                Some(i) => {
                    proof {
                        assert(s[i as int].0 == attrs@[i as int].name@);
                        assert(has_attr(s, name@));
                        assert forall|j: int|
                            0 <= j < s.len() && (#[trigger] s[j]).0 == name@ implies j
                            == i as int by {}
                        assert(attr_at(s, name@) == i as int);
                    }
                    let ghost pa = attrs@;
                    let old_a = attrs.remove(i);
                    let ghost vo = old_a.values@;
                    proof {
                        assert(vals_view(vo) =~~= s[i as int].1);
                    }
                    let kept = drop_vals_exec(old_a.values, v);
                    if kept.len() == 0 {
                        proof {
                            assert(attrs@ =~= pa.remove(i as int));
                            assert(drop_vals(s[i as int].1, v@).len() == 0);
                            assert(attrs_view(attrs@) =~~= s.remove(i as int));
                        }
                    } else {
                        let na = Attr { name: old_a.name, values: kept };
                        let ghost nav = na;
                        attrs.insert(i, na);
                        proof {
                            assert(attrs@ =~= pa.update(i as int, nav));
                            assert(vals_view(nav.values@) =~~= drop_vals(s[i as int].1, v@));
                            assert(attrs_view(attrs@) =~~= s.update(
                                i as int,
                                (name@, drop_vals(s[i as int].1, v@)),
                            ));
                        }
                    }
                },
                None => {},
            }
        },
        Modify::Purged(name) => {
            match find_attr(&attrs, name) {
                Some(i) => {
                    proof {
                        assert(s[i as int].0 == attrs@[i as int].name@);
                        assert(has_attr(s, name@));
                        assert forall|j: int|
                            0 <= j < s.len() && (#[trigger] s[j]).0 == name@ implies j
                            == i as int by {}
                        assert(attr_at(s, name@) == i as int);
                    }
                    let ghost pa = attrs@;
                    let _ = attrs.remove(i);
                    proof {
                        assert(attrs@ =~= pa.remove(i as int));
                        assert(attrs_view(attrs@) =~~= s.remove(i as int));
                    }
                },
                None => {},
            }
        },
    }
    Entry { attrs }
}

/// Applies a whole modification list, left to right: later mutations on
/// an attribute override earlier ones.
pub fn apply_modifylist(e: Entry, ml: &ModifyList) -> (r: Entry)
    requires
        e.wf(),
    ensures
        r.wf(),
        entry_view(r) == apply_all(entry_view(e), mods_view(ml.mods@)),
{
    let ghost s0 = entry_view(e);
    let ghost mv = mods_view(ml.mods@);
    let mut acc = e;
    let mut i: usize = 0;
    proof {
        assert(mv.subrange(0, 0) =~= Seq::<ModifyV>::empty());
    }
    while i < ml.mods.len()
        invariant
            mv == mods_view(ml.mods@),
            mv.len() == ml.mods@.len(),
            i <= mv.len(),
            acc.wf(),
            entry_view(acc) == apply_all(s0, mv.subrange(0, i as int)),
        decreases mv.len() - i,
    {
        let ghost p = mv.subrange(0, i as int);
        acc = apply_modify(acc, &ml.mods[i]);
        proof {
            assert(mv[i as int] == modify_view(ml.mods@[i as int]));
            assert(mv.subrange(0, i + 1) =~= p.push(mv[i as int]));
            lemma_apply_all_snoc(s0, p, mv[i as int]);
        }
        i = i + 1;
    }
    proof {
        assert(mv.subrange(0, mv.len() as int) =~= mv);
    }
    acc
}

} // verus!
