//! The wire codec for filters: a self-describing, human-readable text
//! form in which every variant is tagged by its name, and the requesting
//! principal's placeholder is written under the literal tag `Self` for
//! compatibility with existing consumers. Strings are quoted, with `"`
//! and `\` escaped by a backslash. Deserialization inverts
//! serialization exactly; the round trip is proved below.
//!
//! The grammar, over bytes:
//! ```text
//! filter := "Eq(" str "," str ")" | "Sub(" str "," str ")"
//!         | "Pres(" str ")" | "Or[" filter* "]" | "And[" filter* "]"
//!         | "AndNot(" filter ")" | "Self"
//! str    := '"' escaped-bytes '"'
//! ```

use vstd::prelude::*;
use crate::errors::OperationError;
use crate::filter::Filter;
use crate::filter::FilterV;
use crate::filter::filter_view;
use crate::filter::filters_view;
use crate::filter::str_bytes;
use vstd::utf8::encode_utf8;
use vstd::utf8::valid_utf8;

verus! {

/// A string's bytes with `"` (34) and `\` (92) escaped by a backslash.
pub open spec fn esc(b: Seq<u8>) -> Seq<u8>
    decreases b.len(),
{
    if b.len() == 0 {
        Seq::empty()
    } else {
        (if b[0] == 34 || b[0] == 92 {
            seq![92u8, b[0]]
        } else {
            seq![b[0]]
        }) + esc(b.subrange(1, b.len() as int))
    }
}

/// A quoted, escaped string.
pub open spec fn ser_str(b: Seq<u8>) -> Seq<u8> {
    seq![34u8] + esc(b) + seq![34u8]
}

/// The serialized form of a filter tree.
pub open spec fn ser_f(f: FilterV) -> Seq<u8>
    decreases f,
{
    match f {
        FilterV::Eq(a, v) => seq![69u8, 113u8, 40u8] + ser_str(a) + seq![44u8] + ser_str(v)
            + seq![41u8],
        FilterV::Sub(a, v) => seq![83u8, 117u8, 98u8, 40u8] + ser_str(a) + seq![44u8] + ser_str(
            v,
        ) + seq![41u8],
        FilterV::Pres(a) => seq![80u8, 114u8, 101u8, 115u8, 40u8] + ser_str(a) + seq![41u8],
        FilterV::Or(cs) => seq![79u8, 114u8, 91u8] + ser_list(cs) + seq![93u8],
        FilterV::And(cs) => seq![65u8, 110u8, 100u8, 91u8] + ser_list(cs) + seq![93u8],
        FilterV::AndNot(b) => seq![65u8, 110u8, 100u8, 78u8, 111u8, 116u8, 40u8] + ser_f(*b)
            + seq![41u8],
        FilterV::SelfUUID => seq![83u8, 101u8, 108u8, 102u8],
    }
}

/// The serialized forms of a child list, concatenated in order.
pub open spec fn ser_list(cs: Seq<FilterV>) -> Seq<u8>
    decreases cs,
{
    if cs.len() == 0 {
        Seq::empty()
    } else {
        ser_f(cs[0]) + ser_list(cs.subrange(1, cs.len() as int))
    }
}

/// Parses an escaped string body up to its closing quote; returns the
/// unescaped bytes and the index just past the quote.
pub open spec fn parse_str_body(s: Seq<u8>, i: int) -> Option<(Seq<u8>, int)>
    decreases s.len() - i,
{
    if i < 0 || i >= s.len() {
        None
    } else if s[i] == 34 {
        Some((Seq::empty(), i + 1))
    } else if s[i] == 92 {
        if i + 1 < s.len() {
            match parse_str_body(s, i + 2) {
                Some((b, j)) => Some((seq![s[i + 1]] + b, j)),
                None => None,
            }
        } else {
            None
        }
    } else {
        match parse_str_body(s, i + 1) {
            Some((b, j)) => Some((seq![s[i]] + b, j)),
            None => None,
        }
    }
}

/// Parses a quoted string at `i`.
pub open spec fn parse_str(s: Seq<u8>, i: int) -> Option<(Seq<u8>, int)> {
    if 0 <= i < s.len() && s[i] == 34 {
        parse_str_body(s, i + 1)
    } else {
        None
    }
}

/// Parses one filter at `i`; returns the tree and the index just past
/// its serialized form.
pub open spec fn parse_f(s: Seq<u8>, i: int) -> Option<(FilterV, int)>
    decreases s.len() - i, 0int,
{
    if i < 0 || i >= s.len() {
        None
    } else if s[i] == 69 {
        // Eq("a","v")
        if i + 2 < s.len() && s[i + 1] == 113 && s[i + 2] == 40 {
            match parse_str(s, i + 3) {
                Some((a, j)) => if 0 <= j < s.len() && s[j] == 44 {
                    match parse_str(s, j + 1) {
                        Some((v, k)) => if 0 <= k < s.len() && s[k] == 41 {
                            Some((FilterV::Eq(a, v), k + 1))
                        } else {
                            None
                        },
                        None => None,
                    }
                } else {
                    None
                },
                None => None,
            }
        } else {
            None
        }
    } else if s[i] == 83 {
        // Sub("a","v") or Self
        if i + 3 < s.len() && s[i + 1] == 117 && s[i + 2] == 98 && s[i + 3] == 40 {
            match parse_str(s, i + 4) {
                Some((a, j)) => if 0 <= j < s.len() && s[j] == 44 {
                    match parse_str(s, j + 1) {
                        Some((v, k)) => if 0 <= k < s.len() && s[k] == 41 {
                            Some((FilterV::Sub(a, v), k + 1))
                        } else {
                            None
                        },
                        None => None,
                    }
                } else {
                    None
                },
                None => None,
            }
        } else if i + 3 < s.len() && s[i + 1] == 101 && s[i + 2] == 108 && s[i + 3] == 102 {
            Some((FilterV::SelfUUID, i + 4))
        } else {
            None
        }
    } else if s[i] == 80 {
        // Pres("a")
        if i + 4 < s.len() && s[i + 1] == 114 && s[i + 2] == 101 && s[i + 3] == 115 && s[i + 4]
            == 40 {
            match parse_str(s, i + 5) {
                Some((a, j)) => if 0 <= j < s.len() && s[j] == 41 {
                    Some((FilterV::Pres(a), j + 1))
                } else {
                    None
                },
                None => None,
            }
        } else {
            None
        }
    } else if s[i] == 79 {
        // Or[...]
        if i + 2 < s.len() && s[i + 1] == 114 && s[i + 2] == 91 {
            match parse_list(s, i + 3) {
                Some((cs, j)) => Some((FilterV::Or(cs), j)),
                None => None,
            }
        } else {
            None
        }
    } else if s[i] == 65 {
        // And[...] or AndNot(...)
        if i + 2 < s.len() && s[i + 1] == 110 && s[i + 2] == 100 {
            if i + 3 < s.len() && s[i + 3] == 91 {
                match parse_list(s, i + 4) {
                    Some((cs, j)) => Some((FilterV::And(cs), j)),
                    None => None,
                }
            } else if i + 6 < s.len() && s[i + 3] == 78 && s[i + 4] == 111 && s[i + 5] == 116 && s[
                i + 6] == 40 {
                match parse_f(s, i + 7) {
                    Some((b, j)) => if 0 <= j < s.len() && s[j] == 41 {
                        Some((FilterV::AndNot(Box::new(b)), j + 1))
                    } else {
                        None
                    },
                    None => None,
                }
            } else {
                None
            }
        } else {
            None
        }
    } else {
        None
    }
}

/// Parses filters until the closing bracket; returns the children and
/// the index just past the bracket.
pub open spec fn parse_list(s: Seq<u8>, i: int) -> Option<(Seq<FilterV>, int)>
    decreases s.len() - i, 1int,
{
    if i < 0 || i >= s.len() {
        None
    } else if s[i] == 93 {
        Some((Seq::empty(), i + 1))
    } else {
        match parse_f(s, i) {
            Some((f, j)) => if i < j && j <= s.len() {
                match parse_list(s, j) {
                    Some((fs, k)) => Some((seq![f] + fs, k)),
                    None => None,
                }
            } else {
                None
            },
            None => None,
        }
    }
}

// ---------------------------------------------------------------------------
// Round trip
// ---------------------------------------------------------------------------

/// Splitting a known subrange of `s` into its two halves.
proof fn lemma_split_at(s: Seq<u8>, i: int, x: Seq<u8>, y: Seq<u8>)
    requires
        0 <= i,
        i + x.len() + y.len() <= s.len(),
        s.subrange(i, i + x.len() + y.len()) == x + y,
    ensures
        s.subrange(i, i + x.len() as int) == x,
        s.subrange(i + x.len() as int, i + x.len() + y.len()) == y,
        forall|k: int| 0 <= k < x.len() ==> s[i + k] == #[trigger] x[k],
        forall|k: int| 0 <= k < y.len() ==> s[i + x.len() + k] == #[trigger] y[k],
{
    assert forall|k: int| 0 <= k < x.len() implies s[i + k] == x[k] by {
        assert((x + y)[k] == x[k]);
        assert(s.subrange(i, i + x.len() + y.len())[k] == s[i + k]);
    }
    assert forall|k: int| 0 <= k < y.len() implies s[i + x.len() + k] == y[k] by {
        assert((x + y)[x.len() + k] == y[k]);
        assert(s.subrange(i, i + x.len() + y.len())[x.len() + k] == s[i + x.len() + k]);
    }
    assert(s.subrange(i, i + x.len() as int) =~= x);
    assert(s.subrange(i + x.len() as int, i + x.len() + y.len()) =~= y);
}

/// Every serialized filter takes at least one byte.
proof fn lemma_ser_f_len(f: FilterV)
    ensures
        ser_f(f).len() >= 1,
{
}

/// Parsing an escaped string body recovers the original bytes.
proof fn lemma_parse_esc(b: Seq<u8>, s: Seq<u8>, i: int)
    requires
        0 <= i,
        i + esc(b).len() + 1 <= s.len(),
        s.subrange(i, i + esc(b).len() as int) == esc(b),
        s[i + esc(b).len()] == 34,
    ensures
        parse_str_body(s, i) == Some((b, i + esc(b).len() + 1)),
    decreases b.len(),
{
    if b.len() == 0 {
        assert(s[i] == 34);
    } else {
        let t = b.subrange(1, b.len() as int);
        let h = if b[0] == 34 || b[0] == 92 {
            seq![92u8, b[0]]
        } else {
            seq![b[0]]
        };
        assert(esc(b) == h + esc(t));
        lemma_split_at(s, i, h, esc(t));
        assert forall|k: int| 0 <= k < esc(t).len() implies s[i + h.len() + k] == esc(t)[k] by {
            assert(s.subrange(i + h.len() as int, i + h.len() + esc(t).len())[k] == s[i + h.len()
                + k]);
        }
        assert(s.subrange(i + h.len() as int, i + h.len() + esc(t).len() as int) =~= esc(t));
        lemma_parse_esc(t, s, i + h.len());
        if b[0] == 34 || b[0] == 92 {
            assert(h[0] == 92u8 && h[1] == b[0]);
            assert(s[i] == 92);
            assert(s[i + 1] == b[0]);
            assert(seq![s[i + 1]] + t =~= b);
        } else {
            assert(h[0] == b[0]);
            assert(s[i] == b[0]);
            assert(s[i] != 34 && s[i] != 92);
            assert(seq![s[i]] + t =~= b);
        }
    }
}

/// Parsing a quoted string recovers the original bytes.
proof fn lemma_parse_str(b: Seq<u8>, s: Seq<u8>, i: int)
    requires
        0 <= i,
        i + ser_str(b).len() <= s.len(),
        s.subrange(i, i + ser_str(b).len() as int) == ser_str(b),
    ensures
        parse_str(s, i) == Some((b, i + ser_str(b).len())),
{
    assert(ser_str(b) == seq![34u8] + (esc(b) + seq![34u8]));
    lemma_split_at(s, i, seq![34u8], esc(b) + seq![34u8]);
    assert(seq![34u8][0] == 34u8);
    assert(s[i] == 34);
    lemma_split_at(s, i + 1, esc(b), seq![34u8]);
    assert(s[i + 1 + esc(b).len()] == 34);
    lemma_parse_esc(b, s, i + 1);
}

/// Parsing a serialized filter, wherever it stands in a larger buffer,
/// recovers exactly that filter and stops exactly past it.
proof fn lemma_parse_ser(f: FilterV, s: Seq<u8>, i: int)
    requires
        0 <= i,
        i + ser_f(f).len() <= s.len(),
        s.subrange(i, i + ser_f(f).len() as int) == ser_f(f),
    ensures
        parse_f(s, i) == Some((f, i + ser_f(f).len())),
    decreases f, 0int,
{
    match f {
        FilterV::Eq(a, v) => {
            let tag = seq![69u8, 113u8, 40u8];
            let rest = ser_str(a) + (seq![44u8] + (ser_str(v) + seq![41u8]));
            assert(ser_f(f) == tag + rest);
            lemma_split_at(s, i, tag, rest);
            let i1 = i + 3;
            lemma_split_at(s, i1, ser_str(a), seq![44u8] + (ser_str(v) + seq![41u8]));
            let j = i1 + ser_str(a).len();
            lemma_parse_str(a, s, i1);
            lemma_split_at(s, j, seq![44u8], ser_str(v) + seq![41u8]);
            assert(seq![44u8][0] == 44u8);
            assert(s[j] == 44);
            lemma_split_at(s, j + 1, ser_str(v), seq![41u8]);
            let k = j + 1 + ser_str(v).len();
            lemma_parse_str(v, s, j + 1);
            assert(seq![41u8][0] == 41u8);
            assert(s[k] == 41);
            assert(tag[0] == 69u8 && tag[1] == 113u8 && tag[2] == 40u8);
            assert(s[i] == 69 && s[i + 1] == 113 && s[i + 2] == 40);
        },
        FilterV::Sub(a, v) => {
            let tag = seq![83u8, 117u8, 98u8, 40u8];
            let rest = ser_str(a) + (seq![44u8] + (ser_str(v) + seq![41u8]));
            assert(ser_f(f) == tag + rest);
            lemma_split_at(s, i, tag, rest);
            let i1 = i + 4;
            lemma_split_at(s, i1, ser_str(a), seq![44u8] + (ser_str(v) + seq![41u8]));
            let j = i1 + ser_str(a).len();
            lemma_parse_str(a, s, i1);
            lemma_split_at(s, j, seq![44u8], ser_str(v) + seq![41u8]);
            assert(seq![44u8][0] == 44u8);
            assert(s[j] == 44);
            lemma_split_at(s, j + 1, ser_str(v), seq![41u8]);
            let k = j + 1 + ser_str(v).len();
            lemma_parse_str(v, s, j + 1);
            assert(seq![41u8][0] == 41u8);
            assert(s[k] == 41);
            assert(tag[0] == 83u8 && tag[1] == 117u8 && tag[2] == 98u8 && tag[3] == 40u8);
            assert(s[i] == 83 && s[i + 1] == 117 && s[i + 2] == 98 && s[i + 3] == 40);
        },
        FilterV::Pres(a) => {
            let tag = seq![80u8, 114u8, 101u8, 115u8, 40u8];
            let rest = ser_str(a) + seq![41u8];
            assert(ser_f(f) == tag + rest);
            lemma_split_at(s, i, tag, rest);
            let i1 = i + 5;
            lemma_split_at(s, i1, ser_str(a), seq![41u8]);
            let j = i1 + ser_str(a).len();
            lemma_parse_str(a, s, i1);
            assert(seq![41u8][0] == 41u8);
            assert(s[j] == 41);
            assert(tag[0] == 80u8 && tag[1] == 114u8 && tag[2] == 101u8 && tag[3] == 115u8
                && tag[4] == 40u8);
            assert(s[i] == 80 && s[i + 1] == 114 && s[i + 2] == 101 && s[i + 3] == 115 && s[i + 4]
                == 40);
        },
        FilterV::Or(cs) => {
            let tag = seq![79u8, 114u8, 91u8];
            let rest = ser_list(cs) + seq![93u8];
            assert(ser_f(f) == tag + rest);
            lemma_split_at(s, i, tag, rest);
            lemma_split_at(s, i + 3, ser_list(cs), seq![93u8]);
            assert(seq![93u8][0] == 93u8);
            assert(s[i + 3 + ser_list(cs).len()] == 93);
            lemma_parse_ser_list(cs, s, i + 3);
            assert(tag[0] == 79u8 && tag[1] == 114u8 && tag[2] == 91u8);
            assert(s[i] == 79 && s[i + 1] == 114 && s[i + 2] == 91);
        },
        FilterV::And(cs) => {
            let tag = seq![65u8, 110u8, 100u8, 91u8];
            let rest = ser_list(cs) + seq![93u8];
            assert(ser_f(f) == tag + rest);
            lemma_split_at(s, i, tag, rest);
            lemma_split_at(s, i + 4, ser_list(cs), seq![93u8]);
            assert(seq![93u8][0] == 93u8);
            assert(s[i + 4 + ser_list(cs).len()] == 93);
            lemma_parse_ser_list(cs, s, i + 4);
            assert(tag[0] == 65u8 && tag[1] == 110u8 && tag[2] == 100u8 && tag[3] == 91u8);
            assert(s[i] == 65 && s[i + 1] == 110 && s[i + 2] == 100 && s[i + 3] == 91);
        },
        FilterV::AndNot(b) => {
            let tag = seq![65u8, 110u8, 100u8, 78u8, 111u8, 116u8, 40u8];
            let rest = ser_f(*b) + seq![41u8];
            assert(ser_f(f) == tag + rest);
            lemma_split_at(s, i, tag, rest);
            lemma_split_at(s, i + 7, ser_f(*b), seq![41u8]);
            let j = i + 7 + ser_f(*b).len();
            lemma_parse_ser(*b, s, i + 7);
            assert(seq![41u8][0] == 41u8);
            assert(s[j] == 41);
            assert(tag[0] == 65u8 && tag[1] == 110u8 && tag[2] == 100u8 && tag[3] == 78u8
                && tag[4] == 111u8 && tag[5] == 116u8 && tag[6] == 40u8);
            assert(s[i] == 65 && s[i + 1] == 110 && s[i + 2] == 100 && s[i + 3] == 78 && s[i + 4]
                == 111 && s[i + 5] == 116 && s[i + 6] == 40);
        },
        FilterV::SelfUUID => {
            let tag = seq![83u8, 101u8, 108u8, 102u8];
            assert(ser_f(f) == tag + Seq::<u8>::empty());
            assert(tag + Seq::<u8>::empty() =~= tag);
            lemma_split_at(s, i, tag, Seq::<u8>::empty());
            assert(tag[0] == 83u8 && tag[1] == 101u8 && tag[2] == 108u8 && tag[3] == 102u8);
            assert(s[i] == 83 && s[i + 1] == 101 && s[i + 2] == 108 && s[i + 3] == 102);
        },
    }
}

/// Parsing a serialized child list, terminated by its bracket, recovers
/// the children and stops just past the bracket.
proof fn lemma_parse_ser_list(cs: Seq<FilterV>, s: Seq<u8>, i: int)
    requires
        0 <= i,
        i + ser_list(cs).len() + 1 <= s.len(),
        s.subrange(i, i + ser_list(cs).len() as int) == ser_list(cs),
        s[i + ser_list(cs).len()] == 93,
    ensures
        parse_list(s, i) == Some((cs, i + ser_list(cs).len() + 1)),
    decreases cs, 1int,
{
    if cs.len() == 0 {
        assert(s[i] == 93);
    } else {
        let t = cs.subrange(1, cs.len() as int);
        assert(ser_list(cs) == ser_f(cs[0]) + ser_list(t));
        lemma_split_at(s, i, ser_f(cs[0]), ser_list(t));
        let j = i + ser_f(cs[0]).len();
        lemma_parse_ser(cs[0], s, i);
        lemma_ser_f_len(cs[0]);
        // The first byte of a serialized filter is never the bracket.
        assert(ser_f(cs[0])[0] != 93);
        assert(s[i] != 93);
        lemma_parse_ser_list(t, s, j);
        assert(seq![cs[0]] + t =~= cs);
    }
}

/// Round trip at the model level: parsing a serialized filter yields the
/// filter back, consuming the whole buffer.
pub proof fn lemma_round_trip(f: FilterV)
    ensures
        parse_f(ser_f(f), 0) == Some((f, ser_f(f).len() as int)),
{
    let s = ser_f(f);
    assert(s.subrange(0, s.len() as int) =~= s);
    lemma_parse_ser(f, s, 0);
}


// ---------------------------------------------------------------------------
// UTF-8 validity of parsed strings
// ---------------------------------------------------------------------------

/// Every string in the tree is valid UTF-8; always true of the model of
/// a real [`Filter`], and the condition under which parsed bytes can be
/// turned back into strings.
pub open spec fn fv_utf8_ok(f: FilterV) -> bool
    decreases f,
{
    match f {
        FilterV::Eq(a, v) => valid_utf8(a) && valid_utf8(v),
        FilterV::Sub(a, v) => valid_utf8(a) && valid_utf8(v),
        FilterV::Pres(a) => valid_utf8(a),
        FilterV::Or(cs) => list_utf8_ok(cs),
        FilterV::And(cs) => list_utf8_ok(cs),
        FilterV::AndNot(b) => fv_utf8_ok(*b),
        FilterV::SelfUUID => true,
    }
}

/// Validity of every element.
pub open spec fn list_utf8_ok(cs: Seq<FilterV>) -> bool
    decreases cs,
{
    if cs.len() == 0 {
        true
    } else {
        fv_utf8_ok(cs[0]) && list_utf8_ok(cs.subrange(1, cs.len() as int))
    }
}

/// The model of a real filter always carries valid UTF-8.
pub proof fn lemma_view_utf8_ok(f: Filter)
    ensures
        fv_utf8_ok(filter_view(f)),
    decreases f, 1int,
{
    match f {
        Filter::Eq(a, v) => {
            vstd::utf8::encode_utf8_valid_utf8(a@);
            vstd::utf8::encode_utf8_valid_utf8(v@);
        },
        Filter::Sub(a, v) => {
            vstd::utf8::encode_utf8_valid_utf8(a@);
            vstd::utf8::encode_utf8_valid_utf8(v@);
        },
        Filter::Pres(a) => {
            vstd::utf8::encode_utf8_valid_utf8(a@);
        },
        Filter::Or(cs) => {
            lemma_views_utf8_ok(cs@);
        },
        Filter::And(cs) => {
            lemma_views_utf8_ok(cs@);
        },
        Filter::AndNot(b) => {
            lemma_view_utf8_ok(*b);
        },
        Filter::SelfUUID => {},
    }
}

proof fn lemma_views_utf8_ok(cs: Seq<Filter>)
    ensures
        list_utf8_ok(filters_view(cs)),
    decreases cs, 0int,
{
    if cs.len() > 0 {
        lemma_view_utf8_ok(cs[0]);
        lemma_views_utf8_ok(cs.subrange(1, cs.len() as int));
        let fv = filters_view(cs);
        assert(fv == seq![filter_view(cs[0])] + filters_view(cs.subrange(1, cs.len() as int)));
        assert(fv[0] == filter_view(cs[0]));
        assert(fv.subrange(1, fv.len() as int) =~= filters_view(cs.subrange(1, cs.len() as int)));
    }
}

// ---------------------------------------------------------------------------
// Executable serialization
// ---------------------------------------------------------------------------

proof fn lemma_esc_concat(a: Seq<u8>, b: Seq<u8>)
    ensures
        esc(a + b) == esc(a) + esc(b),
    decreases a.len(),
{
    if a.len() == 0 {
        assert(a + b =~= b);
        assert(esc(a) + esc(b) =~= esc(b));
    } else {
        assert((a + b).subrange(1, (a + b).len() as int) =~= a.subrange(1, a.len() as int) + b);
        lemma_esc_concat(a.subrange(1, a.len() as int), b);
        let h = if a[0] == 34 || a[0] == 92 {
            seq![92u8, a[0]]
        } else {
            seq![a[0]]
        };
        assert(h + (esc(a.subrange(1, a.len() as int)) + esc(b)) =~= (h + esc(
            a.subrange(1, a.len() as int),
        )) + esc(b));
    }
}

proof fn lemma_ser_list_concat(a: Seq<FilterV>, b: Seq<FilterV>)
    ensures
        ser_list(a + b) == ser_list(a) + ser_list(b),
    decreases a.len(),
{
    if a.len() == 0 {
        assert(a + b =~= b);
        assert(ser_list(a) + ser_list(b) =~= ser_list(b));
    } else {
        assert((a + b).subrange(1, (a + b).len() as int) =~= a.subrange(1, a.len() as int) + b);
        lemma_ser_list_concat(a.subrange(1, a.len() as int), b);
        assert(ser_f((a + b)[0]) + (ser_list(a.subrange(1, a.len() as int)) + ser_list(b)) =~= (
        ser_f(a[0]) + ser_list(a.subrange(1, a.len() as int))) + ser_list(b));
    }
}

/// Appends the quoted, escaped form of a string.
fn ser_str_into(s: &String, out: &mut Vec<u8>)
    ensures
        final(out)@ == old(out)@ + ser_str(str_bytes(s)),
{
    let base = Ghost(out@);
    let sb = Ghost(str_bytes(s));
    out.push(34);
    let bs = s.as_str().as_bytes();
    let mut i: usize = 0;
    proof {
        assert(sb@.subrange(0, 0) =~= Seq::<u8>::empty());
        assert(esc(Seq::<u8>::empty()) =~= Seq::<u8>::empty());
        assert(out@ =~= base@ + seq![34u8] + esc(sb@.subrange(0, 0)));
    }
    while i < bs.len()
        invariant
            sb@ == str_bytes(s),
            bs@ == sb@,
            i <= sb@.len(),
            out@ == base@ + seq![34u8] + esc(sb@.subrange(0, i as int)),
        decreases sb@.len() - i,
    {
        let ghost prev = out@;
        let b = bs[i];
        if b == 34 || b == 92 {
            out.push(92);
        }
        out.push(b);
        proof {
            let p = sb@.subrange(0, i as int);
            let q = sb@.subrange(0, i + 1);
            assert(q =~= p + seq![sb@[i as int]]);
            lemma_esc_concat(p, seq![sb@[i as int]]);
            assert(seq![sb@[i as int]].subrange(1, 1) =~= Seq::<u8>::empty());
            assert(esc(Seq::<u8>::empty()) =~= Seq::<u8>::empty());
            if b == 34 || b == 92 {
                assert(esc(seq![sb@[i as int]]) =~= seq![92u8, sb@[i as int]]);
                assert(out@ =~= base@ + seq![34u8] + esc(q));
            } else {
                assert(esc(seq![sb@[i as int]]) =~= seq![sb@[i as int]]);
                assert(out@ =~= base@ + seq![34u8] + esc(q));
            }
        }
        i = i + 1;
    }
    out.push(34);
    proof {
        assert(sb@.subrange(0, sb@.len() as int) =~= sb@);
        assert(out@ =~= base@ + ser_str(sb@));
    }
}

/// Appends the serialized form of a filter.
fn ser_into(f: &Filter, out: &mut Vec<u8>)
    ensures
        final(out)@ == old(out)@ + ser_f(f@),
    decreases *f,
{
    let base = Ghost(out@);
    match f {
        Filter::Eq(a, v) => {
            out.push(69);
            out.push(113);
            out.push(40);
            ser_str_into(a, out);
            out.push(44);
            ser_str_into(v, out);
            out.push(41);
            proof {
                assert(out@ =~= base@ + ser_f(f@));
            }
        },
        Filter::Sub(a, v) => {
            out.push(83);
            out.push(117);
            out.push(98);
            out.push(40);
            ser_str_into(a, out);
            out.push(44);
            ser_str_into(v, out);
            out.push(41);
            proof {
                assert(out@ =~= base@ + ser_f(f@));
            }
        },
        Filter::Pres(a) => {
            out.push(80);
            out.push(114);
            out.push(101);
            out.push(115);
            out.push(40);
            ser_str_into(a, out);
            out.push(41);
            proof {
                assert(out@ =~= base@ + ser_f(f@));
            }
        },
        Filter::SelfUUID => {
            out.push(83);
            out.push(101);
            out.push(108);
            out.push(102);
            proof {
                assert(out@ =~= base@ + ser_f(f@));
            }
        },
        Filter::AndNot(b) => {
            out.push(65);
            out.push(110);
            out.push(100);
            out.push(78);
            out.push(111);
            out.push(116);
            out.push(40);
            ser_into(b, out);
            out.push(41);
            proof {
                assert(out@ =~= base@ + ser_f(f@));
            }
        },
        Filter::Or(cs) => {
            out.push(79);
            out.push(114);
            out.push(91);
            ser_list_into(cs, out);
            out.push(93);
            proof {
                assert(out@ =~= base@ + ser_f(f@));
            }
        },
        Filter::And(cs) => {
            out.push(65);
            out.push(110);
            out.push(100);
            out.push(91);
            ser_list_into(cs, out);
            out.push(93);
            proof {
                assert(out@ =~= base@ + ser_f(f@));
            }
        },
    }
}

/// Appends the serialized forms of a child list, in order.
fn ser_list_into(cs: &Vec<Filter>, out: &mut Vec<u8>)
    ensures
        final(out)@ == old(out)@ + ser_list(filters_view(cs@)),
    decreases cs@,
{
    let base = Ghost(out@);
    let fv = Ghost(filters_view(cs@));
    proof {
        crate::filter::lemma_filters_view(cs@);
        assert(fv@.subrange(0, 0) =~= Seq::<FilterV>::empty());
        assert(ser_list(Seq::<FilterV>::empty()) =~= Seq::<u8>::empty());
        assert(out@ =~= base@ + ser_list(fv@.subrange(0, 0)));
    }
    let mut i: usize = 0;
    while i < cs.len()
        invariant
            fv@ == filters_view(cs@),
            fv@.len() == cs@.len(),
            forall|j: int| 0 <= j < cs@.len() ==> #[trigger] fv@[j] == filter_view(cs@[j]),
            i <= cs@.len(),
            out@ == base@ + ser_list(fv@.subrange(0, i as int)),
        decreases cs@.len() - i,
    {
        ser_into(&cs[i], out);
        proof {
            let p = fv@.subrange(0, i as int);
            let q = fv@.subrange(0, i + 1);
            assert(q =~= p + seq![fv@[i as int]]);
            lemma_ser_list_concat(p, seq![fv@[i as int]]);
            assert(seq![fv@[i as int]].subrange(1, 1) =~= Seq::<FilterV>::empty());
            assert(ser_list(Seq::<FilterV>::empty()) =~= Seq::<u8>::empty());
            assert(ser_list(seq![fv@[i as int]]) =~= ser_f(fv@[i as int]));
            assert(out@ =~= base@ + ser_list(q));
        }
        i = i + 1;
    }
    proof {
        assert(fv@.subrange(0, fv@.len() as int) =~= fv@);
    }
}

/// Serializes a filter to its wire form.
pub fn serialize(f: &Filter) -> (r: Vec<u8>)
    ensures
        r@ == ser_f(f@),
{
    let mut out: Vec<u8> = Vec::new();
    ser_into(f, &mut out);
    proof {
        assert(Seq::<u8>::empty() + ser_f(f@) =~= ser_f(f@));
    }
    out
}


// ---------------------------------------------------------------------------
// Executable deserialization
// ---------------------------------------------------------------------------

/// A parsed prefix prepended to the rest of a string-body parse.
pub open spec fn opt_prepend(pre: Seq<u8>, o: Option<(Seq<u8>, int)>) -> Option<(Seq<u8>, int)> {
    match o {
        Some((b, j)) => Some((pre + b, j)),
        None => None,
    }
}

/// Relies on String::from_utf8: it returns Ok exactly when the bytes are
/// valid UTF-8, and the returned string consists of those bytes.
#[verifier::external_body]
fn string_from_utf8(b: Vec<u8>) -> (r: Option<String>)
    ensures
        valid_utf8(b@) <==> (r matches Some(_)),
        r matches Some(s) ==> encode_utf8(s@) == b@,
{
    String::from_utf8(b).ok()
}

/// Parses a quoted string, returning its raw bytes and the index past
/// the closing quote.
fn parse_str_exec(s: &Vec<u8>, i: usize) -> (r: Option<(Vec<u8>, usize)>)
    ensures
        match r {
            Some((b, j)) => parse_str(s@, i as int) == Some((b@, j as int)) && i < j <= s@.len(),
            None => parse_str(s@, i as int) matches None,
        },
{
    if i >= s.len() || s[i] != 34 {
        return None;
    }
    let mut idx: usize = i + 1;
    let mut out: Vec<u8> = Vec::new();
    proof {
        assert(out@ =~= Seq::<u8>::empty());
        match parse_str_body(s@, idx as int) {
            Some((b, j)) => {
                assert(Seq::<u8>::empty() + b =~= b);
            },
            None => {},
        }
    }
    while idx < s.len()
        invariant
            i < s@.len(),
            s@[i as int] == 34,
            i + 1 <= idx <= s@.len(),
            parse_str_body(s@, (i + 1) as int) == opt_prepend(
                out@,
                parse_str_body(s@, idx as int),
            ),
        decreases s@.len() - idx,
    {
        let b = s[idx];
        if b == 34 {
            proof {
                assert(parse_str_body(s@, idx as int) == Some((Seq::<u8>::empty(), idx + 1)));
                assert(out@ + Seq::<u8>::empty() =~= out@);
            }
            return Some((out, idx + 1));
        }
        let ghost prev_out = out@;
        if b == 92 {
            if idx + 1 >= s.len() {
                proof {
                    assert(parse_str_body(s@, idx as int) matches None);
                }
                return None;
            }
            let c = s[idx + 1];
            out.push(c);
            proof {
                match parse_str_body(s@, idx as int + 2) {
                    Some((b2, j2)) => {
                        assert(parse_str_body(s@, idx as int) == Some((
                            seq![s@[idx as int + 1]] + b2,
                            j2,
                        )));
                        assert(prev_out + (seq![s@[idx as int + 1]] + b2) =~= out@ + b2);
                    },
                    None => {
                        assert(parse_str_body(s@, idx as int) matches None);
                    },
                }
            }
            idx = idx + 2;
        } else {
            out.push(b);
            proof {
                match parse_str_body(s@, idx as int + 1) {
                    Some((b2, j2)) => {
                        assert(parse_str_body(s@, idx as int) == Some((
                            seq![s@[idx as int]] + b2,
                            j2,
                        )));
                        assert(prev_out + (seq![s@[idx as int]] + b2) =~= out@ + b2);
                    },
                    None => {
                        assert(parse_str_body(s@, idx as int) matches None);
                    },
                }
            }
            idx = idx + 1;
        }
    }
    proof {
        assert(parse_str_body(s@, idx as int) matches None);
    }
    None
}

/// Parses a quoted string and converts it back to a `String`; fails when
/// the raw bytes are not valid UTF-8.
fn parse_string_exec(s: &Vec<u8>, i: usize) -> (r: Option<(String, usize)>)
    ensures
        match r {
            Some((t, j)) => parse_str(s@, i as int) == Some((str_bytes(&t), j as int)) && i < j
                <= s@.len(),
            None => match parse_str(s@, i as int) {
                Some((b, _)) => !valid_utf8(b),
                None => true,
            },
        },
{
    match parse_str_exec(s, i) {
        Some((b, j)) => {
            let gb = Ghost(b@);
            match string_from_utf8(b) {
                Some(t) => {
                    proof {
                        assert(str_bytes(&t) == gb@);
                    }
                    Some((t, j))
                },
                None => None,
            }
        },
        None => None,
    }
}

/// Parses one filter, building the executable tree; fails where the text
/// is not a serialized filter or a string in it is not valid UTF-8.
fn parse_f_exec(s: &Vec<u8>, i: usize) -> (r: Option<(Filter, usize)>)
    ensures
        match r {
            Some((g, j)) => parse_f(s@, i as int) == Some((g@, j as int)) && i < j <= s@.len(),
            None => match parse_f(s@, i as int) {
                Some((fv, _)) => !fv_utf8_ok(fv),
                None => true,
            },
        },
    decreases s@.len() - i, 0int,
{
    if i >= s.len() {
        return None;
    }
    let b0 = s[i];
    if b0 == 69 {
        if s.len() - i > 2 && s[i + 1] == 113 && s[i + 2] == 40 {
            match parse_string_exec(s, i + 3) {
                Some((a, j)) => {
                    if j < s.len() && s[j] == 44 {
                        match parse_string_exec(s, j + 1) {
                            Some((v, k)) => {
                                if k < s.len() && s[k] == 41 {
                                    Some((Filter::Eq(a, v), k + 1))
                                } else {
                                    None
                                }
                            },
                            None => None,
                        }
                    } else {
                        None
                    }
                },
                None => None,
            }
        } else {
            None
        }
    } else if b0 == 83 {
        if s.len() - i > 3 && s[i + 1] == 117 && s[i + 2] == 98 && s[i + 3] == 40 {
            match parse_string_exec(s, i + 4) {
                Some((a, j)) => {
                    if j < s.len() && s[j] == 44 {
                        match parse_string_exec(s, j + 1) {
                            Some((v, k)) => {
                                if k < s.len() && s[k] == 41 {
                                    Some((Filter::Sub(a, v), k + 1))
                                } else {
                                    None
                                }
                            },
                            None => None,
                        }
                    } else {
                        None
                    }
                },
                None => None,
            }
        } else if s.len() - i > 3 && s[i + 1] == 101 && s[i + 2] == 108 && s[i + 3] == 102 {
            Some((Filter::SelfUUID, i + 4))
        } else {
            None
        }
    } else if b0 == 80 {
        if s.len() - i > 4 && s[i + 1] == 114 && s[i + 2] == 101 && s[i + 3] == 115 && s[i + 4]
            == 40 {
            match parse_string_exec(s, i + 5) {
                Some((a, j)) => {
                    if j < s.len() && s[j] == 41 {
                        Some((Filter::Pres(a), j + 1))
                    } else {
                        None
                    }
                },
                None => None,
            }
        } else {
            None
        }
    } else if b0 == 79 {
        if s.len() - i > 2 && s[i + 1] == 114 && s[i + 2] == 91 {
            match parse_list_exec(s, i + 3) {
                Some((cs, j)) => Some((Filter::Or(cs), j)),
                None => None,
            }
        } else {
            None
        }
    } else if b0 == 65 {
        if s.len() - i > 2 && s[i + 1] == 110 && s[i + 2] == 100 {
            if s.len() - i > 3 && s[i + 3] == 91 {
                match parse_list_exec(s, i + 4) {
                    Some((cs, j)) => Some((Filter::And(cs), j)),
                    None => None,
                }
            } else if s.len() - i > 6 && s[i + 3] == 78 && s[i + 4] == 111 && s[i + 5] == 116 && s[
                i + 6] == 40 {
                match parse_f_exec(s, i + 7) {
                    Some((g, j)) => {
                        if j < s.len() && s[j] == 41 {
                            Some((Filter::AndNot(Box::new(g)), j + 1))
                        } else {
                            None
                        }
                    },
                    None => None,
                }
            } else {
                None
            }
        } else {
            None
        }
    } else {
        None
    }
}

/// Parses children until the closing bracket.
fn parse_list_exec(s: &Vec<u8>, i: usize) -> (r: Option<(Vec<Filter>, usize)>)
    ensures
        match r {
            Some((gs, j)) => parse_list(s@, i as int) == Some((filters_view(gs@), j as int)) && i
                < j <= s@.len(),
            None => match parse_list(s@, i as int) {
                Some((cs, _)) => !list_utf8_ok(cs),
                None => true,
            },
        },
    decreases s@.len() - i, 1int,
{
    if i >= s.len() {
        return None;
    }
    if s[i] == 93 {
        let gs: Vec<Filter> = Vec::new();
        proof {
            assert(filters_view(gs@) =~= Seq::<FilterV>::empty());
        }
        return Some((gs, i + 1));
    }
    match parse_f_exec(s, i) {
        Some((g, j)) => {
            match parse_list_exec(s, j) {
                Some((gs, k)) => {
                    let ghost gv = gs@;
                    let ghost gf = filter_view(g);
                    let mut gs2 = gs;
                    gs2.insert(0, g);
                    proof {
                        let rest = gs2@.subrange(1, gs2@.len() as int);
                        assert(rest =~= gv);
                        assert(gs2@[0] == g);
                        crate::filter::lemma_filters_view(gs2@);
                        crate::filter::lemma_filters_view(gv);
                        assert(filters_view(gs2@) =~= seq![gf] + filters_view(gv));
                    }
                    Some((gs2, k))
                },
                None => {
                    proof {
                        match parse_list(s@, j as int) {
                            Some((fs, _)) => {
                                let whole = seq![filter_view(g)] + fs;
                                assert(whole.subrange(1, whole.len() as int) =~= fs);
                            },
                            None => {},
                        }
                    }
                    None
                },
            }
        },
        None => {
            proof {
                match parse_f(s@, i as int) {
                    Some((fv, j)) => {
                        if (i as int) < j && j <= s@.len() as int {
                            match parse_list(s@, j) {
                                Some((fs, _)) => {
                                    let whole = seq![fv] + fs;
                                    assert(whole[0] == fv);
                                },
                                None => {},
                            }
                        }
                    },
                    None => {},
                }
            }
            None
        },
    }
}

/// Parses a whole buffer back into a filter. Rejected with an
/// invalid-request error when the buffer is not exactly one serialized
/// filter, or a string in it is not valid UTF-8.
pub fn deserialize(v: &Vec<u8>) -> (r: Result<Filter, OperationError>)
    ensures
        parse_f(v@, 0) matches Some(p) ==> ((p.1 == v@.len() && fv_utf8_ok(p.0)) ==> (
        r matches Ok(g) && g@ == p.0)),
        r matches Ok(g) ==> parse_f(v@, 0) == Some((g@, v@.len() as int)),
        r matches Err(e) ==> e == OperationError::InvalidRequestState,
{
    match parse_f_exec(v, 0) {
        Some((g, j)) => {
            if j == v.len() {
                Ok(g)
            } else {
                Err(OperationError::InvalidRequestState)
            }
        },
        None => Err(OperationError::InvalidRequestState),
    }
}

/// Round trip in full: the serialized form of any filter parses back to
/// that filter's model, consuming the whole buffer, and every string in
/// the model is valid UTF-8, so deserialization reconstructs it.
pub proof fn lemma_serialize_round_trip(f: Filter)
    ensures
        parse_f(ser_f(filter_view(f)), 0) == Some((
            filter_view(f),
            ser_f(filter_view(f)).len() as int,
        )),
        fv_utf8_ok(filter_view(f)),
{
    lemma_round_trip(filter_view(f));
    lemma_view_utf8_ok(f);
}

} // verus!
