//! The denormalized blob encoding: scalar attribute values, flat attribute
//! objects and string arrays, written as JSON text into the `properties` and
//! `uses` fields and read back on projection.
//!
//! The grammar covers exactly what the loader writes: `null`, `true`,
//! `false`, numbers kept in their lexical form, strings without escape
//! sequences, flat objects of scalars and arrays of strings, with optional
//! whitespace between tokens on the way in and none on the way out.  Text
//! outside this grammar does not parse, which the projector downgrades to an
//! absent field.

use vstd::prelude::*;

use crate::bytes::is_ws;

verus! {

/// A scalar attribute value.  Numbers are kept in their lexical form, so a
/// value written out and read back is returned unchanged.
#[derive(Debug, PartialEq, Eq)]
pub enum Scalar {
    Null,
    Bool(bool),
    Num(Vec<u8>),
    Str(Vec<u8>),
}

/// The mathematical model of a [`Scalar`].
pub enum ScalarV {
    Null,
    Bool(bool),
    Num(Seq<u8>),
    Str(Seq<u8>),
}

impl View for Scalar {
    type V = ScalarV;

    open spec fn view(&self) -> ScalarV {
        match self {
            Scalar::Null => ScalarV::Null,
            Scalar::Bool(b) => ScalarV::Bool(*b),
            Scalar::Num(t) => ScalarV::Num(t@),
            Scalar::Str(t) => ScalarV::Str(t@),
        }
    }
}

/// The model of a flat attribute object: a keyed list of scalars.
pub type ObjV = Seq<(Seq<u8>, ScalarV)>;

/// The model of a string-array blob.
pub type ArrV = Seq<Seq<u8>>;

/// View of an executable attribute object.
pub open spec fn obj_view(v: Seq<(Vec<u8>, Scalar)>) -> ObjV {
    Seq::new(v.len(), |i: int| (v[i].0@, v[i].1@))
}

/// View of an executable string array.
pub open spec fn arr_view(v: Seq<Vec<u8>>) -> ArrV {
    Seq::new(v.len(), |i: int| v[i]@)
}

/// A byte that may appear in a numeric token.
pub open spec fn is_num_byte(b: u8) -> bool {
    (0x30 <= b && b <= 0x39) || b == 0x2d || b == 0x2b || b == 0x2e || b == 0x65 || b == 0x45
}

/// A byte that may open a numeric token.
pub open spec fn is_num_start(b: u8) -> bool {
    (0x30 <= b && b <= 0x39) || b == 0x2d
}

/// Well-formed string contents: no quote and no backslash, so the text can
/// be written without escape sequences.
pub open spec fn wf_text(s: Seq<u8>) -> bool {
    forall|i: int| 0 <= i < s.len() ==> #[trigger] s[i] != 0x22 && s[i] != 0x5c
}

/// Well-formed numeric token.
pub open spec fn wf_num(t: Seq<u8>) -> bool {
    &&& t.len() > 0
    &&& forall|i: int| 0 <= i < t.len() ==> is_num_byte(#[trigger] t[i])
    &&& is_num_start(t[0])
}

/// Well-formed scalar: one whose written form reads back as the same value.
pub open spec fn wf_scalar(v: ScalarV) -> bool {
    match v {
        ScalarV::Null => true,
        ScalarV::Bool(_) => true,
        ScalarV::Num(t) => wf_num(t),
        ScalarV::Str(s) => wf_text(s),
    }
}

/// Well-formed attribute object: every key and every value well-formed.
pub open spec fn wf_obj(items: ObjV) -> bool {
    forall|i: int|
        0 <= i < items.len() ==> wf_text((#[trigger] items[i]).0) && wf_scalar(items[i].1)
}

/// Well-formed string array.
pub open spec fn wf_arr(items: ArrV) -> bool {
    forall|i: int| 0 <= i < items.len() ==> wf_text(#[trigger] items[i])
}

/// `lit` occurs in `s` at offset `i`.
pub open spec fn has_at(s: Seq<u8>, i: int, lit: Seq<u8>) -> bool {
    0 <= i && i + lit.len() <= s.len() && s.subrange(i, i + lit.len()) == lit
}

proof fn lemma_has_at_concat(s: Seq<u8>, i: int, a: Seq<u8>, b: Seq<u8>)
    requires
        has_at(s, i, a + b),
    ensures
        has_at(s, i, a),
        has_at(s, i + a.len(), b),
{
    assert(s.subrange(i, i + a.len()) =~= a) by {
        assert forall|k: int| 0 <= k < a.len() implies s.subrange(i, i + a.len())[k] == a[k] by {
            assert(s.subrange(i, i + (a + b).len())[k] == (a + b)[k]);
        }
    }
    assert(s.subrange(i + a.len(), i + a.len() + b.len()) =~= b) by {
        assert forall|k: int| 0 <= k < b.len() implies s.subrange(
            i + a.len(),
            i + a.len() + b.len(),
        )[k] == b[k] by {
            assert(s.subrange(i, i + (a + b).len())[a.len() + k] == (a + b)[a.len() + k]);
        }
    }
}

/// Position after any whitespace run starting at `i`.
pub open spec fn sp_ws(s: Seq<u8>, i: int) -> int
    decreases s.len() - i,
{
    if 0 <= i < s.len() && is_ws(s[i]) {
        sp_ws(s, i + 1)
    } else {
        i
    }
}

pub(crate) proof fn lemma_sp_ws_bounds(s: Seq<u8>, i: int)
    requires
        0 <= i <= s.len(),
    ensures
        i <= sp_ws(s, i) <= s.len(),
        sp_ws(s, i) == s.len() || !is_ws(s[sp_ws(s, i)]),
    decreases s.len() - i,
{
    if i < s.len() && is_ws(s[i]) {
        lemma_sp_ws_bounds(s, i + 1);
    }
}

/// Contents and end position of a string body whose opening quote stands
/// before `i`; fails on a backslash or a missing closing quote.
pub open spec fn sp_str(s: Seq<u8>, i: int) -> Option<(Seq<u8>, int)>
    decreases s.len() - i,
{
    if i < 0 || i >= s.len() {
        None
    } else if s[i] == 0x22 {
        Some((Seq::empty(), i + 1))
    } else if s[i] == 0x5c {
        None
    } else {
        match sp_str(s, i + 1) {
            Some(p) => Some((seq![s[i]] + p.0, p.1)),
            None => None,
        }
    }
}

pub(crate) proof fn lemma_sp_str_bounds(s: Seq<u8>, i: int)
    requires
        0 <= i,
    ensures
        sp_str(s, i) is Some ==> i + 1 <= sp_str(s, i)->Some_0.1 <= s.len(),
        sp_str(s, i) is Some ==> wf_text(sp_str(s, i)->Some_0.0),
    decreases s.len() - i,
{
    if i < s.len() && s[i] != 0x22 && s[i] != 0x5c {
        lemma_sp_str_bounds(s, i + 1);
        if sp_str(s, i) is Some {
            let t = sp_str(s, i)->Some_0.0;
            let t1 = sp_str(s, i + 1)->Some_0.0;
            assert forall|k: int| 0 <= k < t.len() implies #[trigger] t[k] != 0x22 && t[k]
                != 0x5c by {
                if k > 0 {
                    assert(t[k] == t1[k - 1]);
                }
            }
        }
    }
}

/// The maximal run of numeric bytes starting at `i`, and its end position.
pub open spec fn sp_num(s: Seq<u8>, i: int) -> (Seq<u8>, int)
    decreases s.len() - i,
{
    if 0 <= i < s.len() && is_num_byte(s[i]) {
        let p = sp_num(s, i + 1);
        (seq![s[i]] + p.0, p.1)
    } else {
        (Seq::empty(), i)
    }
}

proof fn lemma_sp_num_bounds(s: Seq<u8>, i: int)
    requires
        0 <= i <= s.len(),
    ensures
        i <= sp_num(s, i).1 <= s.len(),
        sp_num(s, i).0.len() == sp_num(s, i).1 - i,
        forall|k: int| 0 <= k < sp_num(s, i).0.len() ==> is_num_byte(#[trigger] sp_num(s, i).0[k]),
    decreases s.len() - i,
{
    if i < s.len() && is_num_byte(s[i]) {
        lemma_sp_num_bounds(s, i + 1);
        let t = sp_num(s, i).0;
        let t1 = sp_num(s, i + 1).0;
        assert forall|k: int| 0 <= k < t.len() implies is_num_byte(#[trigger] t[k]) by {
            if k > 0 {
                assert(t[k] == t1[k - 1]);
            }
        }
    }
}

/// The bytes of `null`.
pub open spec fn lit_null() -> Seq<u8> {
    seq![0x6eu8, 0x75u8, 0x6cu8, 0x6cu8]
}

/// The bytes of `true`.
pub open spec fn lit_true() -> Seq<u8> {
    seq![0x74u8, 0x72u8, 0x75u8, 0x65u8]
}

/// The bytes of `false`.
pub open spec fn lit_false() -> Seq<u8> {
    seq![0x66u8, 0x61u8, 0x6cu8, 0x73u8, 0x65u8]
}

/// One scalar read from `s` at `i`, after optional whitespace.
pub open spec fn sp_scalar(s: Seq<u8>, i0: int) -> Option<(ScalarV, int)> {
    let i = sp_ws(s, i0);
    if i >= s.len() {
        None
    } else if s[i] == 0x22 {
        match sp_str(s, i + 1) {
            Some(p) => Some((ScalarV::Str(p.0), p.1)),
            None => None,
        }
    } else if is_num_start(s[i]) {
        let p = sp_num(s, i);
        Some((ScalarV::Num(p.0), p.1))
    } else if has_at(s, i, lit_null()) {
        Some((ScalarV::Null, i + 4))
    } else if has_at(s, i, lit_true()) {
        Some((ScalarV::Bool(true), i + 4))
    } else if has_at(s, i, lit_false()) {
        Some((ScalarV::Bool(false), i + 5))
    } else {
        None
    }
}

pub(crate) proof fn lemma_sp_scalar_bounds(s: Seq<u8>, i: int)
    requires
        0 <= i <= s.len(),
    ensures
        sp_scalar(s, i) is Some ==> i + 1 <= sp_scalar(s, i)->Some_0.1 <= s.len(),
        sp_scalar(s, i) is Some ==> wf_scalar(sp_scalar(s, i)->Some_0.0),
{
    lemma_sp_ws_bounds(s, i);
    let j = sp_ws(s, i);
    if j < s.len() {
        lemma_sp_str_bounds(s, j + 1);
        lemma_sp_num_bounds(s, j);
        if is_num_start(s[j]) {
            assert(sp_num(s, j).0[0] == s[j]);
        }
    }
}

/// The items of a nonempty flat object read from `i` (after the opening
/// brace): quoted key, colon, scalar, then a comma and more items or the
/// closing brace.
pub open spec fn sp_obj_items(s: Seq<u8>, i: int) -> Option<(ObjV, int)>
    decreases s.len() - i,
    via sp_obj_items_dec
{
    let i1 = sp_ws(s, i);
    if i < 0 || i1 >= s.len() || s[i1] != 0x22 {
        None
    } else {
        match sp_str(s, i1 + 1) {
            None => None,
            Some(kp) => {
                let i2 = sp_ws(s, kp.1);
                if i2 >= s.len() || s[i2] != 0x3a {
                    None
                } else {
                    match sp_scalar(s, i2 + 1) {
                        None => None,
                        Some(vp) => {
                            let i3 = sp_ws(s, vp.1);
                            if i3 >= s.len() {
                                None
                            } else if s[i3] == 0x7d {
                                Some((seq![(kp.0, vp.0)], i3 + 1))
                            } else if s[i3] == 0x2c {
                                match sp_obj_items(s, i3 + 1) {
                                    None => None,
                                    Some(rest) => Some((seq![(kp.0, vp.0)] + rest.0, rest.1)),
                                }
                            } else {
                                None
                            }
                        },
                    }
                }
            },
        }
    }
}

#[via_fn]
proof fn sp_obj_items_dec(s: Seq<u8>, i: int) {
    if 0 <= i <= s.len() {
        lemma_sp_ws_bounds(s, i);
        let i1 = sp_ws(s, i);
        if i1 < s.len() && s[i1] == 0x22 {
            lemma_sp_str_bounds(s, i1 + 1);
            match sp_str(s, i1 + 1) {
                None => {},
                Some(kp) => {
                    lemma_sp_ws_bounds(s, kp.1);
                    let i2 = sp_ws(s, kp.1);
                    if i2 < s.len() && s[i2] == 0x3a {
                        lemma_sp_scalar_bounds(s, i2 + 1);
                        match sp_scalar(s, i2 + 1) {
                            None => {},
                            Some(vp) => {
                                lemma_sp_ws_bounds(s, vp.1);
                            },
                        }
                    }
                },
            }
        }
    }
}

proof fn lemma_sp_obj_items_bounds(s: Seq<u8>, i: int)
    requires
        0 <= i <= s.len(),
    ensures
        sp_obj_items(s, i) is Some ==> i < sp_obj_items(s, i)->Some_0.1 <= s.len(),
        sp_obj_items(s, i) is Some ==> wf_obj(sp_obj_items(s, i)->Some_0.0),
    decreases s.len() - i,
{
    lemma_sp_ws_bounds(s, i);
    let i1 = sp_ws(s, i);
    if i1 < s.len() && s[i1] == 0x22 {
        lemma_sp_str_bounds(s, i1 + 1);
        match sp_str(s, i1 + 1) {
            None => {},
            Some(kp) => {
                lemma_sp_ws_bounds(s, kp.1);
                let i2 = sp_ws(s, kp.1);
                if i2 < s.len() && s[i2] == 0x3a {
                    lemma_sp_scalar_bounds(s, i2 + 1);
                    match sp_scalar(s, i2 + 1) {
                        None => {},
                        Some(vp) => {
                            lemma_sp_ws_bounds(s, vp.1);
                            let i3 = sp_ws(s, vp.1);
                            let item = (kp.0, vp.0);
                            if i3 < s.len() && s[i3] == 0x7d {
                                assert(seq![item][0] == item);
                            } else if i3 < s.len() && s[i3] == 0x2c {
                                lemma_sp_obj_items_bounds(s, i3 + 1);
                                match sp_obj_items(s, i3 + 1) {
                                    None => {},
                                    Some(rest) => {
                                        let all = seq![item] + rest.0;
                                        assert forall|k: int| 0 <= k < all.len() implies wf_text(
                                            #[trigger] all[k].0,
                                        ) && wf_scalar(all[k].1) by {
                                            if k == 0 {
                                                assert(all[0] == item);
                                            } else {
                                                assert(all[k] == rest.0[k - 1]);
                                            }
                                        }
                                    },
                                }
                            }
                        },
                    }
                }
            },
        }
    }
}

/// A flat object of scalars read from `i`.
pub open spec fn sp_obj(s: Seq<u8>, i: int) -> Option<(ObjV, int)> {
    let i1 = sp_ws(s, i);
    if 0 <= i && i1 < s.len() && s[i1] == 0x7b {
        let i2 = sp_ws(s, i1 + 1);
        if i2 < s.len() && s[i2] == 0x7d {
            Some((Seq::empty(), i2 + 1))
        } else {
            sp_obj_items(s, i1 + 1)
        }
    } else {
        None
    }
}

pub(crate) proof fn lemma_sp_obj_bounds(s: Seq<u8>, i: int)
    requires
        0 <= i <= s.len(),
    ensures
        sp_obj(s, i) is Some ==> i < sp_obj(s, i)->Some_0.1 <= s.len(),
        sp_obj(s, i) is Some ==> wf_obj(sp_obj(s, i)->Some_0.0),
{
    lemma_sp_ws_bounds(s, i);
    let i1 = sp_ws(s, i);
    if i1 < s.len() && s[i1] == 0x7b {
        lemma_sp_ws_bounds(s, i1 + 1);
        lemma_sp_obj_items_bounds(s, i1 + 1);
    }
}

/// The items of a nonempty string array read from `i` (after the opening
/// bracket).
pub open spec fn sp_arr_items(s: Seq<u8>, i: int) -> Option<(ArrV, int)>
    decreases s.len() - i,
    via sp_arr_items_dec
{
    let i1 = sp_ws(s, i);
    if i < 0 || i1 >= s.len() || s[i1] != 0x22 {
        None
    } else {
        match sp_str(s, i1 + 1) {
            None => None,
            Some(p) => {
                let i2 = sp_ws(s, p.1);
                if i2 >= s.len() {
                    None
                } else if s[i2] == 0x5d {
                    Some((seq![p.0], i2 + 1))
                } else if s[i2] == 0x2c {
                    match sp_arr_items(s, i2 + 1) {
                        None => None,
                        Some(rest) => Some((seq![p.0] + rest.0, rest.1)),
                    }
                } else {
                    None
                }
            },
        }
    }
}

#[via_fn]
proof fn sp_arr_items_dec(s: Seq<u8>, i: int) {
    if 0 <= i <= s.len() {
        lemma_sp_ws_bounds(s, i);
        let i1 = sp_ws(s, i);
        if i1 < s.len() && s[i1] == 0x22 {
            lemma_sp_str_bounds(s, i1 + 1);
            match sp_str(s, i1 + 1) {
                None => {},
                Some(p) => {
                    lemma_sp_ws_bounds(s, p.1);
                },
            }
        }
    }
}

proof fn lemma_sp_arr_items_bounds(s: Seq<u8>, i: int)
    requires
        0 <= i <= s.len(),
    ensures
        sp_arr_items(s, i) is Some ==> i < sp_arr_items(s, i)->Some_0.1 <= s.len(),
        sp_arr_items(s, i) is Some ==> wf_arr(sp_arr_items(s, i)->Some_0.0),
    decreases s.len() - i,
{
    lemma_sp_ws_bounds(s, i);
    let i1 = sp_ws(s, i);
    if i1 < s.len() && s[i1] == 0x22 {
        lemma_sp_str_bounds(s, i1 + 1);
        match sp_str(s, i1 + 1) {
            None => {},
            Some(p) => {
                lemma_sp_ws_bounds(s, p.1);
                let i2 = sp_ws(s, p.1);
                if i2 < s.len() && s[i2] == 0x2c {
                    lemma_sp_arr_items_bounds(s, i2 + 1);
                }
            },
        }
    }
}

/// A string array read from `i`.
pub open spec fn sp_arr(s: Seq<u8>, i: int) -> Option<(ArrV, int)> {
    let i1 = sp_ws(s, i);
    if 0 <= i && i1 < s.len() && s[i1] == 0x5b {
        let i2 = sp_ws(s, i1 + 1);
        if i2 < s.len() && s[i2] == 0x5d {
            Some((Seq::empty(), i2 + 1))
        } else {
            sp_arr_items(s, i1 + 1)
        }
    } else {
        None
    }
}

pub(crate) proof fn lemma_sp_arr_bounds(s: Seq<u8>, i: int)
    requires
        0 <= i <= s.len(),
    ensures
        sp_arr(s, i) is Some ==> i < sp_arr(s, i)->Some_0.1 <= s.len(),
        sp_arr(s, i) is Some ==> wf_arr(sp_arr(s, i)->Some_0.0),
{
    lemma_sp_ws_bounds(s, i);
    let i1 = sp_ws(s, i);
    if i1 < s.len() && s[i1] == 0x5b {
        lemma_sp_ws_bounds(s, i1 + 1);
        lemma_sp_arr_items_bounds(s, i1 + 1);
    }
}

/// A whole properties blob: one flat object and nothing after it.
pub open spec fn sp_obj_doc(s: Seq<u8>) -> Option<ObjV> {
    match sp_obj(s, 0) {
        Some(p) => if sp_ws(s, p.1) == s.len() {
            Some(p.0)
        } else {
            None
        },
        None => None,
    }
}

/// A whole uses blob: one string array and nothing after it.
pub open spec fn sp_arr_doc(s: Seq<u8>) -> Option<ArrV> {
    match sp_arr(s, 0) {
        Some(p) => if sp_ws(s, p.1) == s.len() {
            Some(p.0)
        } else {
            None
        },
        None => None,
    }
}

/// Written form of one scalar.
pub open spec fn ser_scalar(v: ScalarV) -> Seq<u8> {
    match v {
        ScalarV::Null => lit_null(),
        ScalarV::Bool(b) => if b {
            lit_true()
        } else {
            lit_false()
        },
        ScalarV::Num(t) => t,
        ScalarV::Str(t) => seq![0x22u8] + t + seq![0x22u8],
    }
}

/// Written form of one key/value pair.
pub open spec fn ser_kv(kv: (Seq<u8>, ScalarV)) -> Seq<u8> {
    seq![0x22u8] + kv.0 + seq![0x22u8, 0x3au8] + ser_scalar(kv.1)
}

/// Written form of the items of an object, comma-separated.
pub open spec fn ser_obj_items(items: ObjV) -> Seq<u8>
    decreases items.len(),
{
    if items.len() == 0 {
        Seq::empty()
    } else if items.len() == 1 {
        ser_kv(items[0])
    } else {
        ser_kv(items[0]) + seq![0x2cu8] + ser_obj_items(items.drop_first())
    }
}

/// Written form of a flat attribute object.
pub open spec fn ser_obj(items: ObjV) -> Seq<u8> {
    seq![0x7bu8] + ser_obj_items(items) + seq![0x7du8]
}

/// Written form of one array item.
pub open spec fn ser_item(t: Seq<u8>) -> Seq<u8> {
    seq![0x22u8] + t + seq![0x22u8]
}

/// Written form of the items of a string array, comma-separated.
pub open spec fn ser_arr_items(items: ArrV) -> Seq<u8>
    decreases items.len(),
{
    if items.len() == 0 {
        Seq::empty()
    } else if items.len() == 1 {
        ser_item(items[0])
    } else {
        ser_item(items[0]) + seq![0x2cu8] + ser_arr_items(items.drop_first())
    }
}

/// Written form of a string-array blob.
pub open spec fn ser_arr(items: ArrV) -> Seq<u8> {
    seq![0x5bu8] + ser_arr_items(items) + seq![0x5du8]
}

proof fn lemma_rt_str(s: Seq<u8>, i: int, t: Seq<u8>)
    requires
        wf_text(t),
        has_at(s, i, t + seq![0x22u8]),
    ensures
        sp_str(s, i) == Some((t, i + t.len() + 1)),
    decreases t.len(),
{
    let whole = t + seq![0x22u8];
    assert(s.subrange(i, i + whole.len())[0] == whole[0]);
    if t.len() == 0 {
        assert(s[i] == 0x22);
        assert(sp_str(s, i)->Some_0.0 =~= t);
    } else {
        assert(s[i] == t[0]);
        assert(t[0] != 0x22 && t[0] != 0x5c);
        let rest = t.drop_first() + seq![0x22u8];
        assert(whole =~= seq![t[0]] + rest);
        lemma_has_at_concat(s, i, seq![t[0]], rest);
        lemma_rt_str(s, i + 1, t.drop_first());
        assert(seq![s[i]] + t.drop_first() =~= t);
    }
}

proof fn lemma_rt_num(s: Seq<u8>, i: int, t: Seq<u8>)
    requires
        forall|k: int| 0 <= k < t.len() ==> is_num_byte(#[trigger] t[k]),
        has_at(s, i, t),
        i + t.len() == s.len() || !is_num_byte(s[i + t.len()]),
    ensures
        sp_num(s, i) == (t, i + t.len()),
    decreases t.len(),
{
    if t.len() == 0 {
        assert(sp_num(s, i).0 =~= t);
    } else {
        assert(s.subrange(i, i + t.len())[0] == t[0]);
        assert(s[i] == t[0]);
        assert(t =~= seq![t[0]] + t.drop_first());
        lemma_has_at_concat(s, i, seq![t[0]], t.drop_first());
        lemma_rt_num(s, i + 1, t.drop_first());
        assert(seq![s[i]] + t.drop_first() =~= t);
    }
}

proof fn lemma_rt_scalar(s: Seq<u8>, i: int, v: ScalarV)
    requires
        wf_scalar(v),
        has_at(s, i, ser_scalar(v)),
        i + ser_scalar(v).len() == s.len() || !is_num_byte(s[i + ser_scalar(v).len()]),
    ensures
        sp_scalar(s, i) == Some((v, i + ser_scalar(v).len())),
{
    let w = ser_scalar(v);
    assert(s.subrange(i, i + w.len())[0] == w[0]);
    let b0 = s[i];
    assert(b0 == w[0]);
    assert(!is_ws(b0));
    assert(sp_ws(s, i) == i);
    match v {
        ScalarV::Str(t) => {
            assert(b0 == 0x22);
            assert(w =~= seq![0x22u8] + (t + seq![0x22u8]));
            lemma_has_at_concat(s, i, seq![0x22u8], t + seq![0x22u8]);
            lemma_rt_str(s, i + 1, t);
        },
        ScalarV::Num(t) => {
            assert(b0 == t[0] && is_num_start(b0) && b0 != 0x22);
            lemma_rt_num(s, i, t);
        },
        ScalarV::Null => {
            assert(b0 == 0x6e);
            assert(!is_num_start(b0) && b0 != 0x22);
            assert(has_at(s, i, lit_null()));
        },
        ScalarV::Bool(b) => {
            if b {
                assert(b0 == 0x74);
                assert(!is_num_start(b0) && b0 != 0x22);
                assert(!has_at(s, i, lit_null())) by {
                    if has_at(s, i, lit_null()) {
                        assert(s.subrange(i, i + 4)[0] == 0x6e);
                    }
                }
                assert(has_at(s, i, lit_true()));
            } else {
                assert(b0 == 0x66);
                assert(!is_num_start(b0) && b0 != 0x22);
                assert(!has_at(s, i, lit_null())) by {
                    if has_at(s, i, lit_null()) {
                        assert(s.subrange(i, i + 4)[0] == 0x6e);
                    }
                }
                assert(!has_at(s, i, lit_true())) by {
                    if has_at(s, i, lit_true()) {
                        assert(s.subrange(i, i + 4)[0] == 0x74);
                    }
                }
                assert(has_at(s, i, lit_false()));
            }
        },
    }
}

/// After one written key/value pair at `i` followed by the byte `follow`,
/// the parse of the pair lands exactly on `follow`.
proof fn lemma_rt_kv(s: Seq<u8>, i: int, kv: (Seq<u8>, ScalarV), follow: u8)
    requires
        wf_text(kv.0),
        wf_scalar(kv.1),
        has_at(s, i, ser_kv(kv) + seq![follow]),
        follow == 0x2c || follow == 0x7d,
    ensures
        ({
            let m = i + ser_kv(kv).len();
            &&& sp_ws(s, i) == i
            &&& s[i] == 0x22
            &&& sp_str(s, i + 1) == Some((kv.0, i + 2 + kv.0.len()))
            &&& sp_ws(s, i + 2 + kv.0.len()) == i + 2 + kv.0.len()
            &&& s[i + 2 + kv.0.len()] == 0x3a
            &&& sp_scalar(s, i + 3 + kv.0.len()) == Some((kv.1, m))
            &&& sp_ws(s, m) == m
            &&& m < s.len() && s[m] == follow
        }),
{
    let k = kv.0;
    let w = ser_kv(kv) + seq![follow];
    let klen = k.len() as int;
    let slen = ser_scalar(kv.1).len() as int;
    let m = i + ser_kv(kv).len();
    assert(s.subrange(i, i + w.len())[0] == w[0]);
    assert(s[i] == 0x22);
    assert(!is_ws(0x22u8));
    assert(sp_ws(s, i) == i);
    // key string then the rest
    assert(w =~= seq![0x22u8] + ((k + seq![0x22u8]) + (seq![0x3au8] + ser_scalar(kv.1) + seq![
        follow,
    ])));
    lemma_has_at_concat(
        s,
        i,
        seq![0x22u8],
        (k + seq![0x22u8]) + (seq![0x3au8] + ser_scalar(kv.1) + seq![follow]),
    );
    lemma_has_at_concat(
        s,
        i + 1,
        k + seq![0x22u8],
        seq![0x3au8] + ser_scalar(kv.1) + seq![follow],
    );
    lemma_rt_str(s, i + 1, k);
    let after_key = i + 2 + klen;
    assert(seq![0x3au8] + ser_scalar(kv.1) + seq![follow] =~= seq![0x3au8] + (ser_scalar(kv.1)
        + seq![follow]));
    lemma_has_at_concat(s, after_key, seq![0x3au8], ser_scalar(kv.1) + seq![follow]);
    assert(s.subrange(after_key, after_key + 1)[0] == 0x3a);
    assert(s[after_key] == 0x3a);
    assert(!is_ws(0x3au8));
    assert(sp_ws(s, after_key) == after_key);
    lemma_has_at_concat(s, after_key + 1, ser_scalar(kv.1), seq![follow]);
    assert(s.subrange(m, m + 1)[0] == follow);
    assert(s[m] == follow);
    assert(!is_num_byte(follow));
    lemma_rt_scalar(s, after_key + 1, kv.1);
    assert(!is_ws(follow));
    assert(sp_ws(s, m) == m);
}

proof fn lemma_rt_obj_items(s: Seq<u8>, i: int, items: ObjV)
    requires
        items.len() >= 1,
        wf_obj(items),
        has_at(s, i, ser_obj_items(items) + seq![0x7du8]),
    ensures
        sp_obj_items(s, i) == Some((items, i + ser_obj_items(items).len() + 1)),
    decreases items.len(),
{
    assert(wf_text(items[0].0) && wf_scalar(items[0].1));
    if items.len() == 1 {
        lemma_rt_kv(s, i, items[0], 0x7d);
        let m = i + ser_kv(items[0]).len();
        assert(sp_obj_items(s, i) == Some((seq![(items[0].0, items[0].1)], m + 1)));
        assert(seq![(items[0].0, items[0].1)] =~= items);
    } else {
        let rest = items.drop_first();
        let w = ser_obj_items(items) + seq![0x7du8];
        assert(w =~= (ser_kv(items[0]) + seq![0x2cu8]) + (ser_obj_items(rest) + seq![0x7du8]));
        lemma_has_at_concat(
            s,
            i,
            ser_kv(items[0]) + seq![0x2cu8],
            ser_obj_items(rest) + seq![0x7du8],
        );
        assert(ser_kv(items[0]) + seq![0x2cu8] =~= ser_kv(items[0]) + seq![0x2cu8]);
        lemma_rt_kv(s, i, items[0], 0x2c);
        let m = i + ser_kv(items[0]).len();
        lemma_rt_obj_items(s, m + 1, rest);
        assert(seq![(items[0].0, items[0].1)] + rest =~= items);
    }
}

proof fn lemma_rt_arr_item(s: Seq<u8>, i: int, t: Seq<u8>, follow: u8)
    requires
        wf_text(t),
        has_at(s, i, ser_item(t) + seq![follow]),
        follow == 0x2c || follow == 0x5d,
    ensures
        ({
            let m = i + ser_item(t).len();
            &&& sp_ws(s, i) == i
            &&& s[i] == 0x22
            &&& sp_str(s, i + 1) == Some((t, m))
            &&& sp_ws(s, m) == m
            &&& m < s.len() && s[m] == follow
        }),
{
    let w = ser_item(t) + seq![follow];
    let m = i + ser_item(t).len();
    assert(s.subrange(i, i + w.len())[0] == w[0]);
    assert(s[i] == 0x22);
    assert(!is_ws(0x22u8));
    assert(w =~= seq![0x22u8] + ((t + seq![0x22u8]) + seq![follow]));
    lemma_has_at_concat(s, i, seq![0x22u8], (t + seq![0x22u8]) + seq![follow]);
    lemma_has_at_concat(s, i + 1, t + seq![0x22u8], seq![follow]);
    lemma_rt_str(s, i + 1, t);
    assert(s.subrange(m, m + 1)[0] == follow);
    assert(s[m] == follow);
    assert(!is_ws(follow));
    assert(sp_ws(s, m) == m);
}

proof fn lemma_rt_arr_items(s: Seq<u8>, i: int, items: ArrV)
    requires
        items.len() >= 1,
        wf_arr(items),
        has_at(s, i, ser_arr_items(items) + seq![0x5du8]),
    ensures
        sp_arr_items(s, i) == Some((items, i + ser_arr_items(items).len() + 1)),
    decreases items.len(),
{
    assert(wf_text(items[0]));
    if items.len() == 1 {
        lemma_rt_arr_item(s, i, items[0], 0x5d);
        let m = i + ser_item(items[0]).len();
        assert(sp_arr_items(s, i) == Some((seq![items[0]], m + 1)));
        assert(seq![items[0]] =~= items);
    } else {
        let rest = items.drop_first();
        let w = ser_arr_items(items) + seq![0x5du8];
        assert(w =~= (ser_item(items[0]) + seq![0x2cu8]) + (ser_arr_items(rest) + seq![0x5du8]));
        lemma_has_at_concat(
            s,
            i,
            ser_item(items[0]) + seq![0x2cu8],
            ser_arr_items(rest) + seq![0x5du8],
        );
        lemma_rt_arr_item(s, i, items[0], 0x2c);
        let m = i + ser_item(items[0]).len();
        lemma_rt_arr_items(s, m + 1, rest);
        assert(seq![items[0]] + rest =~= items);
    }
}

/// Blob round trip: a well-formed attribute object written out as a
/// properties blob reads back as the same object, item for item.
pub proof fn lemma_obj_round_trip(items: ObjV)
    requires
        wf_obj(items),
    ensures
        sp_obj_doc(ser_obj(items)) == Some(items),
{
    let s = ser_obj(items);
    assert(s[0] == 0x7b);
    assert(!is_ws(0x7bu8));
    assert(sp_ws(s, 0) == 0);
    if items.len() == 0 {
        assert(s =~= seq![0x7bu8, 0x7du8]);
        assert(s[1] == 0x7d && !is_ws(0x7du8));
        assert(sp_ws(s, 1) == 1);
        assert(sp_obj(s, 0) == Some((Seq::<(Seq<u8>, ScalarV)>::empty(), 2int)));
        assert(sp_obj(s, 0)->Some_0.0 =~= items);
        assert(sp_ws(s, 2) == 2);
    } else {
        assert(has_at(s, 0, s)) by {
            assert(s.subrange(0, s.len() as int) =~= s);
        }
        assert(s =~= seq![0x7bu8] + (ser_obj_items(items) + seq![0x7du8]));
        lemma_has_at_concat(s, 0, seq![0x7bu8], ser_obj_items(items) + seq![0x7du8]);
        assert(ser_obj_items(items).len() >= 1) by {
            assert(ser_kv(items[0]).len() >= 1);
            if items.len() > 1 {
                assert(ser_obj_items(items)[0] == ser_kv(items[0])[0]);
            }
        }
        assert(s.subrange(1, ser_obj_items(items).len() as int + 2)[0] == (ser_obj_items(items)
            + seq![0x7du8])[0]);
        assert(s[1] == ser_obj_items(items)[0]);
        assert(ser_obj_items(items)[0] == 0x22) by {
            assert(ser_kv(items[0])[0] == 0x22);
            if items.len() > 1 {
                assert(ser_obj_items(items)[0] == ser_kv(items[0])[0]);
            }
        }
        assert(!is_ws(0x22u8));
        assert(sp_ws(s, 1) == 1);
        lemma_rt_obj_items(s, 1, items);
        assert(sp_obj(s, 0) == Some((items, s.len() as int)));
        assert(sp_ws(s, s.len() as int) == s.len());
    }
}

/// Blob round trip for the uses field: a well-formed string array written
/// out reads back as the same list, item for item.
pub proof fn lemma_arr_round_trip(items: ArrV)
    requires
        wf_arr(items),
    ensures
        sp_arr_doc(ser_arr(items)) == Some(items),
{
    let s = ser_arr(items);
    assert(s[0] == 0x5b);
    assert(!is_ws(0x5bu8));
    assert(sp_ws(s, 0) == 0);
    if items.len() == 0 {
        assert(s =~= seq![0x5bu8, 0x5du8]);
        assert(s[1] == 0x5d && !is_ws(0x5du8));
        assert(sp_ws(s, 1) == 1);
        assert(sp_arr(s, 0) == Some((Seq::<Seq<u8>>::empty(), 2int)));
        assert(sp_arr(s, 0)->Some_0.0 =~= items);
        assert(sp_ws(s, 2) == 2);
    } else {
        assert(has_at(s, 0, s)) by {
            assert(s.subrange(0, s.len() as int) =~= s);
        }
        assert(s =~= seq![0x5bu8] + (ser_arr_items(items) + seq![0x5du8]));
        lemma_has_at_concat(s, 0, seq![0x5bu8], ser_arr_items(items) + seq![0x5du8]);
        assert(ser_arr_items(items).len() >= 1) by {
            assert(ser_item(items[0]).len() >= 1);
            if items.len() > 1 {
                assert(ser_arr_items(items)[0] == ser_item(items[0])[0]);
            }
        }
        assert(s.subrange(1, ser_arr_items(items).len() as int + 2)[0] == (ser_arr_items(items)
            + seq![0x5du8])[0]);
        assert(s[1] == ser_arr_items(items)[0]);
        assert(ser_arr_items(items)[0] == 0x22) by {
            assert(ser_item(items[0])[0] == 0x22);
            if items.len() > 1 {
                assert(ser_arr_items(items)[0] == ser_item(items[0])[0]);
            }
        }
        assert(!is_ws(0x22u8));
        assert(sp_ws(s, 1) == 1);
        lemma_rt_arr_items(s, 1, items);
        assert(sp_arr(s, 0) == Some((items, s.len() as int)));
        assert(sp_ws(s, s.len() as int) == s.len());
    }
}

pub(crate) fn scan_ws(s: &Vec<u8>, from: usize) -> (r: usize)
    requires
        from <= s@.len(),
    ensures
        r as int == sp_ws(s@, from as int),
        from <= r <= s@.len(),
{
    let mut i: usize = from;
    while i < s.len()
        invariant
            from <= i <= s@.len(),
            sp_ws(s@, from as int) == sp_ws(s@, i as int),
        decreases s@.len() - i,
    {
        let b = s[i];
        if !(b == 0x20 || b == 0x09 || b == 0x0a || b == 0x0d) {
            return i;
        }
        i += 1;
    }
    i
}

pub(crate) fn parse_str_body(s: &Vec<u8>, from: usize) -> (r: Option<(Vec<u8>, usize)>)
    requires
        from <= s@.len(),
    ensures
        match r {
            Some(p) => sp_str(s@, from as int) == Some((p.0@, p.1 as int)) && from < p.1
                <= s@.len(),
            None => sp_str(s@, from as int) is None,
        },
{
    let e = scan_str_end(s, from);
    proof {
        lemma_sp_str_scan(s@, from as int, e as int);
    }
    if e == s.len() {
        return None;
    }
    if s[e] == 0x5c {
        return None;
    }
    let content = crate::bytes::copy_range(s, from, e);
    Some((content, e + 1))
}

fn scan_str_end(s: &Vec<u8>, from: usize) -> (e: usize)
    requires
        from <= s@.len(),
    ensures
        from <= e <= s@.len(),
        forall|k: int| from <= k < e ==> #[trigger] s@[k] != 0x22 && s@[k] != 0x5c,
        e == s@.len() || s@[e as int] == 0x22 || s@[e as int] == 0x5c,
{
    let mut i: usize = from;
    while i < s.len()
        invariant
            from <= i <= s@.len(),
            forall|k: int| from <= k < i ==> #[trigger] s@[k] != 0x22 && s@[k] != 0x5c,
        decreases s@.len() - i,
    {
        let b = s[i];
        if b == 0x22 || b == 0x5c {
            return i;
        }
        i += 1;
    }
    i
}

proof fn lemma_sp_str_scan(s: Seq<u8>, i: int, e: int)
    requires
        0 <= i <= e <= s.len(),
        forall|k: int| i <= k < e ==> #[trigger] s[k] != 0x22 && s[k] != 0x5c,
    ensures
        e < s.len() && s[e] == 0x22 ==> sp_str(s, i) == Some((s.subrange(i, e), e + 1)),
        e < s.len() && s[e] == 0x5c ==> sp_str(s, i) is None,
        e == s.len() ==> sp_str(s, i) is None,
    decreases e - i,
{
    if i == e {
        if e < s.len() && s[e] == 0x22 {
            assert(sp_str(s, i)->Some_0.0 =~= s.subrange(i, e));
        }
    } else {
        lemma_sp_str_scan(s, i + 1, e);
        if e < s.len() && s[e] == 0x22 {
            assert(seq![s[i]] + s.subrange(i + 1, e) =~= s.subrange(i, e));
        }
    }
}

fn parse_num_run(s: &Vec<u8>, from: usize) -> (r: (Vec<u8>, usize))
    requires
        from <= s@.len(),
    ensures
        sp_num(s@, from as int) == (r.0@, r.1 as int),
        from <= r.1 <= s@.len(),
{
    let e = scan_num_end(s, from);
    proof {
        lemma_sp_num_scan(s@, from as int, e as int);
    }
    let content = crate::bytes::copy_range(s, from, e);
    (content, e)
}

fn scan_num_end(s: &Vec<u8>, from: usize) -> (e: usize)
    requires
        from <= s@.len(),
    ensures
        from <= e <= s@.len(),
        forall|k: int| from <= k < e ==> is_num_byte(#[trigger] s@[k]),
        e == s@.len() || !is_num_byte(s@[e as int]),
{
    let mut i: usize = from;
    while i < s.len()
        invariant
            from <= i <= s@.len(),
            forall|k: int| from <= k < i ==> is_num_byte(#[trigger] s@[k]),
        decreases s@.len() - i,
    {
        let b = s[i];
        if !((0x30 <= b && b <= 0x39) || b == 0x2d || b == 0x2b || b == 0x2e || b == 0x65 || b
            == 0x45) {
            return i;
        }
        i += 1;
    }
    i
}

proof fn lemma_sp_num_scan(s: Seq<u8>, i: int, e: int)
    requires
        0 <= i <= e <= s.len(),
        forall|k: int| i <= k < e ==> is_num_byte(#[trigger] s[k]),
        e == s.len() || !is_num_byte(s[e]),
    ensures
        sp_num(s, i) == (s.subrange(i, e), e),
    decreases e - i,
{
    if i == e {
        assert(sp_num(s, i).0 =~= s.subrange(i, e));
    } else {
        lemma_sp_num_scan(s, i + 1, e);
        assert(seq![s[i]] + s.subrange(i + 1, e) =~= s.subrange(i, e));
    }
}

fn match_lit4(s: &Vec<u8>, at: usize, b0: u8, b1: u8, b2: u8, b3: u8) -> (r: bool)
    requires
        at <= s@.len(),
    ensures
        r == has_at(s@, at as int, seq![b0, b1, b2, b3]),
{
    if s.len() - at < 4 {
        return false;
    }
    let ok = s[at] == b0 && s[at + 1] == b1 && s[at + 2] == b2 && s[at + 3] == b3;
    proof {
        let lit = seq![b0, b1, b2, b3];
        if ok {
            assert(s@.subrange(at as int, at + 4) =~= lit);
        } else {
            if has_at(s@, at as int, lit) {
                assert(forall|k: int|
                    0 <= k < 4 ==> #[trigger] s@.subrange(at as int, at + 4)[k] == lit[k]);
                assert(s@[at as int] == b0 && s@[at + 1] == b1 && s@[at + 2] == b2 && s@[at + 3]
                    == b3);
            }
        }
    }
    ok
}

fn match_lit5(s: &Vec<u8>, at: usize, b0: u8, b1: u8, b2: u8, b3: u8, b4: u8) -> (r: bool)
    requires
        at <= s@.len(),
    ensures
        r == has_at(s@, at as int, seq![b0, b1, b2, b3, b4]),
{
    if s.len() - at < 5 {
        return false;
    }
    let ok = s[at] == b0 && s[at + 1] == b1 && s[at + 2] == b2 && s[at + 3] == b3 && s[at + 4]
        == b4;
    proof {
        let lit = seq![b0, b1, b2, b3, b4];
        if ok {
            assert(s@.subrange(at as int, at + 5) =~= lit);
        } else {
            if has_at(s@, at as int, lit) {
                assert(forall|k: int|
                    0 <= k < 5 ==> #[trigger] s@.subrange(at as int, at + 5)[k] == lit[k]);
                assert(s@[at as int] == b0 && s@[at + 1] == b1 && s@[at + 2] == b2 && s@[at + 3]
                    == b3 && s@[at + 4] == b4);
            }
        }
    }
    ok
}

pub(crate) fn parse_scalar_at(s: &Vec<u8>, from: usize) -> (r: Option<(Scalar, usize)>)
    requires
        from <= s@.len(),
    ensures
        match r {
            Some(p) => sp_scalar(s@, from as int) == Some((p.0@, p.1 as int)) && from < p.1
                <= s@.len(),
            None => sp_scalar(s@, from as int) is None,
        },
{
    let j = scan_ws(s, from);
    if j == s.len() {
        return None;
    }
    let b = s[j];
    if b == 0x22 {
        match parse_str_body(s, j + 1) {
            Some(p) => Some((Scalar::Str(p.0), p.1)),
            None => None,
        }
    } else if (0x30 <= b && b <= 0x39) || b == 0x2d {
        let p = parse_num_run(s, j);
        proof {
            lemma_sp_num_bounds(s@, j as int);
        }
        assert(sp_num(s@, j as int).0[0] == s@[j as int]);
        Some((Scalar::Num(p.0), p.1))
    } else if match_lit4(s, j, 0x6e, 0x75, 0x6c, 0x6c) {
        assert(seq![0x6eu8, 0x75u8, 0x6cu8, 0x6cu8] =~= lit_null());
        Some((Scalar::Null, j + 4))
    } else if match_lit4(s, j, 0x74, 0x72, 0x75, 0x65) {
        proof {
            assert(seq![0x6eu8, 0x75u8, 0x6cu8, 0x6cu8] =~= lit_null());
            assert(seq![0x74u8, 0x72u8, 0x75u8, 0x65u8] =~= lit_true());
        }
        Some((Scalar::Bool(true), j + 4))
    } else if match_lit5(s, j, 0x66, 0x61, 0x6c, 0x73, 0x65) {
        proof {
            assert(seq![0x6eu8, 0x75u8, 0x6cu8, 0x6cu8] =~= lit_null());
            assert(seq![0x74u8, 0x72u8, 0x75u8, 0x65u8] =~= lit_true());
            assert(seq![0x66u8, 0x61u8, 0x6cu8, 0x73u8, 0x65u8] =~= lit_false());
        }
        Some((Scalar::Bool(false), j + 5))
    } else {
        proof {
            assert(seq![0x6eu8, 0x75u8, 0x6cu8, 0x6cu8] =~= lit_null());
            assert(seq![0x74u8, 0x72u8, 0x75u8, 0x65u8] =~= lit_true());
            assert(seq![0x66u8, 0x61u8, 0x6cu8, 0x73u8, 0x65u8] =~= lit_false());
        }
        None
    }
}

fn parse_obj_items_at(s: &Vec<u8>, from: usize) -> (r: Option<(Vec<(Vec<u8>, Scalar)>, usize)>)
    requires
        from <= s@.len(),
    ensures
        match r {
            Some(p) => sp_obj_items(s@, from as int) == Some((obj_view(p.0@), p.1 as int)) && from
                < p.1 <= s@.len(),
            None => sp_obj_items(s@, from as int) is None,
        },
    decreases s@.len() - from,
{
    let i1 = scan_ws(s, from);
    if i1 == s.len() {
        return None;
    }
    if s[i1] != 0x22 {
        return None;
    }
    match parse_str_body(s, i1 + 1) {
        None => None,
        Some((key, p1)) => {
            let i2 = scan_ws(s, p1);
            if i2 == s.len() {
                return None;
            }
            if s[i2] != 0x3a {
                return None;
            }
            match parse_scalar_at(s, i2 + 1) {
                None => None,
                Some((v, p2)) => {
                    let i3 = scan_ws(s, p2);
                    if i3 == s.len() {
                        return None;
                    }
                    if s[i3] == 0x7d {
                        let mut out: Vec<(Vec<u8>, Scalar)> = Vec::new();
                        let ghost kv = (key@, v@);
                        out.push((key, v));
                        proof {
                            assert(obj_view(out@) =~= seq![kv]);
                        }
                        Some((out, i3 + 1))
                    } else if s[i3] == 0x2c {
                        match parse_obj_items_at(s, i3 + 1) {
                            None => None,
                            Some((mut rest, p3)) => {
                                let ghost r0 = rest@;
                                let ghost kv = (key@, v@);
                                rest.insert(0, (key, v));
                                proof {
                                    assert(obj_view(rest@) =~= seq![kv] + obj_view(r0)) by {
                                        assert forall|k: int|
                                            0 <= k < rest@.len() implies obj_view(rest@)[k] == (
                                        seq![kv] + obj_view(r0))[k] by {
                                            if k > 0 {
                                                assert(rest@[k] == r0[k - 1]);
                                            }
                                        }
                                    }
                                }
                                Some((rest, p3))
                            },
                        }
                    } else {
                        None
                    }
                },
            }
        },
    }
}

pub(crate) fn parse_obj_at(s: &Vec<u8>, from: usize) -> (r: Option<(Vec<(Vec<u8>, Scalar)>, usize)>)
    requires
        from <= s@.len(),
    ensures
        match r {
            Some(p) => sp_obj(s@, from as int) == Some((obj_view(p.0@), p.1 as int)) && from < p.1
                <= s@.len(),
            None => sp_obj(s@, from as int) is None,
        },
{
    let i1 = scan_ws(s, from);
    if i1 == s.len() {
        return None;
    }
    if s[i1] != 0x7b {
        return None;
    }
    let i2 = scan_ws(s, i1 + 1);
    if i2 < s.len() && s[i2] == 0x7d {
        let out: Vec<(Vec<u8>, Scalar)> = Vec::new();
        proof {
            assert(obj_view(out@) =~= Seq::<(Seq<u8>, ScalarV)>::empty());
        }
        return Some((out, i2 + 1));
    }
    parse_obj_items_at(s, i1 + 1)
}

fn parse_arr_items_at(s: &Vec<u8>, from: usize) -> (r: Option<(Vec<Vec<u8>>, usize)>)
    requires
        from <= s@.len(),
    ensures
        match r {
            Some(p) => sp_arr_items(s@, from as int) == Some((arr_view(p.0@), p.1 as int)) && from
                < p.1 <= s@.len(),
            None => sp_arr_items(s@, from as int) is None,
        },
    decreases s@.len() - from,
{
    let i1 = scan_ws(s, from);
    if i1 == s.len() {
        return None;
    }
    if s[i1] != 0x22 {
        return None;
    }
    match parse_str_body(s, i1 + 1) {
        None => None,
        Some((item, p1)) => {
            let i2 = scan_ws(s, p1);
            if i2 == s.len() {
                return None;
            }
            if s[i2] == 0x5d {
                let mut out: Vec<Vec<u8>> = Vec::new();
                let ghost t = item@;
                out.push(item);
                proof {
                    assert(arr_view(out@) =~= seq![t]);
                }
                Some((out, i2 + 1))
            } else if s[i2] == 0x2c {
                match parse_arr_items_at(s, i2 + 1) {
                    None => None,
                    Some((mut rest, p2)) => {
                        let ghost r0 = rest@;
                        let ghost t = item@;
                        rest.insert(0, item);
                        proof {
                            assert(arr_view(rest@) =~= seq![t] + arr_view(r0)) by {
                                assert forall|k: int|
                                    0 <= k < rest@.len() implies arr_view(rest@)[k] == (seq![t]
                                    + arr_view(r0))[k] by {
                                    if k > 0 {
                                        assert(rest@[k] == r0[k - 1]);
                                    }
                                }
                            }
                        }
                        Some((rest, p2))
                    },
                }
            } else {
                None
            }
        },
    }
}

pub(crate) fn parse_arr_at(s: &Vec<u8>, from: usize) -> (r: Option<(Vec<Vec<u8>>, usize)>)
    requires
        from <= s@.len(),
    ensures
        match r {
            Some(p) => sp_arr(s@, from as int) == Some((arr_view(p.0@), p.1 as int)) && from < p.1
                <= s@.len(),
            None => sp_arr(s@, from as int) is None,
        },
{
    let i1 = scan_ws(s, from);
    if i1 == s.len() {
        return None;
    }
    if s[i1] != 0x5b {
        return None;
    }
    let i2 = scan_ws(s, i1 + 1);
    if i2 < s.len() && s[i2] == 0x5d {
        let out: Vec<Vec<u8>> = Vec::new();
        proof {
            assert(arr_view(out@) =~= Seq::<Seq<u8>>::empty());
        }
        return Some((out, i2 + 1));
    }
    parse_arr_items_at(s, i1 + 1)
}

/// Reads a whole properties blob; fails on any text outside the grammar.
pub fn parse_props(text: &Vec<u8>) -> (r: Option<Vec<(Vec<u8>, Scalar)>>)
    ensures
        match r {
            Some(v) => sp_obj_doc(text@) == Some(obj_view(v@)),
            None => sp_obj_doc(text@) is None,
        },
{
    match parse_obj_at(text, 0) {
        None => None,
        Some((v, p)) => {
            let e = scan_ws(text, p);
            if e == text.len() {
                Some(v)
            } else {
                None
            }
        },
    }
}

/// Reads a whole uses blob; fails on any text outside the grammar.
pub fn parse_uses(text: &Vec<u8>) -> (r: Option<Vec<Vec<u8>>>)
    ensures
        match r {
            Some(v) => sp_arr_doc(text@) == Some(arr_view(v@)),
            None => sp_arr_doc(text@) is None,
        },
{
    match parse_arr_at(text, 0) {
        None => None,
        Some((v, p)) => {
            let e = scan_ws(text, p);
            if e == text.len() {
                Some(v)
            } else {
                None
            }
        },
    }
}

/// Appends the written form of one scalar.
fn write_scalar(out: &mut Vec<u8>, v: &Scalar)
    ensures
        final(out)@ == old(out)@ + ser_scalar(v@),
{
    match v {
        Scalar::Null => {
            out.push(0x6e);
            out.push(0x75);
            out.push(0x6c);
            out.push(0x6c);
            assert(out@ =~= old(out)@ + lit_null());
        },
        Scalar::Bool(b) => {
            if *b {
                out.push(0x74);
                out.push(0x72);
                out.push(0x75);
                out.push(0x65);
                assert(out@ =~= old(out)@ + lit_true());
            } else {
                out.push(0x66);
                out.push(0x61);
                out.push(0x6c);
                out.push(0x73);
                out.push(0x65);
                assert(out@ =~= old(out)@ + lit_false());
            }
        },
        Scalar::Num(t) => {
            crate::bytes::push_all(out, t);
        },
        Scalar::Str(t) => {
            out.push(0x22);
            crate::bytes::push_all(out, t);
            out.push(0x22);
            assert(out@ =~= old(out)@ + (seq![0x22u8] + t@ + seq![0x22u8]));
        },
    }
}

proof fn lemma_ser_obj_items_push(items: ObjV, x: (Seq<u8>, ScalarV))
    ensures
        items.len() == 0 ==> ser_obj_items(items.push(x)) == ser_kv(x),
        items.len() > 0 ==> ser_obj_items(items.push(x)) == ser_obj_items(items) + seq![0x2cu8]
            + ser_kv(x),
    decreases items.len(),
{
    if items.len() == 0 {
        assert(items.push(x).len() == 1);
        assert(items.push(x)[0] == x);
    } else if items.len() == 1 {
        assert(items.push(x).drop_first() =~= seq![x]);
        assert(ser_obj_items(seq![x]) == ser_kv(seq![x][0]));
        assert(items.push(x)[0] == items[0]);
        assert(ser_obj_items(items.push(x)) =~= ser_obj_items(items) + seq![0x2cu8] + ser_kv(x));
    } else {
        lemma_ser_obj_items_push(items.drop_first(), x);
        assert(items.push(x).drop_first() =~= items.drop_first().push(x));
        assert(items.push(x)[0] == items[0]);
        assert(ser_obj_items(items.push(x)) =~= ser_obj_items(items) + seq![0x2cu8] + ser_kv(x));
    }
}

proof fn lemma_ser_arr_items_push(items: ArrV, x: Seq<u8>)
    ensures
        items.len() == 0 ==> ser_arr_items(items.push(x)) == ser_item(x),
        items.len() > 0 ==> ser_arr_items(items.push(x)) == ser_arr_items(items) + seq![0x2cu8]
            + ser_item(x),
    decreases items.len(),
{
    if items.len() == 0 {
        assert(items.push(x).len() == 1);
        assert(items.push(x)[0] == x);
    } else if items.len() == 1 {
        assert(items.push(x).drop_first() =~= seq![x]);
        assert(ser_arr_items(seq![x]) == ser_item(seq![x][0]));
        assert(items.push(x)[0] == items[0]);
        assert(ser_arr_items(items.push(x)) =~= ser_arr_items(items) + seq![0x2cu8] + ser_item(x));
    } else {
        lemma_ser_arr_items_push(items.drop_first(), x);
        assert(items.push(x).drop_first() =~= items.drop_first().push(x));
        assert(items.push(x)[0] == items[0]);
        assert(ser_arr_items(items.push(x)) =~= ser_arr_items(items) + seq![0x2cu8] + ser_item(x));
    }
}

/// Writes a flat attribute object as a properties blob.
pub fn write_obj(items: &Vec<(Vec<u8>, Scalar)>) -> (r: Vec<u8>)
    ensures
        r@ == ser_obj(obj_view(items@)),
{
    let ghost model: ObjV = obj_view(items@);
    let mut out: Vec<u8> = Vec::new();
    out.push(0x7b);
    let mut i: usize = 0;
    while i < items.len()
        invariant
            i <= items@.len(),
            model == obj_view(items@),
            out@ == seq![0x7bu8] + ser_obj_items(model.subrange(0, i as int)),
        decreases items@.len() - i,
    {
        if i > 0 {
            out.push(0x2c);
        }
        out.push(0x22);
        crate::bytes::push_all(&mut out, &items[i].0);
        out.push(0x22);
        out.push(0x3a);
        write_scalar(&mut out, &items[i].1);
        proof {
            let part = model.subrange(0, i as int);
            assert(model.subrange(0, i + 1) =~= part.push(model[i as int]));
            lemma_ser_obj_items_push(part, model[i as int]);
            assert(model[i as int] == (items@[i as int].0@, items@[i as int].1@));
            assert(ser_kv(model[i as int]) =~= seq![0x22u8] + items@[i as int].0@ + seq![
                0x22u8,
                0x3au8,
            ] + ser_scalar(items@[i as int].1@));
            if i == 0 {
                assert(out@ =~= seq![0x7bu8] + ser_obj_items(model.subrange(0, i + 1)));
            } else {
                assert(out@ =~= seq![0x7bu8] + ser_obj_items(model.subrange(0, i + 1)));
            }
        }
        i += 1;
    }
    out.push(0x7d);
    proof {
        assert(model.subrange(0, model.len() as int) =~= model);
        assert(out@ =~= ser_obj(model));
    }
    out
}

/// Writes a list of usage strings as a uses blob.
pub fn write_arr(items: &Vec<Vec<u8>>) -> (r: Vec<u8>)
    ensures
        r@ == ser_arr(arr_view(items@)),
{
    let ghost model: ArrV = arr_view(items@);
    let mut out: Vec<u8> = Vec::new();
    out.push(0x5b);
    let mut i: usize = 0;
    while i < items.len()
        invariant
            i <= items@.len(),
            model == arr_view(items@),
            out@ == seq![0x5bu8] + ser_arr_items(model.subrange(0, i as int)),
        decreases items@.len() - i,
    {
        if i > 0 {
            out.push(0x2c);
        }
        out.push(0x22);
        crate::bytes::push_all(&mut out, &items[i]);
        out.push(0x22);
        proof {
            let part = model.subrange(0, i as int);
            assert(model.subrange(0, i + 1) =~= part.push(model[i as int]));
            lemma_ser_arr_items_push(part, model[i as int]);
            assert(model[i as int] == items@[i as int]@);
            assert(ser_item(model[i as int]) =~= seq![0x22u8] + items@[i as int]@ + seq![0x22u8]);
            assert(out@ =~= seq![0x5bu8] + ser_arr_items(model.subrange(0, i + 1)));
        }
        i += 1;
    }
    out.push(0x5d);
    proof {
        assert(model.subrange(0, model.len() as int) =~= model);
        assert(out@ =~= ser_arr(model));
    }
    out
}

} // verus!
