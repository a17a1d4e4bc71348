//! The import document grammar: a mapping from scientific-name string to an
//! attributes object whose fields are scalars, arrays of strings, or flat
//! objects of scalars.  The whole document is read up front; text outside
//! the grammar is rejected before anything is loaded.

use vstd::prelude::*;

use crate::codec::{
    arr_view, lemma_sp_arr_bounds, lemma_sp_obj_bounds, lemma_sp_scalar_bounds,
    lemma_sp_str_bounds, lemma_sp_ws_bounds, obj_view, parse_arr_at, parse_obj_at, parse_scalar_at,
    parse_str_body, scan_ws, sp_arr, sp_obj, sp_scalar, sp_str, sp_ws, wf_arr, wf_obj, wf_scalar,
    wf_text, ArrV, ObjV, Scalar, ScalarV,
};

verus! {

/// One field value of an attributes object.
pub enum FieldValue {
    Sca(Scalar),
    Arr(Vec<Vec<u8>>),
    Obj(Vec<(Vec<u8>, Scalar)>),
}

/// The mathematical model of a [`FieldValue`].
pub enum FieldValueV {
    Sca(ScalarV),
    Arr(ArrV),
    Obj(ObjV),
}

impl View for FieldValue {
    type V = FieldValueV;

    open spec fn view(&self) -> FieldValueV {
        match self {
            FieldValue::Sca(v) => FieldValueV::Sca(v@),
            FieldValue::Arr(v) => FieldValueV::Arr(arr_view(v@)),
            FieldValue::Obj(v) => FieldValueV::Obj(obj_view(v@)),
        }
    }
}

/// The model of one attributes object: a keyed list of field values.
pub type EntryV = Seq<(Seq<u8>, FieldValueV)>;

/// The model of a whole document: scientific names with their attributes.
pub type DocV = Seq<(Seq<u8>, EntryV)>;

/// An executable attributes object.
pub type Entry = Vec<(Vec<u8>, FieldValue)>;

/// An executable parsed document.
pub type Doc = Vec<(Vec<u8>, Entry)>;

/// View of an executable attributes object.
pub open spec fn entry_view(v: Seq<(Vec<u8>, FieldValue)>) -> EntryV {
    Seq::new(v.len(), |i: int| (v[i].0@, v[i].1@))
}

/// View of an executable parsed document.
pub open spec fn doc_view(v: Seq<(Vec<u8>, Entry)>) -> DocV {
    Seq::new(v.len(), |i: int| (v[i].0@, entry_view(v[i].1@)))
}

/// Well-formed field value: its strings carry no quote or backslash.
pub open spec fn wf_value(v: FieldValueV) -> bool {
    match v {
        FieldValueV::Sca(x) => wf_scalar(x),
        FieldValueV::Arr(x) => wf_arr(x),
        FieldValueV::Obj(x) => wf_obj(x),
    }
}

/// Well-formed attributes object.
pub open spec fn wf_entry(e: EntryV) -> bool {
    forall|i: int| 0 <= i < e.len() ==> wf_text(#[trigger] e[i].0) && wf_value(e[i].1)
}

/// Well-formed document.
pub open spec fn wf_doc(d: DocV) -> bool {
    forall|i: int| 0 <= i < d.len() ==> wf_text(#[trigger] d[i].0) && wf_entry(d[i].1)
}

/// One field value read from `i`: a flat object, a string array, or a
/// scalar, told apart by the first byte after any whitespace.
pub open spec fn sp_value(s: Seq<u8>, i: int) -> Option<(FieldValueV, int)> {
    let i1 = sp_ws(s, i);
    if i < 0 || i1 >= s.len() {
        None
    } else if s[i1] == 0x7b {
        match sp_obj(s, i) {
            Some(p) => Some((FieldValueV::Obj(p.0), p.1)),
            None => None,
        }
    } else if s[i1] == 0x5b {
        match sp_arr(s, i) {
            Some(p) => Some((FieldValueV::Arr(p.0), p.1)),
            None => None,
        }
    } else {
        match sp_scalar(s, i) {
            Some(p) => Some((FieldValueV::Sca(p.0), p.1)),
            None => None,
        }
    }
}

pub(crate) proof fn lemma_sp_value_bounds(s: Seq<u8>, i: int)
    requires
        0 <= i <= s.len(),
    ensures
        sp_value(s, i) is Some ==> i < sp_value(s, i)->Some_0.1 <= s.len(),
        sp_value(s, i) is Some ==> wf_value(sp_value(s, i)->Some_0.0),
{
    lemma_sp_ws_bounds(s, i);
    lemma_sp_obj_bounds(s, i);
    lemma_sp_arr_bounds(s, i);
    lemma_sp_scalar_bounds(s, i);
}

/// The items of a nonempty attributes object read from `i` (after the
/// opening brace).
pub open spec fn sp_entry_items(s: Seq<u8>, i: int) -> Option<(EntryV, int)>
    decreases s.len() - i,
    via sp_entry_items_dec
{
    let i1 = sp_ws(s, i);
    if i < 0 || i1 >= s.len() || s[i1] != 0x22 {
        None
    } else {
        match sp_str(s, i1 + 1) {
            None => None,
            Some(kp) => {
                let i2 = sp_ws(s, kp.1);
                if i2 >= s.len() || s[i2] != 0x3a {
                    None
                } else {
                    match sp_value(s, i2 + 1) {
                        None => None,
                        Some(vp) => {
                            let i3 = sp_ws(s, vp.1);
                            if i3 >= s.len() {
                                None
                            } else if s[i3] == 0x7d {
                                Some((seq![(kp.0, vp.0)], i3 + 1))
                            } else if s[i3] == 0x2c {
                                match sp_entry_items(s, i3 + 1) {
                                    None => None,
                                    Some(rest) => Some((seq![(kp.0, vp.0)] + rest.0, rest.1)),
                                }
                            } else {
                                None
                            }
                        },
                    }
                }
            },
        }
    }
}

#[via_fn]
proof fn sp_entry_items_dec(s: Seq<u8>, i: int) {
    if 0 <= i <= s.len() {
        lemma_sp_ws_bounds(s, i);
        let i1 = sp_ws(s, i);
        if i1 < s.len() && s[i1] == 0x22 {
            lemma_sp_str_bounds(s, i1 + 1);
            match sp_str(s, i1 + 1) {
                None => {},
                Some(kp) => {
                    lemma_sp_ws_bounds(s, kp.1);
                    let i2 = sp_ws(s, kp.1);
                    if i2 < s.len() && s[i2] == 0x3a {
                        lemma_sp_value_bounds(s, i2 + 1);
                        match sp_value(s, i2 + 1) {
                            None => {},
                            Some(vp) => {
                                lemma_sp_ws_bounds(s, vp.1);
                            },
                        }
                    }
                },
            }
        }
    }
}

pub(crate) proof fn lemma_sp_entry_items_bounds(s: Seq<u8>, i: int)
    requires
        0 <= i <= s.len(),
    ensures
        sp_entry_items(s, i) is Some ==> i < sp_entry_items(s, i)->Some_0.1 <= s.len(),
        sp_entry_items(s, i) is Some ==> wf_entry(sp_entry_items(s, i)->Some_0.0),
    decreases s.len() - i,
{
    lemma_sp_ws_bounds(s, i);
    let i1 = sp_ws(s, i);
    if i1 < s.len() && s[i1] == 0x22 {
        lemma_sp_str_bounds(s, i1 + 1);
        match sp_str(s, i1 + 1) {
            None => {},
            Some(kp) => {
                lemma_sp_ws_bounds(s, kp.1);
                let i2 = sp_ws(s, kp.1);
                if i2 < s.len() && s[i2] == 0x3a {
                    lemma_sp_value_bounds(s, i2 + 1);
                    match sp_value(s, i2 + 1) {
                        None => {},
                        Some(vp) => {
                            lemma_sp_ws_bounds(s, vp.1);
                            let i3 = sp_ws(s, vp.1);
                            let item = (kp.0, vp.0);
                            if i3 < s.len() && s[i3] == 0x7d {
                                assert(seq![item][0] == item);
                            } else if i3 < s.len() && s[i3] == 0x2c {
                                lemma_sp_entry_items_bounds(s, i3 + 1);
                                match sp_entry_items(s, i3 + 1) {
                                    None => {},
                                    Some(rest) => {
                                        let all = seq![item] + rest.0;
                                        assert forall|k: int| 0 <= k < all.len() implies wf_text(
                                            #[trigger] all[k].0,
                                        ) && wf_value(all[k].1) by {
                                            if k == 0 {
                                                assert(all[0] == item);
                                            } else {
                                                assert(all[k] == rest.0[k - 1]);
                                            }
                                        }
                                    },
                                }
                            }
                        },
                    }
                }
            },
        }
    }
}

/// One attributes object read from `i`.
pub open spec fn sp_entry(s: Seq<u8>, i: int) -> Option<(EntryV, int)> {
    let i1 = sp_ws(s, i);
    if 0 <= i && i1 < s.len() && s[i1] == 0x7b {
        let i2 = sp_ws(s, i1 + 1);
        if i2 < s.len() && s[i2] == 0x7d {
            Some((Seq::empty(), i2 + 1))
        } else {
            sp_entry_items(s, i1 + 1)
        }
    } else {
        None
    }
}

pub(crate) proof fn lemma_sp_entry_bounds(s: Seq<u8>, i: int)
    requires
        0 <= i <= s.len(),
    ensures
        sp_entry(s, i) is Some ==> i < sp_entry(s, i)->Some_0.1 <= s.len(),
        sp_entry(s, i) is Some ==> wf_entry(sp_entry(s, i)->Some_0.0),
{
    lemma_sp_ws_bounds(s, i);
    let i1 = sp_ws(s, i);
    if i1 < s.len() && s[i1] == 0x7b {
        lemma_sp_ws_bounds(s, i1 + 1);
        lemma_sp_entry_items_bounds(s, i1 + 1);
    }
}

/// The items of a nonempty document read from `i` (after the opening
/// brace): scientific name, colon, attributes object.
pub open spec fn sp_doc_items(s: Seq<u8>, i: int) -> Option<(DocV, int)>
    decreases s.len() - i,
    via sp_doc_items_dec
{
    let i1 = sp_ws(s, i);
    if i < 0 || i1 >= s.len() || s[i1] != 0x22 {
        None
    } else {
        match sp_str(s, i1 + 1) {
            None => None,
            Some(kp) => {
                let i2 = sp_ws(s, kp.1);
                if i2 >= s.len() || s[i2] != 0x3a {
                    None
                } else {
                    match sp_entry(s, i2 + 1) {
                        None => None,
                        Some(vp) => {
                            let i3 = sp_ws(s, vp.1);
                            if i3 >= s.len() {
                                None
                            } else if s[i3] == 0x7d {
                                Some((seq![(kp.0, vp.0)], i3 + 1))
                            } else if s[i3] == 0x2c {
                                match sp_doc_items(s, i3 + 1) {
                                    None => None,
                                    Some(rest) => Some((seq![(kp.0, vp.0)] + rest.0, rest.1)),
                                }
                            } else {
                                None
                            }
                        },
                    }
                }
            },
        }
    }
}

#[via_fn]
proof fn sp_doc_items_dec(s: Seq<u8>, i: int) {
    if 0 <= i <= s.len() {
        lemma_sp_ws_bounds(s, i);
        let i1 = sp_ws(s, i);
        if i1 < s.len() && s[i1] == 0x22 {
            lemma_sp_str_bounds(s, i1 + 1);
            match sp_str(s, i1 + 1) {
                None => {},
                Some(kp) => {
                    lemma_sp_ws_bounds(s, kp.1);
                    let i2 = sp_ws(s, kp.1);
                    if i2 < s.len() && s[i2] == 0x3a {
                        lemma_sp_entry_bounds(s, i2 + 1);
                        match sp_entry(s, i2 + 1) {
                            None => {},
                            Some(vp) => {
                                lemma_sp_ws_bounds(s, vp.1);
                            },
                        }
                    }
                },
            }
        }
    }
}

pub(crate) proof fn lemma_sp_doc_items_bounds(s: Seq<u8>, i: int)
    requires
        0 <= i <= s.len(),
    ensures
        sp_doc_items(s, i) is Some ==> i < sp_doc_items(s, i)->Some_0.1 <= s.len(),
        sp_doc_items(s, i) is Some ==> wf_doc(sp_doc_items(s, i)->Some_0.0),
    decreases s.len() - i,
{
    lemma_sp_ws_bounds(s, i);
    let i1 = sp_ws(s, i);
    if i1 < s.len() && s[i1] == 0x22 {
        lemma_sp_str_bounds(s, i1 + 1);
        match sp_str(s, i1 + 1) {
            None => {},
            Some(kp) => {
                lemma_sp_ws_bounds(s, kp.1);
                let i2 = sp_ws(s, kp.1);
                if i2 < s.len() && s[i2] == 0x3a {
                    lemma_sp_entry_bounds(s, i2 + 1);
                    match sp_entry(s, i2 + 1) {
                        None => {},
                        Some(vp) => {
                            lemma_sp_ws_bounds(s, vp.1);
                            let i3 = sp_ws(s, vp.1);
                            let item = (kp.0, vp.0);
                            if i3 < s.len() && s[i3] == 0x7d {
                                assert(seq![item][0] == item);
                            } else if i3 < s.len() && s[i3] == 0x2c {
                                lemma_sp_doc_items_bounds(s, i3 + 1);
                                match sp_doc_items(s, i3 + 1) {
                                    None => {},
                                    Some(rest) => {
                                        let all = seq![item] + rest.0;
                                        assert forall|k: int| 0 <= k < all.len() implies wf_text(
                                            #[trigger] all[k].0,
                                        ) && wf_entry(all[k].1) by {
                                            if k == 0 {
                                                assert(all[0] == item);
                                            } else {
                                                assert(all[k] == rest.0[k - 1]);
                                            }
                                        }
                                    },
                                }
                            }
                        },
                    }
                }
            },
        }
    }
}

/// The document object read from `i`.
pub open spec fn sp_doc(s: Seq<u8>, i: int) -> Option<(DocV, int)> {
    let i1 = sp_ws(s, i);
    if 0 <= i && i1 < s.len() && s[i1] == 0x7b {
        let i2 = sp_ws(s, i1 + 1);
        if i2 < s.len() && s[i2] == 0x7d {
            Some((Seq::empty(), i2 + 1))
        } else {
            sp_doc_items(s, i1 + 1)
        }
    } else {
        None
    }
}

/// A whole import document: one document object and nothing after it.
pub open spec fn sp_document(s: Seq<u8>) -> Option<DocV> {
    match sp_doc(s, 0) {
        Some(p) => if sp_ws(s, p.1) == s.len() {
            Some(p.0)
        } else {
            None
        },
        None => None,
    }
}

/// Every entry of a parsed document is well-formed: its strings can be
/// written back without escape sequences.
pub proof fn lemma_sp_document_wf(s: Seq<u8>)
    requires
        sp_document(s) is Some,
    ensures
        wf_doc(sp_document(s)->Some_0),
{
    lemma_sp_ws_bounds(s, 0);
    let i1 = sp_ws(s, 0);
    if i1 < s.len() && s[i1] == 0x7b {
        lemma_sp_ws_bounds(s, i1 + 1);
        lemma_sp_doc_items_bounds(s, i1 + 1);
    }
}

fn parse_value_at(s: &Vec<u8>, from: usize) -> (r: Option<(FieldValue, usize)>)
    requires
        from <= s@.len(),
    ensures
        match r {
            Some(p) => sp_value(s@, from as int) == Some((p.0@, p.1 as int)) && from < p.1
                <= s@.len(),
            None => sp_value(s@, from as int) is None,
        },
{
    let i1 = scan_ws(s, from);
    if i1 == s.len() {
        return None;
    }
    let b = s[i1];
    if b == 0x7b {
        match parse_obj_at(s, from) {
            Some(p) => Some((FieldValue::Obj(p.0), p.1)),
            None => None,
        }
    } else if b == 0x5b {
        match parse_arr_at(s, from) {
            Some(p) => Some((FieldValue::Arr(p.0), p.1)),
            None => None,
        }
    } else {
        match parse_scalar_at(s, from) {
            Some(p) => Some((FieldValue::Sca(p.0), p.1)),
            None => None,
        }
    }
}

fn parse_entry_items_at(s: &Vec<u8>, from: usize) -> (r: Option<(Entry, usize)>)
    requires
        from <= s@.len(),
    ensures
        match r {
            Some(p) => sp_entry_items(s@, from as int) == Some((entry_view(p.0@), p.1 as int))
                && from < p.1 <= s@.len(),
            None => sp_entry_items(s@, from as int) is None,
        },
    decreases s@.len() - from,
{
    let i1 = scan_ws(s, from);
    if i1 == s.len() {
        return None;
    }
    if s[i1] != 0x22 {
        return None;
    }
    match parse_str_body(s, i1 + 1) {
        None => None,
        Some((key, p1)) => {
            let i2 = scan_ws(s, p1);
            if i2 == s.len() {
                return None;
            }
            if s[i2] != 0x3a {
                return None;
            }
            match parse_value_at(s, i2 + 1) {
                None => None,
                Some((v, p2)) => {
                    let i3 = scan_ws(s, p2);
                    if i3 == s.len() {
                        return None;
                    }
                    if s[i3] == 0x7d {
                        let mut out: Entry = Vec::new();
                        let ghost kv = (key@, v@);
                        out.push((key, v));
                        proof {
                            assert(entry_view(out@) =~= seq![kv]);
                        }
                        Some((out, i3 + 1))
                    } else if s[i3] == 0x2c {
                        match parse_entry_items_at(s, i3 + 1) {
                            None => None,
                            Some((mut rest, p3)) => {
                                let ghost r0 = rest@;
                                let ghost kv = (key@, v@);
                                rest.insert(0, (key, v));
                                proof {
                                    assert(entry_view(rest@) =~= seq![kv] + entry_view(r0)) by {
                                        assert forall|k: int|
                                            0 <= k < rest@.len() implies entry_view(rest@)[k] == (
                                        seq![kv] + entry_view(r0))[k] by {
                                            if k > 0 {
                                                assert(rest@[k] == r0[k - 1]);
                                            }
                                        }
                                    }
                                }
                                Some((rest, p3))
                            },
                        }
                    } else {
                        None
                    }
                },
            }
        },
    }
}

fn parse_entry_at(s: &Vec<u8>, from: usize) -> (r: Option<(Entry, usize)>)
    requires
        from <= s@.len(),
    ensures
        match r {
            Some(p) => sp_entry(s@, from as int) == Some((entry_view(p.0@), p.1 as int)) && from
                < p.1 <= s@.len(),
            None => sp_entry(s@, from as int) is None,
        },
{
    let i1 = scan_ws(s, from);
    if i1 == s.len() {
        return None;
    }
    if s[i1] != 0x7b {
        return None;
    }
    let i2 = scan_ws(s, i1 + 1);
    if i2 < s.len() && s[i2] == 0x7d {
        let out: Entry = Vec::new();
        proof {
            assert(entry_view(out@) =~= Seq::<(Seq<u8>, FieldValueV)>::empty());
        }
        return Some((out, i2 + 1));
    }
    parse_entry_items_at(s, i1 + 1)
}

fn parse_doc_items_at(s: &Vec<u8>, from: usize) -> (r: Option<(Doc, usize)>)
    requires
        from <= s@.len(),
    ensures
        match r {
            Some(p) => sp_doc_items(s@, from as int) == Some((doc_view(p.0@), p.1 as int)) && from
                < p.1 <= s@.len(),
            None => sp_doc_items(s@, from as int) is None,
        },
    decreases s@.len() - from,
{
    let i1 = scan_ws(s, from);
    if i1 == s.len() {
        return None;
    }
    if s[i1] != 0x22 {
        return None;
    }
    match parse_str_body(s, i1 + 1) {
        None => None,
        Some((key, p1)) => {
            let i2 = scan_ws(s, p1);
            if i2 == s.len() {
                return None;
            }
            if s[i2] != 0x3a {
                return None;
            }
            match parse_entry_at(s, i2 + 1) {
                None => None,
                Some((v, p2)) => {
                    let i3 = scan_ws(s, p2);
                    if i3 == s.len() {
                        return None;
                    }
                    if s[i3] == 0x7d {
                        let mut out: Doc = Vec::new();
                        let ghost kv = (key@, entry_view(v@));
                        out.push((key, v));
                        proof {
                            assert(doc_view(out@) =~= seq![kv]);
                        }
                        Some((out, i3 + 1))
                    } else if s[i3] == 0x2c {
                        match parse_doc_items_at(s, i3 + 1) {
                            None => None,
                            Some((mut rest, p3)) => {
                                let ghost r0 = rest@;
                                let ghost kv = (key@, entry_view(v@));
                                rest.insert(0, (key, v));
                                proof {
                                    assert(doc_view(rest@) =~= seq![kv] + doc_view(r0)) by {
                                        assert forall|k: int|
                                            0 <= k < rest@.len() implies doc_view(rest@)[k] == (
                                        seq![kv] + doc_view(r0))[k] by {
                                            if k > 0 {
                                                assert(rest@[k] == r0[k - 1]);
                                            }
                                        }
                                    }
                                }
                                Some((rest, p3))
                            },
                        }
                    } else {
                        None
                    }
                },
            }
        },
    }
}

/// Reads a whole import document; fails on any text outside the grammar.
pub fn parse_document(text: &Vec<u8>) -> (r: Option<Doc>)
    ensures
        match r {
            Some(d) => sp_document(text@) == Some(doc_view(d@)),
            None => sp_document(text@) is None,
        },
{
    let i1 = scan_ws(text, 0);
    if i1 == text.len() {
        return None;
    }
    if text[i1] != 0x7b {
        return None;
    }
    let i2 = scan_ws(text, i1 + 1);
    let inner: Option<(Doc, usize)> = if i2 < text.len() && text[i2] == 0x7d {
        let out: Doc = Vec::new();
        proof {
            assert(doc_view(out@) =~= Seq::<(Seq<u8>, EntryV)>::empty());
        }
        Some((out, i2 + 1))
    } else {
        parse_doc_items_at(text, i1 + 1)
    };
    match inner {
        None => None,
        Some((d, p)) => {
            let e = scan_ws(text, p);
            if e == text.len() {
                Some(d)
            } else {
                None
            }
        },
    }
}

} // verus!
