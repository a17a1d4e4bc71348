//! The one-time bulk loader.  It turns a parsed import document into
//! species rows plus derived label rows, inside one all-or-nothing pass:
//! the document is parsed and shape-checked in full before the first row is
//! written, so a malformed document leaves the store exactly as it was.
//!
//! Two policies exist on purpose: the bootstrap load is a no-op when any
//! species row is already present, while the administrative re-import
//! replaces the species row carrying the same scientific name.

use vstd::prelude::*;

use crate::bytes::{clone_bytes, eq_bytes, join_names, join_names_of, name_fragment,
    name_fragment_of, push_all};
use crate::codec::{arr_view, obj_view, ser_arr, ser_obj, write_arr, write_obj, ArrV, ObjV, Scalar,
    ScalarV};
use crate::document::{doc_view, entry_view, parse_document, sp_document, Doc, DocV, Entry, EntryV,
    FieldValue, FieldValueV};
use crate::store::{first_where, label_present, labels_view, lemma_first_where, species_view,
    wf_store, ModelLabel, ModelLabelV, Species, SpeciesV, Store, StoreV};

verus! {

/// Load failure.  A document outside the expected nested structure aborts
/// before anything is written; a failing backing store surfaces as a
/// storage failure at the persistence edge (never from the in-memory
/// tables).
#[derive(Debug, PartialEq, Eq)]
pub enum LoadError {
    MalformedInput,
    StorageFailure,
}

/// The bytes of the `family` field name.
pub open spec fn key_family() -> Seq<u8> {
    seq![0x66u8, 0x61u8, 0x6du8, 0x69u8, 0x6cu8, 0x79u8]
}

fn k_family() -> (r: Vec<u8>)
    ensures
        r@ == key_family(),
{
    let v: Vec<u8> = vec![0x66u8, 0x61, 0x6d, 0x69, 0x6c, 0x79];
    proof {
        assert(v@ =~= key_family());
    }
    v
}

/// The bytes of the `local_name` field name.
pub open spec fn key_local_name() -> Seq<u8> {
    seq![0x6cu8, 0x6fu8, 0x63u8, 0x61u8, 0x6cu8, 0x5fu8, 0x6eu8, 0x61u8, 0x6du8, 0x65u8]
}

fn k_local_name() -> (r: Vec<u8>)
    ensures
        r@ == key_local_name(),
{
    let v: Vec<u8> = vec![0x6cu8, 0x6f, 0x63, 0x61, 0x6c, 0x5f, 0x6e, 0x61, 0x6d, 0x65];
    proof {
        assert(v@ =~= key_local_name());
    }
    v
}

/// The bytes of the `notes` field name.
pub open spec fn key_notes() -> Seq<u8> {
    seq![0x6eu8, 0x6fu8, 0x74u8, 0x65u8, 0x73u8]
}

fn k_notes() -> (r: Vec<u8>)
    ensures
        r@ == key_notes(),
{
    let v: Vec<u8> = vec![0x6eu8, 0x6f, 0x74, 0x65, 0x73];
    proof {
        assert(v@ =~= key_notes());
    }
    v
}

/// The bytes of the `usages` field name.
pub open spec fn key_usages() -> Seq<u8> {
    seq![0x75u8, 0x73u8, 0x61u8, 0x67u8, 0x65u8, 0x73u8]
}

fn k_usages() -> (r: Vec<u8>)
    ensures
        r@ == key_usages(),
{
    let v: Vec<u8> = vec![0x75u8, 0x73, 0x61, 0x67, 0x65, 0x73];
    proof {
        assert(v@ =~= key_usages());
    }
    v
}

/// The bytes of the `wood_anatomy` field name.
pub open spec fn key_wood_anatomy() -> Seq<u8> {
    seq![0x77u8, 0x6fu8, 0x6fu8, 0x64u8, 0x5fu8, 0x61u8, 0x6eu8, 0x61u8, 0x74u8, 0x6fu8, 0x6du8, 0x79u8]
}

fn k_wood_anatomy() -> (r: Vec<u8>)
    ensures
        r@ == key_wood_anatomy(),
{
    let v: Vec<u8> = vec![0x77u8, 0x6f, 0x6f, 0x64, 0x5f, 0x61, 0x6e, 0x61, 0x74, 0x6f, 0x6d, 0x79];
    proof {
        assert(v@ =~= key_wood_anatomy());
    }
    v
}

/// The fixed allow-list of scalar attribute keys copied verbatim into the
/// properties blob: heights, bark thickness, shade and phenology flags,
/// deciduousness.
pub open spec fn allow_keys() -> Seq<Seq<u8>> {
    seq![
        seq![0x74u8, 0x72u8, 0x65u8, 0x65u8, 0x5fu8, 0x68u8, 0x65u8, 0x69u8, 0x67u8, 0x68u8, 0x74u8, 0x5fu8, 0x6du8],
        seq![0x74u8, 0x72u8, 0x65u8, 0x65u8, 0x5fu8, 0x68u8, 0x65u8, 0x69u8, 0x67u8, 0x68u8, 0x74u8, 0x5fu8, 0x72u8, 0x61u8, 0x6eu8, 0x67u8, 0x65u8],
        seq![0x62u8, 0x61u8, 0x72u8, 0x6bu8, 0x5fu8, 0x74u8, 0x68u8, 0x69u8, 0x63u8, 0x6bu8, 0x6eu8, 0x65u8, 0x73u8, 0x73u8, 0x5fu8, 0x6du8, 0x6du8],
        seq![0x62u8, 0x61u8, 0x72u8, 0x6bu8, 0x5fu8, 0x74u8, 0x68u8, 0x69u8, 0x63u8, 0x6bu8, 0x6eu8, 0x65u8, 0x73u8, 0x73u8, 0x5fu8, 0x72u8, 0x61u8, 0x6eu8, 0x67u8, 0x65u8],
        seq![0x73u8, 0x68u8, 0x61u8, 0x64u8, 0x65u8, 0x5fu8, 0x74u8, 0x6fu8, 0x6cu8, 0x65u8, 0x72u8, 0x61u8, 0x6eu8, 0x74u8],
        seq![0x73u8, 0x68u8, 0x61u8, 0x64u8, 0x65u8, 0x5fu8, 0x69u8, 0x6eu8, 0x74u8, 0x6fu8, 0x6cu8, 0x65u8, 0x72u8, 0x61u8, 0x6eu8, 0x74u8],
        seq![0x66u8, 0x6cu8, 0x6fu8, 0x77u8, 0x65u8, 0x72u8, 0x69u8, 0x6eu8, 0x67u8, 0x5fu8, 0x74u8, 0x69u8, 0x6du8, 0x65u8],
        seq![0x66u8, 0x72u8, 0x75u8, 0x69u8, 0x74u8, 0x69u8, 0x6eu8, 0x67u8, 0x5fu8, 0x74u8, 0x69u8, 0x6du8, 0x65u8],
        seq![0x64u8, 0x65u8, 0x63u8, 0x69u8, 0x64u8, 0x75u8, 0x6fu8, 0x75u8, 0x73u8],
    ]
}

fn allow_keys_exec() -> (r: Vec<Vec<u8>>)
    ensures
        r@.len() == allow_keys().len(),
        forall|i: int| 0 <= i < r@.len() ==> (#[trigger] r@[i])@ == allow_keys()[i],
{
    let mut r: Vec<Vec<u8>> = Vec::new();
    let v0: Vec<u8> = vec![0x74u8, 0x72, 0x65, 0x65, 0x5f, 0x68, 0x65, 0x69, 0x67, 0x68, 0x74, 0x5f, 0x6d];
    let v1: Vec<u8> = vec![0x74u8, 0x72, 0x65, 0x65, 0x5f, 0x68, 0x65, 0x69, 0x67, 0x68, 0x74, 0x5f, 0x72, 0x61, 0x6e, 0x67, 0x65];
    let v2: Vec<u8> = vec![0x62u8, 0x61, 0x72, 0x6b, 0x5f, 0x74, 0x68, 0x69, 0x63, 0x6b, 0x6e, 0x65, 0x73, 0x73, 0x5f, 0x6d, 0x6d];
    let v3: Vec<u8> = vec![0x62u8, 0x61, 0x72, 0x6b, 0x5f, 0x74, 0x68, 0x69, 0x63, 0x6b, 0x6e, 0x65, 0x73, 0x73, 0x5f, 0x72, 0x61, 0x6e, 0x67, 0x65];
    let v4: Vec<u8> = vec![0x73u8, 0x68, 0x61, 0x64, 0x65, 0x5f, 0x74, 0x6f, 0x6c, 0x65, 0x72, 0x61, 0x6e, 0x74];
    let v5: Vec<u8> = vec![0x73u8, 0x68, 0x61, 0x64, 0x65, 0x5f, 0x69, 0x6e, 0x74, 0x6f, 0x6c, 0x65, 0x72, 0x61, 0x6e, 0x74];
    let v6: Vec<u8> = vec![0x66u8, 0x6c, 0x6f, 0x77, 0x65, 0x72, 0x69, 0x6e, 0x67, 0x5f, 0x74, 0x69, 0x6d, 0x65];
    let v7: Vec<u8> = vec![0x66u8, 0x72, 0x75, 0x69, 0x74, 0x69, 0x6e, 0x67, 0x5f, 0x74, 0x69, 0x6d, 0x65];
    let v8: Vec<u8> = vec![0x64u8, 0x65, 0x63, 0x69, 0x64, 0x75, 0x6f, 0x75, 0x73];
    r.push(v0);
    r.push(v1);
    r.push(v2);
    r.push(v3);
    r.push(v4);
    r.push(v5);
    r.push(v6);
    r.push(v7);
    r.push(v8);
    proof {
        assert forall|i: int| 0 <= i < r@.len() implies (#[trigger] r@[i])@ == allow_keys()[i] by {
            assert(r@[i]@ =~= allow_keys()[i]);
        }
    }
    r
}

/// The first field of `e` under `key`, in document order.
pub open spec fn lookup(e: EntryV, key: Seq<u8>) -> Option<FieldValueV>
    decreases e.len(),
{
    if e.len() == 0 {
        None
    } else if e[0].0 == key {
        Some(e[0].1)
    } else {
        lookup(e.drop_first(), key)
    }
}

/// What [`lookup`] returns: the value of the first field under `key`, or
/// nothing when no field carries it.
pub proof fn lemma_lookup(e: EntryV, key: Seq<u8>)
    ensures
        match lookup(e, key) {
            Some(v) => exists|i: int|
                0 <= i < e.len() && (#[trigger] e[i]).0 == key && e[i].1 == v && forall|j: int|
                    0 <= j < i ==> e[j].0 != key,
            None => forall|j: int| 0 <= j < e.len() ==> (#[trigger] e[j]).0 != key,
        },
    decreases e.len(),
{
    if e.len() > 0 && e[0].0 != key {
        lemma_lookup(e.drop_first(), key);
        let t = e.drop_first();
        match lookup(e, key) {
            Some(v) => {
                let i0 = choose|i: int|
                    0 <= i < t.len() && (#[trigger] t[i]).0 == key && t[i].1 == v && forall|j: int|
                        0 <= j < i ==> t[j].0 != key;
                assert(e[i0 + 1] == t[i0]);
                assert forall|j: int| 0 <= j < i0 + 1 implies e[j].0 != key by {
                    if j > 0 {
                        assert(e[j] == t[j - 1]);
                    }
                }
                assert(0 <= i0 + 1 < e.len() && e[i0 + 1].0 == key && e[i0 + 1].1 == v
                    && forall|j: int| 0 <= j < i0 + 1 ==> e[j].0 != key);
            },
            None => {
                assert forall|j: int| 0 <= j < e.len() implies (#[trigger] e[j]).0 != key by {
                    if j > 0 {
                        assert(e[j] == t[j - 1]);
                    }
                }
            },
        }
    }
}

/// The `family` value, or empty when absent.
pub open spec fn family_of(e: EntryV) -> Seq<u8> {
    match lookup(e, key_family()) {
        Some(FieldValueV::Sca(ScalarV::Str(s))) => s,
        _ => Seq::empty(),
    }
}

/// The `local_name` list, when present.
pub open spec fn local_names_of(e: EntryV) -> Option<ArrV> {
    match lookup(e, key_local_name()) {
        Some(FieldValueV::Arr(xs)) => Some(xs),
        _ => None,
    }
}

/// The derived common name: the comma-joined local names, or the
/// scientific name when the entry lists none.
pub open spec fn common_name_of(e: EntryV, name: Seq<u8>) -> Seq<u8> {
    match local_names_of(e) {
        Some(xs) => join_names(xs),
        None => name,
    }
}

/// The `notes` value, which becomes the description, or empty.
pub open spec fn description_of(e: EntryV) -> Seq<u8> {
    match lookup(e, key_notes()) {
        Some(FieldValueV::Sca(ScalarV::Str(s))) => s,
        _ => Seq::empty(),
    }
}

/// The `usages` list, or empty when absent.
pub open spec fn usages_of(e: EntryV) -> ArrV {
    match lookup(e, key_usages()) {
        Some(FieldValueV::Arr(xs)) => xs,
        _ => Seq::empty(),
    }
}

/// The `wood_anatomy` object, or empty when absent.
pub open spec fn wood_of(e: EntryV) -> ObjV {
    match lookup(e, key_wood_anatomy()) {
        Some(FieldValueV::Obj(m)) => m,
        _ => Seq::empty(),
    }
}

/// The allow-listed scalar attributes present in `e`, in allow-list order.
pub open spec fn extras_of(e: EntryV, keys: Seq<Seq<u8>>) -> ObjV
    decreases keys.len(),
{
    if keys.len() == 0 {
        Seq::empty()
    } else {
        (match lookup(e, keys[0]) {
            Some(FieldValueV::Sca(v)) => seq![(keys[0], v)],
            _ => Seq::empty(),
        }) + extras_of(e, keys.drop_first())
    }
}

/// The derived properties object: the flattened wood anatomy followed by
/// the allow-listed scalars.
pub open spec fn props_of(e: EntryV) -> ObjV {
    wood_of(e) + extras_of(e, allow_keys())
}

/// A field that must be a string when present.
pub open spec fn field_ok_str(e: EntryV, key: Seq<u8>) -> bool {
    match lookup(e, key) {
        None => true,
        Some(FieldValueV::Sca(ScalarV::Str(_))) => true,
        _ => false,
    }
}

/// A field that must be an array of strings when present.
pub open spec fn field_ok_arr(e: EntryV, key: Seq<u8>) -> bool {
    match lookup(e, key) {
        None => true,
        Some(FieldValueV::Arr(_)) => true,
        _ => false,
    }
}

/// A field that must be a flat object when present.
pub open spec fn field_ok_obj(e: EntryV, key: Seq<u8>) -> bool {
    match lookup(e, key) {
        None => true,
        Some(FieldValueV::Obj(_)) => true,
        _ => false,
    }
}

/// A field that must be a scalar when present.
pub open spec fn field_ok_scalar(e: EntryV, key: Seq<u8>) -> bool {
    match lookup(e, key) {
        None => true,
        Some(FieldValueV::Sca(_)) => true,
        _ => false,
    }
}

/// The expected shape of one attributes object: each recognized field, when
/// present, carries the type the schema gives it.
pub open spec fn entry_ok(e: EntryV) -> bool {
    &&& field_ok_str(e, key_family())
    &&& field_ok_arr(e, key_local_name())
    &&& field_ok_str(e, key_notes())
    &&& field_ok_arr(e, key_usages())
    &&& field_ok_obj(e, key_wood_anatomy())
    &&& forall|i: int| 0 <= i < allow_keys().len() ==> field_ok_scalar(e, #[trigger] allow_keys()[i])
}

/// The expected shape of the whole document.
pub open spec fn doc_ok(d: DocV) -> bool {
    forall|i: int| 0 <= i < d.len() ==> entry_ok((#[trigger] d[i]).1)
}

/// The species row derived from one entry.
pub open spec fn derived_species(id: int, name: Seq<u8>, e: EntryV) -> SpeciesV {
    SpeciesV {
        id: id,
        scientific_name: name,
        common_name: common_name_of(e, name),
        family: family_of(e),
        description: description_of(e),
        habitat: None,
        distribution: None,
        properties: Some(ser_obj(props_of(e))),
        uses: Some(ser_arr(usages_of(e))),
        conservation_status: None,
        image_url: None,
    }
}

/// The compound label: scientific name, underscore, and the first
/// fragment of the common name.
pub open spec fn combined_label(name: Seq<u8>, e: EntryV) -> Seq<u8> {
    name + seq![0x5fu8] + name_fragment(common_name_of(e, name))
}

/// The per-local-name label: scientific name, underscore, local name.
pub open spec fn local_label(name: Seq<u8>, local: Seq<u8>) -> Seq<u8> {
    name + seq![0x5fu8] + local
}

/// The store with one more species row.
pub open spec fn push_species(s: StoreV, row: SpeciesV) -> StoreV {
    StoreV { species: s.species.push(row), labels: s.labels }
}

/// The store with one more label row, owned by species `sid`.
pub open spec fn push_label(s: StoreV, sid: int, t: Seq<u8>) -> StoreV {
    StoreV {
        species: s.species,
        labels: s.labels.push(
            ModelLabelV { id: s.labels.len() as int, species_id: sid, label: t },
        ),
    }
}

/// Insert-if-absent: the label row is added only when no row already
/// carries the same label string.
pub open spec fn push_label_if_absent(s: StoreV, sid: int, t: Seq<u8>) -> StoreV {
    if label_present(s.labels, t) {
        s
    } else {
        push_label(s, sid, t)
    }
}

/// The per-local-name labels of one entry added in order, each
/// insert-if-absent.
pub open spec fn add_local_labels(s: StoreV, sid: int, name: Seq<u8>, xs: ArrV) -> StoreV
    decreases xs.len(),
{
    if xs.len() == 0 {
        s
    } else {
        add_local_labels(
            push_label_if_absent(s, sid, local_label(name, xs[0])),
            sid,
            name,
            xs.drop_first(),
        )
    }
}

/// The local names a loader derives labels from: the entry's list, or none.
pub open spec fn locals_of(e: EntryV) -> ArrV {
    match local_names_of(e) {
        Some(xs) => xs,
        None => Seq::empty(),
    }
}

/// One entry loaded under the bootstrap policy: a fresh species row, its
/// compound label, then one label per local name, insert-if-absent.
pub open spec fn insert_entry(s: StoreV, name: Seq<u8>, e: EntryV) -> StoreV {
    let sid = s.species.len() as int;
    let s1 = push_species(s, derived_species(sid, name, e));
    let s2 = push_label(s1, sid, combined_label(name, e));
    add_local_labels(s2, sid, name, locals_of(e))
}

/// One entry loaded under the re-import policy: the species row carrying
/// the same scientific name is replaced in place (keeping its identifier),
/// or appended when none exists; labels are added as in a fresh insert.
pub open spec fn replace_entry(s: StoreV, name: Seq<u8>, e: EntryV) -> StoreV {
    match first_where(s.species, |sp: SpeciesV| sp.scientific_name == name) {
        None => insert_entry(s, name, e),
        Some(i) => {
            let s1 = StoreV {
                species: s.species.update(i, derived_species(i, name, e)),
                labels: s.labels,
            };
            let s2 = push_label(s1, i, combined_label(name, e));
            add_local_labels(s2, i, name, locals_of(e))
        },
    }
}

/// The whole document loaded, entry by entry in document order.
pub open spec fn load_entries(s: StoreV, d: DocV, replace: bool) -> StoreV
    decreases d.len(),
{
    if d.len() == 0 {
        s
    } else {
        load_entries(
            if replace {
                replace_entry(s, d[0].0, d[0].1)
            } else {
                insert_entry(s, d[0].0, d[0].1)
            },
            d.drop_first(),
            replace,
        )
    }
}

fn lookup_field<'a>(e: &'a Entry, key: &Vec<u8>) -> (r: Option<&'a FieldValue>)
    ensures
        match r {
            Some(v) => lookup(entry_view(e@), key@) == Some(v@),
            None => lookup(entry_view(e@), key@) is None,
        },
{
    let ghost ev = entry_view(e@);
    let mut j: usize = 0;
    while j < e.len()
        invariant
            j <= e@.len(),
            ev == entry_view(e@),
            forall|j0: int| 0 <= j0 < j ==> (#[trigger] ev[j0]).0 != key@,
        decreases e@.len() - j,
    {
        if eq_bytes(&e[j].0, key) {
            proof {
                assert(ev[j as int] == (e@[j as int].0@, e@[j as int].1@));
                lemma_lookup(ev, key@);
            }
            return Some(&e[j].1);
        }
        proof {
            assert(ev[j as int] == (e@[j as int].0@, e@[j as int].1@));
        }
        j += 1;
    }
    proof {
        lemma_lookup(ev, key@);
    }
    None
}

fn clone_scalar(v: &Scalar) -> (r: Scalar)
    ensures
        r@ == v@,
{
    match v {
        Scalar::Null => Scalar::Null,
        Scalar::Bool(b) => Scalar::Bool(*b),
        Scalar::Num(t) => Scalar::Num(clone_bytes(t)),
        Scalar::Str(t) => Scalar::Str(clone_bytes(t)),
    }
}

fn clone_str_list(v: &Vec<Vec<u8>>) -> (r: Vec<Vec<u8>>)
    ensures
        arr_view(r@) == arr_view(v@),
{
    let mut r: Vec<Vec<u8>> = Vec::new();
    let mut i: usize = 0;
    while i < v.len()
        invariant
            i <= v@.len(),
            r@.len() == i,
            forall|j: int| 0 <= j < i ==> (#[trigger] r@[j])@ == v@[j]@,
        decreases v@.len() - i,
    {
        r.push(clone_bytes(&v[i]));
        i += 1;
    }
    assert(arr_view(r@) =~= arr_view(v@));
    r
}

fn clone_obj_items(v: &Vec<(Vec<u8>, Scalar)>) -> (r: Vec<(Vec<u8>, Scalar)>)
    ensures
        obj_view(r@) == obj_view(v@),
{
    let mut r: Vec<(Vec<u8>, Scalar)> = Vec::new();
    let mut i: usize = 0;
    while i < v.len()
        invariant
            i <= v@.len(),
            r@.len() == i,
            forall|j: int|
                0 <= j < i ==> (#[trigger] r@[j]).0@ == v@[j].0@ && r@[j].1@ == v@[j].1@,
        decreases v@.len() - i,
    {
        let kc = clone_bytes(&v[i].0);
        let vc = clone_scalar(&v[i].1);
        r.push((kc, vc));
        i += 1;
    }
    assert(obj_view(r@) =~= obj_view(v@));
    r
}

fn check_entry(e: &Entry) -> (r: bool)
    ensures
        r == entry_ok(entry_view(e@)),
{
    let ghost ev = entry_view(e@);
    let ok_family = match lookup_field(e, &k_family()) {
        None => true,
        Some(FieldValue::Sca(Scalar::Str(_))) => true,
        _ => false,
    };
    let ok_local = match lookup_field(e, &k_local_name()) {
        None => true,
        Some(FieldValue::Arr(_)) => true,
        _ => false,
    };
    let ok_notes = match lookup_field(e, &k_notes()) {
        None => true,
        Some(FieldValue::Sca(Scalar::Str(_))) => true,
        _ => false,
    };
    let ok_usages = match lookup_field(e, &k_usages()) {
        None => true,
        Some(FieldValue::Arr(_)) => true,
        _ => false,
    };
    let ok_wood = match lookup_field(e, &k_wood_anatomy()) {
        None => true,
        Some(FieldValue::Obj(_)) => true,
        _ => false,
    };
    assert(ok_family == field_ok_str(ev, key_family()));
    assert(ok_local == field_ok_arr(ev, key_local_name()));
    assert(ok_notes == field_ok_str(ev, key_notes()));
    assert(ok_usages == field_ok_arr(ev, key_usages()));
    assert(ok_wood == field_ok_obj(ev, key_wood_anatomy()));
    if !(ok_family && ok_local && ok_notes && ok_usages && ok_wood) {
        return false;
    }
    let ak = allow_keys_exec();
    let mut i: usize = 0;
    while i < ak.len()
        invariant
            i <= ak@.len(),
            ev == entry_view(e@),
            ak@.len() == allow_keys().len(),
            forall|j: int| 0 <= j < ak@.len() ==> (#[trigger] ak@[j])@ == allow_keys()[j],
            forall|j: int| 0 <= j < i ==> field_ok_scalar(ev, #[trigger] allow_keys()[j]),
            field_ok_str(ev, key_family()),
            field_ok_arr(ev, key_local_name()),
            field_ok_str(ev, key_notes()),
            field_ok_arr(ev, key_usages()),
            field_ok_obj(ev, key_wood_anatomy()),
        decreases ak@.len() - i,
    {
        let ok = match lookup_field(e, &ak[i]) {
            None => true,
            Some(FieldValue::Sca(_)) => true,
            _ => false,
        };
        if !ok {
            assert(!field_ok_scalar(ev, allow_keys()[i as int]));
            return false;
        }
        assert(field_ok_scalar(ev, allow_keys()[i as int]));
        i += 1;
    }
    true
}

fn check_doc(d: &Doc) -> (r: bool)
    ensures
        r == doc_ok(doc_view(d@)),
{
    let ghost dv = doc_view(d@);
    let mut i: usize = 0;
    while i < d.len()
        invariant
            i <= d@.len(),
            dv == doc_view(d@),
            forall|j: int| 0 <= j < i ==> entry_ok((#[trigger] dv[j]).1),
        decreases d@.len() - i,
    {
        if !check_entry(&d[i].1) {
            assert(dv[i as int].1 == entry_view(d@[i as int].1@));
            return false;
        }
        assert(dv[i as int].1 == entry_view(d@[i as int].1@));
        i += 1;
    }
    true
}

fn has_label(labels: &Vec<ModelLabel>, t: &Vec<u8>) -> (r: bool)
    ensures
        r == label_present(labels_view(labels@), t@),
{
    let ghost ls = labels_view(labels@);
    let mut j: usize = 0;
    while j < labels.len()
        invariant
            j <= labels@.len(),
            ls == labels_view(labels@),
            forall|j0: int| 0 <= j0 < j ==> (#[trigger] ls[j0]).label != t@,
        decreases labels@.len() - j,
    {
        if eq_bytes(&labels[j].label, t) {
            assert(ls[j as int].label == t@);
            return true;
        }
        assert(ls[j as int] == labels@[j as int]@);
        j += 1;
    }
    false
}

fn scan_species_name(species: &Vec<Species>, name: &Vec<u8>) -> (r: Option<usize>)
    ensures
        ({
            let fw = first_where(
                species_view(species@),
                |sp: SpeciesV| sp.scientific_name == name@,
            );
            match r {
                Some(j) => fw == Some(j as int) && j < species@.len(),
                None => fw is None,
            }
        }),
{
    let ghost ls = species_view(species@);
    let ghost p = |sp: SpeciesV| sp.scientific_name == name@;
    let mut j: usize = 0;
    while j < species.len()
        invariant
            j <= species@.len(),
            ls == species_view(species@),
            p == (|sp: SpeciesV| sp.scientific_name == name@),
            forall|j0: int| 0 <= j0 < j ==> !p(ls[j0]),
        decreases species@.len() - j,
    {
        if eq_bytes(&species[j].scientific_name, name) {
            proof {
                assert(ls[j as int] == species@[j as int]@);
                assert(p(ls[j as int]));
                lemma_first_where(ls, p);
            }
            return Some(j);
        }
        proof {
            assert(ls[j as int] == species@[j as int]@);
        }
        j += 1;
    }
    proof {
        lemma_first_where(ls, p);
    }
    None
}

proof fn lemma_wf_push_label(s: StoreV, sid: int, t: Seq<u8>)
    requires
        wf_store(s),
        0 <= sid < s.species.len(),
    ensures
        wf_store(push_label(s, sid, t)),
        wf_store(push_label_if_absent(s, sid, t)),
{
    let n = push_label(s, sid, t);
    assert forall|j: int|
        0 <= j < n.labels.len() implies (#[trigger] n.labels[j]).id == j && 0
        <= n.labels[j].species_id < n.species.len() by {
        if j < s.labels.len() {
            assert(n.labels[j] == s.labels[j]);
        }
    }
}

proof fn lemma_wf_add_local_labels(s: StoreV, sid: int, name: Seq<u8>, xs: ArrV)
    requires
        wf_store(s),
        0 <= sid < s.species.len(),
    ensures
        wf_store(add_local_labels(s, sid, name, xs)),
        add_local_labels(s, sid, name, xs).species == s.species,
    decreases xs.len(),
{
    if xs.len() > 0 {
        lemma_wf_push_label(s, sid, local_label(name, xs[0]));
        lemma_wf_add_local_labels(push_label_if_absent(s, sid, local_label(name, xs[0])), sid, name, xs.drop_first());
    }
}

impl Store {
    fn apply_entry(&mut self, name: &Vec<u8>, e: &Entry, replace: bool)
        requires
            wf_store(old(self)@),
        ensures
            wf_store(final(self)@),
            final(self)@ == if replace {
                replace_entry(old(self)@, name@, entry_view(e@))
            } else {
                insert_entry(old(self)@, name@, entry_view(e@))
            },
    {
        let ghost s0 = self@;
        let ghost ev = entry_view(e@);
        let family: Vec<u8> = match lookup_field(e, &k_family()) {
            Some(FieldValue::Sca(Scalar::Str(t))) => clone_bytes(t),
            _ => Vec::new(),
        };
        assert(family@ =~= family_of(ev));
        let common: Vec<u8> = match lookup_field(e, &k_local_name()) {
            Some(FieldValue::Arr(xs)) => join_names_of(xs),
            _ => clone_bytes(name),
        };
        assert(common@ == common_name_of(ev, name@)) by {
            match lookup(ev, key_local_name()) {
                Some(FieldValueV::Arr(_)) => {},
                _ => {},
            }
        }
        let desc: Vec<u8> = match lookup_field(e, &k_notes()) {
            Some(FieldValue::Sca(Scalar::Str(t))) => clone_bytes(t),
            _ => Vec::new(),
        };
        assert(desc@ =~= description_of(ev));
        let usages: Vec<Vec<u8>> = match lookup_field(e, &k_usages()) {
            Some(FieldValue::Arr(xs)) => clone_str_list(xs),
            _ => Vec::new(),
        };
        assert(arr_view(usages@) =~= usages_of(ev));
        let uses_text = write_arr(&usages);
        let mut props: Vec<(Vec<u8>, Scalar)> = match lookup_field(e, &k_wood_anatomy()) {
            Some(FieldValue::Obj(m)) => clone_obj_items(m),
            _ => Vec::new(),
        };
        assert(obj_view(props@) =~= wood_of(ev));
        let ak = allow_keys_exec();
        let ghost nkeys = allow_keys().len() as int;
        proof {
            assert(allow_keys().subrange(0, nkeys) =~= allow_keys());
        }
        let mut i: usize = 0;
        while i < ak.len()
            invariant
                i <= ak@.len(),
                ev == entry_view(e@),
                nkeys == allow_keys().len() as int,
                ak@.len() == allow_keys().len(),
                forall|j: int| 0 <= j < ak@.len() ==> (#[trigger] ak@[j])@ == allow_keys()[j],
                obj_view(props@) + extras_of(ev, allow_keys().subrange(i as int, nkeys))
                    == props_of(ev),
            decreases ak@.len() - i,
        {
            let ghost tail = allow_keys().subrange(i as int, nkeys);
            proof {
                assert(tail[0] == allow_keys()[i as int]);
                assert(tail.drop_first() =~= allow_keys().subrange(i + 1, nkeys));
            }
            match lookup_field(e, &ak[i]) {
                Some(FieldValue::Sca(sc)) => {
                    let ghost before = props@;
                    let kcopy = clone_bytes(&ak[i]);
                    let vcopy = clone_scalar(sc);
                    props.push((kcopy, vcopy));
                    proof {
                        assert(obj_view(props@) =~= obj_view(before).push(
                            (allow_keys()[i as int], vcopy@),
                        ));
                        assert(extras_of(ev, tail) == seq![(allow_keys()[i as int], vcopy@)]
                            + extras_of(ev, tail.drop_first()));
                        assert(obj_view(props@) + extras_of(ev, tail.drop_first()) =~= obj_view(
                            before,
                        ) + extras_of(ev, tail));
                    }
                },
                _ => {
                    proof {
                        assert(extras_of(ev, tail) == extras_of(ev, tail.drop_first()));
                    }
                },
            }
            i += 1;
        }
        proof {
            assert(allow_keys().subrange(nkeys, nkeys) =~= Seq::<Seq<u8>>::empty());
            assert(obj_view(props@) + Seq::<(Seq<u8>, ScalarV)>::empty() =~= obj_view(props@));
            assert(obj_view(props@) == props_of(ev));
        }
        let props_text = write_obj(&props);
        // the species row, inserted or replacing the one with this name
        let existing: Option<usize> = if replace {
            scan_species_name(&self.species, name)
        } else {
            None
        };
        let sid: usize;
        match existing {
            Some(at) => {
                sid = at;
                let row = Species {
                    id: at,
                    scientific_name: clone_bytes(name),
                    common_name: common,
                    family: family,
                    description: desc,
                    habitat: None,
                    distribution: None,
                    properties: Some(props_text),
                    uses: Some(uses_text),
                    conservation_status: None,
                    image_url: None,
                };
                proof {
                    assert(row@ =~= derived_species(at as int, name@, ev));
                }
                self.species[at] = row;
                proof {
                    assert(species_view(self.species@) =~= s0.species.update(
                        at as int,
                        derived_species(at as int, name@, ev),
                    ));
                }
            },
            None => {
                sid = self.species.len();
                let row = Species {
                    id: sid,
                    scientific_name: clone_bytes(name),
                    common_name: common,
                    family: family,
                    description: desc,
                    habitat: None,
                    distribution: None,
                    properties: Some(props_text),
                    uses: Some(uses_text),
                    conservation_status: None,
                    image_url: None,
                };
                proof {
                    assert(row@ =~= derived_species(s0.species.len() as int, name@, ev));
                }
                self.species.push(row);
                proof {
                    assert(species_view(self.species@) =~= s0.species.push(
                        derived_species(s0.species.len() as int, name@, ev),
                    ));
                }
            },
        }
        let ghost s1 = self@;
        proof {
            assert(s1.labels == s0.labels);
            assert(sid < s1.species.len());
            assert(wf_store(s1)) by {
                assert forall|k: int|
                    0 <= k < s1.species.len() implies (#[trigger] s1.species[k]).id == k by {
                    if k < s0.species.len() && !(existing matches Some(a) && a == k) {
                        assert(s1.species[k] == s0.species[k]);
                    }
                }
            }
        }
        // the compound label
        let frag = name_fragment_of(&self.species[sid].common_name);
        proof {
            assert(self@.species[sid as int].common_name == common_name_of(ev, name@));
        }
        let mut lbl = clone_bytes(name);
        lbl.push(0x5f);
        push_all(&mut lbl, &frag);
        assert(lbl@ =~= combined_label(name@, ev));
        let lid = self.labels.len();
        self.labels.push(ModelLabel { id: lid, species_id: sid, label: lbl });
        proof {
            assert(labels_view(self.labels@) =~= s1.labels.push(
                ModelLabelV {
                    id: s1.labels.len() as int,
                    species_id: sid as int,
                    label: combined_label(name@, ev),
                },
            ));
            assert(self@ =~= push_label(s1, sid as int, combined_label(name@, ev)));
            lemma_wf_push_label(s1, sid as int, combined_label(name@, ev));
        }
        let ghost s2 = self@;
        // one label per local name, insert-if-absent
        match lookup_field(e, &k_local_name()) {
            Some(FieldValue::Arr(xs)) => {
                let ghost lv = arr_view(xs@);
                proof {
                    assert(lv == locals_of(ev));
                    assert(lv.subrange(0, lv.len() as int) =~= lv);
                }
                let mut k: usize = 0;
                while k < xs.len()
                    invariant
                        k <= xs@.len(),
                        lv == arr_view(xs@),
                        wf_store(self@),
                        0 <= sid < self@.species.len(),
                        add_local_labels(
                            self@,
                            sid as int,
                            name@,
                            lv.subrange(k as int, lv.len() as int),
                        ) == add_local_labels(s2, sid as int, name@, lv),
                    decreases xs@.len() - k,
                {
                    let ghost cur = self@;
                    let ghost tail = lv.subrange(k as int, lv.len() as int);
                    proof {
                        assert(tail[0] == lv[k as int]);
                        assert(tail.drop_first() =~= lv.subrange(k + 1, lv.len() as int));
                    }
                    let mut lblk = clone_bytes(name);
                    lblk.push(0x5f);
                    push_all(&mut lblk, &xs[k]);
                    assert(lblk@ =~= local_label(name@, lv[k as int]));
                    if !has_label(&self.labels, &lblk) {
                        let nid = self.labels.len();
                        self.labels.push(ModelLabel { id: nid, species_id: sid, label: lblk });
                        proof {
                            assert(labels_view(self.labels@) =~= cur.labels.push(
                                ModelLabelV {
                                    id: cur.labels.len() as int,
                                    species_id: sid as int,
                                    label: local_label(name@, lv[k as int]),
                                },
                            ));
                            assert(self@ =~= push_label(
                                cur,
                                sid as int,
                                local_label(name@, lv[k as int]),
                            ));
                            assert(self@ == push_label_if_absent(
                                cur,
                                sid as int,
                                local_label(name@, lv[k as int]),
                            ));
                            lemma_wf_push_label(cur, sid as int, local_label(name@, lv[k as int]));
                        }
                    } else {
                        proof {
                            assert(self@ == push_label_if_absent(
                                cur,
                                sid as int,
                                local_label(name@, lv[k as int]),
                            ));
                        }
                    }
                    k += 1;
                }
                proof {
                    assert(lv.subrange(lv.len() as int, lv.len() as int) =~= Seq::<
                        Seq<u8>,
                    >::empty());
                    assert(add_local_labels(
                        self@,
                        sid as int,
                        name@,
                        lv.subrange(lv.len() as int, lv.len() as int),
                    ) == self@);
                }
            },
            _ => {
                proof {
                    assert(locals_of(ev) =~= Seq::<Seq<u8>>::empty());
                }
            },
        }
        proof {
            assert(self@ == add_local_labels(s2, sid as int, name@, locals_of(ev)));
            lemma_wf_add_local_labels(s2, sid as int, name@, locals_of(ev));
            if replace {
                let fw = first_where(s0.species, |sp: SpeciesV| sp.scientific_name == name@);
                match existing {
                    Some(at) => {
                        assert(fw == Some(at as int));
                        assert(self@ == replace_entry(s0, name@, ev));
                    },
                    None => {
                        assert(fw is None);
                        assert(self@ == replace_entry(s0, name@, ev));
                    },
                }
            } else {
                assert(self@ == insert_entry(s0, name@, ev));
            }
        }
    }

    fn load_document(&mut self, text: &Vec<u8>, replace: bool) -> (r: Result<(), LoadError>)
        requires
            wf_store(old(self)@),
        ensures
            wf_store(final(self)@),
            ({
                let dopt = sp_document(text@);
                match dopt {
                    None => r == Err::<(), LoadError>(LoadError::MalformedInput) && final(self)@
                        == old(self)@,
                    Some(d) => if !doc_ok(d) {
                        r == Err::<(), LoadError>(LoadError::MalformedInput) && final(self)@ == old(
                            self,
                        )@
                    } else {
                        r == Ok::<(), LoadError>(()) && final(self)@ == load_entries(
                            old(self)@,
                            d,
                            replace,
                        )
                    },
                }
            }),
    {
        let doc = match parse_document(text) {
            None => {
                return Err(LoadError::MalformedInput);
            },
            Some(d) => d,
        };
        if !check_doc(&doc) {
            return Err(LoadError::MalformedInput);
        }
        let ghost s0 = self@;
        let ghost dv = doc_view(doc@);
        proof {
            assert(dv.subrange(0, dv.len() as int) =~= dv);
        }
        let mut k: usize = 0;
        while k < doc.len()
            invariant
                k <= doc@.len(),
                dv == doc_view(doc@),
                wf_store(self@),
                load_entries(self@, dv.subrange(k as int, dv.len() as int), replace)
                    == load_entries(s0, dv, replace),
            decreases doc@.len() - k,
        {
            let ghost tail = dv.subrange(k as int, dv.len() as int);
            proof {
                assert(tail[0] == dv[k as int]);
                assert(dv[k as int] == (doc@[k as int].0@, entry_view(doc@[k as int].1@)));
                assert(tail.drop_first() =~= dv.subrange(k + 1, dv.len() as int));
            }
            let pair = &doc[k];
            self.apply_entry(&pair.0, &pair.1, replace);
            k += 1;
        }
        proof {
            assert(dv.subrange(dv.len() as int, dv.len() as int) =~= Seq::<
                (Seq<u8>, EntryV),
            >::empty());
        }
        Ok(())
    }

    /// The bootstrap load: a no-op when any species row is already present,
    /// else one all-or-nothing pass over the document.  A document outside
    /// the expected structure is rejected with the store left exactly as it
    /// was.
    pub fn ensure_species_data_loaded(&mut self, text: &Vec<u8>) -> (r: Result<(), LoadError>)
        requires
            wf_store(old(self)@),
        ensures
            wf_store(final(self)@),
            old(self)@.species.len() > 0 ==> r == Ok::<(), LoadError>(()) && final(self)@ == old(
                self,
            )@,
            old(self)@.species.len() == 0 ==> ({
                let dopt = sp_document(text@);
                match dopt {
                    None => r == Err::<(), LoadError>(LoadError::MalformedInput) && final(self)@
                        == old(self)@,
                    Some(d) => if !doc_ok(d) {
                        r == Err::<(), LoadError>(LoadError::MalformedInput) && final(self)@ == old(
                            self,
                        )@
                    } else {
                        r == Ok::<(), LoadError>(()) && final(self)@ == load_entries(
                            old(self)@,
                            d,
                            false,
                        )
                    },
                }
            }),
    {
        if self.species.len() > 0 {
            return Ok(());
        }
        self.load_document(text, false)
    }

    /// The administrative re-import: the same all-or-nothing pass, but a
    /// species row carrying an already-present scientific name is replaced
    /// rather than duplicated.
    pub fn import_species_data(&mut self, text: &Vec<u8>) -> (r: Result<(), LoadError>)
        requires
            wf_store(old(self)@),
        ensures
            wf_store(final(self)@),
            ({
                let dopt = sp_document(text@);
                match dopt {
                    None => r == Err::<(), LoadError>(LoadError::MalformedInput) && final(self)@
                        == old(self)@,
                    Some(d) => if !doc_ok(d) {
                        r == Err::<(), LoadError>(LoadError::MalformedInput) && final(self)@ == old(
                            self,
                        )@
                    } else {
                        r == Ok::<(), LoadError>(()) && final(self)@ == load_entries(
                            old(self)@,
                            d,
                            true,
                        )
                    },
                }
            }),
    {
        self.load_document(text, true)
    }
}

} // verus!
