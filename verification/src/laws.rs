//! The properties that bind the loader, the label index and the resolution
//! cascade together, stated over the same models the contracts use.

use vstd::prelude::*;

use crate::bytes::{contains_ci, lower_byte, matches_at};
use crate::codec::{wf_arr, wf_obj, wf_scalar, wf_text};
use crate::document::{wf_entry, DocV, EntryV};
use crate::loader::{
    add_local_labels, allow_keys, combined_label, derived_species, extras_of, insert_entry,
    load_entries, local_label, locals_of, lookup, props_of, push_label, push_label_if_absent,
    usages_of, wood_of,
};
use crate::resolve::{project_spec, resolve_idx};
use crate::store::{first_where, label_present, lemma_first_where, ModelLabelV, StoreV};

verus! {

proof fn lemma_add_local_labels_species(s: StoreV, sid: int, name: Seq<u8>, xs: Seq<Seq<u8>>)
    ensures
        add_local_labels(s, sid, name, xs).species == s.species,
    decreases xs.len(),
{
    if xs.len() > 0 {
        lemma_add_local_labels_species(
            push_label_if_absent(s, sid, local_label(name, xs[0])),
            sid,
            name,
            xs.drop_first(),
        );
    }
}

proof fn lemma_load_entries_count(s: StoreV, d: DocV)
    ensures
        load_entries(s, d, false).species.len() == s.species.len() + d.len(),
    decreases d.len(),
{
    if d.len() > 0 {
        let s1 = insert_entry(s, d[0].0, d[0].1);
        lemma_add_local_labels_species(
            push_label(
                StoreV {
                    species: s.species.push(derived_species(s.species.len() as int, d[0].0, d[0].1)),
                    labels: s.labels,
                },
                s.species.len() as int,
                combined_label(d[0].0, d[0].1),
            ),
            s.species.len() as int,
            d[0].0,
            locals_of(d[0].1),
        );
        assert(s1.species.len() == s.species.len() + 1);
        lemma_load_entries_count(s1, d.drop_first());
    }
}

/// Idempotent load: running the bootstrap loader a second time over the
/// same document leaves the row counts unchanged.  Either the first pass
/// loaded at least one entry, so the second call's idempotency guard sees a
/// populated species table and does nothing, or the document was empty and
/// a pass adds nothing.
pub proof fn lemma_idempotent_bootstrap(s0: StoreV, d: DocV)
    requires
        s0.species.len() == 0,
    ensures
        ({
            let s1 = load_entries(s0, d, false);
            let s2 = if s1.species.len() > 0 {
                s1
            } else {
                load_entries(s1, d, false)
            };
            s2 == s1
        }),
{
    lemma_load_entries_count(s0, d);
    let s1 = load_entries(s0, d, false);
    if s1.species.len() == 0 {
        assert(d.len() == 0);
    }
}

proof fn lemma_wf_allow_keys()
    ensures
        forall|i: int| 0 <= i < allow_keys().len() ==> wf_text(#[trigger] allow_keys()[i]),
{
    assert forall|i: int| 0 <= i < allow_keys().len() implies wf_text(
        #[trigger] allow_keys()[i],
    ) by {
        let k = allow_keys()[i];
        assert forall|j: int| 0 <= j < k.len() implies #[trigger] k[j] != 0x22 && k[j] != 0x5c by {
            if i == 0 {
                assert(allow_keys()[0][j] != 0x22 && allow_keys()[0][j] != 0x5c);
            } else if i == 1 {
                assert(allow_keys()[1][j] != 0x22 && allow_keys()[1][j] != 0x5c);
            } else if i == 2 {
                assert(allow_keys()[2][j] != 0x22 && allow_keys()[2][j] != 0x5c);
            } else if i == 3 {
                assert(allow_keys()[3][j] != 0x22 && allow_keys()[3][j] != 0x5c);
            } else if i == 4 {
                assert(allow_keys()[4][j] != 0x22 && allow_keys()[4][j] != 0x5c);
            } else if i == 5 {
                assert(allow_keys()[5][j] != 0x22 && allow_keys()[5][j] != 0x5c);
            } else if i == 6 {
                assert(allow_keys()[6][j] != 0x22 && allow_keys()[6][j] != 0x5c);
            } else if i == 7 {
                assert(allow_keys()[7][j] != 0x22 && allow_keys()[7][j] != 0x5c);
            } else {
                assert(i == 8);
                assert(allow_keys()[8][j] != 0x22 && allow_keys()[8][j] != 0x5c);
            }
        }
    }
}

proof fn lemma_wf_extras(e: EntryV, keys: Seq<Seq<u8>>)
    requires
        wf_entry(e),
        forall|i: int| 0 <= i < keys.len() ==> wf_text(#[trigger] keys[i]),
    ensures
        wf_obj(extras_of(e, keys)),
    decreases keys.len(),
{
    if keys.len() > 0 {
        lemma_wf_extras(e, keys.drop_first());
        let rest = extras_of(e, keys.drop_first());
        match lookup(e, keys[0]) {
            Some(crate::document::FieldValueV::Sca(v)) => {
                crate::loader::lemma_lookup(e, keys[0]);
                let head = seq![(keys[0], v)];
                let all = head + rest;
                assert(wf_scalar(v));
                assert forall|i: int| 0 <= i < all.len() implies wf_text(#[trigger] all[i].0)
                    && wf_scalar(all[i].1) by {
                    if i == 0 {
                        assert(all[0] == (keys[0], v));
                    } else {
                        assert(all[i] == rest[i - 1]);
                    }
                }
            },
            _ => {
                assert(extras_of(e, keys) =~= rest);
            },
        }
    }
}

/// A well-formed entry derives well-formed blobs.
pub proof fn lemma_wf_derived(e: EntryV)
    requires
        wf_entry(e),
    ensures
        wf_obj(props_of(e)),
        wf_arr(usages_of(e)),
{
    lemma_wf_allow_keys();
    lemma_wf_extras(e, allow_keys());
    let wood = wood_of(e);
    assert(wf_obj(wood)) by {
        match lookup(e, crate::loader::key_wood_anatomy()) {
            Some(crate::document::FieldValueV::Obj(m)) => {
                crate::loader::lemma_lookup(e, crate::loader::key_wood_anatomy());
                assert(wood == m);
            },
            _ => {
                assert(wood =~= Seq::<(Seq<u8>, crate::codec::ScalarV)>::empty());
            },
        }
    }
    assert(wf_arr(usages_of(e))) by {
        match lookup(e, crate::loader::key_usages()) {
            Some(crate::document::FieldValueV::Arr(xs)) => {
                crate::loader::lemma_lookup(e, crate::loader::key_usages());
                assert(usages_of(e) == xs);
            },
            _ => {
                assert(usages_of(e) =~= Seq::<Seq<u8>>::empty());
            },
        }
    }
    let extras = extras_of(e, allow_keys());
    let all = wood + extras;
    assert forall|i: int| 0 <= i < all.len() implies wf_text(#[trigger] all[i].0) && wf_scalar(
        all[i].1,
    ) by {
        if i < wood.len() {
            assert(all[i] == wood[i]);
            assert(wf_text(wood[i].0) && wf_scalar(wood[i].1));
        } else {
            let k = i - wood.len();
            assert(wf_obj(extras));
            assert(0 <= k < extras.len());
            assert(all[i] == extras[k]);
            assert(wf_text(extras[k].0) && wf_scalar(extras[k].1));
        }
    }
}

/// Blob round trip through the store: the properties object and the usage
/// list derived from a well-formed entry at import are returned unchanged,
/// by value, when the loaded row is projected.
pub proof fn lemma_blob_round_trip(id: int, name: Seq<u8>, e: EntryV)
    requires
        wf_entry(e),
    ensures
        project_spec(derived_species(id, name, e)).properties == Some(props_of(e)),
        project_spec(derived_species(id, name, e)).uses == Some(usages_of(e)),
{
    lemma_wf_derived(e);
    crate::codec::lemma_obj_round_trip(props_of(e));
    crate::codec::lemma_arr_round_trip(usages_of(e));
}

/// The rows a bootstrap load appends are exactly the derived rows, entry by
/// entry and in document order; rows already present are untouched.
pub proof fn lemma_loaded_rows(s: StoreV, d: DocV)
    ensures
        load_entries(s, d, false).species.len() == s.species.len() + d.len(),
        forall|j: int|
            0 <= j < s.species.len() ==> load_entries(s, d, false).species[j] == s.species[j],
        forall|i: int|
            0 <= i < d.len() ==> load_entries(s, d, false).species[s.species.len() + i]
                == derived_species(s.species.len() + i, (#[trigger] d[i]).0, d[i].1),
    decreases d.len(),
{
    if d.len() > 0 {
        let row = derived_species(s.species.len() as int, d[0].0, d[0].1);
        let sp = StoreV { species: s.species.push(row), labels: s.labels };
        let s1 = insert_entry(s, d[0].0, d[0].1);
        lemma_add_local_labels_species(
            push_label(sp, s.species.len() as int, combined_label(d[0].0, d[0].1)),
            s.species.len() as int,
            d[0].0,
            locals_of(d[0].1),
        );
        assert(s1.species == s.species.push(row));
        let rest = d.drop_first();
        lemma_loaded_rows(s1, rest);
        let out = load_entries(s, d, false);
        assert(out == load_entries(s1, rest, false));
        assert forall|j: int| 0 <= j < s.species.len() implies out.species[j] == s.species[j] by {
            assert(out.species[j] == s1.species[j]);
            assert(s1.species[j] == s.species[j]);
        }
        assert forall|i: int|
            0 <= i < d.len() implies out.species[s.species.len() + i] == derived_species(
            s.species.len() + i,
            (#[trigger] d[i]).0,
            d[i].1,
        ) by {
            if i == 0 {
                assert(out.species[s.species.len() as int] == s1.species[s.species.len() as int]);
                assert(s1.species[s.species.len() as int] == row);
            } else {
                assert(rest[i - 1] == d[i]);
                assert(out.species[s1.species.len() + (i - 1)] == derived_species(
                    s1.species.len() + (i - 1),
                    rest[i - 1].0,
                    rest[i - 1].1,
                ));
            }
        }
    }
}

/// Blob round trip end to end: in a store bootstrapped from a well-formed
/// document, projecting the row loaded for any entry returns that entry's
/// derived properties object and usage list, by value.  Combined with the
/// resolver's contract, a successful resolution of such a row returns them
/// unchanged.
pub proof fn lemma_loaded_blob_round_trip(d: DocV, i: int)
    requires
        crate::document::wf_doc(d),
        0 <= i < d.len(),
    ensures
        ({
            let s1 = load_entries(
                StoreV { species: Seq::empty(), labels: Seq::empty() },
                d,
                false,
            );
            &&& project_spec(s1.species[i]).properties == Some(props_of(d[i].1))
            &&& project_spec(s1.species[i]).uses == Some(usages_of(d[i].1))
        }),
{
    let s0 = StoreV { species: Seq::empty(), labels: Seq::empty() };
    lemma_loaded_rows(s0, d);
    assert(load_entries(s0, d, false).species[i] == derived_species(i, d[i].0, d[i].1));
    assert(wf_entry(d[i].1));
    lemma_blob_round_trip(i, d[i].0, d[i].1);
}

proof fn lemma_locals_prefix(s: StoreV, sid: int, name: Seq<u8>, xs: Seq<Seq<u8>>)
    ensures
        add_local_labels(s, sid, name, xs).labels.len() >= s.labels.len(),
        forall|j: int|
            0 <= j < s.labels.len() ==> add_local_labels(s, sid, name, xs).labels[j]
                == s.labels[j],
    decreases xs.len(),
{
    if xs.len() > 0 {
        let s1 = push_label_if_absent(s, sid, local_label(name, xs[0]));
        lemma_locals_prefix(s1, sid, name, xs.drop_first());
        assert forall|j: int|
            0 <= j < s.labels.len() implies add_local_labels(s, sid, name, xs).labels[j]
            == s.labels[j] by {
            assert(s1.labels[j] == s.labels[j]);
        }
    }
}

/// Every label row points at species `sid`.
pub open spec fn all_sid(labels: Seq<ModelLabelV>, sid: int) -> bool {
    forall|j: int| 0 <= j < labels.len() ==> (#[trigger] labels[j]).species_id == sid
}

/// Every label string is strictly longer than `n`.
pub open spec fn all_longer(labels: Seq<ModelLabelV>, n: int) -> bool {
    forall|j: int| 0 <= j < labels.len() ==> (#[trigger] labels[j]).label.len() > n
}

proof fn lemma_locals_sid(s: StoreV, sid: int, name: Seq<u8>, xs: Seq<Seq<u8>>)
    requires
        all_sid(s.labels, sid),
    ensures
        all_sid(add_local_labels(s, sid, name, xs).labels, sid),
    decreases xs.len(),
{
    if xs.len() > 0 {
        let s1 = push_label_if_absent(s, sid, local_label(name, xs[0]));
        assert forall|j: int|
            0 <= j < s1.labels.len() implies (#[trigger] s1.labels[j]).species_id == sid by {
            if j < s.labels.len() {
                assert(s1.labels[j] == s.labels[j]);
            }
        }
        lemma_locals_sid(s1, sid, name, xs.drop_first());
    }
}

proof fn lemma_locals_min_len(s: StoreV, sid: int, name: Seq<u8>, xs: Seq<Seq<u8>>)
    requires
        all_longer(s.labels, name.len() as int),
    ensures
        all_longer(add_local_labels(s, sid, name, xs).labels, name.len() as int),
    decreases xs.len(),
{
    if xs.len() > 0 {
        let s1 = push_label_if_absent(s, sid, local_label(name, xs[0]));
        assert forall|j: int|
            0 <= j < s1.labels.len() implies (#[trigger] s1.labels[j]).label.len() > name.len() by {
            if j < s.labels.len() {
                assert(s1.labels[j] == s.labels[j]);
            } else {
                assert(s1.labels[j].label == local_label(name, xs[0]));
            }
        }
        lemma_locals_min_len(s1, sid, name, xs.drop_first());
    }
}

proof fn lemma_locals_present(s: StoreV, sid: int, name: Seq<u8>, xs: Seq<Seq<u8>>, k: int)
    requires
        0 <= k < xs.len(),
    ensures
        label_present(add_local_labels(s, sid, name, xs).labels, local_label(name, xs[k])),
    decreases xs.len(),
{
    let t = local_label(name, xs[0]);
    let s1 = push_label_if_absent(s, sid, t);
    if k == 0 {
        assert(label_present(s1.labels, t)) by {
            if label_present(s.labels, t) {
                let w = choose|j: int| 0 <= j < s.labels.len() && (#[trigger] s.labels[j]).label == t;
                assert(s1.labels[w].label == t);
            } else {
                assert(s1.labels[s.labels.len() as int].label == t);
            }
        }
        lemma_locals_prefix(s1, sid, name, xs.drop_first());
        let w = choose|j: int| 0 <= j < s1.labels.len() && (#[trigger] s1.labels[j]).label == t;
        assert(add_local_labels(s1, sid, name, xs.drop_first()).labels[w].label == t);
    } else {
        lemma_locals_present(s1, sid, name, xs.drop_first(), k - 1);
        assert(xs.drop_first()[k - 1] == xs[k]);
    }
}

/// Cascade convergence: in a store bootstrapped from a single-entry
/// document with scientific name `S`, resolving the compound label `S_L`
/// for any listed local name `L`, and resolving the bare label `S`, both
/// return the record whose scientific name is `S`.  (Across entries this
/// needs the labels to be free of cross-matches: with a second species
/// whose label string contains `S_L`, an earlier row can win the substring
/// tier.)
pub proof fn lemma_cascade_convergence(name: Seq<u8>, e: EntryV, k: int)
    requires
        0 <= k < locals_of(e).len(),
    ensures
        ({
            let s1 = load_entries(
                StoreV { species: Seq::empty(), labels: Seq::empty() },
                seq![(name, e)],
                false,
            );
            let q = local_label(name, locals_of(e)[k]);
            &&& resolve_idx(s1, q) == Some(0int)
            &&& resolve_idx(s1, name) == Some(0int)
            &&& s1.species[0].scientific_name == name
        }),
{
    let s0 = StoreV { species: Seq::empty(), labels: Seq::empty() };
    let d: DocV = seq![(name, e)];
    assert(d.drop_first() =~= Seq::<(Seq<u8>, EntryV)>::empty());
    let si = insert_entry(s0, name, e);
    assert(d[0] == (name, e));
    assert(load_entries(s0, d, false) == load_entries(si, d.drop_first(), false));
    assert(load_entries(si, d.drop_first(), false) == si);
    let s1 = load_entries(s0, d, false);
    assert(s1 == si);
    let row = derived_species(0, name, e);
    let sp = StoreV { species: s0.species.push(row), labels: s0.labels };
    let cl = combined_label(name, e);
    let s2 = push_label(sp, 0, cl);
    let xs = locals_of(e);
    assert(s1 == add_local_labels(s2, 0, name, xs));
    // the species table holds exactly the derived row
    lemma_add_local_labels_species(s2, 0, name, xs);
    assert(s1.species.len() == 1);
    assert(s1.species[0] == row);
    assert(s1.species[0].scientific_name == name);
    // every label row points at it
    assert(all_sid(s2.labels, 0)) by {
        assert forall|j: int|
            0 <= j < s2.labels.len() implies (#[trigger] s2.labels[j]).species_id == 0 by {
            assert(j == 0);
        }
    }
    lemma_locals_sid(s2, 0, name, xs);
    // the compound label survives at position zero
    lemma_locals_prefix(s2, 0, name, xs);
    assert(s2.labels[0].label == cl);
    assert(s1.labels[0].label == cl);
    assert(s1.labels.len() >= 1);
    // every label is strictly longer than the bare name
    assert(all_longer(s2.labels, name.len() as int)) by {
        assert forall|j: int|
            0 <= j < s2.labels.len() implies (#[trigger] s2.labels[j]).label.len() > name.len() by {
            assert(j == 0);
            assert(s2.labels[0].label == cl);
            assert(cl.len() >= name.len() + 1);
        }
    }
    lemma_locals_min_len(s2, 0, name, xs);
    // the compound query label is present, so the exact tier fires
    let q = local_label(name, xs[k]);
    lemma_locals_present(s2, 0, name, xs, k);
    let p1 = |l: ModelLabelV| l.label == q;
    lemma_first_where(s1.labels, p1);
    assert(resolve_idx(s1, q) == Some(0int)) by {
        let w = choose|j: int| 0 <= j < s1.labels.len() && (#[trigger] s1.labels[j]).label == q;
        assert(p1(s1.labels[w]));
        match first_where(s1.labels, p1) {
            Some(i) => {
                assert(s1.labels[i].species_id == 0);
            },
            None => {
                assert(!p1(s1.labels[w]));
            },
        }
    }
    // the bare name misses the exact tier (every label is longer) and hits
    // the label-substring tier through the compound label's prefix
    let pe = |l: ModelLabelV| l.label == name;
    lemma_first_where(s1.labels, pe);
    assert(first_where(s1.labels, pe) is None) by {
        match first_where(s1.labels, pe) {
            Some(i) => {
                assert(s1.labels[i].label.len() > name.len());
            },
            None => {},
        }
    }
    let pc = |l: ModelLabelV| contains_ci(l.label, name);
    assert(contains_ci(cl, name)) by {
        assert(matches_at(cl, name, 0)) by {
            assert forall|j: int| 0 <= j < name.len() implies lower_byte(cl[0 + j]) == lower_byte(
                name[j],
            ) by {
                assert(cl[j] == name[j]);
            }
        }
    }
    lemma_first_where(s1.labels, pc);
    assert(resolve_idx(s1, name) == Some(0int)) by {
        assert(pc(s1.labels[0]));
        match first_where(s1.labels, pc) {
            Some(i) => {
                assert(s1.labels[i].species_id == 0);
            },
            None => {
                assert(!pc(s1.labels[0]));
            },
        }
    }
}

} // verus!
