//! The resolution cascade and the record projector.  A query label runs
//! through six ordered matching tiers over the label index and the species
//! table; the first tier producing a result wins, and within a tier the
//! first row in backing order is returned.  The matched row is projected
//! into a flat record, with the embedded blobs parsed back or downgraded to
//! absent when they do not parse.

use vstd::prelude::*;

use crate::bytes::{
    candidate_of, clone_bytes, contains_ci, eq_bytes, find_ci, first_token, first_token_of,
    sci_candidate,
};
use crate::codec::{parse_props, parse_uses, sp_arr_doc, sp_obj_doc, ArrV, ObjV, Scalar};
use crate::store::{
    first_where, lemma_first_where, wf_store, ModelLabel, ModelLabelV, Species, SpeciesV, Store,
    StoreV,
};

verus! {

/// Resolution failure: no tier matched; the query label is preserved.
#[derive(Debug, PartialEq, Eq)]
pub enum ResolveError {
    NotFound(Vec<u8>),
}

/// The projected output record: the matched row with its blobs parsed.
#[derive(Debug)]
pub struct SpeciesRecord {
    pub id: usize,
    pub scientific_name: Vec<u8>,
    pub common_name: Vec<u8>,
    pub family: Vec<u8>,
    pub description: Vec<u8>,
    pub habitat: Option<Vec<u8>>,
    pub distribution: Option<Vec<u8>>,
    pub properties: Option<Vec<(Vec<u8>, Scalar)>>,
    pub uses: Option<Vec<Vec<u8>>>,
    pub conservation_status: Option<Vec<u8>>,
    pub image_url: Option<Vec<u8>>,
}

/// The mathematical model of a [`SpeciesRecord`].
#[verifier::ext_equal]
pub struct SpeciesRecordV {
    pub id: int,
    pub scientific_name: Seq<u8>,
    pub common_name: Seq<u8>,
    pub family: Seq<u8>,
    pub description: Seq<u8>,
    pub habitat: Option<Seq<u8>>,
    pub distribution: Option<Seq<u8>>,
    pub properties: Option<ObjV>,
    pub uses: Option<ArrV>,
    pub conservation_status: Option<Seq<u8>>,
    pub image_url: Option<Seq<u8>>,
}

impl View for SpeciesRecord {
    type V = SpeciesRecordV;

    open spec fn view(&self) -> SpeciesRecordV {
        SpeciesRecordV {
            id: self.id as int,
            scientific_name: self.scientific_name@,
            common_name: self.common_name@,
            family: self.family@,
            description: self.description@,
            habitat: crate::store::opt_view(self.habitat),
            distribution: crate::store::opt_view(self.distribution),
            properties: match self.properties {
                Some(v) => Some(crate::codec::obj_view(v@)),
                None => None,
            },
            uses: match self.uses {
                Some(v) => Some(crate::codec::arr_view(v@)),
                None => None,
            },
            conservation_status: crate::store::opt_view(self.conservation_status),
            image_url: crate::store::opt_view(self.image_url),
        }
    }
}

/// What projection returns for a row: scalar fields unchanged, each blob
/// parsed back, or absent when it is missing or does not parse.
pub open spec fn project_spec(sp: SpeciesV) -> SpeciesRecordV {
    SpeciesRecordV {
        id: sp.id,
        scientific_name: sp.scientific_name,
        common_name: sp.common_name,
        family: sp.family,
        description: sp.description,
        habitat: sp.habitat,
        distribution: sp.distribution,
        properties: match sp.properties {
            Some(t) => sp_obj_doc(t),
            None => None,
        },
        uses: match sp.uses {
            Some(t) => sp_arr_doc(t),
            None => None,
        },
        conservation_status: sp.conservation_status,
        image_url: sp.image_url,
    }
}

fn clone_opt(v: &Option<Vec<u8>>) -> (r: Option<Vec<u8>>)
    ensures
        crate::store::opt_view(r) == crate::store::opt_view(*v),
{
    match v {
        Some(t) => Some(clone_bytes(t)),
        None => None,
    }
}

/// Projects one matched row into the output record.
pub fn project(sp: &Species) -> (r: SpeciesRecord)
    ensures
        r@ == project_spec(sp@),
{
    SpeciesRecord {
        id: sp.id,
        scientific_name: clone_bytes(&sp.scientific_name),
        common_name: clone_bytes(&sp.common_name),
        family: clone_bytes(&sp.family),
        description: clone_bytes(&sp.description),
        habitat: clone_opt(&sp.habitat),
        distribution: clone_opt(&sp.distribution),
        properties: match &sp.properties {
            Some(t) => parse_props(t),
            None => None,
        },
        uses: match &sp.uses {
            Some(t) => parse_uses(t),
            None => None,
        },
        conservation_status: clone_opt(&sp.conservation_status),
        image_url: clone_opt(&sp.image_url),
    }
}

/// The species index the cascade resolves to, or nothing after all six
/// tiers miss.  `q` is the raw query label.
pub open spec fn resolve_idx(s: StoreV, q: Seq<u8>) -> Option<int> {
    let cand = sci_candidate(q);
    let tok = first_token(cand);
    let t1 = first_where(s.labels, |l: ModelLabelV| l.label == q);
    let t2 = first_where(s.labels, |l: ModelLabelV| contains_ci(l.label, q));
    let t3 = first_where(s.species, |sp: SpeciesV| contains_ci(sp.scientific_name, cand));
    let t4 = first_where(s.species, |sp: SpeciesV| contains_ci(sp.scientific_name, tok));
    let t5 = first_where(s.species, |sp: SpeciesV| contains_ci(sp.common_name, q));
    let t6 = first_where(
        s.species,
        |sp: SpeciesV|
            contains_ci(sp.scientific_name, cand) || contains_ci(sp.common_name, cand)
                || contains_ci(sp.family, cand),
    );
    if t1 is Some {
        Some(s.labels[t1->Some_0].species_id)
    } else if t2 is Some {
        Some(s.labels[t2->Some_0].species_id)
    } else if t3 is Some {
        t3
    } else if t4 is Some {
        t4
    } else if t5 is Some {
        t5
    } else if t6 is Some {
        t6
    } else {
        None
    }
}

fn scan_label_eq(labels: &Vec<ModelLabel>, q: &Vec<u8>) -> (r: Option<usize>)
    ensures
        ({
            let fw = first_where(
                crate::store::labels_view(labels@),
                |l: ModelLabelV| l.label == q@,
            );
            match r {
                Some(j) => fw == Some(j as int) && j < labels@.len(),
                None => fw is None,
            }
        }),
{
    let ghost ls = crate::store::labels_view(labels@);
    let ghost p = |l: ModelLabelV| l.label == q@;
    let mut j: usize = 0;
    while j < labels.len()
        invariant
            j <= labels@.len(),
            ls == crate::store::labels_view(labels@),
            p == (|l: ModelLabelV| l.label == q@),
            forall|j0: int| 0 <= j0 < j ==> !p(ls[j0]),
        decreases labels@.len() - j,
    {
        if eq_bytes(&labels[j].label, q) {
            proof {
                assert(ls[j as int] == labels@[j as int]@);
                assert(p(ls[j as int]));
                lemma_first_where(ls, p);
            }
            return Some(j);
        }
        proof {
            assert(ls[j as int] == labels@[j as int]@);
        }
        j += 1;
    }
    proof {
        lemma_first_where(ls, p);
    }
    None
}

fn scan_label_contains(labels: &Vec<ModelLabel>, q: &Vec<u8>) -> (r: Option<usize>)
    ensures
        ({
            let fw = first_where(
                crate::store::labels_view(labels@),
                |l: ModelLabelV| contains_ci(l.label, q@),
            );
            match r {
                Some(j) => fw == Some(j as int) && j < labels@.len(),
                None => fw is None,
            }
        }),
{
    let ghost ls = crate::store::labels_view(labels@);
    let ghost p = |l: ModelLabelV| contains_ci(l.label, q@);
    let mut j: usize = 0;
    while j < labels.len()
        invariant
            j <= labels@.len(),
            ls == crate::store::labels_view(labels@),
            p == (|l: ModelLabelV| contains_ci(l.label, q@)),
            forall|j0: int| 0 <= j0 < j ==> !p(ls[j0]),
        decreases labels@.len() - j,
    {
        if find_ci(&labels[j].label, q) {
            proof {
                assert(ls[j as int] == labels@[j as int]@);
                assert(p(ls[j as int]));
                lemma_first_where(ls, p);
            }
            return Some(j);
        }
        proof {
            assert(ls[j as int] == labels@[j as int]@);
        }
        j += 1;
    }
    proof {
        lemma_first_where(ls, p);
    }
    None
}

fn scan_species_sci(species: &Vec<Species>, needle: &Vec<u8>) -> (r: Option<usize>)
    ensures
        ({
            let fw = first_where(
                crate::store::species_view(species@),
                |sp: SpeciesV| contains_ci(sp.scientific_name, needle@),
            );
            match r {
                Some(j) => fw == Some(j as int) && j < species@.len(),
                None => fw is None,
            }
        }),
{
    let ghost ls = crate::store::species_view(species@);
    let ghost p = |sp: SpeciesV| contains_ci(sp.scientific_name, needle@);
    let mut j: usize = 0;
    while j < species.len()
        invariant
            j <= species@.len(),
            ls == crate::store::species_view(species@),
            p == (|sp: SpeciesV| contains_ci(sp.scientific_name, needle@)),
            forall|j0: int| 0 <= j0 < j ==> !p(ls[j0]),
        decreases species@.len() - j,
    {
        if find_ci(&species[j].scientific_name, needle) {
            proof {
                assert(ls[j as int] == species@[j as int]@);
                assert(p(ls[j as int]));
                lemma_first_where(ls, p);
            }
            return Some(j);
        }
        proof {
            assert(ls[j as int] == species@[j as int]@);
        }
        j += 1;
    }
    proof {
        lemma_first_where(ls, p);
    }
    None
}

fn scan_species_common(species: &Vec<Species>, needle: &Vec<u8>) -> (r: Option<usize>)
    ensures
        ({
            let fw = first_where(
                crate::store::species_view(species@),
                |sp: SpeciesV| contains_ci(sp.common_name, needle@),
            );
            match r {
                Some(j) => fw == Some(j as int) && j < species@.len(),
                None => fw is None,
            }
        }),
{
    let ghost ls = crate::store::species_view(species@);
    let ghost p = |sp: SpeciesV| contains_ci(sp.common_name, needle@);
    let mut j: usize = 0;
    while j < species.len()
        invariant
            j <= species@.len(),
            ls == crate::store::species_view(species@),
            p == (|sp: SpeciesV| contains_ci(sp.common_name, needle@)),
            forall|j0: int| 0 <= j0 < j ==> !p(ls[j0]),
        decreases species@.len() - j,
    {
        if find_ci(&species[j].common_name, needle) {
            proof {
                assert(ls[j as int] == species@[j as int]@);
                assert(p(ls[j as int]));
                lemma_first_where(ls, p);
            }
            return Some(j);
        }
        proof {
            assert(ls[j as int] == species@[j as int]@);
        }
        j += 1;
    }
    proof {
        lemma_first_where(ls, p);
    }
    None
}

fn scan_species_any(species: &Vec<Species>, needle: &Vec<u8>) -> (r: Option<usize>)
    ensures
        ({
            let fw = first_where(
                crate::store::species_view(species@),
                |sp: SpeciesV|
                    contains_ci(sp.scientific_name, needle@) || contains_ci(sp.common_name, needle@)
                        || contains_ci(sp.family, needle@),
            );
            match r {
                Some(j) => fw == Some(j as int) && j < species@.len(),
                None => fw is None,
            }
        }),
{
    let ghost ls = crate::store::species_view(species@);
    let ghost p = |sp: SpeciesV|
        contains_ci(sp.scientific_name, needle@) || contains_ci(sp.common_name, needle@)
            || contains_ci(sp.family, needle@);
    let mut j: usize = 0;
    while j < species.len()
        invariant
            j <= species@.len(),
            ls == crate::store::species_view(species@),
            p == (|sp: SpeciesV|
                contains_ci(sp.scientific_name, needle@) || contains_ci(sp.common_name, needle@)
                    || contains_ci(sp.family, needle@)),
            forall|j0: int| 0 <= j0 < j ==> !p(ls[j0]),
        decreases species@.len() - j,
    {
        if find_ci(&species[j].scientific_name, needle) || find_ci(&species[j].common_name, needle)
            || find_ci(&species[j].family, needle) {
            proof {
                assert(ls[j as int] == species@[j as int]@);
                assert(p(ls[j as int]));
                lemma_first_where(ls, p);
            }
            return Some(j);
        }
        proof {
            assert(ls[j as int] == species@[j as int]@);
        }
        j += 1;
    }
    proof {
        lemma_first_where(ls, p);
    }
    None
}

impl Store {
    /// Runs the six-tier cascade for one query label and projects the first
    /// match; after total exhaustion, fails with the label preserved.
    pub fn get_species_by_label(&self, label: &Vec<u8>) -> (r: Result<SpeciesRecord, ResolveError>)
        requires
            wf_store(self@),
        ensures
            match resolve_idx(self@, label@) {
                Some(i) => r is Ok && r->Ok_0@ == project_spec(self@.species[i]),
                None => r is Err && r->Err_0->NotFound_0@ == label@,
            },
    {
        let cand = candidate_of(label);
        let tok = first_token_of(&cand);
        if let Some(j) = scan_label_eq(&self.labels, label) {
            let sid = self.labels[j].species_id;
            assert(self@.labels[j as int].species_id == sid as int);
            return Ok(project(&self.species[sid]));
        }
        if let Some(j) = scan_label_contains(&self.labels, label) {
            let sid = self.labels[j].species_id;
            assert(self@.labels[j as int].species_id == sid as int);
            return Ok(project(&self.species[sid]));
        }
        if let Some(j) = scan_species_sci(&self.species, &cand) {
            return Ok(project(&self.species[j]));
        }
        if let Some(j) = scan_species_sci(&self.species, &tok) {
            return Ok(project(&self.species[j]));
        }
        if let Some(j) = scan_species_common(&self.species, label) {
            return Ok(project(&self.species[j]));
        }
        if let Some(j) = scan_species_any(&self.species, &cand) {
            return Ok(project(&self.species[j]));
        }
        Err(ResolveError::NotFound(clone_bytes(label)))
    }
}

/// Deterministic exhaustion: when no row satisfies any tier for the query,
/// resolution yields nothing; the caller then sees the not-found failure
/// with the label preserved, never a partial record.
pub proof fn lemma_resolution_exhaustion(s: StoreV, q: Seq<u8>)
    requires
        forall|j: int| 0 <= j < s.labels.len() ==> (#[trigger] s.labels[j]).label != q,
        forall|j: int|
            0 <= j < s.labels.len() ==> !contains_ci((#[trigger] s.labels[j]).label, q),
        forall|i: int|
            0 <= i < s.species.len() ==> !contains_ci(
                (#[trigger] s.species[i]).scientific_name,
                sci_candidate(q),
            ) && !contains_ci(s.species[i].scientific_name, first_token(sci_candidate(q)))
                && !contains_ci(s.species[i].common_name, q) && !contains_ci(
                s.species[i].common_name,
                sci_candidate(q),
            ) && !contains_ci(s.species[i].family, sci_candidate(q)),
    ensures
        resolve_idx(s, q) is None,
{
    let cand = sci_candidate(q);
    let tok = first_token(cand);
    lemma_first_where(s.labels, |l: ModelLabelV| l.label == q);
    lemma_first_where(s.labels, |l: ModelLabelV| contains_ci(l.label, q));
    lemma_first_where(s.species, |sp: SpeciesV| contains_ci(sp.scientific_name, cand));
    lemma_first_where(s.species, |sp: SpeciesV| contains_ci(sp.scientific_name, tok));
    lemma_first_where(s.species, |sp: SpeciesV| contains_ci(sp.common_name, q));
    lemma_first_where(
        s.species,
        |sp: SpeciesV|
            contains_ci(sp.scientific_name, cand) || contains_ci(sp.common_name, cand)
                || contains_ci(sp.family, cand),
    );
}

} // verus!
