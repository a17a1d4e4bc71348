//! The relational layout: the species table, the model-label table (the
//! label index), and the invariants binding them.  Rows are created only by
//! the loader; identifiers equal row positions, as the backing store would
//! assign them.

use vstd::prelude::*;

verus! {

/// One botanical taxon row.
pub struct Species {
    pub id: usize,
    pub scientific_name: Vec<u8>,
    pub common_name: Vec<u8>,
    pub family: Vec<u8>,
    pub description: Vec<u8>,
    pub habitat: Option<Vec<u8>>,
    pub distribution: Option<Vec<u8>>,
    pub properties: Option<Vec<u8>>,
    pub uses: Option<Vec<u8>>,
    pub conservation_status: Option<Vec<u8>>,
    pub image_url: Option<Vec<u8>>,
}

/// The mathematical model of a [`Species`] row.
#[verifier::ext_equal]
pub struct SpeciesV {
    pub id: int,
    pub scientific_name: Seq<u8>,
    pub common_name: Seq<u8>,
    pub family: Seq<u8>,
    pub description: Seq<u8>,
    pub habitat: Option<Seq<u8>>,
    pub distribution: Option<Seq<u8>>,
    pub properties: Option<Seq<u8>>,
    pub uses: Option<Seq<u8>>,
    pub conservation_status: Option<Seq<u8>>,
    pub image_url: Option<Seq<u8>>,
}

/// View of an optional text field.
pub open spec fn opt_view(v: Option<Vec<u8>>) -> Option<Seq<u8>> {
    match v {
        Some(t) => Some(t@),
        None => None,
    }
}

impl View for Species {
    type V = SpeciesV;

    open spec fn view(&self) -> SpeciesV {
        SpeciesV {
            id: self.id as int,
            scientific_name: self.scientific_name@,
            common_name: self.common_name@,
            family: self.family@,
            description: self.description@,
            habitat: opt_view(self.habitat),
            distribution: opt_view(self.distribution),
            properties: opt_view(self.properties),
            uses: opt_view(self.uses),
            conservation_status: opt_view(self.conservation_status),
            image_url: opt_view(self.image_url),
        }
    }
}

/// One derived lookup key, owned by a species row.
pub struct ModelLabel {
    pub id: usize,
    pub species_id: usize,
    pub label: Vec<u8>,
}

/// The mathematical model of a [`ModelLabel`] row.
#[verifier::ext_equal]
pub struct ModelLabelV {
    pub id: int,
    pub species_id: int,
    pub label: Seq<u8>,
}

impl View for ModelLabel {
    type V = ModelLabelV;

    open spec fn view(&self) -> ModelLabelV {
        ModelLabelV { id: self.id as int, species_id: self.species_id as int, label: self.label@ }
    }
}

/// The two tables, owned together so callers can construct isolated
/// instances; all loading and resolution goes through one such value.
pub struct Store {
    pub species: Vec<Species>,
    pub labels: Vec<ModelLabel>,
}

/// The mathematical model of a [`Store`].
#[verifier::ext_equal]
pub struct StoreV {
    pub species: Seq<SpeciesV>,
    pub labels: Seq<ModelLabelV>,
}

/// View of the species table.
pub open spec fn species_view(v: Seq<Species>) -> Seq<SpeciesV> {
    Seq::new(v.len(), |i: int| v[i]@)
}

/// View of the label table.
pub open spec fn labels_view(v: Seq<ModelLabel>) -> Seq<ModelLabelV> {
    Seq::new(v.len(), |i: int| v[i]@)
}

impl View for Store {
    type V = StoreV;

    open spec fn view(&self) -> StoreV {
        StoreV { species: species_view(self.species@), labels: labels_view(self.labels@) }
    }
}

/// Store invariant: identifiers equal row positions, and every label row
/// points at an existing species row.
pub open spec fn wf_store(s: StoreV) -> bool {
    &&& forall|i: int| 0 <= i < s.species.len() ==> (#[trigger] s.species[i]).id == i
    &&& forall|j: int|
        0 <= j < s.labels.len() ==> (#[trigger] s.labels[j]).id == j && 0 <= s.labels[j].species_id
            < s.species.len()
}

impl Store {
    /// An empty store: no species, no labels.
    pub fn new() -> (r: Store)
        ensures
            r@.species.len() == 0,
            r@.labels.len() == 0,
            wf_store(r@),
    {
        Store { species: Vec::new(), labels: Vec::new() }
    }
}

/// The position of the first element satisfying `p`, in backing order.
pub open spec fn first_where<A>(s: Seq<A>, p: spec_fn(A) -> bool) -> Option<int>
    decreases s.len(),
{
    if s.len() == 0 {
        None
    } else if p(s[0]) {
        Some(0)
    } else {
        match first_where(s.drop_first(), p) {
            Some(i) => Some(i + 1),
            None => None,
        }
    }
}

/// What [`first_where`] returns: the least position satisfying `p`, or
/// nothing when no position does.
pub proof fn lemma_first_where<A>(s: Seq<A>, p: spec_fn(A) -> bool)
    ensures
        match first_where(s, p) {
            Some(i) => 0 <= i < s.len() && p(s[i]) && forall|j: int| 0 <= j < i ==> !p(s[j]),
            None => forall|j: int| 0 <= j < s.len() ==> !p(s[j]),
        },
    decreases s.len(),
{
    if s.len() > 0 && !p(s[0]) {
        lemma_first_where(s.drop_first(), p);
        let t = s.drop_first();
        match first_where(s, p) {
            Some(i) => {
                assert(p(t[i - 1]));
                assert(t[i - 1] == s[i]);
                assert forall|j: int| 0 <= j < i implies !p(s[j]) by {
                    if j > 0 {
                        assert(s[j] == t[j - 1]);
                    }
                }
            },
            None => {
                assert forall|j: int| 0 <= j < s.len() implies !p(s[j]) by {
                    if j > 0 {
                        assert(s[j] == t[j - 1]);
                    }
                }
            },
        }
    }
}

/// A label string already present in the label table.
pub open spec fn label_present(labels: Seq<ModelLabelV>, t: Seq<u8>) -> bool {
    exists|j: int| 0 <= j < labels.len() && (#[trigger] labels[j]).label == t
}

} // verus!
