//! End-to-end tests: loading documents and resolving labels through the
//! six-tier cascade.

use treescope::codec::Scalar;
use treescope::loader::LoadError;
use treescope::resolve::ResolveError;
use treescope::store::Store;

fn bv(s: &str) -> Vec<u8> {
    s.as_bytes().to_vec()
}

const OAK_DOC: &str = r#"{"Quercus_alba": {"family":"Fagaceae", "local_name":["White Oak"], "notes":"A hardwood tree."}}"#;

#[test]
fn scenario_oak_exact_label() {
    let mut store = Store::new();
    store.ensure_species_data_loaded(&bv(OAK_DOC)).unwrap();
    let rec = store.get_species_by_label(&bv("Quercus_alba_White Oak")).unwrap();
    assert_eq!(rec.scientific_name, bv("Quercus_alba"));
    assert_eq!(rec.family, bv("Fagaceae"));
    assert_eq!(rec.description, bv("A hardwood tree."));
}

#[test]
fn scenario_oak_common_name_lowercase() {
    let mut store = Store::new();
    store.ensure_species_data_loaded(&bv(OAK_DOC)).unwrap();
    let rec = store.get_species_by_label(&bv("white oak")).unwrap();
    assert_eq!(rec.scientific_name, bv("Quercus_alba"));
    assert_eq!(rec.family, bv("Fagaceae"));
}

#[test]
fn scenario_oak_unknown_not_found() {
    let mut store = Store::new();
    store.ensure_species_data_loaded(&bv(OAK_DOC)).unwrap();
    let err = store.get_species_by_label(&bv("Unknown_Species")).unwrap_err();
    assert_eq!(err, ResolveError::NotFound(bv("Unknown_Species")));
}

#[test]
fn bare_scientific_name_resolves() {
    let mut store = Store::new();
    store.ensure_species_data_loaded(&bv(OAK_DOC)).unwrap();
    let rec = store.get_species_by_label(&bv("Quercus_alba")).unwrap();
    assert_eq!(rec.scientific_name, bv("Quercus_alba"));
}

#[test]
fn exact_tier_beats_substring_tier() {
    let doc = r#"{"Xylia": {"local_name":["Q"]}, "Q": {"local_name":["R"]}}"#;
    let mut store = Store::new();
    store.ensure_species_data_loaded(&bv(doc)).unwrap();
    // exact label match wins
    let rec = store.get_species_by_label(&bv("Q_R")).unwrap();
    assert_eq!(rec.scientific_name, bv("Q"));
    // no exact match: the first label row containing the query wins
    let rec = store.get_species_by_label(&bv("q")).unwrap();
    assert_eq!(rec.scientific_name, bv("Xylia"));
}

#[test]
fn scientific_name_substring_tier() {
    let doc = r#"{"Tectona grandis": {"family":"Lamiaceae"}}"#;
    let mut store = Store::new();
    store.ensure_species_data_loaded(&bv(doc)).unwrap();
    let rec = store.get_species_by_label(&bv("grandis_zzz")).unwrap();
    assert_eq!(rec.scientific_name, bv("Tectona grandis"));
}

#[test]
fn first_token_tier() {
    let doc = r#"{"Tectona grandis": {"family":"Lamiaceae"}}"#;
    let mut store = Store::new();
    store.ensure_species_data_loaded(&bv(doc)).unwrap();
    // the candidate "Tectona qqq" misses, its first token "Tectona" hits
    let rec = store.get_species_by_label(&bv("Tectona qqq_L")).unwrap();
    assert_eq!(rec.scientific_name, bv("Tectona grandis"));
}

#[test]
fn common_name_tier() {
    let doc = r#"{"Tectona grandis": {"local_name":["Teak", "Sagwan"]}}"#;
    let mut store = Store::new();
    store.ensure_species_data_loaded(&bv(doc)).unwrap();
    // common name is the comma-joined list "Teak, Sagwan"; no label holds
    // the query, only the common-name field does
    let rec = store.get_species_by_label(&bv("teak, sag")).unwrap();
    assert_eq!(rec.scientific_name, bv("Tectona grandis"));
    assert_eq!(rec.common_name, bv("Teak, Sagwan"));
}

#[test]
fn family_catch_all_tier() {
    let doc = r#"{"Acacia nilotica": {"family":"Fabaceae"}}"#;
    let mut store = Store::new();
    store.ensure_species_data_loaded(&bv(doc)).unwrap();
    let rec = store.get_species_by_label(&bv("fabaceae")).unwrap();
    assert_eq!(rec.scientific_name, bv("Acacia nilotica"));
}

#[test]
fn not_found_preserves_label() {
    let mut store = Store::new();
    let err = store.get_species_by_label(&bv("anything")).unwrap_err();
    assert_eq!(err, ResolveError::NotFound(bv("anything")));
}

#[test]
fn idempotent_bootstrap_load() {
    let mut store = Store::new();
    store.ensure_species_data_loaded(&bv(OAK_DOC)).unwrap();
    let species_count = store.species.len();
    let label_count = store.labels.len();
    store.ensure_species_data_loaded(&bv(OAK_DOC)).unwrap();
    assert_eq!(store.species.len(), species_count);
    assert_eq!(store.labels.len(), label_count);
}

#[test]
fn malformed_document_loads_nothing() {
    let mut store = Store::new();
    let err = store.ensure_species_data_loaded(&bv("not json")).unwrap_err();
    assert_eq!(err, LoadError::MalformedInput);
    assert_eq!(store.species.len(), 0);
    assert_eq!(store.labels.len(), 0);
}

#[test]
fn one_malformed_entry_aborts_whole_load() {
    // the second entry's local_name is not an array of strings
    let doc = r#"{"Quercus_alba": {"family":"Fagaceae"}, "Tectona grandis": {"local_name":"Teak"}}"#;
    let mut store = Store::new();
    let err = store.import_species_data(&bv(doc)).unwrap_err();
    assert_eq!(err, LoadError::MalformedInput);
    assert_eq!(store.species.len(), 0);
    assert_eq!(store.labels.len(), 0);
}

#[test]
fn properties_blob_round_trip() {
    let doc = r#"{"Quercus_alba": {"wood_anatomy": {"fiber_length_mm": 1.2}, "tree_height_m": 30, "deciduous": true}}"#;
    let mut store = Store::new();
    store.ensure_species_data_loaded(&bv(doc)).unwrap();
    let rec = store.get_species_by_label(&bv("Quercus_alba")).unwrap();
    let props = rec.properties.unwrap();
    assert_eq!(
        props,
        vec![
            (bv("fiber_length_mm"), Scalar::Num(bv("1.2"))),
            (bv("tree_height_m"), Scalar::Num(bv("30"))),
            (bv("deciduous"), Scalar::Bool(true)),
        ]
    );
}

#[test]
fn usages_blob_round_trip() {
    let doc = r#"{"Quercus_alba": {"usages": ["furniture", "flooring"]}}"#;
    let mut store = Store::new();
    store.ensure_species_data_loaded(&bv(doc)).unwrap();
    let rec = store.get_species_by_label(&bv("Quercus_alba")).unwrap();
    assert_eq!(rec.uses.unwrap(), vec![bv("furniture"), bv("flooring")]);
}

#[test]
fn absent_usages_become_empty_list() {
    let doc = r#"{"Quercus_alba": {"family":"Fagaceae"}}"#;
    let mut store = Store::new();
    store.ensure_species_data_loaded(&bv(doc)).unwrap();
    let rec = store.get_species_by_label(&bv("Quercus_alba")).unwrap();
    assert_eq!(rec.uses.unwrap(), Vec::<Vec<u8>>::new());
}

#[test]
fn duplicate_local_names_insert_once() {
    let doc = r#"{"X": {"local_name":["Oak", "Oak"]}}"#;
    let mut store = Store::new();
    store.ensure_species_data_loaded(&bv(doc)).unwrap();
    // the compound label X_Oak already covers both local names
    assert_eq!(store.labels.len(), 1);
    assert_eq!(store.labels[0].label, bv("X_Oak"));
}

#[test]
fn reimport_replaces_by_scientific_name() {
    let mut store = Store::new();
    store
        .ensure_species_data_loaded(&bv(r#"{"Quercus_alba": {"family":"Fagaceae"}}"#))
        .unwrap();
    assert_eq!(store.species.len(), 1);
    store
        .import_species_data(&bv(r#"{"Quercus_alba": {"family":"Quercaceae"}}"#))
        .unwrap();
    assert_eq!(store.species.len(), 1);
    let rec = store.get_species_by_label(&bv("Quercus_alba")).unwrap();
    assert_eq!(rec.family, bv("Quercaceae"));
}

#[test]
fn empty_document_loads_nothing() {
    let mut store = Store::new();
    store.ensure_species_data_loaded(&bv("{}")).unwrap();
    assert_eq!(store.species.len(), 0);
    assert_eq!(store.labels.len(), 0);
}

#[test]
fn whitespace_tolerant_document() {
    let doc = "{\n  \"Quercus_alba\" : {\n    \"family\" : \"Fagaceae\"\n  }\n}\n";
    let mut store = Store::new();
    store.ensure_species_data_loaded(&bv(doc)).unwrap();
    let rec = store.get_species_by_label(&bv("Quercus_alba")).unwrap();
    assert_eq!(rec.family, bv("Fagaceae"));
}
