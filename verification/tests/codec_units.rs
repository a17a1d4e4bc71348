//! Unit tests for the blob codec, the record projector's parse-or-null
//! fallback, and the query-label splitting rules.

use treescope::bytes::{candidate_of, find_ci, first_token_of, name_fragment_of};
use treescope::codec::{parse_props, parse_uses, write_arr, write_obj, Scalar};
use treescope::resolve::project;
use treescope::store::Species;

fn bv(s: &str) -> Vec<u8> {
    s.as_bytes().to_vec()
}

fn bare_species(properties: Option<Vec<u8>>, uses: Option<Vec<u8>>) -> Species {
    Species {
        id: 0,
        scientific_name: bv("Quercus_alba"),
        common_name: bv("White Oak"),
        family: bv("Fagaceae"),
        description: bv(""),
        habitat: None,
        distribution: None,
        properties,
        uses,
        conservation_status: None,
        image_url: None,
    }
}

#[test]
fn write_and_parse_object() {
    let items = vec![
        (bv("a"), Scalar::Num(bv("1.2"))),
        (bv("b"), Scalar::Str(bv("x y"))),
        (bv("c"), Scalar::Bool(false)),
        (bv("d"), Scalar::Null),
    ];
    let text = write_obj(&items);
    assert_eq!(text, bv(r#"{"a":1.2,"b":"x y","c":false,"d":null}"#));
    assert_eq!(parse_props(&text).unwrap(), items);
}

#[test]
fn write_and_parse_empty_object() {
    let items: Vec<(Vec<u8>, Scalar)> = Vec::new();
    let text = write_obj(&items);
    assert_eq!(text, bv("{}"));
    assert_eq!(parse_props(&text).unwrap(), items);
}

#[test]
fn write_and_parse_string_array() {
    let items = vec![bv("furniture"), bv("boat building")];
    let text = write_arr(&items);
    assert_eq!(text, bv(r#"["furniture","boat building"]"#));
    assert_eq!(parse_uses(&text).unwrap(), items);
}

#[test]
fn parse_rejects_trailing_text() {
    assert!(parse_props(&bv("{} extra")).is_none());
    assert!(parse_uses(&bv("[] [")).is_none());
}

#[test]
fn parse_tolerates_whitespace() {
    let parsed = parse_props(&bv(" { \"a\" : 1 , \"b\" : true } ")).unwrap();
    assert_eq!(
        parsed,
        vec![(bv("a"), Scalar::Num(bv("1"))), (bv("b"), Scalar::Bool(true))]
    );
}

#[test]
fn number_kept_in_lexical_form() {
    let parsed = parse_props(&bv(r#"{"h":1.20e3}"#)).unwrap();
    assert_eq!(parsed, vec![(bv("h"), Scalar::Num(bv("1.20e3")))]);
}

#[test]
fn projector_downgrades_malformed_blob() {
    let sp = bare_species(Some(bv("{oops")), Some(bv("not json")));
    let rec = project(&sp);
    assert!(rec.properties.is_none());
    assert!(rec.uses.is_none());
    // scalar fields still pass through unchanged
    assert_eq!(rec.scientific_name, bv("Quercus_alba"));
}

#[test]
fn projector_keeps_absent_blobs_absent() {
    let rec = project(&bare_species(None, None));
    assert!(rec.properties.is_none());
    assert!(rec.uses.is_none());
}

#[test]
fn projector_parses_stored_blobs() {
    let rec = project(&bare_species(Some(bv(r#"{"k":"v"}"#)), Some(bv(r#"["u"]"#))));
    assert_eq!(rec.properties.unwrap(), vec![(bv("k"), Scalar::Str(bv("v")))]);
    assert_eq!(rec.uses.unwrap(), vec![bv("u")]);
}

#[test]
fn candidate_stops_at_first_underscore() {
    assert_eq!(candidate_of(&bv("Quercus_alba_White Oak")), bv("Quercus"));
    assert_eq!(candidate_of(&bv("no underscore")), bv("no underscore"));
    assert_eq!(candidate_of(&bv("")), bv(""));
}

#[test]
fn first_token_splits_on_whitespace() {
    assert_eq!(first_token_of(&bv("Tectona grandis")), bv("Tectona"));
    assert_eq!(first_token_of(&bv("  padded out")), bv("padded"));
    // all-whitespace input falls back to the whole candidate
    assert_eq!(first_token_of(&bv("  ")), bv("  "));
}

#[test]
fn name_fragment_stops_at_comma_space() {
    assert_eq!(name_fragment_of(&bv("Teak, Sagwan")), bv("Teak"));
    assert_eq!(name_fragment_of(&bv("Teak")), bv("Teak"));
    assert_eq!(name_fragment_of(&bv("a,b")), bv("a,b"));
}

#[test]
fn find_ci_is_case_insensitive_substring() {
    assert!(find_ci(&bv("Quercus_alba_White Oak"), &bv("white oak")));
    assert!(find_ci(&bv("abc"), &bv("")));
    assert!(!find_ci(&bv("abc"), &bv("abcd")));
    assert!(!find_ci(&bv("Fagaceae"), &bv("oak")));
}
