use dotthz::text::{decimal_text, join, split};
use dotthz::{compose_identity, pack, parse_identity, unpack};

fn strings(v: &[&str]) -> Vec<String> {
    v.iter().map(|s| s.to_string()).collect()
}

#[test]
fn identity_composite_joins_in_order() {
    let c = compose_identity("0000-0001-2345-6789", "Test User", "test@example.com", "Test Institute");
    assert_eq!(c, "0000-0001-2345-6789/Test User/test@example.com/Test Institute");
}

#[test]
fn identity_composite_parses_back() {
    let (orcid, user, email, institution) =
        parse_identity("0000-0001-2345-6789/Test User/test@example.com/Test Institute");
    assert_eq!(orcid, "0000-0001-2345-6789");
    assert_eq!(user, "Test User");
    assert_eq!(email, "test@example.com");
    assert_eq!(institution, "Test Institute");
}

#[test]
fn identity_with_fewer_parts_leaves_rest_empty() {
    let (orcid, user, email, institution) = parse_identity("0000-0001/Jane Doe");
    assert_eq!(orcid, "0000-0001");
    assert_eq!(user, "Jane Doe");
    assert_eq!(email, "");
    assert_eq!(institution, "");
    let (orcid, user, _, _) = parse_identity("");
    assert_eq!(orcid, "");
    assert_eq!(user, "");
}

#[test]
fn identity_with_extra_parts_ignores_them() {
    let (_, _, email, institution) = parse_identity("a/b/c/d/e");
    assert_eq!(email, "c");
    assert_eq!(institution, "d");
}

#[test]
fn identity_keeps_spaces_and_empty_fields() {
    let c = compose_identity("", " User ", "", "Inst");
    assert_eq!(c, "/ User //Inst");
    let (orcid, user, email, institution) = parse_identity(&c);
    assert_eq!((orcid.as_str(), user.as_str(), email.as_str(), institution.as_str()), ("", " User ", "", "Inst"));
}

#[test]
fn pack_joins_with_comma_space() {
    assert_eq!(pack(&strings(&["Thickness (mm)", "Voltage"])), "Thickness (mm), Voltage");
    assert_eq!(pack(&strings(&["only"])), "only");
    assert_eq!(pack(&Vec::new()), "");
}

#[test]
fn unpack_single_entry_splits() {
    assert_eq!(unpack(&strings(&["Thickness (mm), Voltage"])), strings(&["Thickness (mm)", "Voltage"]));
    assert_eq!(unpack(&strings(&[""])), strings(&[""]));
}

#[test]
fn unpack_multi_entry_unchanged() {
    assert_eq!(unpack(&strings(&["Thickness (mm)", "Voltage"])), strings(&["Thickness (mm)", "Voltage"]));
    assert_eq!(unpack(&strings(&["a, b", "c"])), strings(&["a, b", "c"]));
    assert_eq!(unpack(&Vec::new()), Vec::<String>::new());
}

#[test]
fn both_descriptor_shapes_give_same_labels() {
    let joined = unpack(&strings(&["Thickness (mm), Voltage"]));
    let separate = unpack(&strings(&["Thickness (mm)", "Voltage"]));
    assert_eq!(joined, separate);
    assert_eq!(joined, strings(&["Thickness (mm)", "Voltage"]));
}

#[test]
fn pack_then_unpack_gives_labels() {
    let labels = strings(&["a,", " b", "", "c d"]);
    assert_eq!(unpack(&vec![pack(&labels)]), labels);
}

#[test]
fn split_matches_str_split() {
    for (s, sep) in [("a, , b", ", "), ("", ", "), (", x, ", ", "), ("a,,  b", ", "), ("ü/ö//", "/"), ("abcabc", "bc")] {
        let expected: Vec<String> = s.split(sep).map(|p| p.to_string()).collect();
        assert_eq!(split(s, sep), expected, "splitting {:?} on {:?}", s, sep);
    }
}

#[test]
fn join_matches_slice_join() {
    let parts = strings(&["α", "", "γ"]);
    assert_eq!(join(&parts, "--"), parts.join("--"));
    assert_eq!(join(&Vec::new(), ", "), "");
}

#[test]
fn decimal_text_writes_integers() {
    assert_eq!(decimal_text(0), "0");
    assert_eq!(decimal_text(7), "7");
    assert_eq!(decimal_text(10), "10");
    assert_eq!(decimal_text(12345), "12345");
    assert_eq!(decimal_text(usize::MAX), usize::MAX.to_string());
}
