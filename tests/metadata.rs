use dotthz::{decode_meta_data, encode_meta_data, stale_annotation_names, AttrValue, Attribute, DotthzMetaData};
use indexmap::IndexMap;

fn numeric_flags(meta: &DotthzMetaData) -> Vec<bool> {
    meta.md.values().map(|v| v.parse::<f32>().is_ok()).collect()
}

fn sample() -> DotthzMetaData {
    DotthzMetaData {
        user: "Test User".to_string(),
        email: "test@example.com".to_string(),
        orcid: "0000-0001-2345-6789".to_string(),
        institution: "Test Institute".to_string(),
        description: "Test description".to_string(),
        md: [("Thickness (mm)".to_string(), "0.52".to_string())]
            .into_iter()
            .collect(),
        ds_description: vec!["ds1".to_string()],
        version: "1.0".to_string(),
        mode: "Test mode".to_string(),
        instrument: "Test instrument".to_string(),
        time: "12:34:56".to_string(),
        date: "2024-11-08".to_string(),
    }
}

fn text(name: &str, value: &str) -> Attribute {
    Attribute { name: name.to_string(), value: AttrValue::Text(value.to_string()) }
}

fn text_list(name: &str, values: &[&str]) -> Attribute {
    Attribute {
        name: name.to_string(),
        value: AttrValue::TextList(values.iter().map(|s| s.to_string()).collect()),
    }
}

fn find<'a>(attrs: &'a [Attribute], name: &str) -> &'a AttrValue {
    &attrs.iter().find(|a| a.name == name).expect("attribute written").value
}

#[test]
fn test_dotthz_save_and_load() {
    let meta_data = sample();
    let attrs = encode_meta_data(&meta_data, &numeric_flags(&meta_data));
    let copied = decode_meta_data(&attrs);
    assert_eq!(meta_data, copied);
    assert_eq!(copied.md.get("Thickness (mm)").map(|s| s.as_str()), Some("0.52"));
}

#[test]
fn encode_writes_every_attribute_in_order() {
    let meta = sample();
    let attrs = encode_meta_data(&meta, &numeric_flags(&meta));
    let names: Vec<&str> = attrs.iter().map(|a| a.name.as_str()).collect();
    assert_eq!(
        names,
        vec![
            "description", "date", "instrument", "mode", "thzVer", "time", "user", "mdDescription",
            "md1", "dsDescription"
        ]
    );
    assert!(matches!(find(&attrs, "thzVer"), AttrValue::Text(s) if s == "1.0"));
    assert!(matches!(find(&attrs, "md1"), AttrValue::Number(s) if s == "0.52"));
    assert!(matches!(find(&attrs, "mdDescription"), AttrValue::TextList(l) if l == &vec!["Thickness (mm)".to_string()]));
    assert!(matches!(find(&attrs, "dsDescription"), AttrValue::TextList(l) if l == &vec!["ds1".to_string()]));
}

#[test]
fn encode_numbers_and_texts_by_flag() {
    let mut meta = DotthzMetaData::default();
    meta.md.insert("Thickness (mm)".to_string(), "0.52".to_string());
    meta.md.insert("Sample".to_string(), "PVDF".to_string());
    meta.md.insert("Voltage".to_string(), "12".to_string());
    let flags = numeric_flags(&meta);
    assert_eq!(flags, vec![true, false, true]);
    let attrs = encode_meta_data(&meta, &flags);
    assert!(matches!(find(&attrs, "md1"), AttrValue::Number(s) if s == "0.52"));
    assert!(matches!(find(&attrs, "md2"), AttrValue::Text(s) if s == "PVDF"));
    assert!(matches!(find(&attrs, "md3"), AttrValue::Number(s) if s == "12"));
    assert!(matches!(find(&attrs, "mdDescription"), AttrValue::TextList(l) if l == &vec!["Thickness (mm), Sample, Voltage".to_string()]));
}

#[test]
fn annotation_names_count_past_nine() {
    let mut meta = DotthzMetaData::default();
    for i in 0..12 {
        meta.md.insert(format!("key{}", i), format!("v{}", i));
    }
    let attrs = encode_meta_data(&meta, &numeric_flags(&meta));
    assert!(matches!(find(&attrs, "md10"), AttrValue::Text(s) if s == "v9"));
    assert!(matches!(find(&attrs, "md12"), AttrValue::Text(s) if s == "v11"));
    let back = decode_meta_data(&attrs);
    assert_eq!(back.md, meta.md);
    let keys: Vec<&String> = back.md.keys().collect();
    assert_eq!(keys[10], "key10");
}

#[test]
fn scalar_text_fields_round_trip_unicode() {
    let meta = DotthzMetaData {
        user: "Zoë Ångström".to_string(),
        email: "zoë@exämple.org".to_string(),
        orcid: "".to_string(),
        institution: "Institut für Physik, Δ-Labor".to_string(),
        description: "  leading and trailing spaces  ".to_string(),
        md: IndexMap::new(),
        ds_description: vec!["Reference".to_string(), "Sample".to_string()],
        version: "1.10".to_string(),
        mode: "Transmission 透過".to_string(),
        instrument: "".to_string(),
        time: "23:59:59".to_string(),
        date: "1999-12-31".to_string(),
    };
    let back = decode_meta_data(&encode_meta_data(&meta, &numeric_flags(&meta)));
    assert_eq!(back, meta);
}

#[test]
fn numeric_annotation_round_trip_keeps_the_number() {
    let mut meta = DotthzMetaData::default();
    meta.md.insert("Thickness (mm)".to_string(), "0.52".to_string());
    meta.ds_description.push("ds1".to_string());
    let back = decode_meta_data(&encode_meta_data(&meta, &numeric_flags(&meta)));
    let value = back.md.get("Thickness (mm)").expect("annotation read back");
    assert_eq!(value.parse::<f32>().unwrap(), "0.52".parse::<f32>().unwrap());
}

#[test]
fn numeric_annotation_reads_rendered_number() {
    let attrs = vec![
        text_list("mdDescription", &["Temperature (K)"]),
        Attribute { name: "md1".to_string(), value: AttrValue::Number("293.15".to_string()) },
    ];
    let back = decode_meta_data(&attrs);
    assert_eq!(back.md.get("Temperature (K)").map(|s| s.as_str()), Some("293.15"));
}

#[test]
fn absent_instrument_reads_empty() {
    let attrs = vec![
        text("description", "Test description"),
        text("date", "2024-11-08"),
        text("mode", "Test mode"),
        text("thzVer", "1.0"),
        text("time", "12:34:56"),
        text("user", "0000-0001-2345-6789/Test User/test@example.com/Test Institute"),
    ];
    let back = decode_meta_data(&attrs);
    assert_eq!(back.instrument, "");
    assert_eq!(back.description, "Test description");
    assert_eq!(back.mode, "Test mode");
    assert_eq!(back.user, "Test User");
    assert!(back.md.is_empty());
    assert!(back.ds_description.is_empty());
}

#[test]
fn empty_group_reads_default_record() {
    let back = decode_meta_data(&Vec::new());
    assert_eq!(back, DotthzMetaData::default());
}

#[test]
fn default_record_is_empty() {
    let meta = DotthzMetaData::default();
    assert_eq!(meta.user, "");
    assert_eq!(meta.version, "");
    assert!(meta.md.is_empty());
    assert!(meta.ds_description.is_empty());
}

#[test]
fn legacy_multi_entry_descriptor_decodes() {
    let attrs = vec![
        text_list("mdDescription", &["Thickness (mm)", "Voltage"]),
        Attribute { name: "md1".to_string(), value: AttrValue::Number("0.52".to_string()) },
        text("md2", "high"),
        text_list("dsDescription", &["Reference", "Sample"]),
    ];
    let back = decode_meta_data(&attrs);
    let pairs: Vec<(&str, &str)> = back.md.iter().map(|(k, v)| (k.as_str(), v.as_str())).collect();
    assert_eq!(pairs, vec![("Thickness (mm)", "0.52"), ("Voltage", "high")]);
    assert_eq!(back.ds_description, vec!["Reference".to_string(), "Sample".to_string()]);
}

#[test]
fn joined_descriptor_decodes_like_multi_entry() {
    let joined = vec![
        text_list("mdDescription", &["Thickness (mm), Voltage"]),
        text("md1", "a"),
        text("md2", "b"),
    ];
    let separate = vec![
        text_list("mdDescription", &["Thickness (mm)", "Voltage"]),
        text("md1", "a"),
        text("md2", "b"),
    ];
    let a = decode_meta_data(&joined);
    let b = decode_meta_data(&separate);
    let ka: Vec<&String> = a.md.keys().collect();
    let kb: Vec<&String> = b.md.keys().collect();
    assert_eq!(ka, kb);
    assert_eq!(ka, vec!["Thickness (mm)", "Voltage"]);
}

#[test]
fn annotation_without_value_is_left_out() {
    let attrs = vec![
        text_list("mdDescription", &["A, B, C"]),
        text("md1", "x"),
        Attribute { name: "md2".to_string(), value: AttrValue::NumberList(Vec::new()) },
        text("md3", "z"),
    ];
    let back = decode_meta_data(&attrs);
    let pairs: Vec<(&str, &str)> = back.md.iter().map(|(k, v)| (k.as_str(), v.as_str())).collect();
    assert_eq!(pairs, vec![("A", "x"), ("C", "z")]);
}

#[test]
fn repeated_key_keeps_first_place_and_last_value() {
    let attrs = vec![
        text_list("mdDescription", &["A, B, A"]),
        text("md1", "1"),
        text("md2", "2"),
        text("md3", "3"),
    ];
    let back = decode_meta_data(&attrs);
    let pairs: Vec<(&str, &str)> = back.md.iter().map(|(k, v)| (k.as_str(), v.as_str())).collect();
    assert_eq!(pairs, vec![("A", "3"), ("B", "2")]);
}

#[test]
fn scalar_field_reads_first_entry_of_a_list() {
    let attrs = vec![text_list("instrument", &["TeraPulse", "spare"]), text_list("mode", &[])];
    let back = decode_meta_data(&attrs);
    assert_eq!(back.instrument, "TeraPulse");
    assert_eq!(back.mode, "");
}

#[test]
fn numeric_scalar_field_reads_empty() {
    let attrs = vec![Attribute { name: "time".to_string(), value: AttrValue::Number("12".to_string()) }];
    let back = decode_meta_data(&attrs);
    assert_eq!(back.time, "");
}

#[test]
fn first_attribute_of_a_name_wins() {
    let attrs = vec![text("date", "2024-11-08"), text("date", "2000-01-01")];
    assert_eq!(decode_meta_data(&attrs).date, "2024-11-08");
}

#[test]
fn empty_annotations_round_trip() {
    let mut meta = sample();
    meta.md = IndexMap::new();
    let attrs = encode_meta_data(&meta, &Vec::new());
    assert!(matches!(find(&attrs, "mdDescription"), AttrValue::TextList(l) if l == &vec![String::new()]));
    let back = decode_meta_data(&attrs);
    assert!(back.md.is_empty());
    assert_eq!(back, meta);
}

#[test]
fn empty_dataset_labels_read_back_as_one_empty_label() {
    let mut meta = sample();
    meta.ds_description = Vec::new();
    let back = decode_meta_data(&encode_meta_data(&meta, &numeric_flags(&meta)));
    assert_eq!(back.ds_description, vec![String::new()]);
}

#[test]
fn slash_in_identity_field_shifts_the_parts() {
    let mut meta = sample();
    meta.institution = "Dept. A/B".to_string();
    meta.user = "First/Last".to_string();
    let back = decode_meta_data(&encode_meta_data(&meta, &numeric_flags(&meta)));
    assert_eq!(back.orcid, "0000-0001-2345-6789");
    assert_eq!(back.user, "First");
    assert_eq!(back.email, "Last");
    assert_eq!(back.institution, "test@example.com");
}

fn write_over(prior: &[Attribute], meta: &DotthzMetaData) -> Vec<Attribute> {
    let mut group: Vec<Attribute> = prior.to_vec();
    let names: Vec<String> = group.iter().map(|a| a.name.clone()).collect();
    let stale = stale_annotation_names(&names, meta);
    group.retain(|a| !stale.contains(&a.name));
    for w in encode_meta_data(meta, &numeric_flags(meta)).iter() {
        group.retain(|a| a.name != w.name);
        group.push(w.clone());
    }
    group
}

#[test]
fn rewrite_in_place_reads_like_fresh_group() {
    let prior = vec![
        text("instrument", "Old instrument"),
        text_list("mdDescription", &["A, B, C"]),
        text("md1", "old1"),
        text("md2", "old2"),
        text("md3", "stale"),
        text("comment", "kept from before"),
    ];
    let meta = sample();
    let in_place = decode_meta_data(&write_over(&prior, &meta));
    let fresh = decode_meta_data(&encode_meta_data(&meta, &numeric_flags(&meta)));
    assert_eq!(in_place, fresh);
    assert_eq!(in_place, meta);
}

#[test]
fn rewrite_without_annotations_reads_no_annotations() {
    let prior = vec![text_list("mdDescription", &["A"]), text("md1", "stale")];
    let mut meta = sample();
    meta.md = IndexMap::new();
    let in_place = decode_meta_data(&write_over(&prior, &meta));
    let fresh = decode_meta_data(&encode_meta_data(&meta, &Vec::new()));
    assert!(in_place.md.is_empty());
    assert_eq!(in_place, fresh);
    assert_eq!(in_place, meta);
}

#[test]
fn stale_names_are_annotation_positions_past_the_record() {
    let mut meta = DotthzMetaData::default();
    meta.md.insert("A".to_string(), "1".to_string());
    meta.md.insert("B".to_string(), "2".to_string());
    let existing: Vec<String> = [
        "md1", "md3", "description", "md2", "md10", "md03", "md0", "mdx", "md", "mode", "md3a",
        "mdDescription", "md99999999999999999999999999",
    ]
    .iter()
    .map(|s| s.to_string())
    .collect();
    let stale = stale_annotation_names(&existing, &meta);
    assert_eq!(stale, vec!["md3".to_string(), "md10".to_string(), "md99999999999999999999999999".to_string()]);
}

#[test]
fn stale_names_with_no_annotations_include_md1() {
    let meta = DotthzMetaData::default();
    let existing: Vec<String> = ["md1", "md0", "user"].iter().map(|s| s.to_string()).collect();
    assert_eq!(stale_annotation_names(&existing, &meta), vec!["md1".to_string()]);
    assert!(stale_annotation_names(&Vec::new(), &meta).is_empty());
}
