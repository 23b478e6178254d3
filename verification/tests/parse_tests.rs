use pombase_rnacentral::rnacentral::{parse, load_identifiers, parse_annotations, ParseError};

fn annotation_row(id: &str, model: &str, desc: &str) -> String {
    format!("{}\t{}\t29.9\t1.1e-05\t1\t71\t1\t71\t{}\n", id, model, desc)
}

#[test]
fn test_parse() {
    let ids = [
        "URS000003EB75", "URS00000A1B20", "URS00000B2C31", "URS00000C3D42", "URS00000D4E53",
        "URS00000E5F64", "URS00000F6075", "URS0000107186", "URS0000118297", "URS00001293A8",
        "URS000013A4B9", "URS000014B5CA",
    ];
    let mut identifier_content = String::from("Identifier\n");
    for id in &ids {
        identifier_content.push_str(id);
        identifier_content.push('\n');
    }
    // one duplicate row: it must collapse silently
    identifier_content.push_str("URS000003EB75\n");

    let mut annotation_content = String::new();
    annotation_content.push_str(&annotation_row("URS000003EB75", "RF00005", "tRNA"));
    for id in &ids[1..] {
        annotation_content.push_str(&annotation_row(id, "RF00001", "5S ribosomal RNA"));
    }
    // rows whose identifier is not in the set are dropped
    annotation_content.push_str(&annotation_row("URS00009999AA", "RF00002", "ignored"));

    let res = parse(&identifier_content, &annotation_content).unwrap();

    assert_eq![res.len(), 12];

    let first_res = res.get("URS000003EB75").unwrap().get(0).unwrap();
    assert_eq![first_res.urs_identifier, "URS000003EB75"];
    assert_eq![first_res.rfam_model_id, "RF00005"];
    assert_eq![first_res.rfam_model_description, "tRNA"];
}

#[test]
fn test_loader_counts_unique_identifiers() {
    // five data rows, three unique first-column values
    let content = "Identifier\tName\na\tx\nb\ty\na\tz\nc\tw\nb\tv\n";
    let ids = load_identifiers(content).unwrap();
    assert_eq!(ids.len(), 3);
}

#[test]
fn test_loader_header_only_gives_empty_set() {
    let ids = load_identifiers("Identifier\n").unwrap();
    assert_eq!(ids.len(), 0);
}

#[test]
fn test_header_only_identifiers_give_empty_mapping() {
    let annotation_content = annotation_row("URS000003EB75", "RF00005", "tRNA");
    let res = parse("Identifier\n", &annotation_content).unwrap();
    assert_eq!(res.len(), 0);
    assert!(res.get("URS000003EB75").is_none());
}

#[test]
fn test_membership_is_exact() {
    let identifier_content = "Identifier\nURS000003EB75\n";
    let mut annotation_content = annotation_row("URS000003EB75", "RF00005", "tRNA");
    annotation_content.push_str(&annotation_row("URS00009999AA", "RF00002", "other"));
    let res = parse(identifier_content, &annotation_content).unwrap();
    assert!(res.get("URS000003EB75").is_some());
    assert!(res.get("URS00009999AA").is_none());
}

#[test]
fn test_single_identifier_scenario() {
    let identifier_content = "Identifier\nURS000003EB75\n";
    let mut annotation_content = annotation_row("URS000003EB75", "RF00005", "tRNA");
    annotation_content.push_str(&annotation_row("URS0000000001", "RF00001", "other"));
    let res = parse(identifier_content, &annotation_content).unwrap();
    assert_eq!(res.len(), 1);
    let group = res.get("URS000003EB75").unwrap();
    assert_eq!(group.len(), 1);
    assert_eq!(group[0].rfam_model_id, "RF00005");
    assert_eq!(group[0].rfam_model_description, "tRNA");
}

#[test]
fn test_idempotent_runs() {
    let identifier_content = "Identifier\nURS000003EB75\nURS0000000001\n";
    let mut annotation_content = annotation_row("URS000003EB75", "RF00005", "tRNA");
    annotation_content.push_str(&annotation_row("URS0000000001", "RF00001", "5S"));
    annotation_content.push_str(&annotation_row("URS000003EB75", "RF00017", "SRP"));
    let first = parse(identifier_content, &annotation_content).unwrap();
    let second = parse(identifier_content, &annotation_content).unwrap();
    assert_eq!(first, second);
}

#[test]
fn test_group_order_is_file_order() {
    let identifier_content = "Identifier\nURS000003EB75\n";
    let mut annotation_content = annotation_row("URS000003EB75", "RF00005", "tRNA");
    annotation_content.push_str(&annotation_row("URS0000000001", "RF00001", "skipped"));
    annotation_content.push_str(&annotation_row("URS000003EB75", "RF00017", "SRP"));
    annotation_content.push_str(&annotation_row("URS000003EB75", "RF00002", "5.8S"));
    let res = parse(identifier_content, &annotation_content).unwrap();
    let group = res.get("URS000003EB75").unwrap();
    assert_eq!(group.len(), 3);
    assert_eq!(group[0].rfam_model_id, "RF00005");
    assert_eq!(group[1].rfam_model_id, "RF00017");
    assert_eq!(group[2].rfam_model_id, "RF00002");
}

#[test]
fn test_parsed_record_fields() {
    let rows = "URS000003EB75\tRF00005\t29.9\t1.1e-05\t3\t71\t2\t70\ttRNA\n";
    let recs = parse_annotations(rows).unwrap();
    assert_eq!(recs.len(), 1);
    assert_eq!(recs[0].urs_identifier, "URS000003EB75");
    assert_eq!(recs[0].rfam_model_id, "RF00005");
    assert_eq!(recs[0].score, "29.9");
    assert_eq!(recs[0].e_value, "1.1e-05");
    assert_eq!(recs[0].sequence_start, 3);
    assert_eq!(recs[0].sequence_stop, 71);
    assert_eq!(recs[0].model_start, 2);
    assert_eq!(recs[0].model_stop, 70);
    assert_eq!(recs[0].rfam_model_description, "tRNA");
}

#[test]
fn test_crlf_and_blank_lines() {
    let identifier_content = "Identifier\r\nURS000003EB75\r\n\r\n";
    let annotation_content = "URS000003EB75\tRF00005\t29.9\t1.1e-05\t1\t71\t1\t71\ttRNA\r\n\n";
    let res = parse(identifier_content, annotation_content).unwrap();
    assert_eq!(res.len(), 1);
    assert_eq!(res.get("URS000003EB75").unwrap().len(), 1);
}

#[test]
fn test_empty_annotation_file_gives_empty_mapping() {
    let res = parse("Identifier\nURS000003EB75\n", "").unwrap();
    assert_eq!(res.len(), 0);
}

#[test]
fn test_ragged_identifier_row_fails() {
    let content = "Identifier\tName\nURS000003EB75\n";
    assert_eq!(load_identifiers(content).unwrap_err(), ParseError::RaggedIdentifierRow);
    let annotation_content = annotation_row("URS000003EB75", "RF00005", "tRNA");
    assert_eq!(
        parse(content, &annotation_content).unwrap_err(),
        ParseError::RaggedIdentifierRow
    );
}

#[test]
fn test_wrong_annotation_column_count_fails() {
    let identifier_content = "Identifier\nURS000003EB75\n";
    let annotation_content = "URS000003EB75\tRF00005\t29.9\t1.1e-05\t1\t71\t1\t71\n";
    assert_eq!(
        parse(identifier_content, annotation_content).unwrap_err(),
        ParseError::AnnotationColumnCount
    );
}

#[test]
fn test_malformed_score_fails_whole_run() {
    let identifier_content = "Identifier\nURS000003EB75\n";
    let annotation_content = "URS000003EB75\tRF00005\tnot-a-number\t1.1e-05\t1\t71\t1\t71\ttRNA\n";
    assert_eq!(
        parse(identifier_content, annotation_content).unwrap_err(),
        ParseError::InvalidNumericField
    );
}

#[test]
fn test_malformed_unsigned_field_fails() {
    let identifier_content = "Identifier\nURS000003EB75\n";
    // an out-of-range unsigned column is a parse failure too
    let annotation_content = "URS000003EB75\tRF00005\t29.9\t1.1e-05\t4294967296\t71\t1\t71\ttRNA\n";
    assert_eq!(
        parse(identifier_content, annotation_content).unwrap_err(),
        ParseError::InvalidNumericField
    );
}

#[test]
fn test_bad_row_fails_even_when_identifier_not_in_set() {
    let identifier_content = "Identifier\nURS000003EB75\n";
    let annotation_content = "URS00009999AA\tRF00002\tbad\t1.0\t1\t2\t3\t4\tx\n";
    assert_eq!(
        parse(identifier_content, annotation_content).unwrap_err(),
        ParseError::InvalidNumericField
    );
}
