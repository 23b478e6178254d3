use pombase_rnacentral::json::to_json;
use pombase_rnacentral::rnacentral::parse;

#[test]
fn test_json_exact_output() {
    let identifier_content = "Identifier\nURS000003EB75\n";
    let annotation_content = "URS000003EB75\tRF00005\t29.9\t1.1e-05\t1\t71\t2\t70\ttRNA\n";
    let res = parse(identifier_content, annotation_content).unwrap();
    let json = to_json(&res);
    assert_eq!(
        json,
        "{\"URS000003EB75\":[{\"URS-Id\":\"URS000003EB75\",\"Rfam-Model-Id\":\"RF00005\",\
         \"Score\":29.9,\"E-value\":1.1e-05,\"Sequence-Start\":1,\"Sequence-Stop\":71,\
         \"Model-Start\":2,\"Model-Stop\":70,\"Rfam-Model-Description\":\"tRNA\"}]}"
    );
}

#[test]
fn test_json_round_trip_content() {
    let identifier_content = "Identifier\nURS000003EB75\nURS0000000001\n";
    let annotation_content = "URS000003EB75\tRF00005\t29.9\t1.1e-05\t1\t71\t1\t71\ttRNA\n\
                              URS0000000001\tRF00001\t55.25\t2e-10\t5\t120\t1\t119\t5S ribosomal RNA\n\
                              URS000003EB75\tRF00017\t33.5\t0.004\t2\t90\t3\t88\tSRP RNA\n";
    let res = parse(identifier_content, annotation_content).unwrap();
    let json = to_json(&res);

    let value: serde_json::Value = serde_json::from_str(&json).unwrap();
    let obj = value.as_object().unwrap();
    assert_eq!(obj.len(), res.len());

    let group = res.get("URS000003EB75").unwrap();
    let array = obj.get("URS000003EB75").unwrap().as_array().unwrap();
    assert_eq!(array.len(), group.len());
    for (rec, val) in group.iter().zip(array.iter()) {
        let rec_obj = val.as_object().unwrap();
        assert_eq!(rec_obj.len(), 9);
        assert_eq!(rec_obj.get("URS-Id").unwrap().as_str().unwrap(), rec.urs_identifier);
        assert_eq!(rec_obj.get("Rfam-Model-Id").unwrap().as_str().unwrap(), rec.rfam_model_id);
        assert_eq!(
            rec_obj.get("Score").unwrap().as_f64().unwrap(),
            rec.score.parse::<f64>().unwrap()
        );
        assert_eq!(
            rec_obj.get("E-value").unwrap().as_f64().unwrap(),
            rec.e_value.parse::<f64>().unwrap()
        );
        assert_eq!(
            rec_obj.get("Sequence-Start").unwrap().as_u64().unwrap(),
            rec.sequence_start as u64
        );
        assert_eq!(
            rec_obj.get("Sequence-Stop").unwrap().as_u64().unwrap(),
            rec.sequence_stop as u64
        );
        assert_eq!(rec_obj.get("Model-Start").unwrap().as_u64().unwrap(), rec.model_start as u64);
        assert_eq!(rec_obj.get("Model-Stop").unwrap().as_u64().unwrap(), rec.model_stop as u64);
        assert_eq!(
            rec_obj.get("Rfam-Model-Description").unwrap().as_str().unwrap(),
            rec.rfam_model_description
        );
    }

    let other = res.get("URS0000000001").unwrap();
    let other_array = obj.get("URS0000000001").unwrap().as_array().unwrap();
    assert_eq!(other_array.len(), other.len());
    assert_eq!(
        other_array[0].as_object().unwrap().get("Rfam-Model-Description").unwrap().as_str().unwrap(),
        "5S ribosomal RNA"
    );
}

#[test]
fn test_json_escapes_special_characters() {
    let identifier_content = "Identifier\nid\"with\\quote\n";
    let annotation_content = "id\"with\\quote\tRF00005\t1.5\t2.5\t1\t2\t3\t4\tdesc \"quoted\"\n";
    let res = parse(identifier_content, annotation_content).unwrap();
    let json = to_json(&res);
    let value: serde_json::Value = serde_json::from_str(&json).unwrap();
    let obj = value.as_object().unwrap();
    let array = obj.get("id\"with\\quote").unwrap().as_array().unwrap();
    let rec = array[0].as_object().unwrap();
    assert_eq!(rec.get("URS-Id").unwrap().as_str().unwrap(), "id\"with\\quote");
    assert_eq!(
        rec.get("Rfam-Model-Description").unwrap().as_str().unwrap(),
        "desc \"quoted\""
    );
}

#[test]
fn test_json_empty_mapping() {
    let res = parse("Identifier\n", "URS000003EB75\tRF00005\t1\t1\t1\t1\t1\t1\tx\n").unwrap();
    assert_eq!(to_json(&res), "{}");
}
