use delta_encoding::{IndexedData, SimpleDirectDeltaEncoding};

fn fold_data_collection(sdd: &SimpleDirectDeltaEncoding) -> Vec<u8> {
    let parts: Vec<Vec<u8>> = sdd.data_collection().iter().map(|d| d.data.clone()).collect();
    SimpleDirectDeltaEncoding::fold_bytes(&parts)
}

#[test]
fn patch_data() {
    let mut sdd = SimpleDirectDeltaEncoding::new(&[IndexedData::new(0, "Test".as_bytes().to_vec())]);
    let new_data = &[IndexedData::new(0, "Test2".as_bytes().to_vec())];
    let diff_data = sdd.patch(new_data);
    assert_eq!(
        diff_data,
        vec![10, 49, 51, 54, 55, 54, 57, 54, 57, 55, 49, 118, 0, 6, 105, 58, 4, 45, 1, 50]
    );
}

#[test]
fn apply_patch_data() {
    let mut sdd = SimpleDirectDeltaEncoding::new(&[IndexedData::new(0, "Test".as_bytes().to_vec())]);
    let new_data = &[IndexedData::new(0, "Test2".as_bytes().to_vec())];
    let diff_data = sdd.patch(new_data);
    let mut sdd2 =
        SimpleDirectDeltaEncoding::new(&[IndexedData::new(0, "Test".as_bytes().to_vec())]);
    _ = sdd2.apply_patch(&diff_data).ok();
    assert_eq!(fold_data_collection(&sdd), fold_data_collection(&sdd2));
}

#[test]
fn apply_patch_data_1() {
    let mut sdd = SimpleDirectDeltaEncoding::new(&[IndexedData::new(0, "Test".as_bytes().to_vec())]);
    let new_data = &[IndexedData::new(0, "TesNN".as_bytes().to_vec())];
    let diff_data = sdd.patch(new_data);
    let mut sdd2 =
        SimpleDirectDeltaEncoding::new(&[IndexedData::new(0, "Test".as_bytes().to_vec())]);
    _ = sdd2.apply_patch(&diff_data).ok();
    assert_eq!(fold_data_collection(&sdd), fold_data_collection(&sdd2));
}

#[test]
fn patch_all_properties() {
    let props = vec![
        IndexedData::new(0, "Test".as_bytes().to_vec()),
        IndexedData::new(1, "Test2".as_bytes().to_vec()),
    ];
    let mut sdd = SimpleDirectDeltaEncoding::new(&props);
    let new_data = &[
        IndexedData::new(0, "Test1".as_bytes().to_vec()),
        IndexedData::new(1, "Test3".as_bytes().to_vec()),
    ];
    let diff_data = sdd.patch(new_data);
    let mut sdd2 = SimpleDirectDeltaEncoding::new(&props);
    let result_data = sdd2.apply_patch(&diff_data);
    assert!(result_data.is_ok());
    assert_eq!(fold_data_collection(&sdd), fold_data_collection(&sdd2));
}

#[test]
fn patch_some_properties() {
    let props = vec![
        IndexedData::new(0, "Test".as_bytes().to_vec()),
        IndexedData::new(1, "Test2".as_bytes().to_vec()),
    ];
    let mut sdd = SimpleDirectDeltaEncoding::new(&props);
    let new_data = &[IndexedData::new(1, "Test3".as_bytes().to_vec())];
    let diff_data = sdd.patch(new_data);
    let mut sdd2 = SimpleDirectDeltaEncoding::new(&props);
    let result_data = sdd2.apply_patch(&diff_data);
    assert!(result_data.is_ok());
    assert_eq!(fold_data_collection(&sdd), fold_data_collection(&sdd2));
}

#[test]
fn patch_add_property() {
    let props = vec![
        IndexedData::new(0, "Test".as_bytes().to_vec()),
        IndexedData::new(1, "Test2".as_bytes().to_vec()),
    ];
    let mut sdd = SimpleDirectDeltaEncoding::new(&props);
    let new_data = &[
        IndexedData::new(0, "Test".as_bytes().to_vec()),
        IndexedData::new(1, "Test2".as_bytes().to_vec()),
        IndexedData::new(3, "Test4".as_bytes().to_vec()),
    ];
    let diff_data = sdd.patch(new_data);
    let mut sdd2 = SimpleDirectDeltaEncoding::new(&props);
    let result_data = sdd2.apply_patch(&diff_data);
    assert!(result_data.is_ok());
    assert_eq!(fold_data_collection(&sdd), fold_data_collection(&sdd2));
}

#[test]
fn patch_remove_property() {
    let props = vec![
        IndexedData::new(0, "Test".as_bytes().to_vec()),
        IndexedData::new(1, "Test2".as_bytes().to_vec()),
        IndexedData::new(3, "Test4".as_bytes().to_vec()),
    ];
    let mut sdd = SimpleDirectDeltaEncoding::new(&props);
    let new_data = &[
        IndexedData::new(0, "Test".as_bytes().to_vec()),
        IndexedData::new(1, "Test2".as_bytes().to_vec()),
    ];
    let diff_data = sdd.patch(new_data);
    println!("diff_data: {:?}", diff_data);
    let mut sdd2 = SimpleDirectDeltaEncoding::new(&props);
    let result_data = sdd2.apply_patch(&diff_data);
    println!("result: {:?}", result_data);
    assert!(result_data.is_ok());
    assert_eq!(fold_data_collection(&sdd), fold_data_collection(&sdd2));
}

#[test]
fn patch_index_mapping() {
    let props = vec![IndexedData::new(0, "Test".as_bytes().to_vec())];
    let mut sdd = SimpleDirectDeltaEncoding::new(&props);
    sdd.change_index_mapping(0, "t1".as_bytes());
    let new_data = &[IndexedData::new(0, "Test2".as_bytes().to_vec())];
    let diff_data = sdd.patch(new_data);
    println!("diff_data: {:?}", diff_data);
    let mut sdd2 = SimpleDirectDeltaEncoding::new(&props);
    let result_data = sdd2.apply_patch(&diff_data);
    println!("result: {:?}", result_data);
    assert!(result_data.is_ok());
    assert_eq!(fold_data_collection(&sdd), fold_data_collection(&sdd2));
    assert_eq!(
        sdd.get_index_mapping()[0].as_ref().unwrap().current,
        sdd2.get_index_mapping()[0].as_ref().unwrap().current
    );
}

fn indexed_fields(value: &serde_json::Value) -> Vec<(String, IndexedData)> {
    let mut out = vec![];
    for (index, (key, value)) in value.as_object().unwrap().iter().enumerate() {
        out.push((key.clone(), IndexedData::new(index as u8, value.to_string().as_bytes().to_vec())));
    }
    out
}

#[test]
fn json_object_patch() {
    let json_source = r#"{"name": "John", "age": 30, "city": ""}"#;
    let json_changes = r#"{"firstname": "John", "age": 30, "city": "New York"}"#;

    let json_source = serde_json::from_str::<serde_json::Value>(json_source).unwrap();
    let json_changes = serde_json::from_str::<serde_json::Value>(json_changes).unwrap();

    let src_data = indexed_fields(&json_source);
    let changes_data = indexed_fields(&json_changes);
    let src_fields: Vec<IndexedData> = src_data.iter().map(|(_, v)| v.clone()).collect();
    let change_fields: Vec<IndexedData> = changes_data.iter().map(|(_, v)| v.clone()).collect();

    // the source side starts with its names already committed
    let mut sdd = SimpleDirectDeltaEncoding::new(&src_fields);
    for (key, value) in src_data.iter() {
        sdd.change_index_mapping(value.index, key.as_bytes());
    }
    sdd.apply_index_mappings();

    // stage the new names, then create the patch
    for (key, value) in changes_data.iter() {
        sdd.change_index_mapping(value.index, key.as_bytes());
    }
    let patch_data = sdd.patch(&change_fields);

    // a receiver that only holds the source data and names
    let mut sdd2 = SimpleDirectDeltaEncoding::new(&src_fields);
    for (key, value) in src_data.iter() {
        sdd2.change_index_mapping(value.index, key.as_bytes());
    }
    sdd2.apply_index_mappings();
    let result_data = sdd2.apply_patch(&patch_data);

    assert!(result_data.is_ok());
    assert_eq!(fold_data_collection(&sdd), fold_data_collection(&sdd2));

    // rebuild a json object from the receiver's fields and names
    let mut json_obj = serde_json::Map::new();
    let index_mapping = sdd2.get_index_mapping();
    for field in sdd2.data_collection().iter() {
        let name = &index_mapping[field.index as usize].as_ref().unwrap().current;
        let key = std::str::from_utf8(name).unwrap();
        let text = std::str::from_utf8(&field.data).unwrap();
        if let Ok(num) = text.parse::<i64>() {
            json_obj.insert(key.to_string(), serde_json::Value::Number(serde_json::Number::from(num)));
        } else {
            json_obj.insert(key.to_string(), serde_json::Value::String(text.trim_matches('"').to_string()));
        }
    }
    println!("json_obj: {:?}", json_obj);
    assert_eq!(&json_obj, json_changes.as_object().unwrap());
}
