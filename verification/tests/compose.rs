use tensorfs_core::compose::{rekey, subset, ComposeError};
use tensorfs_core::contract::Stamp;
use tensorfs_core::object::ObjectDigest;
use tensorfs_core::planner::{inventory, plan, PlannerId, TensorFormat};
use tensorfs_core::tfm1::builder::canonical_body;
use tensorfs_core::tfm1::{FileBody, FileRecord, SnapshotId};

fn named(bytes: &[u8]) -> ObjectDigest {
    ObjectDigest::from_bytes(*SnapshotId::of(bytes).as_bytes())
}

/// A file, cut where its planner cuts it.
fn body_of(file: &[u8], planner: PlannerId) -> FileBody {
    let records = plan(file)
        .unwrap()
        .regions()
        .iter()
        .map(|region| {
            let start = region.offset() as usize;
            let bytes = &file[start..start + region.length() as usize];
            FileRecord::Data { digest: named(bytes), length: region.length() }
        })
        .collect();
    canonical_body(planner, &Stamp::Absent, &records).unwrap()
}

/// The bytes of a body, its objects taken from a file and from new objects.
fn assemble(body: &FileBody, file: &[u8], new: &[Vec<u8>]) -> Vec<u8> {
    let mut objects: Vec<Vec<u8>> = new.to_vec();
    for region in plan(file).unwrap().regions() {
        let start = region.offset() as usize;
        objects.push(file[start..start + region.length() as usize].to_vec());
    }
    let mut bytes = Vec::new();
    for record in body.records() {
        match record {
            FileRecord::Data { digest, length } => {
                let object = objects.iter().find(|object| named(object) == digest).unwrap();
                assert_eq!(object.len() as u64, length);
                bytes.extend_from_slice(object);
            }
            FileRecord::Hole { length } => bytes.resize(bytes.len() + length as usize, 0),
        }
    }
    bytes
}

fn safetensors(tensors: &[(&str, &[u8])]) -> Vec<u8> {
    let mut header = String::from("{");
    let mut offset = 0;
    for (index, (name, bytes)) in tensors.iter().enumerate() {
        if index > 0 {
            header.push(',');
        }
        let end = offset + bytes.len();
        header.push_str(&format!(
            r#""{name}":{{"dtype":"U8","shape":[{}],"data_offsets":[{offset},{end}]}}"#,
            bytes.len()
        ));
        offset = end;
    }
    header.push('}');
    let mut file = (header.len() as u64).to_le_bytes().to_vec();
    file.extend_from_slice(header.as_bytes());
    for (_, bytes) in tensors {
        file.extend_from_slice(bytes);
    }
    file
}

fn gguf(tensors: &[(&str, &[u8])]) -> Vec<u8> {
    let mut file = b"GGUF".to_vec();
    file.extend_from_slice(&3_u32.to_le_bytes());
    file.extend_from_slice(&(tensors.len() as u64).to_le_bytes());
    file.extend_from_slice(&0_u64.to_le_bytes());
    let mut offset = 0_u64;
    for (name, bytes) in tensors {
        file.extend_from_slice(&(name.len() as u64).to_le_bytes());
        file.extend_from_slice(name.as_bytes());
        file.extend_from_slice(&1_u32.to_le_bytes());
        file.extend_from_slice(&(bytes.len() as u64).to_le_bytes());
        file.extend_from_slice(&24_u32.to_le_bytes());
        file.extend_from_slice(&offset.to_le_bytes());
        offset += (bytes.len() as u64).next_multiple_of(32);
    }
    file.resize(file.len().next_multiple_of(32), 0);
    for (_, bytes) in tensors {
        file.extend_from_slice(bytes);
        file.resize(file.len().next_multiple_of(32), 0);
    }
    file
}

fn names(pairs: &[(&str, &str)]) -> Vec<(String, String)> {
    pairs.iter().map(|(old, new)| ((*old).to_owned(), (*new).to_owned())).collect()
}

fn listed(file: &[u8]) -> Vec<(String, Vec<u8>)> {
    inventory(file)
        .unwrap()
        .unwrap()
        .tensors()
        .iter()
        .map(|tensor| {
            let start = tensor.offset() as usize;
            (tensor.name().to_owned(), file[start..start + tensor.length() as usize].to_vec())
        })
        .collect()
}

#[test]
fn a_renamed_safetensors_file_keeps_its_tensors() {
    let file = safetensors(&[("a", b"first"), ("b", b"second")]);
    let body = body_of(&file, PlannerId::SafetensorsV1);
    let (renamed, new) =
        rekey(file.as_slice(), &body, &names(&[("a", "x \"quoted\""), ("b", "y")])).unwrap();
    let made = assemble(&renamed, &file, &new);
    assert_eq!(new.len(), 1);
    assert_eq!(
        listed(&made),
        [
            ("x \"quoted\"".to_owned(), b"first".to_vec()),
            ("y".to_owned(), b"second".to_vec()),
        ]
    );
    assert_eq!(renamed.planner_id(), PlannerId::SafetensorsV1);
}

#[test]
fn a_subset_of_a_safetensors_file_drops_the_rest() {
    let file = safetensors(&[("a", b"first"), ("b", b"second"), ("c", b"third")]);
    let body = body_of(&file, PlannerId::SafetensorsV1);
    let (kept, new) = subset(file.as_slice(), &body, &names(&[("c", "c"), ("a", "z")])).unwrap();
    let made = assemble(&kept, &file, &new);
    let mut tensors = listed(&made);
    tensors.sort();
    assert_eq!(
        tensors,
        [("c".to_owned(), b"third".to_vec()), ("z".to_owned(), b"first".to_vec())]
    );
}

#[test]
fn a_renamed_gguf_file_keeps_its_tensors() {
    let file = gguf(&[("a", b"first"), ("b", b"second")]);
    assert_eq!(inventory(file.as_slice()).unwrap().unwrap().format(), TensorFormat::GgufV1);
    let body = body_of(&file, PlannerId::GgufV1);
    let (renamed, new) =
        rekey(file.as_slice(), &body, &names(&[("a", "longer.name"), ("b", "b")])).unwrap();
    let made = assemble(&renamed, &file, &new);
    assert_eq!(
        listed(&made),
        [
            ("longer.name".to_owned(), b"first".to_vec()),
            ("b".to_owned(), b"second".to_vec()),
        ]
    );
}

#[test]
fn every_refusal_of_a_composition_is_its_own() {
    let file = safetensors(&[("a", b"first"), ("b", b"second")]);
    let body = body_of(&file, PlannerId::SafetensorsV1);
    let refused = |pairs: &[(&str, &str)]| {
        rekey(file.as_slice(), &body, &names(pairs)).unwrap_err()
    };
    assert!(matches!(refused(&[("a", "x")]), ComposeError::UnnamedTensor(name) if name == "b"));
    assert!(matches!(
        refused(&[("a", "x"), ("b", "y"), ("q", "z")]),
        ComposeError::UnknownTensor(name) if name == "q"
    ));
    assert!(matches!(
        refused(&[("a", "x"), ("b", "x")]),
        ComposeError::DuplicateName(name) if name == "x"
    ));
    assert!(matches!(
        refused(&[("a", ""), ("b", "x")]),
        ComposeError::UnusableName(_)
    ));

    let blob = canonical_body(
        PlannerId::BlobV1,
        &Stamp::Absent,
        &vec![FileRecord::Data { digest: named(b"x"), length: 1 }],
    )
    .unwrap();
    assert!(matches!(
        rekey(b"x".as_slice(), &blob, &[]),
        Err(ComposeError::NotATensorContainer)
    ));
    assert!(matches!(
        rekey(b"not a container".as_slice(), &body, &[]),
        Err(ComposeError::Unreadable(TensorFormat::SafetensorsV1))
    ));
    let unsliced = canonical_body(
        PlannerId::SafetensorsV1,
        &Stamp::Absent,
        &vec![FileRecord::Data { digest: named(&file), length: file.len() as u64 }],
    )
    .unwrap();
    assert!(matches!(
        rekey(file.as_slice(), &unsliced, &names(&[("a", "a"), ("b", "b")])),
        Err(ComposeError::NotObjectAligned(_))
    ));
}

#[test]
fn a_composed_name_of_any_characters_is_read_back() {
    let file = safetensors(&[("a", b"first"), ("b", b""), ("c", b"third")]);
    let body = body_of(&file, PlannerId::SafetensorsV1);
    let odd = "q\"b\\s/\u{8}\t\n\u{c}\r\u{1}\u{1f}\u{7f}é\u{2028}😀";
    let (renamed, new) =
        rekey(file.as_slice(), &body, &names(&[("a", odd), ("b", "dtype"), ("c", "}")])).unwrap();
    let made = assemble(&renamed, &file, &new);
    assert_eq!(
        listed(&made),
        [
            (odd.to_owned(), b"first".to_vec()),
            ("dtype".to_owned(), b"".to_vec()),
            ("}".to_owned(), b"third".to_vec()),
        ]
    );
    let header = String::from_utf8(new[0][8..].to_vec()).unwrap();
    assert!(header.starts_with("{\"q\\\"b\\\\s/\\b\\t\\n\\f\\r\\u0001\\u001f\u{7f}é\u{2028}😀\":{"));
    assert_eq!(new[0].len() % 8, 0);
}

#[test]
fn a_subset_of_a_gguf_file_is_read_back() {
    let file = gguf(&[("a", &[1; 40]), ("b", &[2; 32]), ("c", &[3; 5])]);
    let body = body_of(&file, PlannerId::GgufV1);
    let kept = names(&[("c", "last"), ("a", "a name of another length")]);
    let (trimmed, new) = subset(file.as_slice(), &body, &kept).unwrap();
    let made = assemble(&trimmed, &file, &new);
    assert_eq!(
        listed(&made),
        [
            ("a name of another length".to_owned(), vec![1; 40]),
            ("last".to_owned(), vec![3; 5]),
        ]
    );
}

#[test]
fn only_plain_integers_are_sizes() {
    let with_shape = |shape: &str| {
        let header = format!(r#"{{"w":{{"dtype":"U8","shape":[{shape}],"data_offsets":[0,7]}}}}"#);
        let mut file = (header.len() as u64).to_le_bytes().to_vec();
        file.extend_from_slice(header.as_bytes());
        file.extend_from_slice(b"7 bytes");
        plan(file.as_slice()).unwrap().planner()
    };
    for shape in ["7", " 7\t", "1,7", "7 , 1"] {
        assert_eq!(with_shape(shape), PlannerId::SafetensorsV1, "{shape}");
    }
    for shape in ["07", "7.0", "7e0", "-7", "+7", "7x", "7,", "18446744073709551616", "null", "\"7\""] {
        assert_eq!(with_shape(shape), PlannerId::BlobV1, "{shape}");
    }
}

#[test]
fn a_renaming_refuses_what_a_trim_leaves_out() {
    for (file, planner) in [
        (safetensors(&[("a", b"first"), ("b", b"second")]), PlannerId::SafetensorsV1),
        (gguf(&[("a", b"first"), ("b", b"second")]), PlannerId::GgufV1),
    ] {
        let body = body_of(&file, planner);
        let all = names(&[("a", "x"), ("b", "y")]);
        assert_eq!(
            rekey(file.as_slice(), &body, &all).unwrap(),
            subset(file.as_slice(), &body, &all).unwrap()
        );
        let some = names(&[("a", "x")]);
        assert!(subset(file.as_slice(), &body, &some).is_ok());
        assert!(matches!(
            rekey(file.as_slice(), &body, &some),
            Err(ComposeError::UnnamedTensor(name)) if name == "b"
        ));
    }
}

#[test]
fn no_container_is_the_beginning_of_another() {
    for file in [
        safetensors(&[("a", b"first"), ("b", b"second")]),
        gguf(&[("a", b"first"), ("b", b"second")]),
    ] {
        assert!(inventory(file.as_slice()).unwrap().is_some());
        for end in 0..file.len() {
            assert!(inventory(&file[..end]).unwrap().is_none());
        }
        let mut longer = file.clone();
        longer.push(0);
        assert!(inventory(longer.as_slice()).unwrap().is_none());
    }
}

#[test]
fn a_trim_keeps_the_records_of_what_it_names_behind_its_header() {
    for (file, planner) in [
        (
            safetensors(&[("a", b"first"), ("b", b"second"), ("c", b"third")]),
            PlannerId::SafetensorsV1,
        ),
        (gguf(&[("a", b"first"), ("b", b"second"), ("c", b"third")]), PlannerId::GgufV1),
    ] {
        let body = body_of(&file, planner);
        let (kept, new) = subset(file.as_slice(), &body, &names(&[("c", "x"), ("a", "a")])).unwrap();
        assert_eq!(kept.planner_id(), planner);
        let digest = |bytes: &[u8]| named(bytes);
        let of = |records: &[FileRecord]| -> Vec<ObjectDigest> {
            records
                .iter()
                .filter_map(|record| match record {
                    FileRecord::Data { digest, .. } => Some(*digest),
                    FileRecord::Hole { .. } => None,
                })
                .collect()
        };
        let found = of(&kept.records());
        let header: Vec<ObjectDigest> = new.iter().map(|bytes| digest(bytes)).collect();
        assert_eq!(found[..header.len()], header[..]);
        let place = |bytes: &[u8]| found.iter().position(|one| *one == digest(bytes));
        assert!(place(b"first").unwrap() >= header.len());
        assert!(place(b"first") < place(b"third"));
        assert_eq!(place(b"second"), None);
        let total: u64 = kept
            .records()
            .iter()
            .map(|record| match record {
                FileRecord::Data { length, .. } | FileRecord::Hole { length } => *length,
            })
            .sum();
        assert_eq!(total, kept.logical_size());
    }
}
