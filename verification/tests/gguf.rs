use std::io;

use tensorfs_core::planner::gguf::{
    align_up, ggml_layout, tensor_length, try_plan, DEFAULT_ALIGNMENT, GGUF_TYPE_ARRAY, GGUF_TYPE_BOOL,
    GGUF_TYPE_FLOAT32, GGUF_TYPE_FLOAT64, GGUF_TYPE_INT16, GGUF_TYPE_INT32, GGUF_TYPE_INT64,
    GGUF_TYPE_INT8, GGUF_TYPE_STRING, GGUF_TYPE_UINT16, GGUF_TYPE_UINT32, GGUF_TYPE_UINT64,
    GGUF_TYPE_UINT8, MAX_ARRAY_DEPTH, MAX_ARRAY_ELEMENTS, MAX_METADATA_COUNT,
    MAX_METADATA_INSPECTION_BYTES, MAX_TENSOR_COUNT, MAX_TENSOR_NAME_LEN,
};
use tensorfs_core::planner::{ByteSource, PlannerId, RegionKind, MAX_OBJECT_SIZE};

const MAGIC: [u8; 4] = *b"GGUF";

#[derive(Clone)]
struct TensorSpec<'a> {
    name: &'a str,
    dimensions: &'a [u64],
    ggml_type: u32,
    offset: Option<u64>,
}

struct SparseFixture {
    prefix: Vec<u8>,
    length: u64,
}

struct SliceFixture<'a>(&'a [u8]);

impl ByteSource for SliceFixture<'_> {
    fn len(&self) -> u64 {
        self.0.len() as u64
    }

    fn read_exact_at(&self, offset: u64, destination: &mut [u8]) -> io::Result<()> {
        self.0.read_exact_at(offset, destination)
    }

    fn check_unchanged(&self) -> io::Result<()> {
        Ok(())
    }
}

impl ByteSource for SparseFixture {
    fn len(&self) -> u64 {
        self.length
    }

    fn read_exact_at(&self, offset: u64, destination: &mut [u8]) -> io::Result<()> {
        let end = offset
            .checked_add(destination.len() as u64)
            .ok_or_else(|| io::Error::new(io::ErrorKind::InvalidInput, "overflow"))?;
        if end > self.length {
            return Err(io::Error::new(io::ErrorKind::UnexpectedEof, "truncated"));
        }
        destination.fill(0);
        if offset < self.prefix.len() as u64 {
            let available = (self.prefix.len() as u64 - offset).min(destination.len() as u64);
            destination[..available as usize]
                .copy_from_slice(&self.prefix[offset as usize..(offset + available) as usize]);
        }
        Ok(())
    }

    fn check_unchanged(&self) -> io::Result<()> {
        Ok(())
    }
}

fn push_u32(bytes: &mut Vec<u8>, value: u32) {
    bytes.extend_from_slice(&value.to_le_bytes());
}

fn push_u64(bytes: &mut Vec<u8>, value: u64) {
    bytes.extend_from_slice(&value.to_le_bytes());
}

fn push_string(bytes: &mut Vec<u8>, value: &[u8]) {
    push_u64(bytes, value.len() as u64);
    bytes.extend_from_slice(value);
}

fn metadata(key: &str, value_type: u32, value: Vec<u8>) -> Vec<u8> {
    let mut bytes = Vec::new();
    push_string(&mut bytes, key.as_bytes());
    push_u32(&mut bytes, value_type);
    bytes.extend(value);
    bytes
}

fn u32_value(value: u32) -> Vec<u8> {
    value.to_le_bytes().to_vec()
}

fn string_value(value: &[u8]) -> Vec<u8> {
    let mut bytes = Vec::new();
    push_string(&mut bytes, value);
    bytes
}

fn array_value(element_type: u32, values: Vec<u8>, count: u64) -> Vec<u8> {
    let mut bytes = Vec::new();
    push_u32(&mut bytes, element_type);
    push_u64(&mut bytes, count);
    bytes.extend(values);
    bytes
}

fn build_prefix(
    version: u32,
    metadata_entries: &[Vec<u8>],
    tensors: &[TensorSpec<'_>],
    alignment: u64,
) -> (Vec<u8>, u64) {
    let mut bytes = Vec::new();
    bytes.extend_from_slice(&MAGIC);
    push_u32(&mut bytes, version);
    push_u64(&mut bytes, tensors.len() as u64);
    push_u64(&mut bytes, metadata_entries.len() as u64);
    for entry in metadata_entries {
        bytes.extend_from_slice(entry);
    }

    let mut expected_offset = 0_u64;
    for tensor in tensors {
        push_string(&mut bytes, tensor.name.as_bytes());
        push_u32(&mut bytes, tensor.dimensions.len() as u32);
        for dimension in tensor.dimensions {
            push_u64(&mut bytes, *dimension);
        }
        push_u32(&mut bytes, tensor.ggml_type);
        push_u64(&mut bytes, tensor.offset.unwrap_or(expected_offset));

        let mut dimensions = [1_u64; 4];
        for (destination, source) in dimensions.iter_mut().zip(tensor.dimensions) {
            *destination = *source;
        }
        let (block_elements, block_bytes) = ggml_layout(tensor.ggml_type).unwrap_or((1, 1));
        let length = tensor_length(dimensions, block_elements, block_bytes).unwrap_or(0);
        expected_offset += align_up(length, alignment).unwrap();
    }

    let data_start = if tensors.is_empty() {
        bytes.len() as u64
    } else {
        align_up(bytes.len() as u64, alignment).unwrap()
    };
    bytes.resize(data_start as usize, 0);
    (bytes, data_start + expected_offset)
}

fn build(
    version: u32,
    metadata_entries: &[Vec<u8>],
    tensors: &[TensorSpec<'_>],
    alignment: u64,
) -> Vec<u8> {
    let (mut bytes, length) = build_prefix(version, metadata_entries, tensors, alignment);
    bytes.resize(length as usize, 0);
    bytes
}

fn tensor<'a>(name: &'a str, dimensions: &'a [u64], ggml_type: u32) -> TensorSpec<'a> {
    TensorSpec {
        name,
        dimensions,
        ggml_type,
        offset: None,
    }
}

fn assert_raw_fallback(bytes: &[u8]) {
    assert!(try_plan(&SliceFixture(bytes)).unwrap().is_none());
}

#[test]
fn plans_v2_and_v3_with_separate_semantic_domains() {
    let entries = vec![
        metadata("general.alignment", GGUF_TYPE_UINT32, u32_value(64)),
        metadata("general.name", GGUF_TYPE_STRING, string_value(b"fixture")),
    ];
    let tensors = vec![tensor("dense", &[3, 2], 0), tensor("quant", &[256], 10)];

    for version in [2, 3] {
        let bytes = build(version, &entries, &tensors, 64);
        let plan = try_plan(&SliceFixture(&bytes)).unwrap().unwrap();
        assert_eq!(plan.planner, PlannerId::GgufV1);
        assert_eq!(plan.file_size, bytes.len() as u64);
        plan.validate().unwrap();

        let tensor_regions: Vec<_> = plan
            .regions
            .iter()
            .filter(|region| region.kind == RegionKind::Tensor)
            .map(|region| region.length)
            .collect();
        assert_eq!(tensor_regions, [24, 84]);
        assert!(plan.regions.windows(2).any(
            |pair| pair[0].kind == RegionKind::Header && pair[1].kind == RegionKind::Header
        ));
    }
}

#[test]
fn parses_all_metadata_scalar_and_array_encodings() {
    let mut entries = Vec::new();
    for (index, (value_type, width)) in [
        (GGUF_TYPE_UINT8, 1),
        (GGUF_TYPE_INT8, 1),
        (GGUF_TYPE_UINT16, 2),
        (GGUF_TYPE_INT16, 2),
        (GGUF_TYPE_UINT32, 4),
        (GGUF_TYPE_INT32, 4),
        (GGUF_TYPE_FLOAT32, 4),
        (GGUF_TYPE_UINT64, 8),
        (GGUF_TYPE_INT64, 8),
        (GGUF_TYPE_FLOAT64, 8),
    ]
    .into_iter()
    .enumerate()
    {
        entries.push(metadata(
            &format!("scalar.value_{index}"),
            value_type,
            vec![0; width],
        ));
        entries.push(metadata(
            &format!("array.value_{index}"),
            GGUF_TYPE_ARRAY,
            array_value(value_type, vec![0; width * 2], 2),
        ));
    }
    entries.push(metadata("bool", GGUF_TYPE_BOOL, vec![1]));
    entries.push(metadata(
        "bool_array",
        GGUF_TYPE_ARRAY,
        array_value(GGUF_TYPE_BOOL, vec![0, 1], 2),
    ));
    entries.push(metadata(
        "strings",
        GGUF_TYPE_ARRAY,
        array_value(
            GGUF_TYPE_STRING,
            [string_value(b"alpha"), string_value("beta".as_bytes())].concat(),
            2,
        ),
    ));
    entries.push(metadata(
        "nested",
        GGUF_TYPE_ARRAY,
        array_value(
            GGUF_TYPE_ARRAY,
            array_value(GGUF_TYPE_UINT8, vec![1, 2], 2),
            1,
        ),
    ));

    let bytes = build(3, &entries, &[], DEFAULT_ALIGNMENT);
    let plan = try_plan(&SliceFixture(&bytes)).unwrap().unwrap();
    assert_eq!(plan.planner, PlannerId::GgufV1);
    plan.validate().unwrap();
}

#[test]
fn metadata_inspection_has_an_exact_total_byte_budget() {
    const KEY: &[u8] = b"general.description";

    fn sparse_string(length: u64) -> SparseFixture {
        let mut prefix = Vec::new();
        prefix.extend_from_slice(&MAGIC);
        push_u32(&mut prefix, 3);
        push_u64(&mut prefix, 0);
        push_u64(&mut prefix, 1);
        push_string(&mut prefix, KEY);
        push_u32(&mut prefix, GGUF_TYPE_STRING);
        push_u64(&mut prefix, length);
        SparseFixture {
            length: prefix.len() as u64 + length,
            prefix,
        }
    }

    let encoded_overhead = 8 + KEY.len() as u64 + 4 + 8;
    let exact_value_length = MAX_METADATA_INSPECTION_BYTES - encoded_overhead;

    assert!(
        try_plan(&sparse_string(exact_value_length))
            .unwrap()
            .is_some()
    );
    assert!(
        try_plan(&sparse_string(exact_value_length + 1))
            .unwrap()
            .is_none()
    );
}

#[test]
fn malformed_keys_small_alignment_and_int64_max_geometry_fall_back() {
    for key in ["Bad Key", "_", "a_", "a__b", "1abc", "a.1b"] {
        let bad_key = metadata(key, GGUF_TYPE_UINT8, vec![0]);
        assert_raw_fallback(&build(3, &[bad_key], &[], DEFAULT_ALIGNMENT));
    }

    let small_alignment = metadata("general.alignment", GGUF_TYPE_UINT32, u32_value(4));
    assert_raw_fallback(&build(3, &[small_alignment], &[], 4));

    let too_many_elements = [i64::MAX as u64];
    assert_raw_fallback(&build(
        3,
        &[],
        &[tensor("impossible", &too_many_elements, 24)],
        DEFAULT_ALIGNMENT,
    ));
}

#[test]
fn pinned_ggml_table_covers_dense_and_quantized_types() {
    let expected = [
        (0, (1, 4)),
        (1, (1, 2)),
        (2, (32, 18)),
        (3, (32, 20)),
        (6, (32, 22)),
        (7, (32, 24)),
        (8, (32, 34)),
        (9, (32, 40)),
        (10, (256, 84)),
        (11, (256, 110)),
        (12, (256, 144)),
        (13, (256, 176)),
        (14, (256, 210)),
        (15, (256, 292)),
        (16, (256, 66)),
        (17, (256, 74)),
        (18, (256, 98)),
        (19, (256, 50)),
        (20, (32, 18)),
        (21, (256, 110)),
        (22, (256, 82)),
        (23, (256, 136)),
        (24, (1, 1)),
        (25, (1, 2)),
        (26, (1, 4)),
        (27, (1, 8)),
        (28, (1, 8)),
        (29, (256, 56)),
        (30, (1, 2)),
        (34, (256, 54)),
        (35, (256, 66)),
        (39, (32, 17)),
        (40, (64, 36)),
        (41, (128, 18)),
        (42, (64, 18)),
    ];
    for ggml_type in 0..=43 {
        let pinned = expected
            .iter()
            .find_map(|(candidate, layout)| (*candidate == ggml_type).then_some(*layout));
        assert_eq!(ggml_layout(ggml_type).ok(), pinned, "GGML type {ggml_type}");
    }
    assert!(ggml_layout(u32::MAX).is_err());
}

#[test]
fn plans_representative_legacy_k_iq_tq_and_float4_tensors() {
    let tensors = [
        tensor("f16", &[7], 1),
        tensor("q4_0", &[32], 2),
        tensor("q2_k", &[256], 10),
        tensor("iq2_xs", &[256], 17),
        tensor("tq1_0", &[256], 34),
        tensor("nvfp4", &[64], 40),
        tensor("q1_0", &[128], 41),
    ];
    let bytes = build(3, &[], &tensors, DEFAULT_ALIGNMENT);
    let plan = try_plan(&SliceFixture(&bytes)).unwrap().unwrap();
    let lengths: Vec<_> = plan
        .regions
        .iter()
        .filter(|region| region.kind == RegionKind::Tensor)
        .map(|region| region.length)
        .collect();
    assert_eq!(lengths, [14, 18, 84, 74, 54, 36, 18]);
    plan.validate().unwrap();
}

#[test]
fn tensor_chunks_are_tensor_relative_at_the_64_mib_boundary() {
    let exact = tensor("exact", &[MAX_OBJECT_SIZE / 4], 0);
    let over = tensor("over", &[MAX_OBJECT_SIZE / 4 + 1], 0);
    let tensors = [exact, over];
    let (prefix, length) = build_prefix(3, &[], &tensors, DEFAULT_ALIGNMENT);
    let source = SparseFixture { prefix, length };

    let plan = try_plan(&source).unwrap().unwrap();
    let tensor_regions: Vec<_> = plan
        .regions
        .iter()
        .filter(|region| region.kind == RegionKind::Tensor)
        .map(|region| region.length)
        .collect();
    assert_eq!(tensor_regions, [MAX_OBJECT_SIZE, MAX_OBJECT_SIZE, 4]);
    plan.validate().unwrap();
}

#[test]
fn rejects_wrong_magic_versions_and_big_endian() {
    assert_raw_fallback(b"GGU");
    assert_raw_fallback(b"GGUX");

    for version in [0, 1, 4, u32::MAX] {
        let bytes = build(version, &[], &[], DEFAULT_ALIGNMENT);
        assert_raw_fallback(&bytes);
    }

    let mut big_endian = build(3, &[], &[], DEFAULT_ALIGNMENT);
    big_endian[4..8].copy_from_slice(&3_u32.to_be_bytes());
    assert_raw_fallback(&big_endian);
}

#[test]
fn rejects_duplicate_metadata_keys_and_tensor_names() {
    let duplicate_keys = vec![
        metadata("same", GGUF_TYPE_UINT8, vec![0]),
        metadata("same", GGUF_TYPE_UINT8, vec![1]),
    ];
    assert_raw_fallback(&build(3, &duplicate_keys, &[], DEFAULT_ALIGNMENT));

    let duplicate_tensors = [tensor("same", &[1], 0), tensor("same", &[1], 0)];
    assert_raw_fallback(&build(3, &[], &duplicate_tensors, DEFAULT_ALIGNMENT));
}

#[test]
fn rejects_bad_alignment_type_value_and_invalid_metadata() {
    for alignment in [0, 3, 48] {
        let entries = vec![metadata(
            "general.alignment",
            GGUF_TYPE_UINT32,
            u32_value(alignment),
        )];
        assert_raw_fallback(&build(3, &entries, &[], DEFAULT_ALIGNMENT));
    }

    let wrong_type = vec![metadata(
        "general.alignment",
        GGUF_TYPE_UINT64,
        64_u64.to_le_bytes().to_vec(),
    )];
    assert_raw_fallback(&build(3, &wrong_type, &[], DEFAULT_ALIGNMENT));

    let invalid_bool = vec![metadata("bad", GGUF_TYPE_BOOL, vec![2])];
    assert_raw_fallback(&build(3, &invalid_bool, &[], DEFAULT_ALIGNMENT));

    let invalid_utf8 = vec![metadata("bad", GGUF_TYPE_STRING, string_value(&[0xff]))];
    assert_raw_fallback(&build(3, &invalid_utf8, &[], DEFAULT_ALIGNMENT));
}

#[test]
fn rejects_untrusted_counts_lengths_and_nesting_before_allocation() {
    for (tensor_count, metadata_count) in [
        (MAX_TENSOR_COUNT + 1, 0),
        (0, MAX_METADATA_COUNT + 1),
        (u64::MAX, u64::MAX),
    ] {
        let mut bytes = Vec::new();
        bytes.extend_from_slice(&MAGIC);
        push_u32(&mut bytes, 3);
        push_u64(&mut bytes, tensor_count);
        push_u64(&mut bytes, metadata_count);
        assert_raw_fallback(&bytes);
    }

    let mut oversized_key = Vec::new();
    oversized_key.extend_from_slice(&MAGIC);
    push_u32(&mut oversized_key, 3);
    push_u64(&mut oversized_key, 0);
    push_u64(&mut oversized_key, 1);
    push_u64(&mut oversized_key, u64::MAX);
    oversized_key.extend_from_slice(&[0; 5]);
    assert_raw_fallback(&oversized_key);

    let oversized_array = vec![metadata(
        "too_many",
        GGUF_TYPE_ARRAY,
        array_value(GGUF_TYPE_UINT8, Vec::new(), MAX_ARRAY_ELEMENTS + 1),
    )];
    assert_raw_fallback(&build(3, &oversized_array, &[], DEFAULT_ALIGNMENT));

    let oversized_name = "n".repeat((MAX_TENSOR_NAME_LEN + 1) as usize);
    assert_raw_fallback(&build(
        3,
        &[],
        &[tensor(&oversized_name, &[1], 0)],
        DEFAULT_ALIGNMENT,
    ));

    let mut nested = array_value(GGUF_TYPE_UINT8, Vec::new(), 0);
    for _ in 0..=MAX_ARRAY_DEPTH {
        nested = array_value(GGUF_TYPE_ARRAY, nested, 1);
    }
    let excessive_nesting = vec![metadata("nested", GGUF_TYPE_ARRAY, nested)];
    assert_raw_fallback(&build(3, &excessive_nesting, &[], DEFAULT_ALIGNMENT));
}

#[test]
fn rejects_dimensions_types_divisibility_overflow_and_gaps() {
    assert_raw_fallback(&build(
        3,
        &[],
        &[tensor("five-d", &[1, 1, 1, 1, 1], 0)],
        DEFAULT_ALIGNMENT,
    ));
    assert_raw_fallback(&build(
        3,
        &[],
        &[tensor("removed", &[32], 4)],
        DEFAULT_ALIGNMENT,
    ));
    assert_raw_fallback(&build(
        3,
        &[],
        &[tensor("future", &[1], 43)],
        DEFAULT_ALIGNMENT,
    ));
    assert_raw_fallback(&build(
        3,
        &[],
        &[tensor("partial-block", &[31], 2)],
        DEFAULT_ALIGNMENT,
    ));
    assert_raw_fallback(&build(
        3,
        &[],
        &[tensor("overflow", &[i64::MAX as u64, 2], 0)],
        DEFAULT_ALIGNMENT,
    ));

    let tensors = [
        tensor("first", &[1], 0),
        TensorSpec {
            name: "gap",
            dimensions: &[1],
            ggml_type: 0,
            offset: Some(64),
        },
    ];
    assert_raw_fallback(&build(3, &[], &tensors, DEFAULT_ALIGNMENT));
}

#[test]
fn rejects_trailing_bytes_and_every_truncation_point() {
    let tensors = [tensor("dense", &[8, 2], 0), tensor("quant", &[256], 12)];
    let valid = build(3, &[], &tensors, DEFAULT_ALIGNMENT);

    let mut trailing = valid.clone();
    trailing.push(0);
    assert_raw_fallback(&trailing);

    for length in 0..valid.len() {
        assert_raw_fallback(&valid[..length]);
    }
    assert!(try_plan(&SliceFixture(&valid)).unwrap().is_some());
}

#[test]
fn accepts_empty_tensors_without_zero_length_regions() {
    let tensors = [tensor("empty", &[0], 0), tensor("data", &[1], 0)];
    let bytes = build(3, &[], &tensors, DEFAULT_ALIGNMENT);
    let plan = try_plan(&SliceFixture(&bytes)).unwrap().unwrap();
    assert!(plan.regions.iter().all(|region| region.length > 0));
    assert_eq!(
        plan.regions
            .iter()
            .filter(|region| region.kind == RegionKind::Tensor)
            .count(),
        1
    );
    plan.validate().unwrap();
}
