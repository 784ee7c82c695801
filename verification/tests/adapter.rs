use std::io;

use tensorfs_core::adapter::decide::{decide, Decision, Reason};
use tensorfs_core::adapter::kernel::{invert_axes, permute_bytes, Transform};
use tensorfs_core::adapter::runs::{role_runs, AdapterError};
use tensorfs_core::contract::{
    Contract, RawContract, RawDim, RawFusion, RawFusionPart, RawPermute, RawTensor, CONTRACT_FORMAT,
};
use tensorfs_core::planner::{inventory, plan_with, ByteSource, RegionKind, TensorInventory};

/// numpy: `arange(24).reshape(2, 3, 4).transpose(1, 0, 2)`.
#[test]
fn a_permute_moves_elements_exactly_where_numpy_does() {
    let input: Vec<u8> = (0..24).collect();
    let moved = permute_bytes(&input, 1, &[2, 3, 4], &[1, 0, 2]);
    assert_eq!(
        moved,
        vec![
            0, 1, 2, 3, 12, 13, 14, 15, // (0,0,:), (1,0,:)
            4, 5, 6, 7, 16, 17, 18, 19, // (0,1,:), (1,1,:)
            8, 9, 10, 11, 20, 21, 22, 23,
        ]
    );
}

/// The llama.cpp rope permute: `reshape(heads, 2, d/2, cols).swapaxes(1, 2)`.
#[test]
fn the_rope_permute_round_trips_exactly() {
    let dims = [2_u64, 2, 3, 2];
    let axes = [0_usize, 2, 1, 3];
    let elements = 2 * 2 * 3 * 2;
    let input: Vec<u8> = (0..elements as u8 * 2).collect();
    let moved = permute_bytes(&input, 2, &dims, &axes);
    assert_ne!(moved, input, "a rope permute is not the identity");

    let permuted: Vec<u64> = axes.iter().map(|axis| dims[*axis]).collect();
    let back = permute_bytes(&moved, 2, &permuted, &invert_axes(&axes));
    assert_eq!(back, input, "a permute is exactly invertible");
}

#[test]
fn an_inner_axis_move_still_lands_element_by_element() {
    // axes[last] != last, so the block-copy shortcut is off.
    let input: Vec<u8> = (0..6).collect();
    assert_eq!(
        permute_bytes(&input, 1, &[2, 3], &[1, 0]),
        vec![0, 3, 1, 4, 2, 5]
    );
}

#[test]
fn permuting_back_returns_the_bytes() {
    for (dims, axes) in [
        (vec![2_u64, 3, 4], vec![2_usize, 0, 1]),
        (vec![5, 1, 2], vec![1, 2, 0]),
        (vec![], vec![]),
    ] {
        let count: u64 = dims.iter().product();
        let input: Vec<u8> = (0..count as u8 * 3).collect();
        let moved = permute_bytes(&input, 3, &dims, &axes);
        let turned: Vec<u64> = axes.iter().map(|axis| dims[*axis]).collect();
        assert_eq!(permute_bytes(&moved, 3, &turned, &invert_axes(&axes)), input);
    }
}

#[test]
fn a_view_without_elements_permutes_to_nothing() {
    assert!(permute_bytes(&[], 2, &[3, 0], &[0, 1]).is_empty());
    assert!(permute_bytes(&[], 0, &[3, 2], &[1, 0]).is_empty());
}

const MIB: u64 = 1024 * 1024;

/// A safetensors file whose tensors are zeros.
struct ZeroTensors {
    head: Vec<u8>,
    length: u64,
}

impl ZeroTensors {
    fn new(tensors: &[(&str, &[u64])]) -> ZeroTensors {
        let mut header = String::from("{");
        let mut offset = 0;
        for (index, (name, shape)) in tensors.iter().enumerate() {
            if index > 0 {
                header.push(',');
            }
            let end = offset + shape.iter().product::<u64>();
            header.push_str(&format!(
                r#""{name}":{{"dtype":"U8","shape":{shape:?},"data_offsets":[{offset},{end}]}}"#
            ));
            offset = end;
        }
        header.push('}');
        let mut head = (header.len() as u64).to_le_bytes().to_vec();
        head.extend_from_slice(header.as_bytes());
        let length = head.len() as u64 + offset;
        ZeroTensors { head, length }
    }

    fn inventory(&self) -> TensorInventory {
        inventory(self).unwrap().unwrap()
    }
}

impl ByteSource for ZeroTensors {
    fn len(&self) -> u64 {
        self.length
    }

    fn read_exact_at(&self, offset: u64, destination: &mut [u8]) -> io::Result<()> {
        destination.fill(0);
        for (place, byte) in destination.iter_mut().enumerate() {
            if let Some(found) = self.head.get(offset as usize + place) {
                *byte = *found;
            }
        }
        Ok(())
    }

    fn check_unchanged(&self) -> io::Result<()> {
        Ok(())
    }
}

fn tensor(role: &str, pattern: &str) -> RawTensor {
    RawTensor {
        role: role.to_owned(),
        pattern: pattern.to_owned(),
        dtypes: Vec::new(),
        rank: None,
        required: true,
        fusion: None,
        permute: None,
    }
}

fn contract(tensors: Vec<RawTensor>) -> Contract {
    RawContract {
        format: CONTRACT_FORMAT.to_owned(),
        name: None,
        version: None,
        description: String::new(),
        dtype: None,
        tensors,
        sets: Vec::new(),
    }
    .validate()
    .unwrap()
}

fn fused() -> Contract {
    let part = |role: &str| RawFusionPart { role: role.to_owned(), share: 1 };
    contract(vec![RawTensor {
        fusion: Some(RawFusion { axis: 0, groups: 1, parts: vec![part("q"), part("k")] }),
        ..tensor("b.{i}.qk", "b.{i}.qk.weight")
    }])
}

fn split() -> Contract {
    contract(vec![
        tensor("b.{i}.qk#q", "b.{i}.q.weight"),
        tensor("b.{i}.qk#k", "b.{i}.k.weight"),
    ])
}

#[test]
fn a_fused_tensor_is_viewed_as_its_parts() {
    let file = ZeroTensors::new(&[("b.0.qk.weight", &[2, MIB])]);
    let start = file.head.len() as u64;
    let runs = role_runs(&fused(), &file.inventory()).unwrap();
    let seen: Vec<(&str, u64, u64, u64)> = runs
        .iter()
        .map(|run| (run.role(), run.offset(), run.length(), run.rows()))
        .collect();
    assert_eq!(
        seen,
        [("b.0.qk#k", start + MIB, MIB, 1), ("b.0.qk#q", start, MIB, 1)]
    );

    let decision = decide(&fused(), &file.inventory(), &split()).unwrap();
    assert!(decision.is_viewable());
    assert!(matches!(decision, Decision::RunPreserving(_)));
    let tensors = decision.adapter().unwrap().tensors();
    let mut names: Vec<(&str, &[u64], u64)> = tensors
        .iter()
        .map(|tensor| (tensor.name(), tensor.shape(), tensor.length()))
        .collect();
    names.sort();
    assert_eq!(
        names,
        [
            ("b.0.k.weight", [1, MIB].as_slice(), MIB),
            ("b.0.q.weight", [1, MIB].as_slice(), MIB),
        ]
    );
    assert!(tensors.iter().all(|tensor| tensor.transform().is_identity()));
    assert!(tensors.iter().all(|tensor| !tensor.is_whole_source_tensor()));
}

#[test]
fn parts_are_viewed_as_a_fused_tensor() {
    let file = ZeroTensors::new(&[("b.0.q.weight", &[1, MIB]), ("b.0.k.weight", &[1, MIB])]);
    let decision = decide(&split(), &file.inventory(), &fused()).unwrap();
    let tensors = decision.adapter().unwrap().tensors();
    assert_eq!(tensors.len(), 1);
    assert_eq!(tensors[0].name(), "b.0.qk.weight");
    assert_eq!(tensors[0].shape(), [2, MIB]);
    assert_eq!(tensors[0].runs().len(), 2);
    assert!(!tensors[0].is_whole_source_tensor());
}

#[test]
fn a_renamed_tensor_is_a_whole_source_tensor() {
    let file = ZeroTensors::new(&[("w", &[2, 3])]);
    let renamed = contract(vec![tensor("w", "v")]);
    let decision = decide(&contract(vec![tensor("w", "w")]), &file.inventory(), &renamed).unwrap();
    let tensors = decision.adapter().unwrap().tensors();
    assert_eq!(tensors[0].name(), "v");
    assert!(tensors[0].runs()[0].is_whole());
    assert!(tensors[0].is_whole_source_tensor());
}

#[test]
fn a_role_without_bytes_takes_a_conversion() {
    let file = ZeroTensors::new(&[("b.0.qk.weight", &[2, MIB])]);
    let more = contract(vec![tensor("b.{i}.qk#q", "b.{i}.q"), tensor("head", "head")]);
    let decision = decide(&fused(), &file.inventory(), &more).unwrap();
    assert!(!decision.is_viewable());
    assert!(matches!(decision, Decision::Conversion { reason: Reason::Required { .. } }));
    assert!(decision.adapter().is_none());
    let foreign = contract(vec![tensor("x", "x")]);
    assert!(matches!(
        decide(&foreign, &file.inventory(), &fused()).unwrap(),
        Decision::Conversion { reason: Reason::Required { .. } }
    ));
}

#[test]
fn a_permuted_tensor_is_rearranged() {
    let turned = contract(vec![RawTensor {
        permute: Some(RawPermute {
            view: vec![RawDim::Text("shape[0]".to_owned()), RawDim::Text("auto".to_owned())],
            axes: vec![1, 0],
        }),
        ..tensor("w", "w")
    }]);
    let plain = contract(vec![tensor("w", "w")]);
    let file = ZeroTensors::new(&[("w", &[2, 3])]);
    let decision = decide(&plain, &file.inventory(), &turned).unwrap();
    let Decision::Rearranged { adapter, rearranged } = &decision else {
        panic!("a permute moves bytes");
    };
    assert_eq!(rearranged.as_slice(), ["w"]);
    let transform = adapter.tensors()[0].transform();
    assert!(matches!(transform, Transform::Forward(_)));
    let moved = transform.apply(&[0, 1, 2, 3, 4, 5], 1, &[2, 3]).unwrap();
    assert_eq!(moved, [0, 3, 1, 4, 2, 5]);
    let back = decide(&turned, &file.inventory(), &plain).unwrap();
    let inverse = back.adapter().unwrap().tensors()[0].transform();
    assert_eq!(inverse.apply(&moved, 1, &[2, 3]).unwrap(), [0, 1, 2, 3, 4, 5]);
    assert!(!adapter.tensors()[0].is_whole_source_tensor());
    let otherwise = contract(vec![RawTensor {
        permute: Some(RawPermute {
            view: vec![RawDim::Text("auto".to_owned()), RawDim::Number(3)],
            axes: vec![1, 0],
        }),
        ..tensor("w", "w")
    }]);
    assert_eq!(
        decide(&turned, &file.inventory(), &otherwise).err(),
        Some(AdapterError::TwoPermutes { name: "w".to_owned() })
    );
}

#[test]
fn a_contract_adds_cuts_inside_fused_tensors() {
    let file = ZeroTensors::new(&[("b.0.qk.weight", &[2, MIB])]);
    let lengths = |contract: Option<&Contract>| {
        plan_with(&file, contract)
            .unwrap()
            .regions()
            .iter()
            .filter(|region| region.kind() == RegionKind::Tensor)
            .map(|region| region.length())
            .collect::<Vec<_>>()
    };
    assert_eq!(lengths(None), [2 * MIB]);
    assert_eq!(lengths(Some(&fused())), [MIB, MIB]);
    let planned = plan_with(&file, Some(&fused())).unwrap();
    assert_eq!(planned.contract(), &fused().stamp());
}

#[test]
fn every_reason_is_said_in_words() {
    let name = || "w".to_owned();
    for (reason, text) in [
        (
            Reason::Required { role: name() },
            "the target requires \"w\", which the source has no bytes for",
        ),
        (
            Reason::NoBytes { role: name() },
            "the source carries no bytes for the role \"w\"",
        ),
        (Reason::NothingDescribed, "the target contract describes none of this file"),
        (
            Reason::NoPlace { role: name() },
            "the target layout has no place for the role \"w\"",
        ),
        (Reason::NoRuns, "a target tensor with no runs"),
        (
            Reason::MixedDtypes { name: name(), first: "F32".to_owned(), other: "BF16".to_owned() },
            "\"w\" would concatenate F32 and BF16 \u{2014} a cast is math, not layout",
        ),
        (
            Reason::MixedRows { name: name() },
            "\"w\" would concatenate rows of different shapes",
        ),
    ] {
        assert_eq!(reason.to_text(), text);
    }
    for (fault, text) in [
        (
            AdapterError::SourceMismatch,
            "the source file does not implement the source contract",
        ),
        (
            AdapterError::TwiceCarried { role: name() },
            "two source tensors carry the role \"w\"",
        ),
        (
            AdapterError::PartialRows { role: name() },
            "run \"w\" is not a whole number of rows",
        ),
        (
            AdapterError::MixedPermutes { name: name() },
            "\"w\" would concatenate runs re-arranged differently",
        ),
        (
            AdapterError::TwoPermutes { name: name() },
            "\"w\" is re-arranged on BOTH sides; composing two permutes is not in this vocabulary",
        ),
    ] {
        assert_eq!(fault.to_text(), text);
    }
}

#[test]
fn a_fused_tensor_has_the_rows_of_its_own_runs() {
    // The long tensor takes no part in the target's fused one.
    let part = |role: &str| RawFusionPart { role: role.to_owned(), share: 1 };
    let target = contract(vec![
        RawTensor {
            fusion: Some(RawFusion { axis: 0, groups: 1, parts: vec![part("q"), part("k")] }),
            ..tensor("b.{i}.qk", "b.{i}.qk.weight")
        },
        tensor("long", "long"),
    ]);
    let source = contract(vec![
        tensor("b.{i}.qk#q", "b.{i}.q.weight"),
        tensor("b.{i}.qk#k", "b.{i}.k.weight"),
        tensor("long", "long"),
    ]);
    let file = ZeroTensors::new(&[
        ("b.0.q.weight", &[1, 4]),
        ("b.0.k.weight", &[2, 4]),
        ("long", &[1 << 40]),
    ]);
    let decision = decide(&source, &file.inventory(), &target).unwrap();
    let tensors = decision.adapter().unwrap().tensors();
    assert_eq!(tensors[0].shape(), [3, 4]);
    assert_eq!(tensors[1].shape(), [1 << 40]);
}
