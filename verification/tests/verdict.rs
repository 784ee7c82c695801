use tensorfs_core::contract::{
    Contract, RawContract, RawDim, RawFusion, RawFusionPart, RawPermute, RawTensor, CONTRACT_FORMAT,
};
use tensorfs_core::verdict::{
    ArtifactFile, InventoryTensor, MismatchKind, VerdictKind, RECIPE_DTYPE_CAST, RECIPE_FP8_ROWWISE,
};

fn declared(pattern: &str, dtypes: &[&str]) -> RawTensor {
    RawTensor {
        role: pattern.to_owned(),
        pattern: pattern.to_owned(),
        dtypes: dtypes.iter().map(|dtype| (*dtype).to_owned()).collect(),
        rank: None,
        required: true,
        fusion: None,
        permute: None,
    }
}

fn contract(tensors: Vec<RawTensor>) -> Contract {
    RawContract {
        format: CONTRACT_FORMAT.to_owned(),
        name: Some("test.model".to_owned()),
        version: Some(4),
        description: String::new(),
        dtype: None,
        tensors,
        sets: Vec::new(),
    }
    .validate()
    .unwrap()
}

fn tensor(name: &str, dtype: &str, shape: &[u64], length: u64) -> InventoryTensor {
    InventoryTensor {
        name: name.to_owned(),
        dtype: dtype.to_owned(),
        shape: shape.to_vec(),
        length,
    }
}

fn file(path: &str, tensors: Vec<InventoryTensor>) -> ArtifactFile {
    ArtifactFile { path: path.to_owned(), tensors }
}

fn plain() -> Contract {
    contract(vec![declared("w.{i}", &["BF16"]), declared("norm", &["F32"])])
}

#[test]
fn an_artifact_that_meets_every_declaration_satisfies() {
    let optional = contract(vec![
        RawTensor { required: false, ..declared("w.{i}", &["BF16"]) },
        RawTensor { required: false, ..declared("norm", &["F32"]) },
    ]);
    let verdict = optional.verdict(&[
        file("b", vec![tensor("w.1", "BF16", &[2], 4), tensor("norm", "F32", &[1], 4)]),
        file("a", vec![tensor("other", "F16", &[1], 2)]),
    ]);
    assert_eq!(verdict.kind, VerdictKind::Satisfies);
    assert_eq!(verdict.kind.as_str(), "satisfies");
    assert_eq!(verdict.matched, 2);
    assert_eq!(verdict.explained, 1);
    assert_eq!(verdict.unexplained, ["a"]);
    assert_eq!(verdict.to_text(), "satisfies test.model@4 (2 tensors across 1 file(s))");
}

#[test]
fn another_element_type_is_derivable() {
    let verdict = plain().verdict(&[file(
        "model",
        vec![tensor("w.0", "F16", &[2], 4), tensor("norm", "F32", &[1], 4)],
    )]);
    assert_eq!(verdict.kind, VerdictKind::Derivable);
    let conversion = verdict.conversion.as_ref().unwrap();
    assert_eq!(conversion.kind, RECIPE_DTYPE_CAST);
    assert_eq!(conversion.from, ["F16"]);
    assert_eq!(conversion.to, ["BF16"]);
    assert_eq!(conversion.files, ["model"]);
    assert_eq!(conversion.to_text(), "dtype-cast from F16 to BF16 (1 file(s): model)");
    assert_eq!(
        verdict.to_text(),
        "derivable to test.model@4 via dtype-cast from F16 to BF16 (1 file(s): model) \u{2014} in model, \
         test.model@4: tensor \"w.0\" matches pattern \"w.{i}\" but its dtype is F16, not BF16"
    );
}

#[test]
fn a_missing_declaration_is_incompatible() {
    let verdict = plain().verdict(&[file("model", vec![tensor("w.0", "BF16", &[2], 4)])]);
    assert_eq!(verdict.kind, VerdictKind::Incompatible);
    let mismatch = verdict.mismatch.as_ref().unwrap();
    assert_eq!(mismatch.kind, MismatchKind::Required);
    assert_eq!(mismatch.pattern, "norm");
    assert_eq!(
        mismatch.to_text(),
        "test.model@4 requires \"norm\", which no tensor satisfies"
    );
}

#[test]
fn an_artifact_without_claimed_tensors_is_incompatible() {
    let verdict = plain().verdict(&[file("model", vec![tensor("other", "BF16", &[2], 4)])]);
    assert_eq!(verdict.kind, VerdictKind::Incompatible);
    let optional = contract(vec![RawTensor { required: false, ..declared("w", &[]) }]);
    let refused = optional.match_file(&[tensor("other", "BF16", &[2], 4)]).unwrap_err();
    assert_eq!(refused.kind, MismatchKind::NothingExplained);
    assert_eq!(refused.to_text(), "test.model@4 explains no tensor of this file");
}

#[test]
fn each_rule_of_a_declaration_has_its_own_mismatch() {
    let ranked = contract(vec![RawTensor { rank: Some(2), ..declared("w", &[]) }]);
    let refused = ranked.match_file(&[tensor("w", "F32", &[4], 16)]).unwrap_err();
    assert_eq!(refused.kind, MismatchKind::Rank);
    assert_eq!((refused.declared.as_str(), refused.observed.as_str()), ("2", "1"));

    let fused = contract(vec![RawTensor {
        fusion: Some(RawFusion {
            axis: 0,
            groups: 2,
            parts: vec![
                RawFusionPart { role: "q".to_owned(), share: 2 },
                RawFusionPart { role: "k".to_owned(), share: 1 },
            ],
        }),
        ..declared("w", &[])
    }]);
    let refused = fused.match_file(&[tensor("w", "F32", &[7, 2], 56)]).unwrap_err();
    assert_eq!(refused.kind, MismatchKind::Fusion);
    assert_eq!(
        refused.declared,
        "an outer axis divisible by 2 group(s) of [q:2 k:1]"
    );
    assert_eq!(refused.observed, "[7,2]");
    assert_eq!(fused.match_file(&[tensor("w", "F32", &[12, 2], 96)]).unwrap().matched, 1);

    let moved = contract(vec![RawTensor {
        permute: Some(RawPermute {
            view: vec![RawDim::Number(2), RawDim::Text("auto".to_owned())],
            axes: vec![1, 0],
        }),
        ..declared("w", &[])
    }]);
    let refused = moved.match_file(&[tensor("w", "F32", &[7], 28)]).unwrap_err();
    assert_eq!(refused.kind, MismatchKind::Permute);
    assert_eq!(refused.kind.as_str(), "permute");
    assert_eq!(refused.declared, "a resolvable view");
}

#[test]
fn a_recipe_follows_the_declarations() {
    assert_eq!(plain().recipe(), RECIPE_DTYPE_CAST);
    let rowwise = contract(vec![declared("w", &["F8_E4M3"]), declared("w.weight_scale", &["F32"])]);
    let half = contract(vec![declared("w", &["F8_E4M3"])]);
    assert_eq!(half.recipe(), RECIPE_DTYPE_CAST);
    assert_eq!(rowwise.recipe(), RECIPE_FP8_ROWWISE);
}

#[test]
fn a_verdict_is_complete() {
    for tensors in [
        vec![tensor("w.0", "BF16", &[2], 4), tensor("norm", "F32", &[1], 4)],
        vec![tensor("w.0", "F16", &[2], 4), tensor("norm", "F32", &[1], 4)],
        vec![],
    ] {
        let verdict = plain().verdict(&[file("model", tensors)]);
        assert_eq!(verdict.conversion.is_some(), verdict.kind == VerdictKind::Derivable);
        assert_eq!(verdict.mismatch.is_some(), verdict.kind != VerdictKind::Satisfies);
    }
}

#[test]
fn the_order_of_the_members_does_not_change_the_verdict() {
    let wide = contract(vec![RawTensor {
        required: false,
        ..declared("w.{i}", &["F32", "BF16"])
    }]);
    let members = || {
        [
            file("c", vec![tensor("w.0", "I8", &[2], 2)]),
            file("a", vec![tensor("w.0", "F16", &[2], 4)]),
            file("b", vec![tensor("other", "F16", &[2], 4)]),
        ]
    };
    let [x, y, z] = members();
    let verdict = wide.verdict(&[x, y, z]);
    let [x, y, z] = members();
    assert_eq!(wide.verdict(&[z, x, y]), verdict);
    assert_eq!(verdict.file, "a");
    let conversion = verdict.conversion.unwrap();
    assert_eq!(conversion.from, ["F16", "I8"]);
    assert_eq!(conversion.to, ["BF16", "F32"]);
    assert_eq!(conversion.files, ["a", "c"]);
}

#[test]
fn unexplained_members_are_listed_in_path_order() {
    let one = contract(vec![RawTensor { required: false, ..declared("w.{i}", &["F32"]) }]);
    let verdict = one.verdict(&[
        file("d", vec![tensor("other", "F16", &[2], 4)]),
        file("b", vec![tensor("w.0", "F32", &[2], 8)]),
        file("a", vec![tensor("other", "F16", &[2], 4)]),
        file("c", vec![tensor("other", "F16", &[2], 4)]),
    ]);
    assert_eq!(verdict.unexplained, ["a", "c", "d"]);
}
