use serde_json::Value;
use tensorfs_core::contract::{
    Contract, ContractError, RawContract, RawDim, RawFusion, RawFusionPart, RawPermute, RawSet,
    RawTensor, Stamp, CONTRACT_FORMAT,
};
use tensorfs_core::fusion::FusionRun;
use tensorfs_core::pattern::Pattern;

/// The fields of an object, each taken once; a field that is left over is
/// unknown.
struct Fields(serde_json::Map<String, Value>);

impl Fields {
    fn of(value: Value) -> Option<Fields> {
        match value {
            Value::Object(map) => Some(Fields(map)),
            _ => None,
        }
    }

    fn take(&mut self, name: &str) -> Option<Value> {
        self.0.remove(name)
    }

    fn text(&mut self, name: &str) -> Option<String> {
        Some(self.take(name)?.as_str()?.to_owned())
    }

    fn number(&mut self, name: &str) -> Option<u64> {
        self.take(name)?.as_u64()
    }

    fn done(self) -> Option<()> {
        self.0.is_empty().then_some(())
    }
}

fn list(value: Value) -> Option<Vec<Value>> {
    match value {
        Value::Array(items) => Some(items),
        _ => None,
    }
}

fn texts(value: Value) -> Option<Vec<String>> {
    list(value)?
        .into_iter()
        .map(|item| item.as_str().map(str::to_owned))
        .collect()
}

fn raw_fusion(value: Value) -> Option<RawFusion> {
    let mut fields = Fields::of(value)?;
    let axis = fields.number("axis")? as usize;
    let groups = match fields.take("groups") {
        None => 1,
        Some(value) => value.as_u64()?,
    };
    let mut parts = Vec::new();
    for part in list(fields.take("parts")?)? {
        let mut part = Fields::of(part)?;
        let role = part.text("role")?;
        let share = part.number("share")?;
        part.done()?;
        parts.push(RawFusionPart { role, share });
    }
    fields.done()?;
    Some(RawFusion { axis, groups, parts })
}

fn raw_permute(value: Value) -> Option<RawPermute> {
    let mut fields = Fields::of(value)?;
    let view = list(fields.take("view")?)?
        .into_iter()
        .map(|dim| match dim {
            Value::String(text) => RawDim::Text(text),
            other => other.as_u64().map_or(RawDim::Other, RawDim::Number),
        })
        .collect();
    let axes = list(fields.take("axes")?)?
        .into_iter()
        .map(|axis| axis.as_u64().map(|axis| axis as usize))
        .collect::<Option<Vec<_>>>()?;
    fields.done()?;
    Some(RawPermute { view, axes })
}

fn optional<T>(value: Option<Value>, read: impl Fn(Value) -> Option<T>) -> Option<Option<T>> {
    match value {
        None | Some(Value::Null) => Some(None),
        Some(value) => read(value).map(Some),
    }
}

fn raw_tensor(value: Value) -> Option<RawTensor> {
    let mut fields = Fields::of(value)?;
    let tensor = RawTensor {
        role: fields.text("role")?,
        pattern: fields.text("pattern")?,
        dtypes: match fields.take("dtypes") {
            None => Vec::new(),
            Some(value) => texts(value)?,
        },
        rank: optional(fields.take("rank"), |value| value.as_u64().map(|rank| rank as usize))?,
        required: match fields.take("required") {
            None => true,
            Some(value) => value.as_bool()?,
        },
        fusion: optional(fields.take("fusion"), raw_fusion)?,
        permute: optional(fields.take("permute"), raw_permute)?,
    };
    fields.done()?;
    Some(tensor)
}

fn raw_contract(document: &str) -> Option<RawContract> {
    let mut fields = Fields::of(serde_json::from_str(document).ok()?)?;
    let raw = RawContract {
        format: fields.text("format")?,
        name: optional(fields.take("name"), |value| value.as_str().map(str::to_owned))?,
        version: optional(fields.take("version"), |value| {
            value.as_u64().and_then(|version| u32::try_from(version).ok())
        })?,
        description: match fields.take("description") {
            None => String::new(),
            Some(value) => value.as_str()?.to_owned(),
        },
        dtype: optional(fields.take("dtype"), |value| value.as_str().map(str::to_owned))?,
        tensors: list(fields.take("tensors")?)?
            .into_iter()
            .map(raw_tensor)
            .collect::<Option<Vec<_>>>()?,
        sets: match fields.take("sets") {
            None => Vec::new(),
            Some(Value::Object(map)) => {
                let mut sets = Vec::new();
                for (name, members) in map {
                    sets.push(RawSet { name, members: texts(members)? });
                }
                sets.sort_by(|left, right| left.name.cmp(&right.name));
                sets
            }
            Some(_) => return None,
        },
    };
    fields.done()?;
    Some(raw)
}

fn parse(document: &str) -> Result<Contract, ContractError> {
    match raw_contract(document) {
        Some(raw) => raw.validate(),
        None => Err(ContractError::Json(document.to_owned())),
    }
}

fn contract(document: &str) -> Contract {
    parse(document).unwrap()
}

const FUSED: &str = r#"{
    "format": "tensorfs-contract-v1",
    "name": "test.fused",
    "version": 2,
    "tensors": [
        {"role": "layers.{i}.attn.qkv", "pattern": "layers.{i}.qkv.weight", "rank": 2,
         "fusion": {"axis": 0, "parts": [{"role": "q", "share": 2}, {"role": "k", "share": 1},
                                         {"role": "v", "share": 1}]}},
        {"role": "layers.{i}.mlp", "pattern": "layers.{i}.mlp.weight", "required": false}
    ],
    "sets": {"adaln": ["layers.{i}.adaln.weight"]}
}"#;

#[test]
fn a_pattern_captures_and_instantiates_its_holes() {
    let pattern = Pattern::parse("model.layers.{i}.attn.{i}.weight").unwrap();
    assert_eq!(
        pattern.captures("model.layers.12.attn.0.weight"),
        Some(vec![12, 0])
    );
    assert_eq!(
        pattern.instantiate(&[12, 0]).unwrap(),
        "model.layers.12.attn.0.weight"
    );
    assert_eq!(pattern.captures("model.layers.x.attn.0.weight"), None);
    // No leading zeros: one integer has exactly one spelling.
    assert_eq!(pattern.captures("model.layers.01.attn.0.weight"), None);
    assert_eq!(
        pattern.captures("model.layers.12.attn.0.weight.extra"),
        None
    );
}

#[test]
fn ambiguous_patterns_refuse_at_parse() {
    assert!(Pattern::parse("layers.{i}{i}.weight").is_err());
    assert!(Pattern::parse("layers.{i}0.weight").is_err());
    assert!(Pattern::parse("layers.{j}.weight").is_err());
    assert!(Pattern::parse("").is_err());
}

const INTERLEAVED: &str = r#"{
    "format": "tensorfs-contract-v1",
    "name": "test.interleaved",
    "version": 1,
    "tensors": [
        {"role": "b.{i}.qkv", "pattern": "b.{i}.qkv.weight", "rank": 2,
         "fusion": {"axis": 0, "groups": 4,
                    "parts": [{"role": "q", "share": 1}, {"role": "k", "share": 1},
                              {"role": "v", "share": 1}]}},
        {"role": "b.{i}.qkv#q", "pattern": "b.{i}.q.weight", "rank": 2, "required": false,
         "fusion": {"axis": 0, "groups": 4, "parts": [{"role": "", "share": 1}]}}
    ]
}"#;

const ONE_PART: &str = r#"{
    "format": "tensorfs-contract-v1",
    "name": "test.one-part",
    "version": 1,
    "tensors": [
        {"role": "b.{i}.qkv", "pattern": "b.{i}.qkv.weight",
         "fusion": {"axis": 0, "parts": [{"role": "q", "share": 1}]}}
    ]
}"#;

const MIB: u64 = 1024 * 1024;

#[test]
fn seam_offsets_cut_the_outer_axis_at_declared_fractions() {
    let contract = contract(FUSED);
    // 8 rows of 1 MiB; shares 2:1:1 give 4/2/2 rows.
    assert_eq!(
        contract.seam_offsets("layers.3.qkv.weight", &[8, 4], 8 * MIB),
        vec![4 * MIB, 6 * MIB]
    );
    // A row count that does not divide the shares is not cuttable.
    assert!(
        contract
            .seam_offsets("layers.3.qkv.weight", &[6, 4], 6 * MIB)
            .is_empty()
    );
    // A tensor with no declared fusion is never cut.
    assert!(
        contract
            .seam_offsets("layers.3.mlp.weight", &[8, 4], 8 * MIB)
            .is_empty()
    );
}

#[test]
fn an_interleaved_fusion_cuts_every_group_and_names_both_sides_alike() {
    let contract = contract(INTERLEAVED);
    // The H3 shape in miniature: 4 groups of (q, k, v), one run each.
    let fused = contract
        .runs_of("b.0.qkv.weight", &[12, 2], 12 * MIB)
        .expect("the fusion applies");
    assert_eq!(fused.len(), 12);
    assert!(fused.iter().all(|run| run.length() == MIB));
    let roles: Vec<&str> = fused.iter().map(FusionRun::role).collect();
    assert_eq!(&roles[..4], ["#q@0", "#k@0", "#v@0", "#q@1"]);
    assert_eq!(
        contract.seam_offsets("b.0.qkv.weight", &[12, 2], 12 * MIB),
        (1..12).map(|part| part * MIB).collect::<Vec<_>>()
    );

    // The split twin declares the SAME runs under the same roles, which is
    // what makes the two packagings share objects: `b.0.qkv#q` + `@g` on
    // this side, `b.0.qkv` + `#q@g` on the fused side.
    let split = contract
        .runs_of("b.0.q.weight", &[4, 2], 4 * MIB)
        .expect("the slice applies");
    assert_eq!(split.len(), 4);
    assert!(split.iter().all(|run| run.length() == MIB));
    assert_eq!(
        split.iter().map(FusionRun::role).collect::<Vec<_>>(),
        ["@0", "@1", "@2", "@3"]
    );
}

#[test]
fn runs_below_the_floor_are_not_cut_on_either_side() {
    // The memo's row-granular rejection, enforced as a size: the same
    // declaration that cuts at MiB scale cuts nothing at KB scale, and it
    // crosses the floor at the same size in both packagings.
    let contract = contract(INTERLEAVED);
    let small = 12 * (MIB - 1024);
    assert!(
        contract
            .runs_of("b.0.qkv.weight", &[12, 2], small)
            .is_none()
    );
    assert!(
        contract
            .runs_of("b.0.q.weight", &[4, 2], small / 3)
            .is_none()
    );
    assert!(
        contract
            .seam_offsets("b.0.qkv.weight", &[12, 2], small)
            .is_empty()
    );
}

#[test]
fn a_contract_is_addressed_by_name_and_version_and_pinned_by_digest() {
    let first = contract(FUSED);
    assert_eq!(first.stamp().to_text(), "test.fused@2");
    assert_eq!(Stamp::parse("test.fused@2").unwrap(), first.stamp());
    // Whitespace is not meaning: the same declarations digest the same.
    let reformatted = contract(&FUSED.replace("        ", " ").replace('\n', ""));
    assert_eq!(first.digest(), reformatted.digest());
    // A changed seam share is a changed contract.
    let edited = contract(&FUSED.replace("\"share\": 2", "\"share\": 3"));
    assert_ne!(first.digest(), edited.digest());
}

const NAMELESS: &str = r#"{
    "format": "tensorfs-contract-v1",
    "tensors": [
        {"role": "layers.{i}.attn.qkv", "pattern": "layers.{i}.qkv.weight", "rank": 2,
         "fusion": {"axis": 0, "parts": [{"role": "q", "share": 2}, {"role": "k", "share": 1},
                                         {"role": "v", "share": 1}]}},
        {"role": "layers.{i}.mlp", "pattern": "layers.{i}.mlp.weight", "required": false}
    ],
    "sets": {"adaln": ["layers.{i}.adaln.weight"]}
}"#;

#[test]
fn a_nameless_contract_is_identified_by_its_digest_alone() {
    let custom = contract(NAMELESS);
    assert_eq!(custom.name(), None);
    assert_eq!(custom.version(), 0);

    // The stamp IS the canonical digest, spelled sha256:<hex>, and it
    // round-trips through parse/display like every other stamp.
    let stamp = custom.stamp();
    assert_eq!(stamp, Stamp::Digest(custom.digest()));
    let spelled = stamp.to_text();
    assert!(
        spelled.starts_with("sha256:") && spelled.len() == 71,
        "{spelled}"
    );
    assert_eq!(Stamp::parse(&spelled).unwrap(), stamp);

    // Whitespace is not meaning for customs either.
    let reformatted = contract(&NAMELESS.replace("        ", " ").replace('\n', ""));
    assert_eq!(custom.digest(), reformatted.digest());

    // The same declarations UNDER A NAME are a different contract: the
    // canonical rendering carries the name lines, so adoption into the
    // library is a new document with a new identity.
    assert_ne!(custom.digest(), contract(FUSED).digest());

    // A malformed digest spelling refuses, typed.
    assert!(Stamp::parse("sha256:abc").is_err());
    assert!(Stamp::parse(&spelled.to_uppercase()).is_err());
}

#[test]
fn the_top_level_dtype_is_additive_and_read_back() {
    // Absent means absent: no field, no canonical line — the shipped
    // library's digest pins prove the byte-level half of this.
    assert_eq!(contract(FUSED).dtype(), None);

    let with = FUSED.replace(
        "\"version\": 2,",
        "\"version\": 2, \"dtype\": \"bfloat16\",",
    );
    let carried = contract(&with);
    assert_eq!(carried.dtype(), Some("bfloat16"));
    // Declaring it is meaning: the digest moves.
    assert_ne!(carried.digest(), contract(FUSED).digest());

    // The spelling is torch's, checked as a shape rather than an enum.
    let miscased = FUSED.replace("\"version\": 2,", "\"version\": 2, \"dtype\": \"BF16\",");
    assert!(matches!(
        parse(&miscased),
        Err(ContractError::Dtype(_))
    ));
    let empty = FUSED.replace("\"version\": 2,", "\"version\": 2, \"dtype\": \"\",");
    assert!(matches!(
        parse(&empty),
        Err(ContractError::Dtype(_))
    ));
}

#[test]
fn name_and_version_are_declared_together_or_not_at_all() {
    let with_name_only =
        NAMELESS.replace("\"tensors\"", "\"name\": \"test.custom\", \"tensors\"");
    let with_version_only = NAMELESS.replace("\"tensors\"", "\"version\": 1, \"tensors\"");
    assert!(matches!(
        parse(&with_name_only),
        Err(ContractError::Identity)
    ));
    assert!(matches!(
        parse(&with_version_only),
        Err(ContractError::Identity)
    ));
}

#[test]
fn malformed_documents_refuse() {
    let cases = [
        FUSED.replace(CONTRACT_FORMAT, "tensorfs-contract-v2"),
        FUSED.replace("\"version\": 2", "\"version\": 0"),
        FUSED.replace("test.fused", "Test.Fused"),
        // An inner-axis seam is not a byte concatenation.
        FUSED.replace("\"axis\": 0", "\"axis\": 1"),
        // One part in one group is the whole tensor, not a fusion.
        ONE_PART.to_owned(),
        // An unnamed part is only meaningful as the sole part of a slice.
        FUSED.replace(
            "\"role\": \"q\", \"share\": 2",
            "\"role\": \"\", \"share\": 2",
        ),
        FUSED.replace("\"axis\": 0", "\"axis\": 0, \"groups\": 0"),
        FUSED.replace(
            "\"role\": \"k\", \"share\": 1",
            "\"role\": \"k\", \"share\": 0",
        ),
        FUSED.replace("\"rank\": 2", "\"rank\": 2, \"unknown\": 1"),
    ];
    for case in cases {
        assert!(parse(&case).is_err(), "accepted {case}");
    }
    // Two parts with one role name cannot be told apart.
    assert!(parse(&FUSED.replace("\"role\": \"k\"", "\"role\": \"q\"")).is_err());
}

fn rejected(document: &str) -> ContractError {
    parse(document).unwrap_err()
}

fn one(tensor: &str) -> String {
    format!(
        r#"{{"format": "tensorfs-contract-v1", "name": "t.one", "version": 1, "tensors": [{tensor}]}}"#
    )
}

#[test]
fn every_refusal_of_a_document_is_its_own() {
    assert!(matches!(
        rejected(&FUSED.replace(CONTRACT_FORMAT, "other")),
        ContractError::Format
    ));
    assert!(matches!(
        rejected(&FUSED.replace("test.fused", "Test")),
        ContractError::Name(_)
    ));
    assert!(matches!(
        rejected(&FUSED.replace("\"version\": 2", "\"version\": 0")),
        ContractError::Version
    ));
    assert!(matches!(
        rejected(r#"{"format": "tensorfs-contract-v1", "tensors": []}"#),
        ContractError::NoTensors
    ));
    assert!(matches!(
        rejected(&one(r#"{"role": "w", "pattern": "{j}"}"#)),
        ContractError::Pattern(_)
    ));
    let twice = r#"{"role": "a", "pattern": "w"}, {"role": "b", "pattern": "w"}"#;
    assert!(matches!(rejected(&one(twice)), ContractError::Duplicate(_)));
    assert!(matches!(
        rejected(&one(r#"{"role": "w", "pattern": "w.{i}"}"#)),
        ContractError::RoleHoles(_)
    ));
    assert!(matches!(
        rejected(&FUSED.replace("\"axis\": 0", "\"axis\": 1")),
        ContractError::Fusion(_)
    ));
    assert!(matches!(
        rejected(&one(
            r#"{"role": "w", "pattern": "w", "permute": {"view": ["auto", "shape[0]"], "axes": [0, 1]}}"#
        )),
        ContractError::Permute(_)
    ));
    assert!(matches!(
        rejected(&FUSED.replace("\"adaln\": [\"layers.{i}.adaln.weight\"]", "\"adaln\": []")),
        ContractError::NamedSet(_)
    ));
    assert!(matches!(
        rejected(&FUSED.replace("\"rank\": 2", "\"rank\": 2, \"unknown\": 1")),
        ContractError::Json(_)
    ));
    assert!(matches!(Stamp::parse("sha256:00"), Err(ContractError::DigestStamp(_))));
    assert!(matches!(Stamp::parse("name"), Err(ContractError::Name(_))));
    assert!(matches!(Stamp::parse("name@x"), Err(ContractError::Version)));
}

#[test]
fn two_dimensions_cannot_both_be_left_open() {
    let open = parse(&one(
        r#"{"role": "w", "pattern": "w", "permute": {"view": ["auto", "auto"], "axes": [1, 0]}}"#,
    ))
    .unwrap();
    let permute = open.tensors()[0].permute().unwrap();
    assert_eq!(permute.resolve(&[2, 3]), None);
    let turned = parse(&one(
        r#"{"role": "w", "pattern": "w", "permute": {"view": ["shape[0]", "auto"], "axes": [1, 0]}}"#,
    ))
    .unwrap();
    assert_eq!(turned.tensors()[0].permute().unwrap().resolve(&[2, 3]), Some(vec![2, 3]));
}

#[test]
fn a_stamp_is_read_back_from_its_display_form() {
    for stamp in [
        Stamp::Absent,
        Stamp::named("a.b-c", 7).unwrap(),
        Stamp::Digest([0xab; 32]),
    ] {
        assert_eq!(Stamp::parse(&stamp.to_text()).unwrap(), stamp);
    }
    assert_eq!(Stamp::Absent.to_text(), "none");
    assert!(Stamp::default().is_none());
}

#[test]
fn a_pattern_reads_back_what_it_instantiates() {
    let pattern = Pattern::parse("a.{i}.b.{i}").unwrap();
    let name = pattern.instantiate(&[0, 18_446_744_073_709_551_615]).unwrap();
    assert_eq!(name, "a.0.b.18446744073709551615");
    assert_eq!(pattern.captures(&name), Some(vec![0, u64::MAX]));
    assert_eq!(pattern.captures("a.0.b.18446744073709551616"), None);
    assert_eq!(pattern.instantiate(&[1]), None);
    assert!(pattern.matches("a.3.b.4"));
}

#[test]
fn every_declared_field_is_in_the_rendering() {
    let base = |from: &str, to: &str| {
        let document = r#"{
            "format": "tensorfs-contract-v1", "dtype": "bf16",
            "tensors": [
                {"role": "a.{i}", "pattern": "b.{i}", "rank": 2, "dtypes": ["F32", "F16"],
                 "permute": {"view": [2, "shape[0]/2", "auto"], "axes": [0, 2, 1]}},
                {"role": "c", "pattern": "d", "required": false,
                 "fusion": {"axis": 0, "groups": 2, "parts": [{"role": "q", "share": 2},
                                                              {"role": "k", "share": 1}]}}
            ],
            "sets": {"s": ["b.{i}", "d"]}
        }"#;
        assert!(from.is_empty() || document.contains(from), "{from}");
        contract(&document.replace(from, to)).canonical()
    };
    let mut seen = vec![base("\"s\"", "\"s\"")];
    for (from, to) in [
        ("\"dtype\": \"bf16\",", ""),
        ("\"a.{i}\"", "\"e.{i}\""),
        ("\"pattern\": \"b.{i}\"", "\"pattern\": \"f.{i}\""),
        ("\"rank\": 2", "\"rank\": 3"),
        ("\"rank\": 2,", ""),
        ("[\"F32\", \"F16\"]", "[\"F16\", \"F32\"]"),
        ("[\"F32\", \"F16\"]", "[\"F32\"]"),
        ("\"shape[0]/2\"", "\"shape[0]/4\""),
        ("\"shape[0]/2\"", "\"shape[1]/2\""),
        ("[0, 2, 1]", "[2, 0, 1]"),
        ("\"required\": false,", ""),
        ("\"groups\": 2", "\"groups\": 4"),
        ("\"share\": 2", "\"share\": 3"),
        ("\"role\": \"q\"", "\"role\": \"v\""),
        ("{\"s\":", "{\"t\":"),
        ("[\"b.{i}\", \"d\"]", "[\"d\"]"),
    ] {
        let text = base(from, to);
        assert!(!seen.contains(&text), "{from} -> {to}");
        seen.push(text);
    }
}

#[test]
fn one_change_shows_in_the_rendering_whatever_the_texts_hold() {
    let text = |share: u64, groups: u64, head: &str| {
        contract(&format!(
            r#"{{
            "format": "tensorfs-contract-v1", {head}
            "tensors": [{{"role": "c", "pattern": "d",
                "fusion": {{"axis": 0, "groups": {groups}, "parts": [
                    {{"role": "q:2,k:1,\ntensor role=c", "share": {share}}},
                    {{"role": "k,", "share": 1}}]}}}}]
        }}"#
        ))
        .canonical()
    };
    let mut seen = vec![text(2, 2, "")];
    for other in [
        text(3, 2, ""),
        text(2, 4, ""),
        text(2, 2, r#""dtype": "f16","#),
        text(2, 2, r#""dtype": "bf16","#),
        text(2, 2, r#""name": "acme.model", "version": 1,"#),
        text(2, 2, r#""name": "acme.model", "version": 2,"#),
        text(2, 2, r#""name": "acme.models", "version": 1,"#),
    ] {
        assert!(!seen.contains(&other), "{other}");
        seen.push(other);
    }
}
