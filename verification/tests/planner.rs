use std::cell::Cell;
use std::io;

use tensorfs_core::contract::Stamp;
use tensorfs_core::hashrepo;
use tensorfs_core::planner::{
    append_split_region, blob_plan, plan, settle, unchanged, ByteSource, Plan, PlanError, PlannerId,
    Region, RegionKind, MAX_OBJECT_COUNT, MAX_OBJECT_SIZE,
};

#[test]
fn hashes_only_the_bytes_in_each_planned_object() {
    let source = b"sameother-same".as_slice();
    let plan = hashrepo::Plan {
        planner: hashrepo::PlannerId::SafetensorsV1,
        file_size: source.len() as u64,
        regions: vec![
            Region {
                offset: 0,
                length: 4,
                kind: RegionKind::Tensor,
            },
            Region {
                offset: 4,
                length: 6,
                kind: RegionKind::Header,
            },
            Region {
                offset: 10,
                length: 4,
                kind: RegionKind::Tensor,
            },
        ],
    };

    let hashed = hashrepo::hash_plan(source, &plan).unwrap();
    assert_eq!(hashed.objects()[0].digest(), hashed.objects()[2].digest());
    assert_ne!(hashed.objects()[0].digest(), hashed.objects()[1].digest());
    assert_eq!(
        hashed.objects()[0].digest().to_text(),
        "sha256:0967115f2813a3541eaef77de9d9d5773f1c0c04314b0bbfe4ff3b3b1c55b5d5"
    );
}

#[test]
fn refuses_a_plan_for_a_different_source_length() {
    let source = b"bytes".as_slice();
    let plan = hashrepo::Plan {
        planner: hashrepo::PlannerId::RawFixed64mV1,
        file_size: 4,
        regions: vec![Region {
            offset: 0,
            length: 4,
            kind: RegionKind::Raw,
        }],
    };

    assert!(matches!(
        hashrepo::hash_plan(source, &plan),
        Err(PlanError::SourceLengthMismatch {
            expected: 4,
            actual: 5
        })
    ));
}

struct BrokenSource;

impl ByteSource for BrokenSource {
    fn len(&self) -> u64 {
        4
    }

    fn read_exact_at(&self, _offset: u64, _destination: &mut [u8]) -> io::Result<()> {
        Err(io::Error::new(io::ErrorKind::UnexpectedEof, "broken"))
    }

    fn check_unchanged(&self) -> io::Result<()> {
        Ok(())
    }
}

#[test]
fn propagates_source_read_failure_without_emitting_an_object() {
    let plan = hashrepo::Plan {
        planner: hashrepo::PlannerId::RawFixed64mV1,
        file_size: 4,
        regions: vec![Region {
            offset: 0,
            length: 4,
            kind: RegionKind::Raw,
        }],
    };

    assert!(matches!(
        hashrepo::hash_plan(&BrokenSource, &plan),
        Err(PlanError::Read(error)) if error.kind() == io::ErrorKind::UnexpectedEof
    ));
}

struct ChangingSource {
    bytes: [u8; 3],
    generation: Cell<u64>,
}

impl ByteSource for ChangingSource {
    fn len(&self) -> u64 {
        self.bytes.len() as u64
    }

    fn read_exact_at(&self, offset: u64, destination: &mut [u8]) -> io::Result<()> {
        let start = offset as usize;
        destination.copy_from_slice(&self.bytes[start..start + destination.len()]);
        self.generation.set(1);
        Ok(())
    }

    fn check_unchanged(&self) -> io::Result<()> {
        if self.generation.get() != 0 {
            return Err(io::Error::new(
                io::ErrorKind::InvalidData,
                "source generation changed",
            ));
        }
        Ok(())
    }
}

#[test]
fn combined_planning_and_hashing_refuses_a_torn_source_generation() {
    let source = ChangingSource {
        bytes: *b"abc",
        generation: Cell::new(0),
    };

    assert!(matches!(
        hashrepo::plan_and_hash(&source),
        Err(PlanError::SourceChanged(error)) if error.kind() == io::ErrorKind::InvalidData
    ));
}

#[test]
fn raw_plan_uses_bounded_contiguous_regions() {
    let plan = hashrepo::raw_plan(MAX_OBJECT_SIZE + 1).unwrap();
    assert_eq!(plan.planner, hashrepo::PlannerId::RawFixed64mV1);
    assert_eq!(
        plan.regions,
        vec![
            Region {
                offset: 0,
                length: MAX_OBJECT_SIZE,
                kind: RegionKind::Raw,
            },
            Region {
                offset: MAX_OBJECT_SIZE,
                length: 1,
                kind: RegionKind::Raw,
            },
        ]
    );
    plan.validate().unwrap();
}

#[test]
fn coverage_validation_refuses_every_partition_escape() {
    let invalid = [
        vec![Region {
            offset: 1,
            length: 3,
            kind: RegionKind::Raw,
        }],
        vec![
            Region {
                offset: 0,
                length: 2,
                kind: RegionKind::Raw,
            },
            Region {
                offset: 3,
                length: 1,
                kind: RegionKind::Raw,
            },
        ],
        vec![
            Region {
                offset: 0,
                length: 3,
                kind: RegionKind::Raw,
            },
            Region {
                offset: 2,
                length: 2,
                kind: RegionKind::Raw,
            },
        ],
        vec![Region {
            offset: 0,
            length: 0,
            kind: RegionKind::Raw,
        }],
        vec![Region {
            offset: 0,
            length: MAX_OBJECT_SIZE + 1,
            kind: RegionKind::Raw,
        }],
        vec![Region {
            offset: 0,
            length: 3,
            kind: RegionKind::Raw,
        }],
    ];

    for regions in invalid {
        let plan = hashrepo::Plan {
            planner: hashrepo::PlannerId::RawFixed64mV1,
            file_size: 4,
            regions,
        };
        assert_eq!(
            plan.validate().unwrap_err().to_text(),
            "planner produced invalid file coverage"
        );
    }
}

#[test]
fn coverage_validation_refuses_unbounded_object_cardinality() {
    let regions = (0..=MAX_OBJECT_COUNT)
        .map(|offset| Region {
            offset: offset as u64,
            length: 1,
            kind: RegionKind::Raw,
        })
        .collect();
    let plan = hashrepo::Plan {
        planner: hashrepo::PlannerId::RawFixed64mV1,
        file_size: MAX_OBJECT_COUNT as u64 + 1,
        regions,
    };

    assert!(matches!(plan.validate(), Err(PlanError::ObjectLimit)));
}

struct HugeSource;

impl ByteSource for HugeSource {
    fn len(&self) -> u64 {
        (MAX_OBJECT_COUNT as u64 + 1) * MAX_OBJECT_SIZE
    }

    fn read_exact_at(&self, _offset: u64, destination: &mut [u8]) -> io::Result<()> {
        destination.fill(0);
        Ok(())
    }

    fn check_unchanged(&self) -> io::Result<()> {
        Ok(())
    }
}

#[test]
fn raw_planning_refuses_cardinality_before_allocating_regions() {
    assert!(matches!(hashrepo::plan(&HugeSource), Err(PlanError::ObjectLimit)));
}

#[test]
fn empty_file_has_one_canonical_empty_partition() {
    let empty = hashrepo::raw_plan(0).unwrap();
    assert!(empty.regions.is_empty());
    empty.validate().unwrap();

    let noncanonical = hashrepo::Plan {
        planner: hashrepo::PlannerId::RawFixed64mV1,
        file_size: 0,
        regions: vec![Region {
            offset: 0,
            length: 0,
            kind: RegionKind::Raw,
        }],
    };
    assert!(matches!(
        noncanonical.validate(),
        Err(PlanError::InvalidCoverage)
    ));
}

#[test]
fn a_blob_plan_is_one_region_of_any_size() {
    let plan = blob_plan(5 * (MAX_OBJECT_SIZE + 1));
    assert_eq!(plan.planner, PlannerId::BlobV1);
    assert_eq!(
        plan.regions,
        vec![Region {
            offset: 0,
            length: 5 * (MAX_OBJECT_SIZE + 1),
            kind: RegionKind::Blob,
        }]
    );
    plan.validate().unwrap();
}

#[test]
fn a_blob_plan_never_splits_at_the_tensor_grid() {
    let plan = blob_plan(MAX_OBJECT_SIZE + 1);
    assert_eq!(plan.regions.len(), 1, "the raw grid is dead");
    plan.validate().unwrap();
}

#[test]
fn a_multi_region_blob_plan_refuses() {
    let plan = Plan {
        contract: Stamp::Absent,
        planner: PlannerId::BlobV1,
        file_size: 4,
        regions: vec![
            Region {
                offset: 0,
                length: 2,
                kind: RegionKind::Blob,
            },
            Region {
                offset: 2,
                length: 2,
                kind: RegionKind::Blob,
            },
        ],
    };
    assert!(matches!(plan.validate(), Err(PlanError::InvalidCoverage)));
}

#[test]
fn tensor_regions_keep_the_grid_cap_and_blob_regions_do_not() {
    let oversized = |planner| Plan {
        contract: Stamp::Absent,
        planner,
        file_size: MAX_OBJECT_SIZE + 1,
        regions: vec![Region {
            offset: 0,
            length: MAX_OBJECT_SIZE + 1,
            kind: RegionKind::Tensor,
        }],
    };
    assert!(matches!(
        oversized(PlannerId::SafetensorsV1).validate(),
        Err(PlanError::InvalidCoverage)
    ));
    oversized(PlannerId::BlobV1).validate().unwrap();
}

#[test]
fn mod_coverage_validation_refuses_every_partition_escape() {
    let invalid = [
        vec![Region {
            offset: 1,
            length: 3,
            kind: RegionKind::Tensor,
        }],
        vec![
            Region {
                offset: 0,
                length: 2,
                kind: RegionKind::Tensor,
            },
            Region {
                offset: 3,
                length: 1,
                kind: RegionKind::Tensor,
            },
        ],
        vec![
            Region {
                offset: 0,
                length: 3,
                kind: RegionKind::Tensor,
            },
            Region {
                offset: 2,
                length: 2,
                kind: RegionKind::Tensor,
            },
        ],
        vec![Region {
            offset: 0,
            length: 0,
            kind: RegionKind::Tensor,
        }],
        vec![Region {
            offset: 0,
            length: MAX_OBJECT_SIZE + 1,
            kind: RegionKind::Tensor,
        }],
        vec![Region {
            offset: 0,
            length: 3,
            kind: RegionKind::Tensor,
        }],
    ];

    for regions in invalid {
        let plan = Plan {
            contract: Stamp::Absent,
            planner: PlannerId::SafetensorsV1,
            file_size: 4,
            regions,
        };
        assert_eq!(
            plan.validate().unwrap_err().to_text(),
            "planner produced invalid file coverage"
        );
    }
}

#[test]
fn mod_coverage_validation_refuses_unbounded_object_cardinality() {
    let regions = (0..=MAX_OBJECT_COUNT)
        .map(|offset| Region {
            offset: offset as u64,
            length: 1,
            kind: RegionKind::Tensor,
        })
        .collect();
    let plan = Plan {
        contract: Stamp::Absent,
        planner: PlannerId::SafetensorsV1,
        file_size: MAX_OBJECT_COUNT as u64 + 1,
        regions,
    };

    assert!(matches!(plan.validate(), Err(PlanError::ObjectLimit)));
}

#[test]
fn a_huge_non_tensor_source_plans_as_one_blob_not_a_grid() {
    let plan = plan(&HugeSource).unwrap();
    assert_eq!(plan.planner, PlannerId::BlobV1);
    assert_eq!(plan.regions.len(), 1);
    assert_eq!(plan.regions[0].length, HugeSource.len());
}

#[test]
fn mod_empty_file_has_one_canonical_empty_partition() {
    let empty = blob_plan(0);
    assert!(empty.regions.is_empty());
    empty.validate().unwrap();

    let noncanonical = Plan {
        contract: Stamp::Absent,
        planner: PlannerId::BlobV1,
        file_size: 0,
        regions: vec![Region {
            offset: 0,
            length: 0,
            kind: RegionKind::Blob,
        }],
    };
    assert!(matches!(
        noncanonical.validate(),
        Err(PlanError::InvalidCoverage)
    ));
}

#[test]
fn a_split_region_is_counted_before_it_is_appended() {
    let mut regions: Vec<Region> = Vec::new();
    append_split_region(&mut regions, 7, 0, RegionKind::Raw).unwrap();
    assert!(regions.is_empty());
    append_split_region(&mut regions, 7, MAX_OBJECT_SIZE + 1, RegionKind::Raw).unwrap();
    assert_eq!(
        regions,
        [
            Region { offset: 7, length: MAX_OBJECT_SIZE, kind: RegionKind::Raw },
            Region { offset: 7 + MAX_OBJECT_SIZE, length: 1, kind: RegionKind::Raw },
        ]
    );
    let before = regions.clone();
    let over = MAX_OBJECT_COUNT as u64 * MAX_OBJECT_SIZE;
    assert!(matches!(
        append_split_region(&mut regions, 0, over, RegionKind::Raw),
        Err(PlanError::ObjectLimit)
    ));
    assert_eq!(regions, before);
}

#[test]
fn nothing_made_of_a_torn_source_is_given_back() {
    let torn = || Err(io::Error::other("torn"));
    assert_eq!(settle(Ok(5), Ok(())).unwrap(), 5);
    assert!(matches!(
        settle::<u8>(Err(PlanError::ObjectLimit), Ok(())),
        Err(PlanError::ObjectLimit)
    ));
    assert!(matches!(settle(Ok(5), torn()), Err(PlanError::SourceChanged(_))));
    assert!(matches!(
        settle::<u8>(Err(PlanError::ObjectLimit), torn()),
        Err(PlanError::SourceChanged(_))
    ));
    assert!(unchanged(Ok(())).is_ok());
    assert!(matches!(unchanged(torn()), Err(PlanError::SourceChanged(_))));
}

/// A file that is written to between any two reads: each read sees one of its
/// two generations.
struct TornSource {
    generations: [Vec<u8>; 2],
    reads: Cell<usize>,
}

impl ByteSource for TornSource {
    fn len(&self) -> u64 {
        self.generations[0].len() as u64
    }

    fn read_exact_at(&self, offset: u64, destination: &mut [u8]) -> io::Result<()> {
        let start = offset as usize;
        let now = &self.generations[self.reads.get() % 2];
        self.reads.set(self.reads.get() + 1);
        destination.copy_from_slice(&now[start..start + destination.len()]);
        Ok(())
    }

    fn check_unchanged(&self) -> io::Result<()> {
        Ok(())
    }
}

#[test]
fn a_torn_source_that_goes_unnoticed_is_covered_exactly() {
    let file = |header: &str| {
        let mut file = (header.len() as u64).to_le_bytes().to_vec();
        file.extend_from_slice(header.as_bytes());
        file.extend_from_slice(&[7; 8]);
        file
    };
    let one = file(r#"{"a":{"dtype":"U8","shape":[8],"data_offsets":[0,8]}}"#);
    let other = file(r#"{"b":{"dtype":"F32","shape":[2],"data_offsets":[0,8]}"#);
    assert_eq!(one.len(), other.len());
    for first in 0..2 {
        let source = TornSource {
            generations: [one.clone(), other.clone()],
            reads: Cell::new(first),
        };
        let planned = plan(&source).unwrap();
        assert!(planned.validate().is_ok());
        assert_eq!(planned.file_size(), one.len() as u64);
        let hashed = hashrepo::plan_and_hash(&source).unwrap();
        let total: u64 = hashed.objects().iter().map(|object| object.length()).sum();
        assert_eq!(total, one.len() as u64);
    }
}
