use tensorfs_core::contract::{Handle, Stamp};
use tensorfs_core::object::ObjectDigest;
use tensorfs_core::planner::{PlannerId, Region, RegionKind};
use tensorfs_core::tfm1::builder::SnapshotBuilder;
use tensorfs_core::tfm1::{Entry, FileRecord, SnapshotId, Tfm1Error};
use tensorfs_core::workspace::collect::{account_deletion, collect, QuarantineStep};
use tensorfs_core::workspace::seal::{
    blob_seal_job, clone_mutations, decide_job, plan_seal_job, read_manifest, referenced_objects,
    relabel_job, reslice_job, seal_turn, sealed_generation, SealWork,
};
use tensorfs_core::workspace::tree::{
    split_parent, truncate_records, Change, Inode, Kind, Node, WorkspaceTree,
};
use tensorfs_core::workspace::{
    digest_from_row, planner_from_row, planner_to_row, GcReport, LeaseKind, Mutation, WorkspaceError,
};

const ROOT: i64 = 1;

fn digest(byte: u8) -> ObjectDigest {
    ObjectDigest::from_bytes([byte; 32])
}

fn data(byte: u8, length: u64) -> FileRecord {
    FileRecord::Data { digest: digest(byte), length }
}

fn empty() -> WorkspaceTree {
    let root = Inode { id: ROOT, node: Node::Directory };
    WorkspaceTree::load(ROOT, 2, vec![root], Vec::new(), Vec::new())
}

fn apply(tree: &mut WorkspaceTree, mutation: &Mutation) -> Result<usize, WorkspaceError> {
    let changes = tree.decide(mutation)?;
    let count = changes.len();
    for change in changes {
        tree.perform(change);
    }
    Ok(count)
}

fn mkdir(path: &str) -> Mutation {
    Mutation::Mkdir { path: path.to_owned() }
}

fn create(path: &str, records: Vec<FileRecord>) -> Mutation {
    Mutation::CreateFile {
        path: path.to_owned(),
        executable: false,
        planner: PlannerId::BlobV1,
        records,
    }
}

fn rename(from: &str, to: &str) -> Mutation {
    Mutation::Rename { from: from.to_owned(), to: to.to_owned() }
}

fn built() -> WorkspaceTree {
    let mut tree = empty();
    for mutation in [
        mkdir("d"),
        create("d/f", vec![data(1, 3)]),
        Mutation::Symlink { path: "s".to_owned(), target: "d/f".to_owned() },
        Mutation::Hardlink { path: "h".to_owned(), target: "d/f".to_owned() },
    ] {
        apply(&mut tree, &mutation).unwrap();
    }
    tree
}

#[test]
fn a_workspace_grows_by_its_mutations() {
    let tree = built();
    assert_eq!(tree.existing("d").unwrap().1, Kind::Directory);
    assert_eq!(tree.existing("d/f").unwrap(), tree.existing("h").unwrap());
    assert_eq!(tree.existing("s").unwrap().1, Kind::Symlink);
    assert_eq!(tree.resolve_path("missing").unwrap(), None);
    assert_eq!(tree.inodes().len(), 4);
    assert_eq!(tree.dirents().len(), 4);
    assert_eq!(tree.root(), ROOT);
    let (file, _) = tree.existing("d/f").unwrap();
    assert_eq!(tree.records(file), [data(1, 3)]);
    assert!(tree.next() > file);
}

#[test]
fn every_unusable_mutation_is_refused() {
    let tree = built();
    let refused = |mutation: Mutation| tree.decide(&mutation).unwrap_err();
    assert!(matches!(refused(mkdir("d")), WorkspaceError::Exists(path) if path == "d"));
    assert!(matches!(refused(mkdir("D")), WorkspaceError::CaseFoldCollision(_)));
    assert!(matches!(refused(mkdir("x/y")), WorkspaceError::Missing(_)));
    assert!(matches!(refused(mkdir("s/y")), WorkspaceError::NotADirectory(_)));
    assert!(matches!(refused(mkdir("a//b")), WorkspaceError::Tfm1(Tfm1Error::PathEmptySegment)));
    assert!(matches!(
        refused(Mutation::Rmdir { path: "d".to_owned() }),
        WorkspaceError::NotEmpty(_)
    ));
    assert!(matches!(
        refused(Mutation::Rmdir { path: "h".to_owned() }),
        WorkspaceError::NotADirectory(_)
    ));
    assert!(matches!(
        refused(Mutation::Unlink { path: "nothing".to_owned() }),
        WorkspaceError::Missing(_)
    ));
    assert!(matches!(refused(rename("d", "d/e")), WorkspaceError::RenameIntoSelf(_)));
    assert!(matches!(
        refused(Mutation::SetRecords { path: "d".to_owned(), records: vec![] }),
        WorkspaceError::NotAFile(_)
    ));
    assert!(matches!(
        refused(Mutation::Truncate { path: "h".to_owned(), length: 2 }),
        WorkspaceError::MidRecordTruncate { length: 2, .. }
    ));
    assert!(matches!(
        referenced_objects(&[create("n", vec![data(1, 0)])]),
        Err(WorkspaceError::Tfm1(Tfm1Error::ZeroLengthRecord))
    ));
    assert!(matches!(
        refused(Mutation::Symlink { path: "n".to_owned(), target: String::new() }),
        WorkspaceError::Tfm1(Tfm1Error::SymlinkTarget)
    ));
}

#[test]
fn a_name_is_dropped_and_its_file_stays_while_it_is_linked() {
    let mut tree = built();
    let (file, _) = tree.existing("d/f").unwrap();
    apply(&mut tree, &Mutation::Unlink { path: "d/f".to_owned() }).unwrap();
    assert_eq!(tree.existing("h").unwrap().0, file);
    assert_eq!(tree.records(file), [data(1, 3)]);
    apply(&mut tree, &Mutation::Unlink { path: "h".to_owned() }).unwrap();
    assert!(tree.inodes().iter().all(|inode| inode.id != file));
    apply(&mut tree, &Mutation::Rmdir { path: "d".to_owned() }).unwrap();
    assert!(tree.resolve_path("d").unwrap().is_none());
}

#[test]
fn a_rename_moves_a_whole_directory() {
    let mut tree = built();
    let before = tree.existing("d/f").unwrap();
    apply(&mut tree, &mkdir("e")).unwrap();
    apply(&mut tree, &rename("d", "e/d")).unwrap();
    assert_eq!(tree.existing("e/d/f").unwrap(), before);
    assert!(tree.resolve_path("d").unwrap().is_none());
}

#[test]
fn a_file_is_changed_in_place() {
    let mut tree = built();
    let set = Mutation::SetRecords { path: "h".to_owned(), records: vec![data(2, 4), data(3, 4)] };
    apply(&mut tree, &set).unwrap();
    apply(&mut tree, &Mutation::Truncate { path: "h".to_owned(), length: 4 }).unwrap();
    apply(&mut tree, &Mutation::SetExecutable { path: "h".to_owned(), executable: true }).unwrap();
    let snapshot = tree.build_snapshot(None).unwrap();
    let (_, entry) = &snapshot.entries()[1];
    let Entry::File { executable, body } = entry else {
        panic!("d/f carries the file");
    };
    assert!(executable);
    assert_eq!(body.records(), [data(2, 4)]);
}

#[test]
fn a_run_is_cut_at_record_boundaries_and_grown_by_holes() {
    let run = vec![data(1, 4), FileRecord::Hole { length: 4 }, data(2, 4)];
    assert_eq!(truncate_records(&run, 12), Some(run.clone()));
    assert_eq!(truncate_records(&run, 0), Some(vec![]));
    assert_eq!(truncate_records(&run, 4), Some(vec![data(1, 4)]));
    assert_eq!(
        truncate_records(&run, 6),
        Some(vec![data(1, 4), FileRecord::Hole { length: 2 }])
    );
    assert_eq!(truncate_records(&run, 10), None);
    assert_eq!(truncate_records(&vec![data(1, 4)], 2), None);
    let mut grown = run.clone();
    grown.push(FileRecord::Hole { length: 3 });
    assert_eq!(truncate_records(&run, 15), Some(grown));
    assert_eq!(split_parent("a/b/c"), (Some("a/b".to_owned()), "c".to_owned()));
    assert_eq!(split_parent("c"), (None, "c".to_owned()));
}

#[test]
fn a_lease_keeps_an_unlinked_file() {
    let inodes = vec![
        Inode { id: ROOT, node: Node::Directory },
        Inode {
            id: 2,
            node: Node::File {
                executable: false,
                planner: PlannerId::BlobV1,
                records: vec![data(1, 1)],
            },
        },
    ];
    let mut tree = WorkspaceTree::load(ROOT, 3, inodes, Vec::new(), vec![2]);
    let changes = tree.release(0);
    assert_eq!(changes, [Change::DropInode { id: 2 }]);
}

#[test]
fn a_snapshot_is_cloned_by_mutations() {
    let mut builder = SnapshotBuilder::new(None);
    builder.directory("d".to_owned());
    builder.file("d/f".to_owned(), true, PlannerId::BlobV1, vec![data(1, 3)]);
    builder.hardlink("h".to_owned(), "d/f".to_owned());
    builder.symlink("s".to_owned(), "d".to_owned());
    let snapshot = builder.finish().unwrap();
    let batch = clone_mutations(&snapshot);
    assert_eq!(referenced_objects(&batch).unwrap(), [digest(1)]);
    let mut tree = empty();
    for mutation in &batch {
        apply(&mut tree, mutation).unwrap();
    }
    assert_eq!(tree.build_snapshot(None).unwrap(), snapshot);
    let id = snapshot.snapshot_id();
    assert_eq!(read_manifest(&id, &snapshot.to_bytes()).unwrap(), snapshot);
    assert!(matches!(read_manifest(&id, b""), Err(WorkspaceError::SnapshotCorrupt)));
    assert!(matches!(
        read_manifest(&SnapshotId::of(b""), b""),
        Err(WorkspaceError::Tfm1(Tfm1Error::Truncated))
    ));
}

#[test]
fn a_clone_leaves_contracts_out() {
    let stamped = |contract: Stamp| {
        let mut builder = SnapshotBuilder::new(None);
        builder.file_under("m".to_owned(), false, PlannerId::SafetensorsV1, contract, vec![data(1, 9)]);
        builder.finish().unwrap()
    };
    let named = stamped(Stamp::Named(Handle::new("test.laid", 1).unwrap()));
    let plain = stamped(Stamp::Absent);
    assert_ne!(named, plain);
    let mut tree = empty();
    for mutation in &clone_mutations(&named) {
        apply(&mut tree, mutation).unwrap();
    }
    assert_eq!(tree.build_snapshot(None).unwrap(), plain);
}

#[test]
fn a_directory_stays_out_of_what_is_below_it() {
    let mut tree = built();
    apply(&mut tree, &mkdir("d/e")).unwrap();
    let before = tree.build_snapshot(None).unwrap();
    for target in ["d/x", "d/e/x"] {
        let outcome = apply(&mut tree, &rename("d", target));
        assert!(matches!(outcome, Err(WorkspaceError::RenameIntoSelf(_))));
    }
    assert_eq!(tree.build_snapshot(None).unwrap(), before);
    let paths: Vec<&str> = before.entries().iter().map(|(path, _)| path.as_str()).collect();
    assert_eq!(paths, ["d", "d/e", "d/f", "h", "s"]);
}

fn safetensors(data: &[u8]) -> Vec<u8> {
    let header = format!(
        r#"{{"w":{{"dtype":"U8","shape":[{0}],"data_offsets":[0,{0}]}}}}"#,
        data.len()
    );
    [(header.len() as u64).to_le_bytes().to_vec(), header.into_bytes(), data.to_vec()].concat()
}

#[test]
fn sealing_keeps_relabels_or_reslices() {
    let file = safetensors(b"tensor!!");
    let header = file.len() as u64 - 8;
    let whole = [data(1, file.len() as u64)];
    let aligned = [data(1, header), data(2, 8)];
    let kept = |stored, records: &[FileRecord]| {
        plan_seal_job(file.as_slice(), stored, records).unwrap()
    };
    assert_eq!(kept(PlannerId::SafetensorsV1, &aligned), SealWork::Keep);
    assert_eq!(
        kept(PlannerId::BlobV1, &aligned),
        SealWork::Relabel { planner: PlannerId::SafetensorsV1 }
    );
    let regions = vec![
        Region { offset: 0, length: header, kind: RegionKind::Header },
        Region { offset: header, length: 8, kind: RegionKind::Tensor },
    ];
    assert_eq!(
        kept(PlannerId::BlobV1, &whole),
        SealWork::Reslice {
            planner: PlannerId::SafetensorsV1,
            regions: regions.clone(),
            pending: vec![0, 1],
        }
    );
    assert_eq!(
        kept(PlannerId::BlobV1, &[data(1, header), data(2, 4), data(3, 4)]),
        SealWork::Reslice {
            planner: PlannerId::SafetensorsV1,
            regions: regions.clone(),
            pending: vec![1],
        }
    );
    assert_eq!(kept(PlannerId::BlobV1, &[]), SealWork::Keep);
    let sparse = [FileRecord::Hole { length: file.len() as u64 }];
    assert_eq!(kept(PlannerId::BlobV1, &sparse), SealWork::Blob);
    assert_eq!(kept(PlannerId::GgufV1, &sparse), SealWork::Keep);

    let text = b"plain text".as_slice();
    let work = |stored, records: &[FileRecord]| plan_seal_job(text, stored, records).unwrap();
    assert_eq!(work(PlannerId::BlobV1, &[data(1, 10)]), SealWork::Keep);
    assert_eq!(work(PlannerId::BlobV1, &[data(1, 4), data(2, 6)]), SealWork::Blob);
    assert_eq!(
        work(PlannerId::GgufV1, &[data(1, 10)]),
        SealWork::Relabel { planner: PlannerId::BlobV1 }
    );

    let job = reslice_job(
        "f",
        PlannerId::SafetensorsV1,
        &[data(1, header), data(2, 4), data(3, 4)],
        &regions,
        &[digest(9)],
    );
    assert_eq!(job.records, [data(1, header), data(9, 8)]);
    assert_eq!(job.new_digests, [digest(9)]);
    assert!(job.update_records);
}

#[test]
fn a_seal_job_changes_one_file() {
    let tree = built();
    let (file, _) = tree.existing("d/f").unwrap();
    let job = blob_seal_job("d/f", digest(8), 3);
    assert_eq!(
        decide_job(&tree, &job).unwrap(),
        [
            Change::SetRecords { inode: file, records: vec![data(8, 3)] },
            Change::SetPlanner { inode: file, planner: PlannerId::BlobV1 },
        ]
    );
    let job = relabel_job("d/f", PlannerId::GgufV1, &[data(1, 3)]);
    assert!(!job.update_records);
    assert_eq!(
        decide_job(&tree, &job).unwrap(),
        [Change::SetPlanner { inode: file, planner: PlannerId::GgufV1 }]
    );
    assert!(decide_job(&tree, &relabel_job("gone", PlannerId::GgufV1, &[])).is_err());
}

#[test]
fn a_seal_is_tried_again_while_the_head_moves() {
    assert_eq!(seal_turn(0, 5, 5).unwrap(), true);
    assert_eq!(seal_turn(0, 5, 6).unwrap(), false);
    assert!(matches!(seal_turn(2, 5, 6), Err(WorkspaceError::SealContention)));
    assert_eq!(sealed_generation(5, 0), 5);
    assert_eq!(sealed_generation(5, 2), 6);
}

#[test]
fn an_object_is_marked_before_it_is_deleted() {
    let resident = vec![(digest(1), 10), (digest(2), 20), (digest(3), 30)];
    let first = collect(0, &[digest(1)], &resident, &[]);
    assert_eq!(first.report.roots, 1);
    assert_eq!(first.report.resident, 3);
    assert_eq!(first.report.newly_quarantined, 2);
    assert_eq!(first.report.epoch, 1);
    assert_eq!(first.marks, [digest(2), digest(3)]);
    assert!(first.steps.is_empty());

    let quarantined = [(digest(2), 1), (digest(3), 1), (digest(4), 1), (digest(1), 1)];
    let later = collect(2, &[digest(1)], &resident, &quarantined);
    assert_eq!(
        later.steps,
        [
            QuarantineStep::Delete { length: 20 },
            QuarantineStep::Delete { length: 30 },
            QuarantineStep::Forget,
            QuarantineStep::Rescue,
        ]
    );
    assert_eq!(later.report.rescued, 1);
    let early = collect(1, &[digest(1)], &resident, &quarantined[..1]);
    assert_eq!(early.steps, [QuarantineStep::Keep]);

    let mut report = GcReport::default();
    account_deletion(&mut report, true, 20);
    account_deletion(&mut report, false, 30);
    assert_eq!((report.deleted, report.bytes_deleted), (1, 20));
}

#[test]
fn rows_are_read_back() {
    for planner in [PlannerId::SafetensorsV1, PlannerId::GgufV1, PlannerId::BlobV1] {
        assert_eq!(planner_from_row(planner_to_row(planner)), planner);
    }
    assert_ne!(LeaseKind::Unlinked.to_row(), LeaseKind::PendingSync.to_row());
    assert_eq!(digest_from_row(&[7; 32]).unwrap(), digest(7));
    assert!(matches!(digest_from_row(&[7; 31]), Err(WorkspaceError::SnapshotCorrupt)));
}
