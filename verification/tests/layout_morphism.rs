use tensorfs_core::layout_fill::{fill, ChunkedSource, FillSink, FillStats, HostSink, TensorFill};
use tensorfs_core::layout_morphism::catalog::{arrangement, catalog};
use tensorfs_core::layout_morphism::formula::{eval, FormulaFault};
use tensorfs_core::layout_morphism::plan::{ElementList, Run, RunList};
use tensorfs_core::layout_morphism::ratify::{probe_shapes, ratify, Probe};
use tensorfs_core::layout_morphism::{
    CatalogFault, LayoutClass, LayoutError, LayoutMorphism, ProbeFault, RecordFault, SubAxis, DEFAULT_LAYOUT,
    LAYOUT_MORPHISM_FORMAT,
};

fn record(name: &str, rank: usize, sub_axes: &[(usize, &str)], permutation: &[usize]) -> LayoutMorphism {
    LayoutMorphism {
        format: LAYOUT_MORPHISM_FORMAT.to_owned(),
        name: name.to_owned(),
        version: 1,
        class: LayoutClass::EndpointDeclared,
        description: String::new(),
        rank,
        sub_axes: sub_axes
            .iter()
            .map(|(axis, extent)| SubAxis { axis: *axis, extent: (*extent).to_owned() })
            .collect(),
        permutation: permutation.to_vec(),
        candidate: false,
        provenance: vec!["measured".to_owned()],
        digest: String::new(),
    }
}

fn transposed() -> LayoutMorphism {
    record("transposed", 2, &[(0, "d0"), (1, "d1")], &[1, 0])
}

/// Rows in pairs, the last pair padded.
fn paired() -> LayoutMorphism {
    record("paired", 2, &[(0, "ceil(d0/2)"), (0, "2"), (1, "d1")], &[0, 2, 1])
}

fn identity() -> LayoutMorphism {
    let (name, version) = DEFAULT_LAYOUT.rsplit_once('@').unwrap();
    let mut record = record(name, 0, &[], &[]);
    record.version = version.parse().unwrap();
    record
}

#[test]
fn a_formula_is_evaluated_exactly() {
    let shape = [6, 10];
    assert_eq!(eval("d0", &shape), Ok(6));
    assert_eq!(eval("d0*d1/4", &shape), Ok(15));
    assert_eq!(eval("ceil(d1/4)", &shape), Ok(3));
    assert_eq!(eval("ceil(d1/4)*2", &shape), Ok(6));
    assert_eq!(eval("7", &shape), Ok(7));
}

#[test]
fn every_malformed_formula_is_refused() {
    let shape = [6, 10];
    assert_eq!(eval("", &shape), Err(FormulaFault::Empty));
    assert_eq!(
        eval("ceil(d0/4", &shape),
        Err(FormulaFault::Unclosed { text: "ceil(d0/4".to_owned() })
    );
    assert_eq!(
        eval("dx", &shape),
        Err(FormulaFault::NotAnAxis { token: "dx".to_owned() })
    );
    assert_eq!(
        eval("d2", &shape),
        Err(FormulaFault::NoSuchAxis { text: "d2".to_owned(), axis: 2, rank: 2 })
    );
    assert_eq!(
        eval("x", &shape),
        Err(FormulaFault::NotPositive { token: "x".to_owned() })
    );
    assert!(matches!(eval("d1/4", &shape), Err(FormulaFault::Inexact { value: 10, operand: 4, .. })));
    assert!(matches!(eval("d0*", &shape), Err(FormulaFault::EndsOnOperator { .. })));
    assert!(matches!(eval("ceil(d0/2)d1", &shape), Err(FormulaFault::Stray { found: 'd', .. })));
}

#[test]
fn a_transpose_moves_every_element() {
    let plan = transposed().plan(&[2, 3]).unwrap();
    assert_eq!(plan.source_elements(), 6);
    assert_eq!(plan.dest_elements(), 6);
    assert!(!plan.padded());
    assert_eq!(plan.storage_extents(), [3, 2]);

    let mut list = ElementList { elements: Vec::new() };
    plan.for_each(&mut list);
    let sources: Vec<u64> = list.elements.iter().map(|(_, from)| from.unwrap()).collect();
    assert_eq!(sources, [0, 3, 1, 4, 2, 5]);

    let source: Vec<u8> = (0..12).collect();
    let mut arranged = vec![0xff; 12];
    plan.apply(&source, &mut arranged, 2).unwrap();
    assert_eq!(arranged, [0, 1, 6, 7, 2, 3, 8, 9, 4, 5, 10, 11]);
    let mut back = vec![0; 12];
    plan.apply_inverse(&arranged, &mut back, 2).unwrap();
    assert_eq!(back, source);

    assert_eq!(
        plan.apply(&source[..11], &mut arranged, 2),
        Err(LayoutError::Buffer { got: 11, want: 12 })
    );
}

#[test]
fn padding_is_zero_and_holds_no_element() {
    let plan = paired().plan(&[3, 2]).unwrap();
    assert!(plan.padded());
    assert_eq!(plan.dest_elements(), 8);
    let mut list = ElementList { elements: Vec::new() };
    plan.for_each(&mut list);
    let sources: Vec<Option<u64>> = list.elements.iter().map(|(_, from)| *from).collect();
    assert_eq!(
        sources,
        [Some(0), Some(2), Some(1), Some(3), Some(4), None, Some(5), None]
    );
    let source = [1, 2, 3, 4, 5, 6];
    let mut arranged = [9; 8];
    plan.apply(&source, &mut arranged, 1).unwrap();
    assert_eq!(arranged, [1, 3, 2, 4, 5, 0, 6, 0]);
    let mut back = [0; 6];
    plan.apply_inverse(&arranged, &mut back, 1).unwrap();
    assert_eq!(back, source);
}

#[test]
fn the_runs_tile_the_destination() {
    let plan = identity().plan(&[4, 5]).unwrap();
    let mut list = RunList { runs: Vec::new() };
    plan.for_each_run(&mut list);
    assert_eq!(list.runs, [Run { to: 0, from: Some(0), length: 20 }]);
    assert_eq!(plan.run_count(), 1);

    let plan = transposed().plan(&[2, 3]).unwrap();
    let mut list = RunList { runs: Vec::new() };
    plan.for_each_run(&mut list);
    let mut next = 0;
    for run in &list.runs {
        assert_eq!(run.to, next);
        next += run.length;
    }
    assert_eq!(next, plan.dest_elements());
    assert_eq!(list.runs.len() as u64, plan.run_count());
}

#[test]
fn every_unusable_record_is_refused() {
    let fault = |record: LayoutMorphism| match record.check() {
        Err(LayoutError::Record { fault, .. }) => Some(fault),
        Ok(()) => None,
        Err(other) => panic!("{other:?}"),
    };
    assert_eq!(fault(transposed()), None);
    assert_eq!(fault(identity()), None);
    let mut other = transposed();
    other.format = "tensorfs-layout-morphism-v1".to_owned();
    assert_eq!(fault(other), Some(RecordFault::Format));
    let mut other = transposed();
    other.provenance.clear();
    assert_eq!(fault(other), Some(RecordFault::NoEvidence));
    assert_eq!(fault(record("x", 0, &[], &[0])), Some(RecordFault::PermutesNothing));
    assert_eq!(fault(record("x", 1, &[], &[])), Some(RecordFault::RankedIdentity));
    assert_eq!(fault(record("x", 0, &[(0, "d0")], &[0])), Some(RecordFault::NoRank));
    assert_eq!(
        fault(record("x", 1, &[(0, "d0")], &[])),
        Some(RecordFault::PermutationLength { positions: 0, sub_axes: 1 })
    );
    assert_eq!(fault(record("x", 2, &[(1, "d1")], &[0])), Some(RecordFault::SkipsFirstAxis));
    assert_eq!(
        fault(record("x", 3, &[(0, "d0"), (2, "d2")], &[0, 1])),
        Some(RecordFault::AxisOrder { axis: 2, after: 0 })
    );
    assert_eq!(
        fault(record("x", 3, &[(0, "d0"), (1, "d1")], &[0, 1])),
        Some(RecordFault::Covered { rank: 3, covered: 2 })
    );
    assert_eq!(
        fault(record("x", 2, &[(0, "d0"), (1, "d1")], &[0, 2])),
        Some(RecordFault::NoSuchPosition { to: 2 })
    );
    assert_eq!(
        fault(record("x", 2, &[(0, "d0"), (1, "d1")], &[1, 1])),
        Some(RecordFault::TwicePosition { to: 1 })
    );
}

#[test]
fn a_shape_that_does_not_fit_is_refused() {
    assert_eq!(
        transposed().plan(&[2, 3, 4]),
        Err(LayoutError::Rank { handle: "transposed@1".to_owned(), want: 2, got: 3 })
    );
    assert_eq!(
        transposed().plan(&[2, 0]),
        Err(LayoutError::Shape { handle: "transposed@1".to_owned(), shape: vec![2, 0] })
    );
    let short = record("short", 1, &[(0, "2"), (0, "2")], &[1, 0]);
    assert_eq!(
        short.plan(&[5]),
        Err(LayoutError::ShortAxis { handle: "short@1".to_owned(), axis: 0, product: 4, dim: 5 })
    );
    let odd = record("odd", 1, &[(0, "d0/2"), (0, "2")], &[1, 0]);
    assert!(matches!(odd.plan(&[5]), Err(LayoutError::Formula { axis: 0, .. })));
}

#[test]
fn a_shape_of_too_many_elements_is_refused_for_what_is_wrong_with_it() {
    let huge = 1_u64 << 40;
    assert_eq!(
        transposed().plan(&[huge, huge, huge]),
        Err(LayoutError::Rank { handle: "transposed@1".to_owned(), want: 2, got: 3 })
    );
    assert_eq!(
        transposed().plan(&[huge, 0]),
        Err(LayoutError::Shape { handle: "transposed@1".to_owned(), shape: vec![huge, 0] })
    );
    let short = record("short", 2, &[(0, "2"), (1, "d1")], &[1, 0]);
    assert_eq!(
        short.plan(&[huge, huge]),
        Err(LayoutError::ShortAxis { handle: "short@1".to_owned(), axis: 0, product: 2, dim: huge })
    );
    let odd = record("odd", 2, &[(0, "d0/3"), (0, "3"), (1, "d1")], &[2, 1, 0]);
    assert!(matches!(odd.plan(&[huge, huge]), Err(LayoutError::Formula { axis: 0, .. })));
}

#[test]
fn a_candidate_never_derives() {
    let mut wish = transposed();
    wish.candidate = true;
    assert_eq!(wish.check(), Ok(()));
    assert_eq!(
        wish.ensure_ratified(),
        Err(LayoutError::Candidate { handle: "transposed@1".to_owned() })
    );
    assert_eq!(transposed().ensure_ratified(), Ok(()));
    assert!(identity().is_identity());
    assert!(!transposed().is_identity());
}

#[test]
fn a_sound_record_is_ratified_on_aligned_and_ragged_shapes() {
    let shapes = probe_shapes(&paired());
    assert_eq!(shapes.len(), 2);
    let verdict = ratify(&paired()).unwrap();
    assert_eq!(verdict.handle, "paired@1");
    let shapes_seen: Vec<Vec<u64>> = verdict.probes.iter().map(|probe| probe.shape.clone()).collect();
    assert_eq!(shapes_seen, shapes);
    let Probe { shape, dest_elements, padded } = &verdict.probes[0];
    assert_eq!(shape.iter().product::<u64>(), *dest_elements);
    assert!(!padded);
    assert!(verdict.probes[1].padded);
}

#[test]
fn a_catalog_holds_each_handle_once_and_the_default() {
    let document = |record: LayoutMorphism| (format!("{}.json", record.name), record);
    let known = catalog(vec![document(identity()), document(transposed())]).unwrap();
    assert_eq!(known.get("transposed@1"), Some(&transposed()));
    assert_eq!(known.get("transposed@2"), None);
    assert_eq!(arrangement(&known, "transposed@1"), Ok(&transposed()));
    assert_eq!(
        arrangement(&known, "nothing@1"),
        Err(LayoutError::Record { handle: "nothing@1".to_owned(), fault: RecordFault::Unknown })
    );
    assert!(matches!(
        catalog(vec![document(identity()), document(identity())]),
        Err(LayoutError::Catalog { fault: CatalogFault::Duplicate, .. })
    ));
    assert!(matches!(
        catalog(vec![document(transposed())]),
        Err(LayoutError::Catalog { fault: CatalogFault::NoDefault, .. })
    ));
}

#[test]
fn a_fill_arranges_chunks_into_the_destination() {
    let layout = transposed();
    let tensor = TensorFill { layout: &layout, shape: vec![2, 3], element_bytes: 1, device_offset: 2 };
    let chunks: [&[u8]; 2] = [&[10, 11], &[12, 13, 14, 15]];
    let source = ChunkedSource::new(&chunks);
    assert_eq!(source.len(), 6);
    assert!(source.contiguous().is_none());
    let mut sink = HostSink::with_capacity(9);
    let stats = fill(&source, &tensor, &mut sink).unwrap();
    assert_eq!(sink.bytes(), [0, 0, 10, 13, 11, 14, 12, 15, 0]);
    assert_eq!(
        stats,
        FillStats { source_bytes: 6, destination_bytes: 6, padding_bytes: 0, runs: 6, chunks: 6 }
    );

    let layout = paired();
    let tensor = TensorFill { layout: &layout, shape: vec![3, 1], element_bytes: 2, device_offset: 0 };
    let chunks: [&[u8]; 1] = [&[1, 2, 3, 4, 5, 6]];
    let source = ChunkedSource::new(&chunks);
    let mut sink = HostSink::with_capacity(8);
    let stats = fill(&source, &tensor, &mut sink).unwrap();
    assert_eq!(sink.into_bytes(), [1, 2, 3, 4, 5, 6, 0, 0]);
    assert_eq!(stats.padding_bytes, 2);
    assert_eq!(stats.chunks, 1);
}

#[test]
fn a_fill_is_refused_before_the_sink_is_asked() {
    let chunks: [&[u8]; 1] = [&[1, 2, 3]];
    let source = ChunkedSource::new(&chunks);
    let mut wish = transposed();
    wish.candidate = true;
    let mut sink = HostSink::with_capacity(8);
    let tensor = TensorFill { layout: &wish, shape: vec![1, 3], element_bytes: 1, device_offset: 0 };
    assert!(matches!(fill(&source, &tensor, &mut sink), Err(LayoutError::Candidate { .. })));
    let layout = transposed();
    let tensor = TensorFill { layout: &layout, shape: vec![1, 3], element_bytes: 0, device_offset: 0 };
    assert_eq!(
        fill(&source, &tensor, &mut sink),
        Err(LayoutError::Buffer { got: 0, want: 1 })
    );
    let tensor = TensorFill { layout: &layout, shape: vec![2, 3], element_bytes: 1, device_offset: 0 };
    assert_eq!(
        fill(&source, &tensor, &mut sink),
        Err(LayoutError::Buffer { got: 3, want: 6 })
    );
}

/// A device with a buffer of its own, to which commits copy.
struct Device {
    memory: Vec<u8>,
    staged: Vec<u8>,
    at: usize,
}

impl FillSink for Device {
    fn staging(&mut self, bytes: usize, device_offset: u64) -> Result<&mut [u8], LayoutError> {
        self.at = device_offset as usize;
        self.staged = vec![0xee; bytes];
        Ok(&mut self.staged)
    }

    fn commit(&mut self) -> Result<(), LayoutError> {
        self.memory[self.at..self.at + self.staged.len()].copy_from_slice(&self.staged);
        Ok(())
    }
}

#[test]
fn a_staging_sink_receives_the_arranged_bytes() {
    let layout = paired();
    let tensor = TensorFill { layout: &layout, shape: vec![3, 2], element_bytes: 1, device_offset: 1 };
    let chunks: [&[u8]; 3] = [&[1], &[2, 3, 4], &[5, 6]];
    let mut device = Device { memory: vec![7; 10], staged: Vec::new(), at: 0 };
    fill(&ChunkedSource::new(&chunks), &tensor, &mut device).unwrap();
    assert_eq!(device.memory, [7, 1, 3, 2, 4, 5, 0, 6, 0, 7]);
}

#[test]
fn a_host_changes_in_the_place_of_the_tensor_alone() {
    let layout = transposed();
    let source: [&[u8]; 1] = [&[1, 2, 3, 4]];
    let mut sink = HostSink::with_capacity(6);
    let first = TensorFill { layout: &layout, shape: vec![2, 3], element_bytes: 1, device_offset: 0 };
    let chunks: [&[u8]; 1] = [&[9, 9, 9, 9, 9, 9]];
    fill(&ChunkedSource::new(&chunks), &first, &mut sink).unwrap();
    let tensor = TensorFill { layout: &layout, shape: vec![2, 2], element_bytes: 1, device_offset: 1 };
    fill(&ChunkedSource::new(&source), &tensor, &mut sink).unwrap();
    assert_eq!(sink.bytes(), [9, 1, 3, 2, 4, 9]);

    let behind = TensorFill { device_offset: 3, ..tensor };
    assert_eq!(
        fill(&ChunkedSource::new(&source), &behind, &mut sink),
        Err(LayoutError::Buffer { got: 6, want: 7 })
    );
    assert_eq!(sink.bytes(), [9, 1, 3, 2, 4, 9]);
    let far = TensorFill { device_offset: u64::MAX, ..behind };
    assert_eq!(
        fill(&ChunkedSource::new(&source), &far, &mut sink),
        Err(LayoutError::Buffer { got: 6, want: usize::MAX })
    );
}

#[test]
fn the_cut_of_a_source_changes_only_the_chunks_it_touches() {
    let layout = paired();
    let tensor = TensorFill { layout: &layout, shape: vec![3, 2], element_bytes: 1, device_offset: 0 };
    let whole: [&[u8]; 1] = [&[1, 2, 3, 4, 5, 6]];
    let cut: [&[u8]; 3] = [&[1, 2], &[3, 4, 5], &[6]];
    let mut one = HostSink::with_capacity(8);
    let mut other = HostSink::with_capacity(8);
    let a = fill(&ChunkedSource::new(&whole), &tensor, &mut one).unwrap();
    let b = fill(&ChunkedSource::new(&cut), &tensor, &mut other).unwrap();
    assert_eq!(one.bytes(), other.bytes());
    assert_eq!(FillStats { chunks: 0, ..a }, FillStats { chunks: 0, ..b });
    assert_eq!(a.padding_bytes, a.destination_bytes - a.source_bytes);
    assert_eq!(a.padding_bytes, 2);
    assert_eq!(a.runs, layout.plan(&[3, 2]).unwrap().run_count());
}

/// A device that hands out more staging than it is asked for.
struct Roomy {
    staged: Vec<u8>,
    commits: usize,
    full: bool,
}

impl FillSink for Roomy {
    fn staging(&mut self, bytes: usize, _device_offset: u64) -> Result<&mut [u8], LayoutError> {
        self.staged = vec![0xee; bytes + 3];
        Ok(&mut self.staged)
    }

    fn commit(&mut self) -> Result<(), LayoutError> {
        self.commits += 1;
        if self.full {
            return Err(LayoutError::Buffer { got: 0, want: 6 });
        }
        Ok(())
    }
}

#[test]
fn a_longer_staging_is_filled_at_its_front_and_committed_once() {
    let layout = transposed();
    let tensor = TensorFill { layout: &layout, shape: vec![2, 3], element_bytes: 1, device_offset: 0 };
    for chunks in [vec![[1, 2, 3, 4, 5, 6].as_slice()], vec![[1, 2, 3].as_slice(), &[4, 5, 6]]] {
        let mut sink = Roomy { staged: Vec::new(), commits: 0, full: false };
        fill(&ChunkedSource::new(&chunks), &tensor, &mut sink).unwrap();
        assert_eq!(sink.staged, [1, 4, 2, 5, 3, 6, 0xee, 0xee, 0xee]);
        assert_eq!(sink.commits, 1);
        let mut refusing = Roomy { staged: Vec::new(), commits: 0, full: true };
        assert_eq!(
            fill(&ChunkedSource::new(&chunks), &tensor, &mut refusing),
            Err(LayoutError::Buffer { got: 0, want: 6 })
        );
    }
}

#[test]
fn a_candidate_is_probed_as_any_other_record() {
    let mut wish = paired();
    wish.candidate = true;
    let plain = ratify(&paired()).unwrap();
    let wished = ratify(&wish).unwrap();
    assert_eq!(wished.handle, plain.handle);
    assert_eq!(wished.probes.len(), plain.probes.len());
    for (a, b) in wished.probes.iter().zip(&plain.probes) {
        assert_eq!((&a.shape, a.dest_elements, a.padded), (&b.shape, b.dest_elements, b.padded));
    }
    wish.provenance.clear();
    assert_eq!(
        ratify(&wish).unwrap_err().to_text(),
        "paired@1: carries no evidence"
    );
}

#[test]
fn every_error_says_what_is_wrong() {
    let said = |error: LayoutError| error.to_text();
    assert_eq!(
        said(transposed().plan(&[2, 3, 4]).unwrap_err()),
        "transposed@1 arranges rank-2 tensors; this one is rank 3"
    );
    assert_eq!(
        said(transposed().plan(&[2, 0]).unwrap_err()),
        "transposed@1: cannot arrange a tensor of shape [2, 0]"
    );
    let short = record("short", 1, &[(0, "2"), (0, "2")], &[1, 0]);
    assert_eq!(
        said(short.plan(&[5]).unwrap_err()),
        "short@1: axis 0 factors into 4 elements and the axis is 5"
    );
    let odd = record("odd", 1, &[(0, "d0/2"), (0, "2")], &[1, 0]);
    assert_eq!(
        said(odd.plan(&[5]).unwrap_err()),
        "odd@1: axis 0: \"d0/2\" divides 5 by 2, which is not exact"
    );
    assert_eq!(
        said(LayoutError::Buffer { got: 3, want: 6 }),
        "buffer holds 3 bytes, the plan needs 6"
    );
    assert_eq!(
        said(LayoutError::Candidate { handle: "w@1".to_owned() }),
        "w@1 is an unratified candidate and does not derive"
    );
    assert_eq!(
        said(LayoutError::Catalog { file: "a.json".to_owned(), fault: CatalogFault::NoDefault }),
        "layout catalog a.json: carries no torch.contiguous@1 record"
    );
    assert_eq!(
        said(LayoutError::Catalog {
            file: "a.json".to_owned(),
            fault: CatalogFault::Unreadable { detail: "EOF".to_owned() },
        }),
        "layout catalog a.json: EOF"
    );
    assert_eq!(
        said(LayoutError::Catalog { file: "a.json".to_owned(), fault: CatalogFault::Duplicate }),
        "layout catalog a.json: declares a handle the catalog already carries"
    );
    assert_eq!(
        said(LayoutError::Probe {
            handle: "p@1".to_owned(),
            shape: vec![4, 6],
            fault: ProbeFault::RoundTrip { element: 3 },
        }),
        "p@1: shape [4, 6]: the round trip does not return the source bytes; element 3 differs"
    );
    assert_eq!(
        ProbeFault::Unmapped { mapped: 3, elements: 4 }.to_text(),
        "the map writes 3 of 4 source elements. A layout that does not write every element exactly \
         once drops or duplicates numbers with every name and shape still correct"
    );
    assert_eq!(ProbeFault::PaddingNotZero { slot: 5 }.to_text(), "padding at 5 is not zero");
    assert_eq!(
        ProbeFault::UndeclaredPadding { slots: 2 }.to_text(),
        "2 padding slots in a plan that reports none"
    );
}

#[test]
fn every_fault_of_a_record_has_its_own_text() {
    for (fault, text) in [
        (RecordFault::Format, "not a tensorfs-layout-morphism-v2 document"),
        (RecordFault::NoEvidence, "carries no evidence"),
        (RecordFault::PermutesNothing, "permutes a factorization it does not declare"),
        (RecordFault::RankedIdentity, "the identity is the identity at every rank"),
        (RecordFault::NoRank, "factors sub-axes without declaring a rank"),
        (
            RecordFault::PermutationLength { positions: 1, sub_axes: 2 },
            "permutes 1 positions over 2 sub-axes",
        ),
        (RecordFault::SkipsFirstAxis, "does not factor axis 0"),
        (
            RecordFault::AxisOrder { axis: 2, after: 0 },
            "lists axis 2 after axis 0; sub-axes are grouped by axis, outermost first, and no axis \
             is skipped",
        ),
        (RecordFault::Covered { rank: 3, covered: 2 }, "declares rank 3 and factors 2 axes"),
        (
            RecordFault::NoSuchPosition { to: 7 },
            "permutes to position 7, which does not exist",
        ),
        (
            RecordFault::TwicePosition { to: 1 },
            "sends two sub-axes to storage position 1. A layout that is not a bijection loses \
             elements, and it loses them silently",
        ),
        (RecordFault::Unknown, "the catalog carries no such arrangement"),
        (
            RecordFault::NoProbe,
            "no probe shape reached this record, so nothing was proved",
        ),
    ] {
        assert_eq!(fault.to_text(), text);
    }
}

#[test]
fn every_fault_of_a_formula_has_its_own_text() {
    let shape = [6, 10];
    for (formula, text) in [
        ("", "empty formula"),
        ("ceil(d0/4", "\"ceil(d0/4\" has an unclosed ceil("),
        ("dx", "\"dx\" is not an axis"),
        ("d2", "\"d2\" reads axis 2 of a rank-2 tensor"),
        ("x", "\"x\" is not a positive integer"),
        ("0", "\"0\" is not a positive integer"),
        ("d1/4", "\"d1/4\" divides 10 by 4, which is not exact"),
        ("ceil(d0/2)'", "\"ceil(d0/2)'\" has a stray '\\''"),
        ("d0*", "\"d0*\" ends on an operator"),
    ] {
        assert_eq!(eval(formula, &shape).unwrap_err().to_text(), text);
    }
    assert_eq!(eval("6/d0", &[0]).unwrap_err().to_text(), "\"6/d0\" divides by zero");
    assert_eq!(
        FormulaFault::Zero { text: "d0".to_owned() }.to_text(),
        "\"d0\" is zero-sized"
    );
}
