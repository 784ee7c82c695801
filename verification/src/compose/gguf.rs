//! Composing a GGUF container.

use super::{
    in_source_order, inherit, inherited, kept_models, name_pairs, nothing, select, selected, ComposeError,
    ComposeFault, Composed, ComposedModel, Kept, Unnamed,
};
use crate::planner::gguf::{
    align_up, aligned, aligned_bounds, fills, layout_of, packed, packed_is_positive, padded,
    read_layout, takes_memory, Layout, LayoutModel, TensorInfo, TensorInfoModel,
    MAX_TENSOR_NAME_LEN,
};
use crate::planner::{ByteSource, PlanError, TensorFormat};
use crate::text::strings;
use crate::tfm1::{record_models, run_length, FileRecord, RecordModel};
use crate::wire::{le_bytes, push_bytes, push_le};
use vstd::prelude::*;
use vstd::utf8::encode_utf8;

verus! {

/// What stands for the metadata block where an error names a tensor.
pub const METADATA_BLOCK: &'static str = "the metadata block";

pub open spec fn tensor_names(tensors: Seq<TensorInfoModel>) -> Seq<Seq<char>> {
    tensors.map_values(|tensor: TensorInfoModel| tensor.name)
}

/// Whether a tensor can have a name: it is short enough and holds no zero.
pub open spec fn usable(name: Seq<char>) -> bool {
    let bytes = encode_utf8(name);
    bytes.len() <= MAX_TENSOR_NAME_LEN && !bytes.contains(0u8)
}

/// The first kept name at or behind `at` that a tensor cannot have; the length
/// where there is none.
pub open spec fn unusable_at(kept: Seq<Kept>, at: int) -> int
    decreases kept.len() - at,
{
    if at >= kept.len() || !usable(kept[at].0) {
        at
    } else {
        unusable_at(kept, at + 1)
    }
}

/// Where kept tensor `k` starts in the new data section: behind those before
/// it, each padded.
pub open spec fn new_offset(layout: LayoutModel, kept: Seq<Kept>, k: int) -> int
    decreases k,
{
    if k <= 0 {
        0
    } else {
        new_offset(layout, kept, k - 1) + padded(layout.tensors[kept[k - 1].1], layout.alignment)
    }
}

/// The first `upto` dimensions.
pub open spec fn dimension_bytes(dimensions: Seq<u64>, upto: int) -> Seq<u8>
    decreases upto,
{
    if upto <= 0 {
        Seq::empty()
    } else {
        dimension_bytes(dimensions, upto - 1) + le_bytes(dimensions[upto - 1] as nat, 8)
    }
}

/// One directory entry: the name, the dimensions, the type and the offset.
pub open spec fn entry_bytes(name: Seq<char>, tensor: TensorInfoModel, offset: int) -> Seq<u8> {
    le_bytes(encode_utf8(name).len(), 8) + encode_utf8(name) + le_bytes(tensor.dimension_count as nat, 4)
        + dimension_bytes(tensor.dimensions, tensor.dimension_count as int) + le_bytes(
        tensor.ggml_type as nat,
        4,
    ) + le_bytes(offset as nat, 8)
}

/// The new directory, up to kept tensor `upto`.
pub open spec fn directory_bytes(layout: LayoutModel, kept: Seq<Kept>, upto: int) -> Seq<u8>
    decreases upto,
{
    if upto <= 0 {
        Seq::empty()
    } else {
        directory_bytes(layout, kept, upto - 1) + entry_bytes(
            kept[upto - 1].0,
            layout.tensors[kept[upto - 1].1],
            new_offset(layout, kept, upto - 1),
        )
    }
}

/// The metadata block with another tensor count.
pub open spec fn recounted(content: Seq<u8>, end: int, count: nat) -> Seq<u8> {
    content.subrange(0, 8) + le_bytes(count, 8) + content.subrange(16, end)
}

/// The metadata block of the new file: inherited where every tensor stays,
/// else written anew with the new count.
pub open spec fn with_metadata(
    content: Seq<u8>,
    records: Seq<RecordModel>,
    layout: LayoutModel,
    kept: Seq<Kept>,
) -> Result<ComposedModel, ComposeFault> {
    if kept.len() == layout.tensors.len() {
        match inherited(records, 0, layout.directory_start) {
            Some(taken) => Ok(nothing().inheriting(taken)),
            None => Err(ComposeFault::NotObjectAligned(METADATA_BLOCK@)),
        }
    } else if layout.directory_start > usize::MAX {
        Err(ComposeFault::HeaderTooLarge)
    } else {
        Ok(nothing().admitting(recounted(content, layout.directory_start as int, kept.len())))
    }
}

/// Where the new directory ends.
pub open spec fn new_directory_end(layout: LayoutModel, kept: Seq<Kept>) -> int {
    layout.directory_start + directory_bytes(layout, kept, kept.len() as int).len()
}

/// Where the new data starts, when that fits.
pub open spec fn new_data_start(layout: LayoutModel, kept: Seq<Kept>) -> Option<int> {
    let end = new_directory_end(layout, kept);
    if end > u64::MAX {
        None
    } else if kept.len() == 0 {
        Some(end)
    } else {
        aligned(end, layout.alignment)
    }
}

/// The composition up to its data. The padding before the data is an object of
/// its own.
pub open spec fn with_head(
    content: Seq<u8>,
    records: Seq<RecordModel>,
    layout: LayoutModel,
    kept: Seq<Kept>,
) -> Result<ComposedModel, ComposeFault> {
    match with_metadata(content, records, layout, kept) {
        Err(fault) => Err(fault),
        Ok(composed) => match new_data_start(layout, kept) {
            None => Err(ComposeFault::HeaderTooLarge),
            Some(start) => {
                let gap = start - new_directory_end(layout, kept);
                let directory = composed.admitting(
                    directory_bytes(layout, kept, kept.len() as int),
                );
                if gap > usize::MAX {
                    Err(ComposeFault::HeaderTooLarge)
                } else if gap > 0 {
                    Ok(directory.admitting(Seq::new(gap as nat, |i: int| 0u8)))
                } else {
                    Ok(directory)
                }
            },
        },
    }
}

/// The composition once the first `upto` kept tensors are inherited, or the
/// first that has no objects of its own.
pub open spec fn with_tensors(
    content: Seq<u8>,
    records: Seq<RecordModel>,
    layout: LayoutModel,
    kept: Seq<Kept>,
    upto: int,
) -> Result<ComposedModel, ComposeFault>
    decreases upto,
{
    if upto <= 0 {
        with_head(content, records, layout, kept)
    } else {
        match with_tensors(content, records, layout, kept, upto - 1) {
            Err(fault) => Err(fault),
            Ok(composed) => {
                let tensor = layout.tensors[kept[upto - 1].1];
                match inherited(
                    records,
                    (layout.data_start + tensor.offset) as u64,
                    padded(tensor, layout.alignment) as u64,
                ) {
                    Some(taken) => Ok(composed.inheriting(taken)),
                    None => Err(ComposeFault::NotObjectAligned(tensor.name)),
                }
            },
        }
    }
}

/// The composition of a container whose layout is `layout`.
pub open spec fn composed_of(
    content: Seq<u8>,
    records: Seq<RecordModel>,
    layout: LayoutModel,
    names: Seq<(Seq<char>, Seq<char>)>,
    unnamed: Unnamed,
) -> Result<ComposedModel, ComposeFault> {
    match selected(tensor_names(layout.tensors), names, unnamed) {
        Err(fault) => Err(fault),
        Ok(kept) => {
            let at = unusable_at(kept, 0);
            if at < kept.len() {
                Err(ComposeFault::UnusableName(kept[at].0))
            } else {
                with_tensors(content, records, layout, kept, kept.len() as int)
            }
        },
    }
}

/// The composition of a GGUF container.
pub open spec fn gguf_composition(
    content: Seq<u8>,
    records: Seq<RecordModel>,
    names: Seq<(Seq<char>, Seq<char>)>,
    unnamed: Unnamed,
) -> Result<ComposedModel, ComposeFault> {
    match layout_of(content) {
        None => Err(ComposeFault::Unreadable(TensorFormat::GgufV1)),
        Some(layout) => composed_of(content, records, layout, names, unnamed),
    }
}

/// What the layouts of real files keep.
pub open spec fn sound(layout: LayoutModel, size: int) -> bool {
    &&& fills(layout, size)
    &&& size <= u64::MAX
    &&& 24 <= layout.directory_start <= size
}

proof fn packed_grows(layout: LayoutModel, size: int, a: int, b: int)
    requires
        sound(layout, size),
        0 <= a <= b <= layout.tensors.len(),
    ensures
        0 <= packed(layout.tensors, layout.alignment, a) <= packed(layout.tensors, layout.alignment, b),
    decreases b - a,
{
    packed_is_positive(layout.tensors, layout.alignment, a);
    if a < b {
        packed_grows(layout, size, a, b - 1);
        assert(aligned(layout.tensors[b - 1].length as int, layout.alignment) is Some);
        aligned_bounds(layout.tensors[b - 1].length as int, layout.alignment);
    }
}

pub(crate) proof fn new_offsets_fit(layout: LayoutModel, kept: Seq<Kept>, size: int, k: int)
    requires
        sound(layout, size),
        in_source_order(kept, layout.tensors.len() as int),
        0 <= k <= kept.len(),
    ensures
        0 <= new_offset(layout, kept, k) <= (if k == 0 {
            0
        } else {
            packed(layout.tensors, layout.alignment, kept[k - 1].1 + 1)
        }),
        new_offset(layout, kept, k) <= size,
    decreases k,
{
    if k > 0 {
        let here = kept[k - 1].1;
        new_offsets_fit(layout, kept, size, k - 1);
        packed_grows(layout, size, here + 1, layout.tensors.len() as int);
        packed_grows(layout, size, 0, here);
        assert(aligned(layout.tensors[here].length as int, layout.alignment) is Some);
        aligned_bounds(layout.tensors[here].length as int, layout.alignment);
        if k > 1 {
            packed_grows(layout, size, kept[k - 2].1 + 1, here);
        }
    }
}

fn push_entry(directory: &mut Vec<u8>, name: &String, tensor: &TensorInfo, offset: u64)
    requires
        tensor.dimension_count <= 4,
    ensures
        final(directory)@ == old(directory)@ + entry_bytes(name@, tensor@, offset as int),
{
    let ghost before = directory@;
    let spelled = name.as_str().as_bytes();
    let length: usize = spelled.len();
    push_le(directory, length as u64, 8);
    push_bytes(directory, spelled);
    push_le(directory, tensor.dimension_count as u64, 4);
    let ghost head = directory@;
    let count: usize = tensor.dimension_count as usize;
    let mut axis: usize = 0;
    assert(head + dimension_bytes(tensor@.dimensions, 0) =~= head);
    while axis < count
        invariant
            axis <= count <= 4,
            tensor@.dimensions == tensor.dimensions@,
            directory@ == head + dimension_bytes(tensor@.dimensions, axis as int),
        decreases count - axis,
    {
        push_le(directory, tensor.dimensions[axis], 8);
        assert(directory@ =~= head + dimension_bytes(tensor@.dimensions, axis + 1));
        axis += 1;
    }
    push_le(directory, tensor.ggml_type as u64, 4);
    push_le(directory, offset, 8);
    assert(directory@ =~= before + entry_bytes(name@, tensor@, offset as int));
}

fn write_directory(layout: &Layout, kept: &Vec<(String, usize)>, Ghost(size): Ghost<int>) -> (directory: Vec<u8>)
    requires
        sound(layout@, size),
        in_source_order(kept_models(kept@), layout@.tensors.len() as int),
    ensures
        directory@ == directory_bytes(layout@, kept_models(kept@), kept@.len() as int),
{
    let ghost models = kept_models(kept@);
    let mut directory: Vec<u8> = Vec::new();
    let mut offset: u64 = 0;
    let mut k: usize = 0;
    assert(directory@ =~= directory_bytes(layout@, models, 0));
    while k < kept.len()
        invariant
            k <= kept@.len(),
            models == kept_models(kept@),
            sound(layout@, size),
            in_source_order(models, layout@.tensors.len() as int),
            offset == new_offset(layout@, models, k as int),
            directory@ == directory_bytes(layout@, models, k as int),
        decreases kept@.len() - k,
    {
        assert(models[k as int] == (kept@[k as int].0@, kept@[k as int].1 as int));
        let place = kept[k].1;
        proof {
            assert(layout@.tensors[place as int] == layout.tensors@[place as int]@);
            new_offsets_fit(layout@, models, size, k + 1);
        }
        let tensor = &layout.tensors[place];
        push_entry(&mut directory, &kept[k].0, tensor, offset);
        match align_up(tensor.length, layout.alignment) {
            Some(room) => {
                offset = offset + room;
            },
            None => {
                assert(aligned(layout@.tensors[place as int].length as int, layout@.alignment) is Some);
            },
        }
        k += 1;
    }
    directory
}

fn names_of(layout: &Layout) -> (names: Vec<String>)
    ensures
        strings(names@) == tensor_names(layout@.tensors),
{
    let mut names: Vec<String> = Vec::new();
    let mut at: usize = 0;
    while at < layout.tensors.len()
        invariant
            at <= layout.tensors@.len(),
            names@.len() == at,
            forall|i: int| 0 <= i < at ==> (#[trigger] names@[i])@ == layout.tensors@[i].name@,
        decreases layout.tensors@.len() - at,
    {
        names.push(layout.tensors[at].name.clone());
        at += 1;
    }
    assert(strings(names@) =~= tensor_names(layout@.tensors));
    names
}

fn holds_zero(bytes: &[u8]) -> (found: bool)
    ensures
        found == bytes@.contains(0u8),
{
    let mut at: usize = 0;
    while at < bytes.len()
        invariant
            at <= bytes@.len(),
            forall|i: int| 0 <= i < at ==> bytes@[i] != 0u8,
        decreases bytes@.len() - at,
    {
        if bytes[at] == 0 {
            return true;
        }
        at += 1;
    }
    false
}

fn check_names(kept: &Vec<(String, usize)>) -> (outcome: Result<(), ComposeError>)
    ensures
        ({
            let models = kept_models(kept@);
            let at = unusable_at(models, 0);
            match outcome {
                Ok(_) => at >= models.len(),
                Err(e) => at < models.len() && e@ == ComposeFault::UnusableName(models[at].0) && !(e is Plan),
            }
        }),
{
    let ghost models = kept_models(kept@);
    let mut at: usize = 0;
    while at < kept.len()
        invariant
            at <= kept@.len(),
            models == kept_models(kept@),
            unusable_at(models, 0) == unusable_at(models, at as int),
        decreases kept@.len() - at,
    {
        assert(models[at as int].0 == kept@[at as int].0@);
        let bytes = kept[at].0.as_str().as_bytes();
        let length: usize = bytes.len();
        if length as u64 > MAX_TENSOR_NAME_LEN || holds_zero(bytes) {
            return Err(ComposeError::UnusableName(kept[at].0.clone()));
        }
        at += 1;
    }
    Ok(())
}

/// The metadata block with another tensor count.
fn read_recounted<S: ByteSource + ?Sized>(source: &S, end: usize, count: usize) -> (outcome: Result<
    Vec<u8>,
    ComposeError,
>)
    requires
        24 <= end <= source.content().len(),
    ensures
        match outcome {
            Ok(bytes) => source.steady() ==> bytes@ == recounted(
                source.content(),
                end as int,
                count as nat,
            ),
            Err(e) => e matches ComposeError::Plan(PlanError::Read(_)) && !source.reliable(),
        },
{
    let mut metadata: Vec<u8> = Vec::new();
    metadata.resize(end, 0);
    match source.read_exact_at(0, metadata.as_mut_slice()) {
        Err(e) => {
            return Err(ComposeError::Plan(PlanError::Read(e)));
        },
        Ok(_) => {},
    }
    let ghost content = source.content();
    assert(source.steady() ==> metadata@ =~= content.subrange(0, end as int));
    let mut bytes: Vec<u8> = Vec::new();
    push_bytes(&mut bytes, vstd::slice::slice_subrange(metadata.as_slice(), 0, 8));
    push_le(&mut bytes, count as u64, 8);
    push_bytes(&mut bytes, vstd::slice::slice_subrange(metadata.as_slice(), 16, end));
    assert(source.steady() ==> bytes@ =~= recounted(content, end as int, count as nat));
    Ok(bytes)
}

fn compose_metadata<S: ByteSource + ?Sized>(
    source: &S,
    records: &[FileRecord],
    layout: &Layout,
    kept: &Vec<(String, usize)>,
) -> (outcome: Result<Composed, ComposeError>)
    requires
        run_length(record_models(records@)) <= u64::MAX,
        24 <= layout@.directory_start <= source.content().len(),
    ensures
        ({
            let expected = with_metadata(
                source.content(),
                record_models(records@),
                layout@,
                kept_models(kept@),
            );
            match outcome {
                Ok(composed) => source.steady() ==> expected == Ok::<ComposedModel, ComposeFault>(
                    composed@,
                ),
                Err(ComposeError::Plan(e)) => e is Read && !source.reliable(),
                Err(e) => source.steady() ==> expected == Err::<ComposedModel, ComposeFault>(e@),
            }
        }),
{
    let mut composed = Composed::new();
    assert(kept_models(kept@).len() == kept@.len());
    assert(layout@.tensors.len() == layout.tensors@.len());
    if kept.len() == layout.tensors.len() {
        match inherit(records, 0, layout.directory_start) {
            None => {
                return Err(ComposeError::NotObjectAligned(METADATA_BLOCK.to_string()));
            },
            Some(taken) => {
                composed.extend(taken);
            },
        }
    } else {
        if layout.directory_start > usize::MAX as u64 {
            return Err(ComposeError::HeaderTooLarge);
        }
        let bytes = read_recounted(source, layout.directory_start as usize, kept.len())?;
        composed.add_new(&bytes);
    }
    Ok(composed)
}

fn compose_head<S: ByteSource + ?Sized>(
    source: &S,
    records: &[FileRecord],
    layout: &Layout,
    kept: &Vec<(String, usize)>,
) -> (outcome: Result<Composed, ComposeError>)
    requires
        run_length(record_models(records@)) <= u64::MAX,
        sound(layout@, source.content().len() as int),
        in_source_order(kept_models(kept@), layout@.tensors.len() as int),
    ensures
        ({
            let expected = with_head(
                source.content(),
                record_models(records@),
                layout@,
                kept_models(kept@),
            );
            match outcome {
                Ok(composed) => source.steady() ==> expected == Ok::<ComposedModel, ComposeFault>(
                    composed@,
                ),
                Err(ComposeError::Plan(e)) => e is Read && !source.reliable(),
                Err(e) => source.steady() ==> expected == Err::<ComposedModel, ComposeFault>(e@),
            }
        }),
{
    let ghost models = kept_models(kept@);
    assert(models.len() == kept@.len());
    let mut composed = compose_metadata(source, records, layout, kept)?;
    let directory = write_directory(layout, kept, Ghost(source.content().len() as int));
    let length: usize = directory.len();
    if length as u64 > u64::MAX - layout.directory_start {
        return Err(ComposeError::HeaderTooLarge);
    }
    let directory_end: u64 = layout.directory_start + length as u64;
    assert(directory_end == new_directory_end(layout@, models));
    let data_start: u64 = if kept.len() == 0 {
        directory_end
    } else {
        match align_up(directory_end, layout.alignment) {
            Some(start) => start,
            None => {
                return Err(ComposeError::HeaderTooLarge);
            },
        }
    };
    proof {
        if models.len() > 0 {
            aligned_bounds(directory_end as int, layout@.alignment);
        }
    }
    let gap: u64 = data_start - directory_end;
    composed.add_new(&directory);
    if gap > usize::MAX as u64 {
        return Err(ComposeError::HeaderTooLarge);
    }
    if gap > 0 {
        let mut padding: Vec<u8> = Vec::new();
        padding.resize(gap as usize, 0);
        assert(padding@ =~= Seq::new(gap as nat, |i: int| 0u8));
        composed.add_new(&padding);
    }
    Ok(composed)
}

proof fn tensors_fault_stays(
    content: Seq<u8>,
    records: Seq<RecordModel>,
    layout: LayoutModel,
    kept: Seq<Kept>,
    low: int,
    high: int,
)
    requires
        0 <= low <= high,
        with_tensors(content, records, layout, kept, low) is Err,
    ensures
        with_tensors(content, records, layout, kept, high) == with_tensors(
            content,
            records,
            layout,
            kept,
            low,
        ),
    decreases high - low,
{
    if low < high {
        tensors_fault_stays(content, records, layout, kept, low, high - 1);
    }
}

proof fn tensor_is_inside(layout: LayoutModel, size: int, i: int)
    requires
        sound(layout, size),
        0 <= i < layout.tensors.len(),
    ensures
        aligned(layout.tensors[i].length as int, layout.alignment) is Some,
        layout.data_start + layout.tensors[i].offset <= size,
{
    assert(layout.tensors[i].offset == packed(layout.tensors, layout.alignment, i));
    packed_grows(layout, size, i, layout.tensors.len() as int);
}

/// Composes a GGUF container under its layout.
fn compose_layout<S: ByteSource + ?Sized>(
    source: &S,
    records: &[FileRecord],
    layout: &Layout,
    names: &[(String, String)],
    unnamed: Unnamed,
) -> (outcome: Result<Composed, ComposeError>)
    requires
        run_length(record_models(records@)) <= u64::MAX,
        sound(layout@, source.content().len() as int),
    ensures
        ({
            let expected = composed_of(
                source.content(),
                record_models(records@),
                layout@,
                name_pairs(names@),
                unnamed,
            );
            match outcome {
                Ok(composed) => source.steady() ==> expected == Ok::<ComposedModel, ComposeFault>(
                    composed@,
                ),
                Err(ComposeError::Plan(e)) => e is Read && !source.reliable(),
                Err(e) => source.steady() ==> expected == Err::<ComposedModel, ComposeFault>(e@),
            }
        }),
{
    let ghost content = source.content();
    let ghost steady = source.steady();
    let ghost models = record_models(records@);
    let ghost expected = composed_of(content, models, layout@, name_pairs(names@), unnamed);
    let tensors = names_of(layout);
    let kept = select(&tensors, names, unnamed)?;
    let ghost chosen = kept_models(kept@);
    check_names(&kept)?;
    proof {
        assert(expected == with_tensors(content, models, layout@, chosen, chosen.len() as int));
        if with_head(content, models, layout@, chosen) is Err {
            tensors_fault_stays(content, models, layout@, chosen, 0, chosen.len() as int);
        }
    }
    let mut composed = compose_head(source, records, layout, &kept)?;
    let mut k: usize = 0;
    while k < kept.len()
        invariant
            k <= kept@.len(),
            chosen == kept_models(kept@),
            models == record_models(records@),
            run_length(models) <= u64::MAX,
            content == source.content(),
            sound(layout@, content.len() as int),
            in_source_order(chosen, layout@.tensors.len() as int),
            steady == source.steady(),
            steady ==> with_tensors(content, models, layout@, chosen, k as int) == Ok::<
                ComposedModel,
                ComposeFault,
            >(composed@),
            expected == with_tensors(content, models, layout@, chosen, chosen.len() as int),
            expected == composed_of(content, models, layout@, name_pairs(names@), unnamed),
        decreases kept@.len() - k,
    {
        assert(chosen[k as int] == (kept@[k as int].0@, kept@[k as int].1 as int));
        let place = kept[k].1;
        proof {
            assert(layout@.tensors[place as int] == layout.tensors@[place as int]@);
            tensor_is_inside(layout@, content.len() as int, place as int);
        }
        let tensor = &layout.tensors[place];
        let room: u64 = match align_up(tensor.length, layout.alignment) {
            Some(room) => room,
            None => 0,
        };
        match inherit(records, layout.data_start + tensor.offset, room) {
            None => {
                proof {
                    if steady {
                        tensors_fault_stays(
                            content,
                            models,
                            layout@,
                            chosen,
                            k + 1,
                            chosen.len() as int,
                        );
                    }
                }
                return Err(ComposeError::NotObjectAligned(tensor.name.clone()));
            },
            Some(taken) => {
                composed.extend(taken);
            },
        }
        k += 1;
    }
    Ok(composed)
}

/// Composes the GGUF container that a source stands for.
pub fn compose_gguf<S: ByteSource + ?Sized>(
    source: &S,
    records: &[FileRecord],
    names: &[(String, String)],
    unnamed: Unnamed,
) -> (outcome: Result<Composed, ComposeError>)
    requires
        run_length(record_models(records@)) <= u64::MAX,
    ensures
        ({
            let expected = gguf_composition(
                source.content(),
                record_models(records@),
                name_pairs(names@),
                unnamed,
            );
            match outcome {
                Ok(composed) => source.steady() ==> expected == Ok::<ComposedModel, ComposeFault>(
                    composed@,
                ),
                Err(ComposeError::Plan(e)) => (e is ResourceExhausted && (source.steady()
                    ==> takes_memory(source.content()))) || !source.reliable(),
                Err(e) => source.steady() ==> expected == Err::<ComposedModel, ComposeFault>(e@),
            }
        }),
{
    let size: u64 = source.len();
    match read_layout(source) {
        Err(e) => Err(ComposeError::Plan(e)),
        Ok(None) => Err(ComposeError::Unreadable(TensorFormat::GgufV1)),
        Ok(Some(layout)) => {
            proof {
                let n = layout@.tensors.len() as int;
                crate::planner::gguf::packed_is_positive(layout@.tensors, layout@.alignment, n);
            }
            compose_layout(source, records, &layout, names, unnamed)
        },
    }
}

} // verus!
