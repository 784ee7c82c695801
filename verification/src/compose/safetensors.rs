//! Composing a safetensors container.

use super::safetensors_reread::{
    a_composed_safetensors_reads_back, is_composed, keys_are_plain, keys_read_back,
    member_reads_back, reads_as_composed, reads_back, recomposed, texts_read_back,
};
use super::{
    inherit, inherited, kept_models, nothing, select, selected, in_source_order, name_pairs, ComposeError,
    ComposeFault, Composed, ComposedModel, Kept, Unnamed,
};
use crate::planner::safetensors::{
    fill_data, layout_fills_the_file, layout_of, reached, read_layout, takes_memory, Layout,
    LayoutModel, SpanModel, TensorSpan,
};
use crate::planner::{ByteSource, PlanError, TensorFormat};
use crate::text::{decimal, push_decimal, strings};
use crate::tfm1::{record_models, run_length, FileRecord, RecordModel};
use crate::trusted::{json_quoted, json_text};
use crate::wire::{le_bytes, push_bytes, push_le};
use vstd::prelude::*;
use vstd::string::*;
use vstd::utf8::encode_utf8;

verus! {

/// The key under which a safetensors header carries its metadata.
pub const SAFETENSORS_METADATA_KEY: &'static str = "__metadata__";

/// The names of a layout's tensors.
pub open spec fn tensor_names(tensors: Seq<SpanModel>) -> Seq<Seq<char>> {
    tensors.map_values(|tensor: SpanModel| tensor.name)
}

/// Whether a tensor can have a name: it is not empty, and not the metadata's.
pub open spec fn usable(name: Seq<char>) -> bool {
    name.len() > 0 && name != SAFETENSORS_METADATA_KEY@
}

/// The first kept name at or behind `at` that a tensor cannot have; the length
/// where there is none.
pub open spec fn unusable_at(kept: Seq<Kept>, at: int) -> int
    decreases kept.len() - at,
{
    if at >= kept.len() || !usable(kept[at].0) {
        at
    } else {
        unusable_at(kept, at + 1)
    }
}

/// The bytes of a tensor.
pub open spec fn extent(tensor: SpanModel) -> int {
    tensor.end - tensor.start
}

/// Where kept tensor `k` starts in the new data section: behind those before
/// it.
pub open spec fn new_start(tensors: Seq<SpanModel>, kept: Seq<Kept>, k: int) -> int
    decreases k,
{
    if k <= 0 {
        0
    } else {
        new_start(tensors, kept, k - 1) + extent(tensors[kept[k - 1].1])
    }
}

/// The first `upto` numbers, with commas between them.
pub open spec fn listed(numbers: Seq<u64>, upto: int) -> Seq<char>
    decreases upto,
{
    if upto <= 0 {
        Seq::empty()
    } else if upto == 1 {
        decimal(numbers[0] as nat)
    } else {
        listed(numbers, upto - 1) + ","@ + decimal(numbers[upto - 1] as nat)
    }
}

/// The header's member for kept tensor `k`.
pub open spec fn member_text(tensors: Seq<SpanModel>, kept: Seq<Kept>, k: int) -> Seq<char> {
    let tensor = tensors[kept[k].1];
    json_text(kept[k].0) + ":{\"dtype\":"@ + json_text(tensor.dtype) + ",\"shape\":["@ + listed(
        tensor.shape,
        tensor.shape.len() as int,
    ) + "],\"data_offsets\":["@ + decimal(new_start(tensors, kept, k) as nat) + ","@ + decimal(
        new_start(tensors, kept, k + 1) as nat,
    ) + "]}"@
}

/// The members for the first `upto` kept tensors, behind the opening brace.
pub open spec fn members_text(tensors: Seq<SpanModel>, kept: Seq<Kept>, upto: int) -> Seq<char>
    decreases upto,
{
    if upto <= 0 {
        "{"@
    } else {
        let before = members_text(tensors, kept, upto - 1);
        (if upto == 1 {
            before
        } else {
            before + ","@
        }) + member_text(tensors, kept, upto - 1)
    }
}

/// The new header.
pub open spec fn header_text(tensors: Seq<SpanModel>, kept: Seq<Kept>) -> Seq<char> {
    members_text(tensors, kept, kept.len() as int) + "}"@
}

/// How many bytes are missing to a multiple of eight.
pub open spec fn short_of_eight(length: int) -> int {
    (8 - length % 8) % 8
}

/// The new file up to its data: the header's length, and the header, filled up
/// with spaces so that the data is aligned.
pub open spec fn head_bytes(tensors: Seq<SpanModel>, kept: Seq<Kept>) -> Seq<u8> {
    let text = encode_utf8(header_text(tensors, kept));
    let padded = text + Seq::new(short_of_eight(text.len() as int) as nat, |i: int| 32u8);
    le_bytes(padded.len(), 8) + padded
}

/// The composition once the first `upto` kept tensors are inherited, or the
/// first that has no objects of its own.
pub open spec fn with_tensors(
    records: Seq<RecordModel>,
    layout: LayoutModel,
    kept: Seq<Kept>,
    upto: int,
) -> Result<ComposedModel, ComposeFault>
    decreases upto,
{
    if upto <= 0 {
        Ok(nothing().admitting(head_bytes(layout.tensors, kept)))
    } else {
        match with_tensors(records, layout, kept, upto - 1) {
            Err(fault) => Err(fault),
            Ok(composed) => {
                let tensor = layout.tensors[kept[upto - 1].1];
                match inherited(
                    records,
                    (layout.header_end + tensor.start) as u64,
                    extent(tensor) as u64,
                ) {
                    Some(taken) => Ok(composed.inheriting(taken)),
                    None => Err(ComposeFault::NotObjectAligned(tensor.name)),
                }
            },
        }
    }
}

/// The composition of a container whose layout is `layout`.
pub open spec fn composed_of(
    records: Seq<RecordModel>,
    layout: LayoutModel,
    names: Seq<(Seq<char>, Seq<char>)>,
    unnamed: Unnamed,
) -> Result<ComposedModel, ComposeFault> {
    match selected(tensor_names(layout.tensors), names, unnamed) {
        Err(fault) => Err(fault),
        Ok(kept) => {
            let at = unusable_at(kept, 0);
            if at < kept.len() {
                Err(ComposeFault::UnusableName(kept[at].0))
            } else {
                with_tensors(records, layout, kept, kept.len() as int)
            }
        },
    }
}

/// Tensors in rising order, within a data section of `size` bytes.
pub open spec fn rising(tensors: Seq<SpanModel>, size: int) -> bool {
    &&& forall|i: int|
        0 <= i < tensors.len() ==> (#[trigger] tensors[i]).start <= tensors[i].end <= size
    &&& forall|a: int, b: int|
        0 <= a < b < tensors.len() ==> (#[trigger] tensors[a]).end <= (#[trigger] tensors[b]).start
}

proof fn filled_is_rising(tensors: Seq<SpanModel>, size: int)
    requires
        fill_data(tensors, size),
    ensures
        rising(tensors, size),
{
    assert forall|i: int| 0 <= i < tensors.len() implies (#[trigger] tensors[i]).start <= tensors[i].end
        <= size by {
        ends_within(tensors, size, i);
    }
    assert forall|a: int, b: int| 0 <= a < b < tensors.len() implies (#[trigger] tensors[a]).end <= (
    #[trigger] tensors[b]).start by {
        ends_order(tensors, size, a, b);
    }
}

proof fn ends_order(tensors: Seq<SpanModel>, size: int, a: int, b: int)
    requires
        fill_data(tensors, size),
        0 <= a < b < tensors.len(),
    ensures
        tensors[a].end <= tensors[b].start,
    decreases b - a,
{
    assert(tensors[b].start == reached(tensors, b));
    if a < b - 1 {
        ends_order(tensors, size, a, b - 1);
        assert(tensors[b - 1].start <= tensors[b - 1].end);
    }
}

proof fn ends_within(tensors: Seq<SpanModel>, size: int, i: int)
    requires
        fill_data(tensors, size),
        0 <= i < tensors.len(),
    ensures
        tensors[i].start <= tensors[i].end <= size,
{
    let last = tensors.len() - 1;
    assert(tensors[i].start <= tensors[i].end);
    if i < last {
        ends_order(tensors, size, i, last);
        assert(tensors[last].start <= tensors[last].end);
    }
}

pub(crate) proof fn new_starts_fit(tensors: Seq<SpanModel>, kept: Seq<Kept>, size: int, k: int)
    requires
        rising(tensors, size),
        in_source_order(kept, tensors.len() as int),
        0 <= k <= kept.len(),
    ensures
        0 <= new_start(tensors, kept, k) <= (if k == 0 {
            0
        } else {
            tensors[kept[k - 1].1].end as int
        }),
    decreases k,
{
    if k > 0 {
        new_starts_fit(tensors, kept, size, k - 1);
        let here = kept[k - 1].1;
        if k > 1 {
            let before = kept[k - 2].1;
            assert(tensors[before].end <= tensors[here].start);
        }
    }
}

fn push_list(text: &mut String, numbers: &Vec<u64>)
    ensures
        final(text)@ == old(text)@ + listed(numbers@, numbers@.len() as int),
{
    let ghost before = text@;
    let mut at: usize = 0;
    assert(before + listed(numbers@, 0) =~= before);
    while at < numbers.len()
        invariant
            at <= numbers@.len(),
            text@ == before + listed(numbers@, at as int),
        decreases numbers@.len() - at,
    {
        let ghost held = text@;
        if at > 0 {
            text.append(",");
        }
        push_decimal(text, numbers[at]);
        assert(text@ =~= before + listed(numbers@, at + 1));
        at += 1;
    }
}

fn push_member(text: &mut String, name: &String, tensor: &TensorSpan, from: u64, to: u64)
    ensures
        final(text)@ == old(text)@ + (json_text(name@) + ":{\"dtype\":"@ + json_text(tensor.dtype@)
            + ",\"shape\":["@ + listed(tensor.shape@, tensor.shape@.len() as int)
            + "],\"data_offsets\":["@ + decimal(from as nat) + ","@ + decimal(to as nat) + "]}"@),
        keys_read_back(),
        reads_back(name@),
        reads_back(tensor.dtype@),
{
    let ghost before = text@;
    let quoted_name = json_quoted(name.as_str());
    let dtype = json_quoted(tensor.dtype.as_str());
    let (dtype_key, shape_key, offsets_key) = (
        json_quoted("dtype"),
        json_quoted("shape"),
        json_quoted("data_offsets"),
    );
    text.append(quoted_name.as_str());
    text.append(":{");
    text.append(dtype_key.as_str());
    text.append(":");
    text.append(dtype.as_str());
    text.append(",");
    text.append(shape_key.as_str());
    text.append(":[");
    push_list(text, &tensor.shape);
    text.append("],");
    text.append(offsets_key.as_str());
    text.append(":[");
    push_decimal(text, from);
    text.append(",");
    push_decimal(text, to);
    text.append("]}");
    proof {
        keys_are_plain();
        keys_join();
    }
    assert(text@ =~= before + (json_text(name@) + ":{\"dtype\":"@ + json_text(tensor.dtype@)
        + ",\"shape\":["@ + listed(tensor.shape@, tensor.shape@.len() as int)
        + "],\"data_offsets\":["@ + decimal(from as nat) + ","@ + decimal(to as nat) + "]}"@));
}

proof fn keys_join()
    ensures
        ":{"@ + "\"dtype\""@ + ":"@ == ":{\"dtype\":"@,
        ","@ + "\"shape\""@ + ":["@ == ",\"shape\":["@,
        "],"@ + "\"data_offsets\""@ + ":["@ == "],\"data_offsets\":["@,
{
    reveal_strlit(":{");
    reveal_strlit("\"dtype\"");
    reveal_strlit(":");
    reveal_strlit(":{\"dtype\":");
    reveal_strlit(",");
    reveal_strlit("\"shape\"");
    reveal_strlit(":[");
    reveal_strlit(",\"shape\":[");
    reveal_strlit("],");
    reveal_strlit("\"data_offsets\"");
    reveal_strlit("],\"data_offsets\":[");
    assert(":{"@ + "\"dtype\""@ + ":"@ =~= ":{\"dtype\":"@);
    assert(","@ + "\"shape\""@ + ":["@ =~= ",\"shape\":["@);
    assert("],"@ + "\"data_offsets\""@ + ":["@ =~= "],\"data_offsets\":["@);
}

fn write_header(layout: &Layout, kept: &Vec<(String, usize)>, Ghost(size): Ghost<int>) -> (text: String)
    requires
        rising(layout@.tensors, size),
        size <= u64::MAX,
        in_source_order(kept_models(kept@), layout@.tensors.len() as int),
    ensures
        text@ == header_text(layout@.tensors, kept_models(kept@)),
        texts_read_back(layout@.tensors, kept_models(kept@)),
{
    let ghost tensors = layout@.tensors;
    let ghost models = kept_models(kept@);
    let mut text = String::new();
    text.append("{");
    let mut cursor: u64 = 0;
    let mut k: usize = 0;
    assert(text@ =~= members_text(tensors, models, 0));
    while k < kept.len()
        invariant
            k <= kept@.len(),
            tensors == layout@.tensors,
            models == kept_models(kept@),
            rising(tensors, size),
            size <= u64::MAX,
            in_source_order(models, tensors.len() as int),
            cursor == new_start(tensors, models, k as int),
            text@ == members_text(tensors, models, k as int),
            forall|i: int| 0 <= i < k ==> #[trigger] member_reads_back(tensors, models, i),
        decreases kept@.len() - k,
    {
        let ghost before = text@;
        assert(models[k as int] == (kept@[k as int].0@, kept@[k as int].1 as int));
        let place = kept[k].1;
        proof {
            new_starts_fit(tensors, models, size, k + 1);
            assert(tensors[place as int] == layout.tensors@[place as int]@);
            assert(tensors[place as int].start <= tensors[place as int].end);
        }
        if k > 0 {
            text.append(",");
        }
        let tensor = &layout.tensors[place];
        let next: u64 = cursor + (tensor.end - tensor.start);
        push_member(&mut text, &kept[k].0, tensor, cursor, next);
        assert(text@ =~= members_text(tensors, models, k + 1));
        cursor = next;
        k += 1;
    }
    text.append("}");
    assert(text@ =~= header_text(tensors, models));
    text
}

fn head_of(layout: &Layout, kept: &Vec<(String, usize)>, Ghost(size): Ghost<int>) -> (bytes: Vec<u8>)
    requires
        rising(layout@.tensors, size),
        size <= u64::MAX,
        in_source_order(kept_models(kept@), layout@.tensors.len() as int),
    ensures
        bytes@ == head_bytes(layout@.tensors, kept_models(kept@)),
        texts_read_back(layout@.tensors, kept_models(kept@)),
{
    let text = write_header(layout, kept, Ghost(size));
    let mut padded: Vec<u8> = vstd::slice::slice_to_vec(text.as_str().as_bytes());
    let ghost plain = padded@;
    let short: usize = (8 - padded.len() % 8) % 8;
    let mut at: usize = 0;
    assert(plain + Seq::new(0nat, |i: int| 32u8) =~= plain);
    while at < short
        invariant
            at <= short < 8,
            padded@ == plain + Seq::new(at as nat, |i: int| 32u8),
        decreases short - at,
    {
        padded.push(32);
        assert(padded@ =~= plain + Seq::new((at + 1) as nat, |i: int| 32u8));
        at += 1;
    }
    let mut bytes: Vec<u8> = Vec::new();
    let length: usize = padded.len();
    push_le(&mut bytes, length as u64, 8);
    push_bytes(&mut bytes, &padded);
    assert(bytes@ =~= head_bytes(layout@.tensors, kept_models(kept@)));
    bytes
}

fn names_of(layout: &Layout) -> (names: Vec<String>)
    ensures
        strings(names@) == tensor_names(layout@.tensors),
{
    let mut names: Vec<String> = Vec::new();
    let mut at: usize = 0;
    while at < layout.tensors.len()
        invariant
            at <= layout.tensors@.len(),
            names@.len() == at,
            forall|i: int| 0 <= i < at ==> (#[trigger] names@[i])@ == layout.tensors@[i].name@,
        decreases layout.tensors@.len() - at,
    {
        names.push(layout.tensors[at].name.clone());
        at += 1;
    }
    assert(strings(names@) =~= tensor_names(layout@.tensors));
    names
}

fn check_names(kept: &Vec<(String, usize)>) -> (outcome: Result<(), ComposeError>)
    ensures
        ({
            let models = kept_models(kept@);
            let at = unusable_at(models, 0);
            match outcome {
                Ok(_) => at >= models.len(),
                Err(e) => at < models.len() && e@ == ComposeFault::UnusableName(models[at].0) && !(e is Plan),
            }
        }),
{
    let ghost models = kept_models(kept@);
    let mut at: usize = 0;
    while at < kept.len()
        invariant
            at <= kept@.len(),
            models == kept_models(kept@),
            unusable_at(models, 0) == unusable_at(models, at as int),
        decreases kept@.len() - at,
    {
        assert(models[at as int].0 == kept@[at as int].0@);
        let chars = crate::text::chars_of(kept[at].0.as_str());
        let reserved = crate::text::chars_of(SAFETENSORS_METADATA_KEY);
        if chars.len() == 0 || crate::text::same_chars(&chars, &reserved) {
            return Err(ComposeError::UnusableName(kept[at].0.clone()));
        }
        at += 1;
    }
    Ok(())
}

/// Composes a safetensors container under its layout.
pub fn compose_layout(
    records: &[FileRecord],
    layout: &Layout,
    names: &[(String, String)],
    unnamed: Unnamed,
    Ghost(size): Ghost<int>,
) -> (outcome: Result<Composed, ComposeError>)
    requires
        run_length(record_models(records@)) <= u64::MAX,
        rising(layout@.tensors, size),
        layout@.header_end + size <= u64::MAX,
    ensures
        match outcome {
            Ok(composed) => composed_of(record_models(records@), layout@, name_pairs(names@), unnamed)
                == Ok::<ComposedModel, ComposeFault>(composed@) && texts_read_back(
                layout@.tensors,
                selected(tensor_names(layout@.tensors), name_pairs(names@), unnamed)->Ok_0,
            ),
            Err(e) => composed_of(record_models(records@), layout@, name_pairs(names@), unnamed) == Err::<
                ComposedModel,
                ComposeFault,
            >(e@) && !(e is Plan),
        },
{
    let ghost models = record_models(records@);
    let tensors = names_of(layout);
    let kept = select(&tensors, names, unnamed)?;
    let ghost chosen = kept_models(kept@);
    check_names(&kept)?;
    let head = head_of(layout, &kept, Ghost(size));
    let mut composed = Composed::new();
    composed.add_new(&head);
    let mut k: usize = 0;
    while k < kept.len()
        invariant
            k <= kept@.len(),
            chosen == kept_models(kept@),
            models == record_models(records@),
            run_length(models) <= u64::MAX,
            rising(layout@.tensors, size),
            layout@.header_end + size <= u64::MAX,
            in_source_order(chosen, layout@.tensors.len() as int),
            with_tensors(models, layout@, chosen, k as int) == Ok::<ComposedModel, ComposeFault>(
                composed@,
            ),
            selected(tensor_names(layout@.tensors), name_pairs(names@), unnamed) == Ok::<
                Seq<Kept>,
                ComposeFault,
            >(chosen),
            unusable_at(chosen, 0) >= chosen.len(),
            texts_read_back(layout@.tensors, chosen),
        decreases kept@.len() - k,
    {
        assert(chosen[k as int] == (kept@[k as int].0@, kept@[k as int].1 as int));
        let place = kept[k].1;
        proof {
            assert(layout@.tensors[place as int] == layout.tensors@[place as int]@);
            assert(layout@.tensors[place as int].start <= layout@.tensors[place as int].end);
        }
        let tensor = &layout.tensors[place];
        match inherit(records, layout.header_end + tensor.start, tensor.end - tensor.start) {
            None => {
                proof {
                    tensors_fault_stays(models, layout@, chosen, k + 1, chosen.len() as int);
                }
                return Err(ComposeError::NotObjectAligned(tensor.name.clone()));
            },
            Some(taken) => {
                composed.extend(taken);
            },
        }
        k += 1;
    }
    Ok(composed)
}

proof fn tensors_fault_stays(
    records: Seq<RecordModel>,
    layout: LayoutModel,
    kept: Seq<Kept>,
    low: int,
    high: int,
)
    requires
        0 <= low <= high,
        with_tensors(records, layout, kept, low) is Err,
    ensures
        with_tensors(records, layout, kept, high) == with_tensors(records, layout, kept, low),
    decreases high - low,
{
    if low < high {
        tensors_fault_stays(records, layout, kept, low, high - 1);
    }
}

pub(crate) proof fn layout_rises(content: Seq<u8>)
    ensures
        layout_of(content) matches Some(layout) ==> rising(
            layout.tensors,
            content.len() - layout.header_end,
        ),
{
    layout_fills_the_file(content);
    if let Some(layout) = layout_of(content) {
        filled_is_rising(layout.tensors, content.len() - layout.header_end);
    }
}

/// Composes the safetensors container that a source stands for.
pub fn compose_safetensors<S: ByteSource + ?Sized>(
    source: &S,
    records: &[FileRecord],
    names: &[(String, String)],
    unnamed: Unnamed,
) -> (outcome: Result<Composed, ComposeError>)
    requires
        run_length(record_models(records@)) <= u64::MAX,
    ensures
        match outcome {
            Err(ComposeError::Plan(PlanError::ResourceExhausted)) => source.steady()
                ==> takes_memory(source.content()),
            Err(ComposeError::Plan(_)) => !source.reliable(),
            Err(e) => source.steady() ==> safetensors_composition(
                source.content(),
                record_models(records@),
                name_pairs(names@),
                unnamed,
            ) == Err::<ComposedModel, ComposeFault>(e@),
            Ok(composed) => source.steady() ==> safetensors_composition(
                source.content(),
                record_models(records@),
                name_pairs(names@),
                unnamed,
            ) == Ok::<ComposedModel, ComposeFault>(composed@) && reads_as_composed(
                source.content(),
                name_pairs(names@),
                unnamed,
            ),
        },
{
    let size: u64 = source.len();
    match read_layout(source) {
        Err(e) => Err(ComposeError::Plan(e)),
        Ok(None) => Err(ComposeError::Unreadable(TensorFormat::SafetensorsV1)),
        Ok(Some(layout)) => {
            proof {
                filled_is_rising(layout@.tensors, size - layout@.header_end);
            }
            let composed = compose_layout(
                records,
                &layout,
                names,
                unnamed,
                Ghost(size - layout@.header_end),
            )?;
            proof {
                let content = source.content();
                let tensors = layout@.tensors;
                let kept = selected(tensor_names(tensors), name_pairs(names@), unnamed)->Ok_0;
                assert forall|file: Seq<u8>|
                    source.steady() && #[trigger] is_composed(tensors, kept, file) implies layout_of(
                    file,
                ) == Some(recomposed(tensors, kept)) by {
                    a_composed_safetensors_reads_back(content, name_pairs(names@), unnamed, file);
                }
            }
            Ok(composed)
        },
    }
}

/// The composition of a safetensors container.
pub open spec fn safetensors_composition(
    content: Seq<u8>,
    records: Seq<RecordModel>,
    names: Seq<(Seq<char>, Seq<char>)>,
    unnamed: Unnamed,
) -> Result<ComposedModel, ComposeFault> {
    match layout_of(content) {
        None => Err(ComposeFault::Unreadable(TensorFormat::SafetensorsV1)),
        Some(layout) => composed_of(records, layout, names, unnamed),
    }
}

} // verus!
