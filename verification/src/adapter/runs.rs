//! The byte runs of a file, by the role each carries.

use crate::contract::{governing, Contract, ContractModel};
use crate::fusion::{run_sum, FusionRun, Permute, PermuteModel, RunModel};
use crate::pattern::{captured, instantiated};
use crate::planner::{inventory_models, InventoryModel, InventoryTensor, TensorInventory};
use crate::sort::{byte_strings, in_order, keys_have_an_order, sort_stably, stable_order};
use crate::text::{bytes_less, chars_of, same_chars};
use vstd::prelude::*;
use vstd::string::*;
use vstd::utf8::encode_utf8;

verus! {

/// Why a layout cannot be read off, or not derived in this vocabulary.
#[derive(Debug, PartialEq, Eq)]
pub enum AdapterError {
    /// The source file does not implement the source contract.
    SourceMismatch,
    /// Two source tensors carry one role.
    TwiceCarried { role: String },
    /// A run is not a whole number of rows.
    PartialRows { role: String },
    /// A tensor would concatenate runs re-arranged differently.
    MixedPermutes { name: String },
    /// A tensor is re-arranged on both sides.
    TwoPermutes { name: String },
}

/// The value of an [`AdapterError`].
pub enum FaultModel {
    SourceMismatch,
    TwiceCarried { role: Seq<char> },
    PartialRows { role: Seq<char> },
    MixedPermutes { name: Seq<char> },
    TwoPermutes { name: Seq<char> },
}

impl View for AdapterError {
    type V = FaultModel;

    open spec fn view(&self) -> FaultModel {
        match self {
            AdapterError::SourceMismatch => FaultModel::SourceMismatch,
            AdapterError::TwiceCarried { role } => FaultModel::TwiceCarried { role: role@ },
            AdapterError::PartialRows { role } => FaultModel::PartialRows { role: role@ },
            AdapterError::MixedPermutes { name } => FaultModel::MixedPermutes { name: name@ },
            AdapterError::TwoPermutes { name } => FaultModel::TwoPermutes { name: name@ },
        }
    }
}

/// One contiguous byte run of the source file, identified by the role it
/// carries rather than by the tensor it lives in.
#[derive(Debug, PartialEq, Eq)]
pub struct SourceRun {
    pub(super) role: String,
    pub(super) tensor: String,
    pub(super) dtype: String,
    pub(super) permute: Option<Permute>,
    pub(super) offset: u64,
    pub(super) length: u64,
    pub(super) rows: u64,
    pub(super) row_shape: Vec<u64>,
    pub(super) whole: bool,
}

/// The value of a [`SourceRun`].
#[verifier::ext_equal]
pub struct SourceModel {
    pub role: Seq<char>,
    pub tensor: Seq<char>,
    pub dtype: Seq<char>,
    /// The re-arrangement that the source layout applies to this role.
    pub permute: Option<PermuteModel>,
    /// The offset within the file.
    pub offset: u64,
    pub length: u64,
    /// The rows of the outermost axis that this run covers.
    pub rows: u64,
    /// The shape of one row.
    pub row_shape: Seq<u64>,
    /// Whether this run is all of its tensor.
    pub whole: bool,
}

/// The value of an optional permute.
pub open spec fn permute_model(permute: Option<Permute>) -> Option<PermuteModel> {
    match permute {
        Some(permute) => Some(permute@),
        None => None,
    }
}

impl View for SourceRun {
    type V = SourceModel;

    closed spec fn view(&self) -> SourceModel {
        SourceModel {
            role: self.role@,
            tensor: self.tensor@,
            dtype: self.dtype@,
            permute: permute_model(self.permute),
            offset: self.offset,
            length: self.length,
            rows: self.rows,
            row_shape: self.row_shape@,
            whole: self.whole,
        }
    }
}

/// The values of runs.
pub open spec fn source_models(runs: Seq<SourceRun>) -> Seq<SourceModel> {
    runs.map_values(|run: SourceRun| run@)
}

pub fn clone_permute(permute: &Option<Permute>) -> (copy: Option<Permute>)
    ensures
        permute_model(copy) == permute_model(*permute),
{
    match permute {
        Some(permute) => Some(permute.clone()),
        None => None,
    }
}

impl Clone for SourceRun {
    fn clone(&self) -> (copy: Self)
        ensures
            copy@ == self@,
    {
        let copy = SourceRun {
            role: self.role.clone(),
            tensor: self.tensor.clone(),
            dtype: self.dtype.clone(),
            permute: clone_permute(&self.permute),
            offset: self.offset,
            length: self.length,
            rows: self.rows,
            row_shape: vstd::slice::slice_to_vec(&self.row_shape),
            whole: self.whole,
        };
        assert(copy@ =~= self@);
        copy
    }
}

impl SourceRun {
    pub fn role(&self) -> (role: &str)
        ensures
            role@ == self@.role,
    {
        self.role.as_str()
    }

    pub fn tensor(&self) -> (tensor: &str)
        ensures
            tensor@ == self@.tensor,
    {
        self.tensor.as_str()
    }

    pub fn dtype(&self) -> (dtype: &str)
        ensures
            dtype@ == self@.dtype,
    {
        self.dtype.as_str()
    }

    pub fn permute(&self) -> (permute: Option<&Permute>)
        ensures
            match permute {
                Some(p) => self@.permute == Some(p@),
                None => self@.permute is None,
            },
    {
        self.permute.as_ref()
    }

    pub fn offset(&self) -> (offset: u64)
        ensures
            offset == self@.offset,
    {
        self.offset
    }

    pub fn length(&self) -> (length: u64)
        ensures
            length == self@.length,
    {
        self.length
    }

    pub fn rows(&self) -> (rows: u64)
        ensures
            rows == self@.rows,
    {
        self.rows
    }

    pub fn row_shape(&self) -> (row_shape: &[u64])
        ensures
            row_shape@ == self@.row_shape,
    {
        &self.row_shape
    }

    /// Whether this run is all of its tensor.
    pub fn is_whole(&self) -> (yes: bool)
        ensures
            yes == self@.whole,
    {
        self.whole
    }
}

/// The bytes of one row of a tensor's outermost axis.
pub open spec fn row_bytes(tensor: InventoryModel) -> u64 {
    if tensor.shape.len() == 0 || tensor.shape[0] == 0 {
        tensor.length
    } else {
        tensor.length / tensor.shape[0]
    }
}

/// The shape of one row.
pub open spec fn row_shape(shape: Seq<u64>) -> Seq<u64> {
    if shape.len() == 0 {
        shape
    } else {
        shape.skip(1)
    }
}

/// One part of a tensor as a source run.
pub open spec fn part_run(
    tensor: InventoryModel,
    permute: Option<PermuteModel>,
    role: Seq<char>,
    offset: int,
    length: u64,
) -> Result<SourceModel, FaultModel> {
    let row = row_bytes(tensor);
    if row == 0 || length % row != 0 {
        Err(FaultModel::PartialRows { role })
    } else {
        Ok(
            SourceModel {
                role,
                tensor: tensor.name,
                dtype: tensor.dtype,
                permute,
                offset: offset as u64,
                length,
                rows: length / row,
                row_shape: row_shape(tensor.shape),
                whole: length == tensor.length,
            },
        )
    }
}

/// Whether a run of that role is among others.
pub open spec fn carries(runs: Seq<SourceModel>, role: Seq<char>) -> bool {
    exists|i: int| 0 <= i < runs.len() && (#[trigger] runs[i]).role == role
}

/// The runs found, with the first `upto` parts of one more tensor.
pub open spec fn with_parts(
    found: Seq<SourceModel>,
    tensor: InventoryModel,
    permute: Option<PermuteModel>,
    base: Seq<char>,
    parts: Seq<RunModel>,
    upto: int,
) -> Result<Seq<SourceModel>, FaultModel>
    decreases upto,
{
    if upto <= 0 {
        Ok(found)
    } else {
        match with_parts(found, tensor, permute, base, parts, upto - 1) {
            Err(fault) => Err(fault),
            Ok(runs) => {
                let part = parts[upto - 1];
                let role = base + part.role;
                let offset = tensor.offset + run_sum(parts, upto - 1);
                match part_run(tensor, permute, role, offset, part.length) {
                    Err(fault) => Err(fault),
                    Ok(run) => if carries(runs, role) {
                        Err(FaultModel::TwiceCarried { role })
                    } else {
                        Ok(runs.push(run))
                    },
                }
            },
        }
    }
}

/// The declared parts of a tensor: its runs, or the whole as one.
pub open spec fn parts_of(contract: ContractModel, tensor: InventoryModel) -> Seq<RunModel> {
    match contract.runs_of(tensor.name, tensor.shape, tensor.length) {
        Some(runs) => runs,
        None => seq![RunModel { role: Seq::empty(), length: tensor.length }],
    }
}

/// The runs of the first `upto` tensors, by the roles that the contract gives.
pub open spec fn runs_upto(
    contract: ContractModel,
    tensors: Seq<InventoryModel>,
    upto: int,
) -> Result<Seq<SourceModel>, FaultModel>
    decreases upto,
{
    if upto <= 0 {
        Ok(Seq::empty())
    } else {
        match runs_upto(contract, tensors, upto - 1) {
            Err(fault) => Err(fault),
            Ok(found) => {
                let tensor = tensors[upto - 1];
                let at = governing(contract.tensors, tensor.name);
                if at >= contract.tensors.len() {
                    Ok(found)
                } else {
                    let entry = contract.tensors[at];
                    let values = captured(entry.pattern, tensor.name).unwrap();
                    match instantiated(entry.role, values) {
                        None => Err(FaultModel::SourceMismatch),
                        Some(base) => {
                            let parts = parts_of(contract, tensor);
                            with_parts(
                                found,
                                tensor,
                                entry.permute,
                                base,
                                parts,
                                parts.len() as int,
                            )
                        },
                    }
                }
            },
        }
    }
}

/// The UTF-8 bytes of the runs' roles.
pub open spec fn role_keys(runs: Seq<SourceModel>) -> Seq<Seq<u8>> {
    runs.map_values(|run: SourceModel| encode_utf8(run.role))
}

/// The runs in order of their roles.
pub open spec fn by_role(runs: Seq<SourceModel>) -> Seq<SourceModel> {
    in_order(role_keys(runs)).map_values(|at: usize| runs[at as int])
}

/// Runs in strictly rising order of their roles.
pub open spec fn rising_roles(runs: Seq<SourceModel>) -> bool {
    forall|i: int, j: int|
        0 <= i < j < runs.len() ==> bytes_less(
            encode_utf8((#[trigger] runs[i]).role),
            encode_utf8((#[trigger] runs[j]).role),
        )
}

/// No two runs have one role.
pub open spec fn distinct_roles(runs: Seq<SourceModel>) -> bool {
    forall|i: int, j: int|
        0 <= i < j < runs.len() ==> (#[trigger] runs[i]).role != (#[trigger] runs[j]).role
}

/// The runs of a file in order of their roles.
pub open spec fn runs_of_file(contract: ContractModel, tensors: Seq<InventoryModel>) -> Result<
    Seq<SourceModel>,
    FaultModel,
> {
    match runs_upto(contract, tensors, tensors.len() as int) {
        Err(fault) => Err(fault),
        Ok(found) => Ok(by_role(found)),
    }
}

proof fn parts_keep_roles_distinct(
    found: Seq<SourceModel>,
    tensor: InventoryModel,
    permute: Option<PermuteModel>,
    base: Seq<char>,
    parts: Seq<RunModel>,
    upto: int,
)
    requires
        distinct_roles(found),
        0 <= upto <= parts.len(),
    ensures
        with_parts(found, tensor, permute, base, parts, upto) matches Ok(runs)
            ==> distinct_roles(runs),
    decreases upto,
{
    if upto > 0 {
        parts_keep_roles_distinct(found, tensor, permute, base, parts, upto - 1);
        if let Ok(runs) = with_parts(found, tensor, permute, base, parts, upto - 1) {
            if let Ok(after) = with_parts(found, tensor, permute, base, parts, upto) {
                assert forall|i: int, j: int| 0 <= i < j < after.len() implies (
                #[trigger] after[i]).role != (#[trigger] after[j]).role by {
                    if j == runs.len() {
                        assert(runs[i].role != after[j].role);
                    }
                }
            }
        }
    }
}

pub(super) proof fn found_roles_are_distinct(
    contract: ContractModel,
    tensors: Seq<InventoryModel>,
    upto: int,
)
    requires
        0 <= upto <= tensors.len(),
    ensures
        runs_upto(contract, tensors, upto) matches Ok(runs) ==> distinct_roles(runs),
    decreases upto,
{
    if upto > 0 {
        found_roles_are_distinct(contract, tensors, upto - 1);
        if let Ok(found) = runs_upto(contract, tensors, upto - 1) {
            let tensor = tensors[upto - 1];
            let at = governing(contract.tensors, tensor.name);
            if at < contract.tensors.len() {
                let entry = contract.tensors[at];
                let values = captured(entry.pattern, tensor.name).unwrap();
                if let Some(base) = instantiated(entry.role, values) {
                    let parts = parts_of(contract, tensor);
                    parts_keep_roles_distinct(
                        found,
                        tensor,
                        entry.permute,
                        base,
                        parts,
                        parts.len() as int,
                    );
                }
            }
        }
    }
}

/// Sorting runs of distinct roles makes their roles rise.
proof fn sorted_roles_rise(runs: Seq<SourceModel>, order: Seq<usize>)
    requires
        distinct_roles(runs),
        stable_order(role_keys(runs), order),
    ensures
        rising_roles(order.map_values(|at: usize| runs[at as int])),
{
    let keys = role_keys(runs);
    let sorted = order.map_values(|at: usize| runs[at as int]);
    assert forall|i: int, j: int| 0 <= i < j < sorted.len() implies bytes_less(
        encode_utf8((#[trigger] sorted[i]).role),
        encode_utf8((#[trigger] sorted[j]).role),
    ) by {
        let x = order[i] as int;
        let y = order[j] as int;
        assert(crate::sort::stands_before(keys, x, y));
        assert(keys[x] == encode_utf8(runs[x].role) && keys[y] == encode_utf8(runs[y].role));
        if !bytes_less(keys[x], keys[y]) {
            crate::tfm1::tree::same_encoding(runs[x].role, runs[y].role);
            assert(runs[x].role != runs[y].role);
        }
    }
}

/// The runs of a file are those that its tensors are cut into, in strictly
/// rising order of their roles: no role stands twice, and none is lost.
pub proof fn runs_stand_in_role_order(
    contract: ContractModel,
    tensors: Seq<InventoryModel>,
    run: SourceModel,
)
    requires
        runs_upto(contract, tensors, tensors.len() as int) matches Ok(found) ==> found.len()
            <= usize::MAX,
    ensures
        match (
            runs_of_file(contract, tensors),
            runs_upto(contract, tensors, tensors.len() as int),
        ) {
            (Ok(runs), Ok(found)) => {
                &&& rising_roles(runs)
                &&& distinct_roles(runs)
                &&& runs.len() == found.len()
                &&& runs.contains(run) <==> found.contains(run)
            },
            (Err(a), Err(b)) => a == b,
            _ => false,
        },
{
    if let Ok(found) = runs_upto(contract, tensors, tensors.len() as int) {
        found_roles_are_distinct(contract, tensors, tensors.len() as int);
        let order = keys_have_an_order(role_keys(found));
        sorted_roles_rise(found, order);
        let runs = by_role(found);
        rising_roles_are_distinct(runs);
        if runs.contains(run) {
            let i = choose|i: int| 0 <= i < runs.len() && runs[i] == run;
            assert(found[order[i] as int] == run);
        }
        if found.contains(run) {
            let i = choose|i: int| 0 <= i < found.len() && found[i] == run;
            assert(order.contains(i as usize));
            let k = choose|k: int| 0 <= k < order.len() && order[k] == i as usize;
            assert(runs[k] == run);
        }
    }
}

pub(super) proof fn rising_roles_are_distinct(runs: Seq<SourceModel>)
    requires
        rising_roles(runs),
    ensures
        distinct_roles(runs),
{
    assert forall|i: int, j: int| 0 <= i < j < runs.len() implies (#[trigger] runs[i]).role != (
    #[trigger] runs[j]).role by {
        crate::text::bytes_less_irreflexive(encode_utf8(runs[i].role));
    }
}

/// Every extent ends within 64 bits.
pub open spec fn extents_fit(tensors: Seq<InventoryModel>) -> bool {
    forall|i: int|
        0 <= i < tensors.len() ==> (#[trigger] tensors[i]).offset + tensors[i].length <= u64::MAX
}

fn find_role(runs: &Vec<SourceRun>, role: &str) -> (at: Option<usize>)
    ensures
        match at {
            Some(i) => i < runs@.len() && source_models(runs@)[i as int].role == role@,
            None => !carries(source_models(runs@), role@),
        },
{
    let ghost models = source_models(runs@);
    let wanted = chars_of(role);
    let mut at: usize = 0;
    while at < runs.len()
        invariant
            at <= runs@.len(),
            wanted@ == role@,
            models == source_models(runs@),
            forall|i: int| 0 <= i < at ==> (#[trigger] models[i]).role != role@,
        decreases runs@.len() - at,
    {
        assert(models[at as int] == runs@[at as int]@);
        if same_chars(&chars_of(runs[at].role()), &wanted) {
            return Some(at);
        }
        at += 1;
    }
    None
}

/// The run of a role.
pub fn run_of<'a>(runs: &'a Vec<SourceRun>, role: &str) -> (run: Option<&'a SourceRun>)
    ensures
        match run {
            Some(r) => source_models(runs@).contains(r@) && r@.role == role@,
            None => !carries(source_models(runs@), role@),
        },
{
    match find_role(runs, role) {
        Some(at) => {
            assert(source_models(runs@)[at as int] == runs@[at as int]@);
            Some(&runs[at])
        },
        None => None,
    }
}

fn source_run(tensor: &InventoryTensor, permute: Option<&Permute>, role: String, offset: u64, length: u64) -> (run:
    Result<SourceRun, AdapterError>)
    ensures
        ({
            let expected = part_run(
                tensor@,
                match permute {
                    Some(p) => Some(p@),
                    None => None,
                },
                role@,
                offset as int,
                length,
            );
            match run {
                Ok(r) => expected == Ok::<SourceModel, FaultModel>(r@),
                Err(e) => expected == Err::<SourceModel, FaultModel>(e@),
            }
        }),
{
    let shape = tensor.shape();
    let row: u64 = if shape.len() == 0 || shape[0] == 0 {
        tensor.length()
    } else {
        tensor.length() / shape[0]
    };
    if row == 0 || length % row != 0 {
        return Err(AdapterError::PartialRows { role });
    }
    let row_shape: Vec<u64> = if shape.len() == 0 {
        Vec::new()
    } else {
        vstd::slice::slice_to_vec(vstd::slice::slice_subrange(shape, 1, shape.len()))
    };
    assert(row_shape@ =~= self::row_shape(shape@));
    let copy = match permute {
        Some(permute) => Some(permute.clone()),
        None => None,
    };
    let run = SourceRun {
        role,
        tensor: tensor.name().to_string(),
        dtype: tensor.dtype().to_string(),
        permute: copy,
        offset,
        length,
        rows: length / row,
        row_shape,
        whole: length == tensor.length(),
    };
    Ok(run)
}

proof fn part_fault_stays(
    found: Seq<SourceModel>,
    tensor: InventoryModel,
    permute: Option<PermuteModel>,
    base: Seq<char>,
    parts: Seq<RunModel>,
    low: int,
    high: int,
)
    requires
        0 <= low <= high,
        with_parts(found, tensor, permute, base, parts, low) is Err,
    ensures
        with_parts(found, tensor, permute, base, parts, high) == with_parts(
            found,
            tensor,
            permute,
            base,
            parts,
            low,
        ),
    decreases high - low,
{
    if low < high {
        part_fault_stays(found, tensor, permute, base, parts, low, high - 1);
    }
}

proof fn fault_stays(
    contract: ContractModel,
    tensors: Seq<InventoryModel>,
    low: int,
    high: int,
)
    requires
        0 <= low <= high,
        runs_upto(contract, tensors, low) is Err,
    ensures
        runs_upto(contract, tensors, high) == runs_upto(contract, tensors, low),
    decreases high - low,
{
    if low < high {
        fault_stays(contract, tensors, low, high - 1);
    }
}

proof fn run_sum_grows(parts: Seq<RunModel>, low: int, high: int)
    requires
        low <= high,
    ensures
        run_sum(parts, low) <= run_sum(parts, high),
    decreases high - low,
{
    if low < high {
        run_sum_grows(parts, low, high - 1);
    }
}

/// Adds the parts of one tensor to the runs found.
fn add_parts(
    runs: &mut Vec<SourceRun>,
    tensor: &InventoryTensor,
    permute: Option<&Permute>,
    base: &String,
    parts: &Vec<FusionRun>,
) -> (outcome: Result<(), AdapterError>)
    requires
        run_sum(parts@.map_values(|part: FusionRun| part@), parts@.len() as int) == tensor@.length,
        tensor@.offset + tensor@.length <= u64::MAX,
    ensures
        ({
            let models = parts@.map_values(|part: FusionRun| part@);
            let expected = with_parts(
                source_models(old(runs)@),
                tensor@,
                match permute {
                    Some(p) => Some(p@),
                    None => None,
                },
                base@,
                models,
                models.len() as int,
            );
            match outcome {
                Ok(_) => expected == Ok::<Seq<SourceModel>, FaultModel>(
                    source_models(final(runs)@),
                ),
                Err(e) => expected == Err::<Seq<SourceModel>, FaultModel>(e@),
            }
        }),
{
    let ghost found = source_models(runs@);
    let ghost models = parts@.map_values(|part: FusionRun| part@);
    let ghost permuted = match permute {
        Some(p) => Some(p@),
        None => None,
    };
    let ghost n = models.len() as int;
    let mut offset: u64 = tensor.offset();
    let mut at: usize = 0;
    while at < parts.len()
        invariant
            at <= parts@.len(),
            models == parts@.map_values(|part: FusionRun| part@),
            n == models.len(),
            found == source_models(old(runs)@),
            permuted == match permute {
                Some(p) => Some(p@),
                None => None,
            },
            run_sum(models, n) == tensor@.length,
            tensor@.offset + tensor@.length <= u64::MAX,
            offset == tensor@.offset + run_sum(models, at as int),
            with_parts(found, tensor@, permuted, base@, models, at as int) == Ok::<
                Seq<SourceModel>,
                FaultModel,
            >(source_models(runs@)),
        decreases parts@.len() - at,
    {
        let part = &parts[at];
        proof {
            assert(models[at as int] == part@);
            if with_parts(found, tensor@, permuted, base@, models, at + 1) is Err {
                part_fault_stays(found, tensor@, permuted, base@, models, at + 1, n);
            }
            run_sum_grows(models, at + 1, n);
        }
        let mut role = base.clone();
        role.append(part.role());
        let name = role.clone();
        let run = source_run(tensor, permute, role, offset, part.length())?;
        if find_role(runs, name.as_str()).is_some() {
            return Err(AdapterError::TwiceCarried { role: name });
        }
        let ghost before = source_models(runs@);
        let ghost model = run@;
        runs.push(run);
        assert(source_models(runs@) =~= before.push(model));
        offset = offset + part.length();
        at += 1;
    }
    Ok(())
}

/// Puts runs in order of their roles.
fn sort_runs(runs: Vec<SourceRun>) -> (sorted: Vec<SourceRun>)
    requires
        distinct_roles(source_models(runs@)),
    ensures
        source_models(sorted@) == by_role(source_models(runs@)),
        rising_roles(source_models(sorted@)),
        sorted@.len() == runs@.len(),
{
    let ghost models = source_models(runs@);
    let mut keys: Vec<Vec<u8>> = Vec::new();
    let mut at: usize = 0;
    while at < runs.len()
        invariant
            at <= runs@.len(),
            models == source_models(runs@),
            keys@.len() == at,
            forall|i: int| 0 <= i < at ==> (#[trigger] keys@[i])@ == encode_utf8(models[i].role),
        decreases runs@.len() - at,
    {
        let run = &runs[at];
        assert(models[at as int] == run@);
        keys.push(vstd::slice::slice_to_vec(run.role().as_bytes()));
        at += 1;
    }
    assert(byte_strings(keys@) =~= role_keys(models));
    let order = sort_stably(&keys);
    let mut sorted: Vec<SourceRun> = Vec::new();
    let mut place: usize = 0;
    while place < order.len()
        invariant
            place <= order@.len(),
            models == source_models(runs@),
            stable_order(role_keys(models), order@),
            sorted@.len() == place,
            forall|i: int|
                0 <= i < place ==> (#[trigger] sorted@[i])@ == models[order@[i] as int],
        decreases order@.len() - place,
    {
        assert(order@[place as int] < role_keys(models).len());
        let run = &runs[order[place]];
        assert(models[order@[place as int] as int] == run@);
        sorted.push(run.clone());
        place += 1;
    }
    assert(source_models(sorted@) =~= order@.map_values(|at: usize| models[at as int]));
    proof {
        sorted_roles_rise(models, order@);
    }
    sorted
}

/// Every byte run of a file, by the role the source contract gives it, in rising
/// order of the roles.
///
/// A tensor that is not cut is one run under its bare role; a cut one is one run
/// for each declared part, under the role and the part's suffix. Two contracts
/// that describe the same weights agree on these strings, whatever they call the
/// tensors.
pub fn role_runs(contract: &Contract, inventory: &TensorInventory) -> (runs: Result<
    Vec<SourceRun>,
    AdapterError,
>)
    requires
        contract.wf(),
        extents_fit(inventory_models(inventory.tensors@)),
    ensures
        ({
            let expected = runs_of_file(contract@, inventory_models(inventory.tensors@));
            match runs {
                Ok(r) => expected == Ok::<Seq<SourceModel>, FaultModel>(source_models(r@))
                    && rising_roles(source_models(r@)) && distinct_roles(source_models(r@)),
                Err(e) => expected == Err::<Seq<SourceModel>, FaultModel>(e@),
            }
        }),
{
    let ghost tensors = inventory_models(inventory.tensors@);
    let ghost n = tensors.len() as int;
    let mut runs: Vec<SourceRun> = Vec::new();
    let mut at: usize = 0;
    assert(source_models(runs@) =~= Seq::<SourceModel>::empty());
    while at < inventory.tensors.len()
        invariant
            at <= inventory.tensors@.len(),
            contract.wf(),
            tensors == inventory_models(inventory.tensors@),
            n == tensors.len(),
            extents_fit(tensors),
            runs_upto(contract@, tensors, at as int) == Ok::<Seq<SourceModel>, FaultModel>(
                source_models(runs@),
            ),
        decreases inventory.tensors@.len() - at,
    {
        let tensor = &inventory.tensors[at];
        proof {
            assert(tensors[at as int] == tensor@);
            if runs_upto(contract@, tensors, at + 1) is Err {
                fault_stays(contract@, tensors, at + 1, n);
            }
        }
        if let Some(entry) = contract.entry_for(tensor.name()) {
            proof {
                governing_captures(contract@, tensor@.name);
            }
            let values = match entry.pattern().captures(tensor.name()) {
                Some(values) => values,
                None => {
                    return Err(AdapterError::SourceMismatch);
                },
            };
            let base = match entry.role().instantiate(&values) {
                Some(base) => base,
                None => {
                    return Err(AdapterError::SourceMismatch);
                },
            };
            let parts: Vec<FusionRun> = match contract.runs_of(
                tensor.name(),
                tensor.shape(),
                tensor.length(),
            ) {
                Some(parts) => {
                    proof {
                        declared_runs_tile(contract@, tensor@);
                    }
                    parts
                },
                None => {
                    let mut whole: Vec<FusionRun> = Vec::new();
                    whole.push(FusionRun::whole(tensor.length()));
                    proof {
                        let models = whole@.map_values(|part: FusionRun| part@);
                        assert(models =~= parts_of(contract@, tensor@));
                        reveal_with_fuel(run_sum, 2);
                    }
                    whole
                },
            };
            add_parts(&mut runs, tensor, entry.permute(), &base, &parts)?;
        }
        at += 1;
    }
    proof {
        found_roles_are_distinct(contract@, tensors, n);
    }
    let sorted = sort_runs(runs);
    proof {
        rising_roles_are_distinct(source_models(sorted@));
    }
    Ok(sorted)
}

proof fn governing_captures(contract: ContractModel, name: Seq<char>)
    ensures
        ({
            let at = governing(contract.tensors, name);
            at < contract.tensors.len() ==> captured(contract.tensors[at].pattern, name) is Some
        }),
{
    governing_captures_from(contract, name, 0);
}

proof fn governing_captures_from(contract: ContractModel, name: Seq<char>, from: int)
    ensures
        ({
            let at = crate::contract::governing_from(contract.tensors, name, from);
            at < contract.tensors.len() ==> captured(contract.tensors[at].pattern, name) is Some
        }),
    decreases contract.tensors.len() - from,
{
    if from < contract.tensors.len() && captured(contract.tensors[from].pattern, name) is None {
        governing_captures_from(contract, name, from + 1);
    }
}

pub proof fn declared_runs_tile(contract: ContractModel, tensor: InventoryModel)
    requires
        contract.runs_of(tensor.name, tensor.shape, tensor.length) is Some,
    ensures
        ({
            let runs = contract.runs_of(tensor.name, tensor.shape, tensor.length).unwrap();
            run_sum(runs, runs.len() as int) == tensor.length
        }),
{
    let at = governing(contract.tensors, tensor.name);
    let fusion = contract.tensors[at].fusion.unwrap();
    crate::fusion::runs_tile_the_tensor(fusion, tensor.shape, tensor.length);
}

} // verus!
