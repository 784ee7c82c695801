//! Seam descriptors: the declarative input that directs chunking.
//!
//! A document here describes where a fused tensor's seams fall and which named
//! sets of tensors are removable, so the chunker can cut a fused packaging and
//! its split twin into the same data objects. Seams never move bytes: they only
//! add cut points inside a fused tensor's own extent.

use crate::fusion::{
    dim_of, run_sum, runs_tile_the_tensor, FusionModel, PartModel, PermuteModel, RunModel,
};
use crate::planner::{InventoryTensor, TensorInventory};
use crate::pattern::{captured, hole_count, is_pattern};
use crate::text::{
    array_of_32, bytes_less, chars_of, decimal, decimal_round_trip, digit, first_index, first_index_facts, hex,
    is_digit, is_lower, last_index, last_index_is, lower, position_of,
    parse_hex_chars, parse_unsigned, push_decimal, push_hex, same_chars, string_of, unhex,
    unhex_of_hex, unsigned,
};
use crate::trusted::{sha256, sha256_digest};
use vstd::prelude::*;
use vstd::string::*;

pub use crate::fusion::{Dim, Fusion, FusionPart, FusionRun, Permute};
pub use crate::pattern::Pattern;

verus! {

/// Bound on a contract name, so a stamp is a bounded manifest field.
pub const MAX_CONTRACT_NAME_BYTES: usize = 64;

/// Bound on the byte length of one pattern.
pub const MAX_PATTERN_BYTES: usize = 512;

/// The number of UTF-8 bytes of a text.
pub open spec fn byte_len(s: Seq<char>) -> nat {
    vstd::utf8::encode_utf8(s).len()
}

/// Why a contract document, a stamp or a pattern was refused.
#[derive(Debug, PartialEq, Eq)]
pub enum ContractError {
    Json(String),
    Format,
    Name(String),
    Version,
    Identity,
    DigestStamp(String),
    Dtype(String),
    NoTensors,
    Pattern(String),
    Duplicate(String),
    RoleHoles(String),
    Fusion(String),
    Permute(String),
    NamedSet(String),
    DuplicateContract(String),
}

/// The value of a [`ContractError`].
pub enum Refusal {
    Json(Seq<char>),
    Format,
    Name(Seq<char>),
    Version,
    Identity,
    DigestStamp(Seq<char>),
    Dtype(Seq<char>),
    NoTensors,
    Pattern(Seq<char>),
    Duplicate(Seq<char>),
    RoleHoles(Seq<char>),
    Fusion(Seq<char>),
    Permute(Seq<char>),
    NamedSet(Seq<char>),
    DuplicateContract(Seq<char>),
}

impl View for ContractError {
    type V = Refusal;

    open spec fn view(&self) -> Refusal {
        match self {
            ContractError::Json(text) => Refusal::Json(text@),
            ContractError::Format => Refusal::Format,
            ContractError::Name(text) => Refusal::Name(text@),
            ContractError::Version => Refusal::Version,
            ContractError::Identity => Refusal::Identity,
            ContractError::DigestStamp(text) => Refusal::DigestStamp(text@),
            ContractError::Dtype(text) => Refusal::Dtype(text@),
            ContractError::NoTensors => Refusal::NoTensors,
            ContractError::Pattern(text) => Refusal::Pattern(text@),
            ContractError::Duplicate(text) => Refusal::Duplicate(text@),
            ContractError::RoleHoles(text) => Refusal::RoleHoles(text@),
            ContractError::Fusion(text) => Refusal::Fusion(text@),
            ContractError::Permute(text) => Refusal::Permute(text@),
            ContractError::NamedSet(text) => Refusal::NamedSet(text@),
            ContractError::DuplicateContract(text) => Refusal::DuplicateContract(text@),
        }
    }
}

/// The stable kebab-case label of a refusal.
pub open spec fn refusal_label(refusal: Refusal) -> Seq<char> {
    match refusal {
        Refusal::Json(_) => "json"@,
        Refusal::Format => "format"@,
        Refusal::Name(_) => "name"@,
        Refusal::Version => "version"@,
        Refusal::Identity => "identity"@,
        Refusal::DigestStamp(_) => "digest-stamp"@,
        Refusal::Dtype(_) => "dtype"@,
        Refusal::NoTensors => "no-tensors"@,
        Refusal::Pattern(_) => "pattern"@,
        Refusal::Duplicate(_) => "duplicate"@,
        Refusal::RoleHoles(_) => "role-holes"@,
        Refusal::Fusion(_) => "fusion"@,
        Refusal::Permute(_) => "permute"@,
        Refusal::NamedSet(_) => "set"@,
        Refusal::DuplicateContract(_) => "duplicate-contract"@,
    }
}

impl ContractError {
    /// The stable kebab-case label of this refusal.
    pub fn reason(&self) -> (label: &'static str)
        ensures
            label@ == refusal_label(self@),
    {
        match self {
            ContractError::Json(_) => "json",
            ContractError::Format => "format",
            ContractError::Name(_) => "name",
            ContractError::Version => "version",
            ContractError::Identity => "identity",
            ContractError::DigestStamp(_) => "digest-stamp",
            ContractError::Dtype(_) => "dtype",
            ContractError::NoTensors => "no-tensors",
            ContractError::Pattern(_) => "pattern",
            ContractError::Duplicate(_) => "duplicate",
            ContractError::RoleHoles(_) => "role-holes",
            ContractError::Fusion(_) => "fusion",
            ContractError::Permute(_) => "permute",
            ContractError::NamedSet(_) => "set",
            ContractError::DuplicateContract(_) => "duplicate-contract",
        }
    }
}

// ---------------------------------------------------------------------------
// Names, handles and stamps
// ---------------------------------------------------------------------------

pub open spec fn producer_char(c: char) -> bool {
    is_lower(c) || is_digit(c) || c == '-'
}

pub open spec fn format_char(c: char) -> bool {
    is_lower(c) || is_digit(c) || c == '.' || c == '-' || c == '_'
}

/// `<producer>.<format>`, split at the first dot: the producer is lowercase
/// alphanumeric with hyphens and no leading hyphen, the format is lowercase
/// alphanumeric with `.`, `-` and `_` behind an alphanumeric.
pub open spec fn contract_name(name: Seq<char>) -> bool {
    let dot = first_index(name, '.');
    &&& byte_len(name) <= MAX_CONTRACT_NAME_BYTES
    &&& 0 < dot < name.len() - 1
    &&& name[0] != '-'
    &&& forall|i: int| 0 <= i < dot ==> producer_char(#[trigger] name[i])
    &&& (is_lower(name[dot + 1]) || is_digit(name[dot + 1]))
    &&& forall|i: int| dot < i < name.len() ==> format_char(#[trigger] name[i])
}

/// Whether `name` is a usable contract name.
#[verifier::loop_isolation(false)]
pub fn is_contract_name(name: &str) -> (usable: bool)
    ensures
        usable == contract_name(name@),
{
    if name.as_bytes().len() > MAX_CONTRACT_NAME_BYTES {
        return false;
    }
    let chars = chars_of(name);
    let dot = position_of(&chars, '.');
    if dot == 0 || dot >= chars.len() - 1 || chars[0] == '-' {
        return false;
    }
    if !lower(chars[dot + 1]) && !digit(chars[dot + 1]) {
        return false;
    }
    let mut at: usize = 0;
    while at < chars.len()
        invariant
            at <= chars@.len(),
            forall|i: int| 0 <= i < at && i < dot ==> producer_char(#[trigger] chars@[i]),
            forall|i: int| dot < i < at ==> format_char(#[trigger] chars@[i]),
        decreases chars@.len() - at,
    {
        let c = chars[at];
        let plain = lower(c) || digit(c) || c == '-';
        if at < dot && !plain {
            assert(!producer_char(chars@[at as int]));
            return false;
        }
        if at > dot && !plain && c != '.' && c != '_' {
            assert(!format_char(chars@[at as int]));
            return false;
        }
        at += 1;
    }
    true
}

/// The value of a [`Handle`].
#[verifier::ext_equal]
pub struct HandleModel {
    pub name: Seq<char>,
    pub version: u32,
}

/// One validated contract handle: a bounded `<producer>.<format>` name and a
/// version of at least one.
#[derive(Debug, PartialEq, Eq)]
pub struct Handle {
    name: String,
    version: u32,
}

impl View for Handle {
    type V = HandleModel;

    closed spec fn view(&self) -> HandleModel {
        HandleModel { name: self.name@, version: self.version }
    }
}

/// What [`Handle::new`] gives.
pub open spec fn handle_of(name: Seq<char>, version: u32) -> Result<HandleModel, Refusal> {
    if !contract_name(name) {
        Err(Refusal::Name(name))
    } else if version == 0 {
        Err(Refusal::Version)
    } else {
        Ok(HandleModel { name, version })
    }
}

impl HandleModel {
    pub open spec fn wf(self) -> bool {
        contract_name(self.name) && self.version > 0
    }
}

impl Clone for Handle {
    fn clone(&self) -> (copy: Self)
        ensures
            copy@ == self@,
    {
        proof {
            use_type_invariant(self);
        }
        Handle { name: self.name.clone(), version: self.version }
    }
}

impl Handle {
    #[verifier::type_invariant]
    spec fn usable(self) -> bool {
        self@.wf()
    }

    /// A handle is one that [`Handle::new`] gave.
    fn stays_usable(&self)
        ensures
            self@.wf(),
    {
        proof {
            use_type_invariant(self);
        }
    }

    /// Builds a handle, refusing an unusable name and version zero.
    pub fn new(name: &str, version: u32) -> (handle: Result<Self, ContractError>)
        ensures
            match handle {
                Ok(h) => handle_of(name@, version) == Ok::<HandleModel, Refusal>(h@),
                Err(e) => handle_of(name@, version) == Err::<HandleModel, Refusal>(e@),
            },
    {
        if !is_contract_name(name) {
            return Err(ContractError::Name(name.to_owned()));
        }
        if version == 0 {
            return Err(ContractError::Version);
        }
        Ok(Handle { name: name.to_owned(), version })
    }

    pub fn name(&self) -> (name: &str)
        ensures
            name@ == self@.name,
    {
        self.name.as_str()
    }

    pub fn version(&self) -> (version: u32)
        ensures
            version == self@.version,
    {
        self.version
    }
}

/// Which contract directed one file's chunking: none, a named one, or a custom
/// one identified by the digest of its canonical rendering.
#[derive(Debug, PartialEq, Eq)]
pub enum Stamp {
    Absent,
    Named(Handle),
    Digest([u8; 32]),
}

/// The value of a [`Stamp`].
pub enum StampModel {
    Absent,
    Named(HandleModel),
    Digest(Seq<u8>),
}

impl View for Stamp {
    type V = StampModel;

    open spec fn view(&self) -> StampModel {
        match self {
            Stamp::Absent => StampModel::Absent,
            Stamp::Named(handle) => StampModel::Named(handle@),
            Stamp::Digest(digest) => StampModel::Digest(digest@),
        }
    }
}

impl StampModel {
    /// A stamp that the constructors give: a usable handle or a whole digest.
    pub open spec fn wf(self) -> bool {
        match self {
            StampModel::Absent => true,
            StampModel::Named(handle) => handle.wf(),
            StampModel::Digest(digest) => digest.len() == 32,
        }
    }
}

/// The display form: `none`, `name@version` or `sha256:<64 hex digits>`.
pub open spec fn stamp_spelling(stamp: StampModel) -> Seq<char> {
    match stamp {
        StampModel::Absent => "none"@,
        StampModel::Named(handle) => handle.name + "@"@ + decimal(handle.version as nat),
        StampModel::Digest(digest) => "sha256:"@ + hex(digest),
    }
}

/// What reading a display form gives.
pub open spec fn stamp_of(text: Seq<char>) -> Result<StampModel, Refusal> {
    if text == "none"@ {
        Ok(StampModel::Absent)
    } else if "sha256:"@.is_prefix_of(text) {
        match unhex(text.skip(7)) {
            Some(digest) => if digest.len() == 32 {
                Ok(StampModel::Digest(digest))
            } else {
                Err(Refusal::DigestStamp(text))
            },
            None => Err(Refusal::DigestStamp(text)),
        }
    } else {
        let at = last_index(text, '@');
        if at < 0 {
            Err(Refusal::Name(text))
        } else {
            match unsigned(text.skip(at + 1), u32::MAX as nat) {
                None => Err(Refusal::Version),
                Some(version) => match handle_of(text.take(at), version as u32) {
                    Ok(handle) => Ok(StampModel::Named(handle)),
                    Err(refusal) => Err(refusal),
                },
            }
        }
    }
}

/// Reading back a stamp's display form gives the stamp.
pub proof fn stamp_round_trip(stamp: StampModel)
    requires
        stamp.wf(),
    ensures
        stamp_of(stamp_spelling(stamp)) == Ok::<StampModel, Refusal>(stamp),
{
    reveal_strlit("none");
    reveal_strlit("sha256:");
    reveal_strlit("@");
    let text = stamp_spelling(stamp);
    match stamp {
        StampModel::Absent => {},
        StampModel::Named(handle) => {
            let name = handle.name;
            let number = decimal(handle.version as nat);
            decimal_round_trip(handle.version as nat);
            first_index_facts(name, '.');
            let dot = first_index(name, '.');
            assert(text[dot] == '.');
            assert(text != "none"@) by {
                if text == "none"@ {
                    assert(text.len() == 4);
                    assert(text[0] == 'n' && text[1] == 'o' && text[2] == 'n' && text[3] == 'e');
                }
            }
            assert(!"sha256:"@.is_prefix_of(text)) by {
                if "sha256:"@.is_prefix_of(text) {
                    assert(text.take(7) == "sha256:"@);
                    assert(forall|i: int| 0 <= i < 7 ==> text.take(7)[i] == text[i]);
                    assert(forall|i: int| 0 <= i < 7 ==> text[i] == "sha256:"@[i]);
                    if name.len() > 6 {
                        assert(text[6] == name[6]);
                        assert("sha256:"@[6] == ':');
                        assert(producer_char(name[6]) || format_char(name[6]) || 6 == dot);
                    } else if name.len() == 6 {
                        assert(text[6] == '@');
                    } else {
                        assert(dot < 6);
                        assert("sha256:"@[dot] != '.');
                    }
                }
            }
            let at = name.len() as int;
            assert(text[at] == '@');
            assert forall|i: int| at < i < text.len() implies text[i] != '@' by {
                assert(text[i] == number[i - at - 1]);
                assert(is_digit(number[i - at - 1]));
            }
            last_index_is(text, '@', at);
            assert(text.take(at) =~= name);
            assert(text.skip(at + 1) =~= number);
            assert(number[0] != '+') by {
                assert(is_digit(number[0]));
            }
        },
        StampModel::Digest(digest) => {
            assert(text[0] == 's');
            assert("none"@[0] == 'n');
            assert(text.skip(7) =~= hex(digest));
            unhex_of_hex(digest);
        },
    }
}

fn is_text(chars: &Vec<char>, literal: &str) -> (same: bool)
    ensures
        same == (chars@ == literal@),
{
    let other = chars_of(literal);
    same_chars(chars, &other)
}

impl Clone for Stamp {
    fn clone(&self) -> (copy: Self)
        ensures
            copy@ == self@,
    {
        match self {
            Stamp::Absent => Stamp::Absent,
            Stamp::Named(handle) => Stamp::Named(handle.clone()),
            Stamp::Digest(digest) => Stamp::Digest(*digest),
        }
    }
}

impl Default for Stamp {
    fn default() -> (stamp: Self)
        ensures
            stamp@ is Absent,
    {
        Stamp::Absent
    }
}

impl Stamp {
    /// A stamp holds a usable handle or a whole digest.
    pub fn stays_usable(&self)
        ensures
            self@.wf(),
    {
        if let Stamp::Named(handle) = self {
            handle.stays_usable();
        }
    }

    /// Builds a named stamp, refusing what no handle may carry.
    pub fn named(name: &str, version: u32) -> (stamp: Result<Self, ContractError>)
        ensures
            match stamp {
                Ok(s) => s@ is Named && handle_of(name@, version) == Ok::<HandleModel, Refusal>(
                    s@->Named_0,
                ),
                Err(e) => handle_of(name@, version) == Err::<HandleModel, Refusal>(e@),
            },
    {
        match Handle::new(name, version) {
            Ok(handle) => Ok(Stamp::Named(handle)),
            Err(error) => Err(error),
        }
    }

    /// Parses the display form.
    #[verifier::loop_isolation(false)]
    pub fn parse(text: &str) -> (stamp: Result<Self, ContractError>)
        ensures
            match stamp {
                Ok(s) => stamp_of(text@) == Ok::<StampModel, Refusal>(s@) && s@.wf(),
                Err(e) => stamp_of(text@) == Err::<StampModel, Refusal>(e@),
            },
    {
        let chars = chars_of(text);
        if is_text(&chars, "none") {
            return Ok(Stamp::Absent);
        }
        proof {
            reveal_strlit("sha256:");
        }
        let tag = chars_of("sha256:");
        if chars.len() >= 7 && same_chars(vstd::slice::slice_subrange(&chars, 0, 7), &tag) {
            let digits = vstd::slice::slice_subrange(&chars, 7, chars.len());
            proof {
                assert(digits@ =~= text@.skip(7));
                assert("sha256:"@.is_prefix_of(text@)) by {
                    assert(text@.subrange(0, 7) =~= "sha256:"@);
                }
            }
            if let Some(bytes) = parse_hex_chars(digits) {
                if bytes.len() == 32 {
                    let digest = array_of_32(&bytes);
                    return Ok(Stamp::Digest(digest));
                }
            }
            return Err(ContractError::DigestStamp(text.to_owned()));
        }
        proof {
            if "sha256:"@.is_prefix_of(text@) {
                assert(text@.subrange(0, 7) =~= "sha256:"@);
            }
        }
        let mut at: usize = chars.len();
        while at > 0 && chars[at - 1] != '@'
            invariant
                at <= chars@.len(),
                forall|i: int| at <= i < chars@.len() ==> chars@[i] != '@',
            decreases at,
        {
            at -= 1;
        }
        proof {
            last_index_is(text@, '@', at - 1);
        }
        if at == 0 {
            return Err(ContractError::Name(text.to_owned()));
        }
        let number = vstd::slice::slice_subrange(&chars, at, chars.len());
        proof {
            assert(number@ =~= text@.skip(at as int));
        }
        match parse_unsigned(number) {
            Some(version) if version <= u32::MAX as u64 => {
                let name = string_of(vstd::slice::slice_subrange(&chars, 0, at - 1));
                proof {
                    assert(name@ =~= text@.take(at - 1));
                }
                Stamp::named(name.as_str(), version as u32)
            },
            _ => Err(ContractError::Version),
        }
    }

    pub fn is_none(&self) -> (none: bool)
        ensures
            none == (self@ is Absent),
    {
        match self {
            Stamp::Absent => true,
            _ => false,
        }
    }

    pub fn name(&self) -> (name: Option<&str>)
        ensures
            match name {
                Some(n) => self@ is Named && n@ == self@->Named_0.name,
                None => !(self@ is Named),
            },
    {
        match self {
            Stamp::Named(handle) => Some(handle.name()),
            _ => None,
        }
    }

    /// The version of a named stamp; zero for the other arms.
    pub fn version(&self) -> (version: u32)
        ensures
            version == if self@ is Named {
                self@->Named_0.version
            } else {
                0
            },
    {
        match self {
            Stamp::Named(handle) => handle.version(),
            _ => 0,
        }
    }

    /// The digest of a custom contract's stamp.
    pub fn digest(&self) -> (digest: Option<&[u8; 32]>)
        ensures
            match digest {
                Some(d) => self@ == StampModel::Digest(d@),
                None => !(self@ is Digest),
            },
    {
        match self {
            Stamp::Digest(digest) => Some(digest),
            _ => None,
        }
    }

    /// The display form.
    pub fn to_text(&self) -> (text: String)
        ensures
            text@ == stamp_spelling(self@),
    {
        let mut text = String::new();
        match self {
            Stamp::Absent => {
                text.append("none");
            },
            Stamp::Named(handle) => {
                text.append(handle.name());
                text.append("@");
                push_decimal(&mut text, handle.version() as u64);
            },
            Stamp::Digest(digest) => {
                text.append("sha256:");
                push_hex(&mut text, digest);
            },
        }
        assert(text@ =~= stamp_spelling(self@));
        text
    }
}

// ---------------------------------------------------------------------------
// The contract
// ---------------------------------------------------------------------------

/// The one contract document format tag.
pub const CONTRACT_FORMAT: &'static str = "tensorfs-contract-v1";

/// The smallest byte run a declared seam may produce. It decides chunk
/// boundaries, so it is part of snapshot identity.
pub const MIN_SEAM_PART_BYTES: u64 = 1048576;

/// One declared tensor family inside a contract.
#[derive(Debug, PartialEq, Eq)]
pub struct TensorPattern {
    role: Pattern,
    pattern: Pattern,
    dtypes: Vec<String>,
    rank: Option<usize>,
    required: bool,
    fusion: Option<Fusion>,
    permute: Option<Permute>,
}

/// The value of a [`TensorPattern`].
#[verifier::ext_equal]
pub struct TensorModel {
    pub role: Seq<char>,
    pub pattern: Seq<char>,
    pub dtypes: Seq<Seq<char>>,
    pub rank: Option<usize>,
    pub required: bool,
    pub fusion: Option<FusionModel>,
    pub permute: Option<PermuteModel>,
}

/// The texts of a list of strings.
pub open spec fn texts(list: Seq<String>) -> Seq<Seq<char>> {
    list.map_values(|text: String| text@)
}

impl View for TensorPattern {
    type V = TensorModel;

    closed spec fn view(&self) -> TensorModel {
        TensorModel {
            role: self.role@,
            pattern: self.pattern@,
            dtypes: texts(self.dtypes@),
            rank: self.rank,
            required: self.required,
            fusion: match self.fusion {
                Some(fusion) => Some(fusion@),
                None => None,
            },
            permute: match self.permute {
                Some(permute) => Some(permute@),
                None => None,
            },
        }
    }
}

impl TensorModel {
    /// The element type is among the declared ones, where any are, and the
    /// number of axes is the declared one, where one is.
    pub open spec fn accepts(self, dtype: Seq<char>, shape: Seq<u64>) -> bool {
        &&& (self.dtypes.len() > 0 ==> self.dtypes.contains(dtype))
        &&& (self.rank matches Some(rank) ==> rank == shape.len())
    }
}

impl TensorPattern {
    pub closed spec fn wf(&self) -> bool {
        self.role.wf() && self.pattern.wf()
    }

    pub fn role(&self) -> (role: &Pattern)
        requires
            self.wf(),
        ensures
            role@ == self@.role,
            role.wf(),
    {
        &self.role
    }

    pub fn pattern(&self) -> (pattern: &Pattern)
        requires
            self.wf(),
        ensures
            pattern@ == self@.pattern,
            pattern.wf(),
    {
        &self.pattern
    }

    /// The accepted element-type spellings; empty accepts any.
    pub fn dtypes(&self) -> (dtypes: &[String])
        ensures
            texts(dtypes@) == self@.dtypes,
    {
        &self.dtypes
    }

    /// The declared number of axes.
    pub fn rank(&self) -> (rank: Option<usize>)
        ensures
            rank == self@.rank,
    {
        self.rank
    }

    /// Whether a file must carry this declaration to implement the contract.
    pub fn is_required(&self) -> (required: bool)
        ensures
            required == self@.required,
    {
        self.required
    }

    pub fn fusion(&self) -> (fusion: Option<&Fusion>)
        ensures
            match fusion {
                Some(f) => self@.fusion == Some(f@),
                None => self@.fusion is None,
            },
    {
        self.fusion.as_ref()
    }

    /// How this layout re-arranges the role's canonical element order.
    pub fn permute(&self) -> (permute: Option<&Permute>)
        ensures
            match permute {
                Some(p) => self@.permute == Some(p@),
                None => self@.permute is None,
            },
    {
        self.permute.as_ref()
    }

    pub fn accepts(&self, dtype: &str, shape: &[u64]) -> (yes: bool)
        ensures
            yes == self@.accepts(dtype@, shape@),
    {
        if let Some(rank) = self.rank {
            if rank != shape.len() {
                return false;
            }
        }
        if self.dtypes.len() == 0 {
            return true;
        }
        lists(&self.dtypes, dtype)
    }
}

/// Whether `text` is in the list.
pub fn lists(list: &Vec<String>, text: &str) -> (yes: bool)
    ensures
        yes == texts(list@).contains(text@),
{
    let wanted = text.to_owned();
    let mut at: usize = 0;
    while at < list.len()
        invariant
            at <= list@.len(),
            wanted@ == text@,
            forall|i: int| 0 <= i < at ==> (#[trigger] list@[i])@ != text@,
        decreases list@.len() - at,
    {
        if list[at] == wanted {
            assert(texts(list@)[at as int] == text@);
            return true;
        }
        at += 1;
    }
    proof {
        assert forall|i: int| 0 <= i < texts(list@).len() implies texts(list@)[i] != text@ by {
            assert(list@[i]@ != text@);
        }
    }
    false
}

/// One named set of removable tensors.
#[derive(Debug, PartialEq, Eq)]
struct NamedSet {
    name: String,
    members: Vec<Pattern>,
}

/// The value of one named set.
#[verifier::ext_equal]
pub struct SetModel {
    pub name: Seq<char>,
    pub members: Seq<Seq<char>>,
}

impl View for NamedSet {
    type V = SetModel;

    closed spec fn view(&self) -> SetModel {
        SetModel {
            name: self.name@,
            members: self.members@.map_values(|pattern: Pattern| pattern@),
        }
    }
}

/// Names that rise by their UTF-8 bytes, none occurring twice.
pub open spec fn rising_names(names: Seq<Seq<char>>) -> bool {
    forall|i: int, j: int|
        0 <= i < j < names.len() ==> bytes_less(
            vstd::utf8::encode_utf8(#[trigger] names[i]),
            vstd::utf8::encode_utf8(#[trigger] names[j]),
        )
}

/// A layout contract: versioned and named, or anonymous and identified by its
/// digest alone.
#[derive(Debug, PartialEq, Eq)]
pub struct Contract {
    handle: Option<Handle>,
    description: String,
    dtype: Option<String>,
    tensors: Vec<TensorPattern>,
    sets: Vec<NamedSet>,
}

/// The value of a [`Contract`].
#[verifier::ext_equal]
pub struct ContractModel {
    pub handle: Option<HandleModel>,
    pub description: Seq<char>,
    pub dtype: Option<Seq<char>>,
    pub tensors: Seq<TensorModel>,
    pub sets: Seq<SetModel>,
}

impl View for Contract {
    type V = ContractModel;

    closed spec fn view(&self) -> ContractModel {
        ContractModel {
            handle: match self.handle {
                Some(handle) => Some(handle@),
                None => None,
            },
            description: self.description@,
            dtype: match self.dtype {
                Some(dtype) => Some(dtype@),
                None => None,
            },
            tensors: self.tensors@.map_values(|tensor: TensorPattern| tensor@),
            sets: self.sets@.map_values(|set: NamedSet| set@),
        }
    }
}

/// The index of the first declaration at or behind `from` whose pattern is
/// `name`, or the number of declarations.
pub open spec fn governing_from(tensors: Seq<TensorModel>, name: Seq<char>, from: int) -> int
    decreases tensors.len() - from,
{
    if from >= tensors.len() || captured(tensors[from].pattern, name) is Some {
        from
    } else {
        governing_from(tensors, name, from + 1)
    }
}

/// The index of the declaration governing a tensor name: the first that matches.
pub open spec fn governing(tensors: Seq<TensorModel>, name: Seq<char>) -> int {
    governing_from(tensors, name, 0)
}

impl ContractModel {
    /// A contract that validation gives.
    pub open spec fn wf(self) -> bool {
        &&& rising_names(self.sets.map_values(|set: SetModel| set.name))
        &&& (self.handle matches Some(handle) ==> handle.wf())
        &&& self.tensors.len() > 0
        &&& forall|i: int| 0 <= i < self.tensors.len() ==> is_pattern((#[trigger] self.tensors[i]).role)
        &&& forall|i: int| 0 <= i < self.tensors.len() ==> is_pattern((#[trigger] self.tensors[i]).pattern)
        &&& forall|i: int|
            0 <= i < self.tensors.len() ==> ((#[trigger] self.tensors[i]).fusion matches Some(fusion)
                ==> fusion.has_distinct_parts())
    }

    /// The declared byte runs of one tensor, when it is cut: the governing
    /// declaration has a fusion, the fusion applies, and no run is below the
    /// seam floor.
    pub open spec fn runs_of(self, name: Seq<char>, shape: Seq<u64>, byte_length: u64) -> Option<
        Seq<RunModel>,
    > {
        let at = governing(self.tensors, name);
        if at >= self.tensors.len() {
            None
        } else {
            match self.tensors[at].fusion {
                None => None,
                Some(fusion) => match fusion.runs(shape, byte_length) {
                    None => None,
                    Some(runs) => if forall|i: int|
                        0 <= i < runs.len() ==> (#[trigger] runs[i]).length >= MIN_SEAM_PART_BYTES {
                        Some(runs)
                    } else {
                        None
                    },
                },
            }
        }
    }

    /// The seam cut points inside one tensor: where its runs but the last end.
    pub open spec fn seams(self, name: Seq<char>, shape: Seq<u64>, byte_length: u64) -> Seq<u64> {
        match self.runs_of(name, shape, byte_length) {
            None => Seq::empty(),
            Some(runs) => Seq::new(
                (runs.len() - 1) as nat,
                |i: int| run_sum(runs, i + 1) as u64,
            ),
        }
    }
}

/// The index of the first set at or behind `from` of that name, or the number
/// of sets.
pub open spec fn set_named(sets: Seq<SetModel>, name: Seq<char>, from: int) -> int
    decreases sets.len() - from,
{
    if from >= sets.len() || sets[from].name == name {
        from
    } else {
        set_named(sets, name, from + 1)
    }
}

pub(crate) proof fn set_named_is_first(sets: Seq<SetModel>, name: Seq<char>, from: int)
    requires
        0 <= from <= sets.len(),
    ensures
        ({
            let found = set_named(sets, name, from);
            &&& from <= found <= sets.len()
            &&& found < sets.len() ==> sets[found].name == name
            &&& forall|i: int| from <= i < found ==> (#[trigger] sets[i]).name != name
        }),
    decreases sets.len() - from,
{
    if from < sets.len() && sets[from].name != name {
        set_named_is_first(sets, name, from + 1);
    }
}

pub(crate) proof fn governing_is_inside(tensors: Seq<TensorModel>, name: Seq<char>)
    ensures
        0 <= governing(tensors, name) <= tensors.len(),
{
    governing_from_is_inside(tensors, name, 0);
}

proof fn governing_from_is_inside(tensors: Seq<TensorModel>, name: Seq<char>, from: int)
    requires
        0 <= from <= tensors.len(),
    ensures
        from <= governing_from(tensors, name, from) <= tensors.len(),
    decreases tensors.len() - from,
{
    if from < tensors.len() {
        governing_from_is_inside(tensors, name, from + 1);
    }
}

/// The lengths of the first runs of a tensor come to no more than its own.
pub(crate) proof fn run_sums_fit(runs: Seq<RunModel>, upto: int, byte_length: u64)
    requires
        0 <= upto <= runs.len(),
        run_sum(runs, runs.len() as int) == byte_length,
    ensures
        run_sum(runs, upto) <= byte_length,
{
    run_sum_reaches(runs, upto, runs.len() as int);
}

proof fn run_sum_reaches(runs: Seq<RunModel>, low: int, high: int)
    requires
        low <= high,
    ensures
        run_sum(runs, low) <= run_sum(runs, high),
    decreases high - low,
{
    if low < high {
        run_sum_reaches(runs, low, high - 1);
    }
}

/// Whether a name is one of the patterns.
pub open spec fn matches_any(patterns: Seq<Seq<char>>, name: Seq<char>) -> bool {
    exists|i: int| 0 <= i < patterns.len() && captured(#[trigger] patterns[i], name) is Some
}

/// Those of the first `upto` names that are one of the patterns.
pub open spec fn matching(patterns: Seq<Seq<char>>, names: Seq<Seq<char>>, upto: int) -> Seq<
    Seq<char>,
>
    decreases upto,
{
    if upto <= 0 {
        Seq::empty()
    } else if matches_any(patterns, names[upto - 1]) {
        matching(patterns, names, upto - 1).push(names[upto - 1])
    } else {
        matching(patterns, names, upto - 1)
    }
}

/// The names of a list of tensors.
pub open spec fn names_listed(tensors: Seq<InventoryTensor>) -> Seq<Seq<char>> {
    tensors.map_values(|tensor: InventoryTensor| tensor@.name)
}

impl ContractModel {
    /// Those of the names that belong to the named set, in order.
    pub open spec fn members_of(self, set: Seq<char>, names: Seq<Seq<char>>) -> Seq<Seq<char>> {
        let at = set_named(self.sets, set, 0);
        if at >= self.sets.len() {
            Seq::empty()
        } else {
            matching(self.sets[at].members, names, names.len() as int)
        }
    }
}

fn any_matches(patterns: &Vec<Pattern>, name: &str) -> (yes: bool)
    requires
        forall|i: int| 0 <= i < patterns@.len() ==> (#[trigger] patterns@[i]).wf(),
    ensures
        yes == matches_any(patterns@.map_values(|pattern: Pattern| pattern@), name@),
{
    let ghost texts = patterns@.map_values(|pattern: Pattern| pattern@);
    let mut at: usize = 0;
    while at < patterns.len()
        invariant
            at <= patterns@.len(),
            texts == patterns@.map_values(|pattern: Pattern| pattern@),
            forall|i: int| 0 <= i < patterns@.len() ==> (#[trigger] patterns@[i]).wf(),
            forall|i: int| 0 <= i < at ==> captured(#[trigger] texts[i], name@) is None,
        decreases patterns@.len() - at,
    {
        assert(texts[at as int] == patterns@[at as int]@);
        if patterns[at].matches(name) {
            return true;
        }
        at += 1;
    }
    false
}

/// Cut points that rise strictly between the ends of an extent.
pub open spec fn rising_within(cuts: Seq<u64>, length: u64) -> bool {
    &&& forall|i: int| 0 <= i < cuts.len() ==> 0 < #[trigger] cuts[i] < length
    &&& forall|i: int, j: int| 0 <= i < j < cuts.len() ==> #[trigger] cuts[i] < #[trigger] cuts[j]
}

proof fn run_sum_rises(runs: Seq<RunModel>, low: int, high: int)
    requires
        0 <= low <= high <= runs.len(),
        forall|i: int| 0 <= i < runs.len() ==> (#[trigger] runs[i]).length > 0,
    ensures
        run_sum(runs, low) <= run_sum(runs, high),
        low < high ==> run_sum(runs, low) < run_sum(runs, high),
    decreases high - low,
{
    if low < high {
        run_sum_rises(runs, low, high - 1);
        assert(runs[high - 1].length > 0);
    }
}

/// A contract's cut points fall strictly inside the tensor, in rising order.
pub proof fn seams_fall_inside(
    contract: ContractModel,
    name: Seq<char>,
    shape: Seq<u64>,
    byte_length: u64,
)
    ensures
        rising_within(contract.seams(name, shape, byte_length), byte_length),
{
    if contract.runs_of(name, shape, byte_length) is Some {
        let runs = contract.runs_of(name, shape, byte_length).unwrap();
        let fusion = contract.tensors[governing(contract.tensors, name)].fusion.unwrap();
        runs_tile_the_tensor(fusion, shape, byte_length);
        let cuts = contract.seams(name, shape, byte_length);
        assert forall|i: int| 0 <= i < runs.len() implies (#[trigger] runs[i]).length > 0 by {
            assert(runs[i].length >= MIN_SEAM_PART_BYTES);
        }
        assert forall|i: int| 0 <= i < cuts.len() implies 0 < #[trigger] cuts[i] < byte_length by {
            run_sum_rises(runs, 0, i + 1);
            run_sum_rises(runs, i + 1, runs.len() as int);
        }
        assert forall|i: int, j: int| 0 <= i < j < cuts.len() implies #[trigger] cuts[i]
            < #[trigger] cuts[j] by {
            run_sum_rises(runs, i + 1, j + 1);
            run_sum_rises(runs, j + 1, runs.len() as int);
        }
    }
}

impl Contract {
    pub closed spec fn wf(&self) -> bool {
        &&& self@.wf()
        &&& forall|i: int| 0 <= i < self.tensors@.len() ==> (#[trigger] self.tensors@[i]).wf()
        &&& forall|i: int, j: int|
            0 <= i < self.sets@.len() && 0 <= j < self.sets@[i].members@.len()
                ==> (#[trigger] self.sets@[i].members@[j]).wf()
    }

    /// The library name, or `None` for an anonymous custom.
    pub fn name(&self) -> (name: Option<&str>)
        ensures
            match name {
                Some(n) => self@.handle matches Some(handle) && n@ == handle.name,
                None => self@.handle is None,
            },
    {
        match &self.handle {
            Some(handle) => Some(handle.name()),
            None => None,
        }
    }

    /// The library version; zero for an anonymous custom.
    pub fn version(&self) -> (version: u32)
        ensures
            version == match self@.handle {
                Some(handle) => handle.version,
                None => 0,
            },
    {
        match &self.handle {
            Some(handle) => handle.version(),
            None => 0,
        }
    }

    pub fn description(&self) -> (description: &str)
        ensures
            description@ == self@.description,
    {
        self.description.as_str()
    }

    /// The optional top-level load dtype.
    pub fn dtype(&self) -> (dtype: Option<&str>)
        ensures
            match dtype {
                Some(d) => self@.dtype == Some(d@),
                None => self@.dtype is None,
            },
    {
        match &self.dtype {
            Some(dtype) => Some(dtype.as_str()),
            None => None,
        }
    }

    pub fn tensors(&self) -> (tensors: &[TensorPattern])
        requires
            self.wf(),
        ensures
            tensors@.map_values(|tensor: TensorPattern| tensor@) == self@.tensors,
            forall|i: int| 0 <= i < tensors@.len() ==> (#[trigger] tensors@[i]).wf(),
    {
        &self.tensors
    }

    /// The declared entry governing a tensor name: the first whose pattern
    /// matches.
    pub fn entry_for(&self, name: &str) -> (entry: Option<&TensorPattern>)
        requires
            self.wf(),
        ensures
            ({
                let at = governing(self@.tensors, name@);
                match entry {
                    Some(e) => 0 <= at < self@.tensors.len() && e@ == self@.tensors[at] && e.wf(),
                    None => at == self@.tensors.len(),
                }
            }),
    {
        let mut at: usize = 0;
        while at < self.tensors.len()
            invariant
                self.wf(),
                at <= self.tensors@.len(),
                governing(self@.tensors, name@) == governing_from(self@.tensors, name@, at as int),
            decreases self.tensors@.len() - at,
        {
            let tensor = &self.tensors[at];
            assert(self@.tensors[at as int] == tensor@);
            if tensor.pattern.matches(name) {
                return Some(tensor);
            }
            at += 1;
        }
        None
    }

    /// The declared byte runs of one tensor, or `None` when it is not cut.
    pub fn runs_of(&self, name: &str, shape: &[u64], byte_length: u64) -> (runs: Option<
        Vec<FusionRun>,
    >)
        requires
            self.wf(),
        ensures
            match runs {
                Some(r) => self@.runs_of(name@, shape@, byte_length) == Some(
                    r@.map_values(|run: FusionRun| run@),
                ),
                None => self@.runs_of(name@, shape@, byte_length) is None,
            },
    {
        let entry = match self.entry_for(name) {
            Some(entry) => entry,
            None => {
                return None;
            },
        };
        let fusion = match &entry.fusion {
            Some(fusion) => fusion,
            None => {
                return None;
            },
        };
        let runs = match fusion.runs(shape, byte_length) {
            Some(runs) => runs,
            None => {
                return None;
            },
        };
        let ghost models = runs@.map_values(|run: FusionRun| run@);
        let mut at: usize = 0;
        while at < runs.len()
            invariant
                at <= runs@.len(),
                models == runs@.map_values(|run: FusionRun| run@),
                forall|i: int| 0 <= i < at ==> (#[trigger] models[i]).length >= MIN_SEAM_PART_BYTES,
                fusion@.runs(shape@, byte_length) == Some(models),
                ({
                    let g = governing(self@.tensors, name@);
                    0 <= g < self@.tensors.len() && self@.tensors[g].fusion == Some(fusion@)
                }),
            decreases runs@.len() - at,
        {
            assert(models[at as int] == runs@[at as int]@);
            if runs[at].length < MIN_SEAM_PART_BYTES {
                return None;
            }
            at += 1;
        }
        Some(runs)
    }

    /// The seam cut points inside one tensor, as byte offsets relative to the
    /// tensor's own start, excluding zero and the tensor's length.
    pub fn seam_offsets(&self, name: &str, shape: &[u64], byte_length: u64) -> (cuts: Vec<u64>)
        requires
            self.wf(),
        ensures
            cuts@ == self@.seams(name@, shape@, byte_length),
            rising_within(cuts@, byte_length),
    {
        let mut cuts: Vec<u64> = Vec::new();
        proof {
            seams_fall_inside(self@, name@, shape@, byte_length);
        }
        let runs = match self.runs_of(name, shape, byte_length) {
            Some(runs) => runs,
            None => {
                assert(cuts@ =~= self@.seams(name@, shape@, byte_length));
                return cuts;
            },
        };
        let ghost models = runs@.map_values(|run: FusionRun| run@);
        proof {
            let fusion = self@.tensors[governing(self@.tensors, name@)].fusion.unwrap();
            runs_tile_the_tensor(fusion, shape@, byte_length);
            assert forall|i: int| 0 <= i < models.len() implies (#[trigger] models[i]).length
                > 0 by {
                assert(models[i].length >= MIN_SEAM_PART_BYTES);
            }
        }
        let mut cursor: u64 = 0;
        let mut at: usize = 0;
        while at < runs.len() - 1
            invariant
                at <= runs@.len() - 1,
                models == runs@.map_values(|run: FusionRun| run@),
                forall|i: int| 0 <= i < models.len() ==> (#[trigger] models[i]).length > 0,
                run_sum(models, models.len() as int) == byte_length,
                cursor == run_sum(models, at as int),
                cuts@.len() == at,
                forall|i: int| 0 <= i < at ==> #[trigger] cuts@[i] == run_sum(models, i + 1),
            decreases runs@.len() - at,
        {
            proof {
                run_sum_rises(models, at + 1, models.len() as int);
                assert(models[at as int] == runs@[at as int]@);
            }
            cursor = cursor + runs[at].length;
            cuts.push(cursor);
            at += 1;
        }
        proof {
            assert(cuts@ =~= self@.seams(name@, shape@, byte_length));
        }
        cuts
    }

    /// The tensors of `inventory` that belong to the named set, in file order.
    #[verifier::loop_isolation(false)]
    pub fn set_members<'a>(&self, set: &str, inventory: &'a TensorInventory) -> (members: Vec<
        &'a str,
    >)
        requires
            self.wf(),
        ensures
            members@.map_values(|name: &str| name@) == self@.members_of(
                set@,
                names_listed(inventory.tensors@),
            ),
    {
        let wanted = set.to_owned();
        let ghost names = names_listed(inventory.tensors@);
        let mut members: Vec<&'a str> = Vec::new();
        let mut at: usize = 0;
        while at < self.sets.len() && !(self.sets[at].name == wanted)
            invariant
                at <= self.sets@.len(),
                wanted@ == set@,
                set_named(self@.sets, set@, 0) == set_named(self@.sets, set@, at as int),
            decreases self.sets@.len() - at,
        {
            assert(self@.sets[at as int] == self.sets@[at as int]@);
            at += 1;
        }
        if at == self.sets.len() {
            assert(members@.map_values(|name: &str| name@) =~= Seq::<Seq<char>>::empty());
            return members;
        }
        assert(self@.sets[at as int] == self.sets@[at as int]@);
        let patterns = &self.sets[at].members;
        let ghost texts = self@.sets[at as int].members;
        let mut next: usize = 0;
        assert(members@.map_values(|name: &str| name@) =~= matching(texts, names, 0));
        while next < inventory.tensors.len()
            invariant
                next <= inventory.tensors@.len(),
                members@.map_values(|name: &str| name@) == matching(texts, names, next as int),
            decreases inventory.tensors@.len() - next,
        {
            let name = inventory.tensors[next].name();
            assert(names[next as int] == name@);
            let ghost before = members@.map_values(|name: &str| name@);
            if any_matches(patterns, name) {
                members.push(name);
                assert(members@.map_values(|name: &str| name@) =~= before.push(name@));
            }
            assert(patterns@.map_values(|pattern: Pattern| pattern@) =~= texts);
            next += 1;
        }
        members
    }

    /// The names of the declared sets, in name order.
    pub fn set_names(&self) -> (names: Vec<&str>)
        ensures
            names@.len() == self@.sets.len(),
            forall|i: int| 0 <= i < names@.len() ==> (#[trigger] names@[i])@ == self@.sets[i].name,
    {
        let mut names: Vec<&str> = Vec::new();
        let mut at: usize = 0;
        while at < self.sets.len()
            invariant
                at <= self.sets@.len(),
                names@.len() == at,
                forall|i: int| 0 <= i < at ==> (#[trigger] names@[i])@ == self@.sets[i].name,
            decreases self.sets@.len() - at,
        {
            names.push(self.sets[at].name.as_str());
            at += 1;
        }
        names
    }
}

// ---------------------------------------------------------------------------
// Documents
// ---------------------------------------------------------------------------

/// One dimension of a permute view as a document spells it: a non-negative
/// integer, a string, or anything else.
#[derive(Debug, PartialEq, Eq)]
pub enum RawDim {
    Number(u64),
    Text(String),
    Other,
}

/// The permute declaration of a document.
#[derive(Debug, PartialEq, Eq)]
pub struct RawPermute {
    pub view: Vec<RawDim>,
    pub axes: Vec<usize>,
}

/// One part of a document's fusion declaration.
#[derive(Debug, PartialEq, Eq)]
pub struct RawFusionPart {
    pub role: String,
    pub share: u64,
}

/// The fusion declaration of a document. The axis is declared and checked:
/// only the outermost axis is a byte concatenation.
#[derive(Debug, PartialEq, Eq)]
pub struct RawFusion {
    pub axis: usize,
    pub groups: u64,
    pub parts: Vec<RawFusionPart>,
}

/// One tensor declaration of a document.
#[derive(Debug, PartialEq, Eq)]
pub struct RawTensor {
    pub role: String,
    pub pattern: String,
    pub dtypes: Vec<String>,
    pub rank: Option<usize>,
    pub required: bool,
    pub fusion: Option<RawFusion>,
    pub permute: Option<RawPermute>,
}

/// One named set of a document.
#[derive(Debug, PartialEq, Eq)]
pub struct RawSet {
    pub name: String,
    pub members: Vec<String>,
}

/// A contract document as it was read, before it is validated. The named sets
/// stand in name order.
#[derive(Debug, PartialEq, Eq)]
pub struct RawContract {
    pub format: String,
    pub name: Option<String>,
    pub version: Option<u32>,
    pub description: String,
    pub dtype: Option<String>,
    pub tensors: Vec<RawTensor>,
    pub sets: Vec<RawSet>,
}

/// A lowercase torch-style element-type spelling.
pub open spec fn usable_dtype(dtype: Seq<char>) -> bool {
    &&& dtype.len() > 0
    &&& byte_len(dtype) <= 32
    &&& forall|i: int|
        0 <= i < dtype.len() ==> is_lower(#[trigger] dtype[i]) || is_digit(dtype[i]) || dtype[i]
            == '_'
}

/// A usable fusion: along the outermost axis, of at least two parts or groups,
/// with positive shares and distinct roles, the empty role standing alone.
pub open spec fn usable_fusion(fusion: RawFusion) -> bool {
    let parts = fusion.parts@;
    &&& fusion.axis == 0
    &&& fusion.groups > 0
    &&& parts.len() > 0
    &&& (fusion.groups > 1 || parts.len() > 1)
    &&& forall|i: int| 0 <= i < parts.len() ==> (#[trigger] parts[i]).share > 0
    &&& forall|i: int, j: int|
        0 <= i < j < parts.len() ==> (#[trigger] parts[i]).role@ != (#[trigger] parts[j]).role@
    &&& forall|i: int|
        0 <= i < parts.len() && (#[trigger] parts[i]).role@.len() == 0 ==> parts.len() == 1
}

/// The dimension a document spells.
pub open spec fn raw_dim(dim: RawDim) -> Option<Dim> {
    match dim {
        RawDim::Number(value) => if value > 0 {
            Some(Dim::Literal(value))
        } else {
            None
        },
        RawDim::Text(text) => dim_of(text@),
        RawDim::Other => None,
    }
}

/// Every axis once.
pub open spec fn is_permutation(axes: Seq<usize>) -> bool {
    &&& forall|i: int| 0 <= i < axes.len() ==> #[trigger] axes[i] < axes.len()
    &&& forall|i: int, j: int| 0 <= i < j < axes.len() ==> #[trigger] axes[i] != #[trigger] axes[j]
}

/// The axes in place.
pub open spec fn is_identity(axes: Seq<usize>) -> bool {
    forall|i: int| 0 <= i < axes.len() ==> #[trigger] axes[i] == i
}

/// A usable permute: at least two readable dimensions, and a permutation of
/// them that is not the identity.
pub open spec fn usable_permute(permute: RawPermute) -> bool {
    &&& permute.view@.len() >= 2
    &&& permute.axes@.len() == permute.view@.len()
    &&& is_permutation(permute.axes@)
    &&& !is_identity(permute.axes@)
    &&& forall|i: int| 0 <= i < permute.view@.len() ==> raw_dim(#[trigger] permute.view@[i]) is Some
}

/// Why the `i`th tensor declaration is refused, given the earlier ones.
pub open spec fn tensor_refusal(raws: Seq<RawTensor>, i: int) -> Option<Refusal> {
    let raw = raws[i];
    if !is_pattern(raw.pattern@) {
        Some(Refusal::Pattern(raw.pattern@))
    } else if !is_pattern(raw.role@) {
        Some(Refusal::Pattern(raw.role@))
    } else if hole_count(raw.role@) != hole_count(raw.pattern@) {
        Some(Refusal::RoleHoles(raw.role@))
    } else if exists|j: int| 0 <= j < i && (#[trigger] raws[j]).pattern@ == raw.pattern@ {
        Some(Refusal::Duplicate(raw.pattern@))
    } else if exists|j: int| 0 <= j < i && (#[trigger] raws[j]).role@ == raw.role@ {
        Some(Refusal::Duplicate(raw.role@))
    } else if raw.fusion is Some && !usable_fusion(raw.fusion->Some_0) {
        Some(Refusal::Fusion(raw.pattern@))
    } else if raw.permute is Some && (raw.fusion is Some || !usable_permute(raw.permute->Some_0)) {
        Some(Refusal::Permute(raw.pattern@))
    } else {
        None
    }
}

/// The refusal of the first refused declaration among the first `upto`.
pub open spec fn first_tensor_refusal(raws: Seq<RawTensor>, upto: int) -> Option<Refusal>
    decreases upto,
{
    if upto <= 0 {
        None
    } else {
        match first_tensor_refusal(raws, upto - 1) {
            Some(refusal) => Some(refusal),
            None => tensor_refusal(raws, upto - 1),
        }
    }
}

/// The first member among the first `upto` that is no pattern.
pub open spec fn first_bad_member(members: Seq<String>, upto: int) -> Option<Refusal>
    decreases upto,
{
    if upto <= 0 {
        None
    } else {
        match first_bad_member(members, upto - 1) {
            Some(refusal) => Some(refusal),
            None => if is_pattern(members[upto - 1]@) {
                None
            } else {
                Some(Refusal::Pattern(members[upto - 1]@))
            },
        }
    }
}

/// Why one named set is refused.
pub open spec fn set_refusal(set: RawSet) -> Option<Refusal> {
    if set.members@.len() == 0 {
        Some(Refusal::NamedSet(set.name@))
    } else {
        first_bad_member(set.members@, set.members@.len() as int)
    }
}

/// The refusal of the first refused set among the first `upto`.
pub open spec fn first_set_refusal(sets: Seq<RawSet>, upto: int) -> Option<Refusal>
    decreases upto,
{
    if upto <= 0 {
        None
    } else {
        match first_set_refusal(sets, upto - 1) {
            Some(refusal) => Some(refusal),
            None => set_refusal(sets[upto - 1]),
        }
    }
}

/// The fusion a usable declaration gives.
pub open spec fn fusion_declared(fusion: RawFusion) -> FusionModel {
    FusionModel {
        groups: fusion.groups,
        parts: fusion.parts@.map_values(
            |part: RawFusionPart| PartModel { role: part.role@, share: part.share },
        ),
    }
}

/// The permute a usable declaration gives.
pub open spec fn permute_declared(permute: RawPermute) -> PermuteModel {
    PermuteModel {
        view: permute.view@.map_values(|dim: RawDim| raw_dim(dim).unwrap()),
        axes: permute.axes@,
    }
}

/// The tensor family a usable declaration gives.
pub open spec fn tensor_declared(raw: RawTensor) -> TensorModel {
    TensorModel {
        role: raw.role@,
        pattern: raw.pattern@,
        dtypes: texts(raw.dtypes@),
        rank: raw.rank,
        required: raw.required,
        fusion: match raw.fusion {
            Some(fusion) => Some(fusion_declared(fusion)),
            None => None,
        },
        permute: match raw.permute {
            Some(permute) => Some(permute_declared(permute)),
            None => None,
        },
    }
}

/// The identity a document declares: a name and a version together, or neither.
pub open spec fn declared_handle(raw: RawContract) -> Result<Option<HandleModel>, Refusal> {
    match (raw.name, raw.version) {
        (None, None) => Ok(None),
        (Some(name), Some(version)) => match handle_of(name@, version) {
            Ok(handle) => Ok(Some(handle)),
            Err(refusal) => Err(refusal),
        },
        _ => Err(Refusal::Identity),
    }
}

/// What validating a document gives.
pub open spec fn validated(raw: RawContract) -> Result<ContractModel, Refusal> {
    let dtype = match raw.dtype {
        Some(dtype) => Some(dtype@),
        None => None,
    };
    if raw.format@ != CONTRACT_FORMAT@ {
        Err(Refusal::Format)
    } else if declared_handle(raw) is Err {
        Err(declared_handle(raw)->Err_0)
    } else if dtype is Some && !usable_dtype(dtype.unwrap()) {
        Err(Refusal::Dtype(dtype.unwrap()))
    } else if raw.tensors@.len() == 0 {
        Err(Refusal::NoTensors)
    } else if first_tensor_refusal(raw.tensors@, raw.tensors@.len() as int) is Some {
        Err(first_tensor_refusal(raw.tensors@, raw.tensors@.len() as int).unwrap())
    } else if first_set_refusal(raw.sets@, raw.sets@.len() as int) is Some {
        Err(first_set_refusal(raw.sets@, raw.sets@.len() as int).unwrap())
    } else {
        Ok(
            ContractModel {
                handle: declared_handle(raw)->Ok_0,
                description: raw.description@,
                dtype,
                tensors: raw.tensors@.map_values(|tensor: RawTensor| tensor_declared(tensor)),
                sets: raw.sets@.map_values(
                    |set: RawSet| SetModel { name: set.name@, members: texts(set.members@) },
                ),
            },
        )
    }
}

proof fn first_refusal_stays(raws: Seq<RawTensor>, at: int, upto: int)
    requires
        0 <= at <= upto,
        first_tensor_refusal(raws, at) is Some,
    ensures
        first_tensor_refusal(raws, upto) == first_tensor_refusal(raws, at),
    decreases upto,
{
    if at < upto {
        first_refusal_stays(raws, at, upto - 1);
    }
}

proof fn no_tensor_refusal(raws: Seq<RawTensor>, i: int, upto: int)
    requires
        0 <= i < upto,
        first_tensor_refusal(raws, upto) is None,
    ensures
        tensor_refusal(raws, i) is None,
    decreases upto,
{
    if i < upto - 1 {
        no_tensor_refusal(raws, i, upto - 1);
    }
}

proof fn first_set_refusal_stays(sets: Seq<RawSet>, at: int, upto: int)
    requires
        0 <= at <= upto,
        first_set_refusal(sets, at) is Some,
    ensures
        first_set_refusal(sets, upto) == first_set_refusal(sets, at),
    decreases upto,
{
    if at < upto {
        first_set_refusal_stays(sets, at, upto - 1);
    }
}

proof fn first_bad_member_stays(members: Seq<String>, at: int, upto: int)
    requires
        0 <= at <= upto,
        first_bad_member(members, at) is Some,
    ensures
        first_bad_member(members, upto) == first_bad_member(members, at),
    decreases upto,
{
    if at < upto {
        first_bad_member_stays(members, at, upto - 1);
    }
}

fn dtype_usable(dtype: &str) -> (usable: bool)
    ensures
        usable == usable_dtype(dtype@),
{
    let chars = chars_of(dtype);
    if chars.len() == 0 || dtype.as_bytes().len() > 32 {
        return false;
    }
    let mut at: usize = 0;
    while at < chars.len()
        invariant
            at <= chars@.len(),
            chars@ == dtype@,
            forall|i: int|
                0 <= i < at ==> is_lower(#[trigger] chars@[i]) || is_digit(chars@[i]) || chars@[i]
                    == '_',
        decreases chars@.len() - at,
    {
        let c = chars[at];
        if !lower(c) && !digit(c) && c != '_' {
            assert(!(is_lower(dtype@[at as int]) || is_digit(dtype@[at as int])));
            return false;
        }
        at += 1;
    }
    true
}

fn fusion_usable(fusion: &RawFusion) -> (usable: bool)
    ensures
        usable == usable_fusion(*fusion),
{
    let n = fusion.parts.len();
    if fusion.axis != 0 || fusion.groups == 0 || n == 0 || (fusion.groups == 1 && n < 2) {
        return false;
    }
    let ghost parts = fusion.parts@;
    let mut at: usize = 0;
    while at < n
        invariant
            at <= n,
            n == parts.len(),
            parts == fusion.parts@,
            forall|i: int| 0 <= i < at ==> (#[trigger] parts[i]).share > 0,
            forall|i: int, j: int|
                0 <= i < j < at ==> (#[trigger] parts[i]).role@ != (#[trigger] parts[j]).role@,
            forall|i: int| 0 <= i < at && (#[trigger] parts[i]).role@.len() == 0 ==> n == 1,
        decreases n - at,
    {
        let part = &fusion.parts[at];
        assert(*part == parts[at as int]);
        if part.share == 0 || (part.role.as_str().is_empty() && n > 1) {
            return false;
        }
        let mut earlier: usize = 0;
        while earlier < at
            invariant
                at < n,
                earlier <= at,
                n == parts.len(),
                parts == fusion.parts@,
                *part == parts[at as int],
                forall|i: int| 0 <= i < earlier ==> (#[trigger] parts[i]).role@ != part.role@,
            decreases at - earlier,
        {
            if fusion.parts[earlier].role == part.role {
                assert(parts[earlier as int].role@ == parts[at as int].role@);
                return false;
            }
            earlier += 1;
        }
        at += 1;
    }
    true
}

/// The named axes form a permutation.
fn permutes(axes: &[usize]) -> (yes: bool)
    ensures
        yes == is_permutation(axes@),
{
    let mut at: usize = 0;
    while at < axes.len()
        invariant
            at <= axes@.len(),
            forall|i: int| 0 <= i < at ==> #[trigger] axes@[i] < axes@.len(),
            forall|i: int, j: int|
                0 <= i < j < at ==> #[trigger] axes@[i] != #[trigger] axes@[j],
        decreases axes@.len() - at,
    {
        if axes[at] >= axes.len() {
            return false;
        }
        let mut earlier: usize = 0;
        while earlier < at
            invariant
                at < axes@.len(),
                earlier <= at,
                forall|i: int| 0 <= i < earlier ==> #[trigger] axes@[i] != axes@[at as int],
            decreases at - earlier,
        {
            if axes[earlier] == axes[at] {
                return false;
            }
            earlier += 1;
        }
        at += 1;
    }
    true
}

/// The named axes stand in place.
fn stands_still(axes: &[usize]) -> (yes: bool)
    ensures
        yes == is_identity(axes@),
{
    let mut at: usize = 0;
    while at < axes.len()
        invariant
            at <= axes@.len(),
            forall|i: int| 0 <= i < at ==> #[trigger] axes@[i] == i,
        decreases axes@.len() - at,
    {
        if axes[at] != at {
            return false;
        }
        at += 1;
    }
    true
}

fn declare_permute(raw: &RawPermute) -> (permute: Option<Permute>)
    ensures
        match permute {
            Some(p) => usable_permute(*raw) && p@ == permute_declared(*raw),
            None => !usable_permute(*raw),
        },
{
    if raw.view.len() < 2 || raw.axes.len() != raw.view.len() || !permutes(&raw.axes)
        || stands_still(&raw.axes) {
        return None;
    }
    let mut view: Vec<Dim> = Vec::new();
    let mut at: usize = 0;
    while at < raw.view.len()
        invariant
            at <= raw.view@.len(),
            view@.len() == at,
            forall|i: int| 0 <= i < at ==> raw_dim(#[trigger] raw.view@[i]) == Some(view@[i]),
        decreases raw.view@.len() - at,
    {
        let parsed = match &raw.view[at] {
            RawDim::Number(value) => if *value > 0 {
                Some(Dim::Literal(*value))
            } else {
                None
            },
            RawDim::Text(text) => Dim::parse(text.as_str()),
            RawDim::Other => None,
        };
        match parsed {
            Some(dim) => {
                view.push(dim);
            },
            None => {
                assert(raw_dim(raw.view@[at as int]) is None);
                return None;
            },
        }
        at += 1;
    }
    let permute = Permute { view, axes: vstd::slice::slice_to_vec(&raw.axes) };
    assert(permute@ =~= permute_declared(*raw));
    Some(permute)
}

fn declare_fusion(raw: &RawFusion) -> (fusion: Fusion)
    ensures
        fusion@ == fusion_declared(*raw),
{
    let mut parts: Vec<FusionPart> = Vec::new();
    let mut at: usize = 0;
    while at < raw.parts.len()
        invariant
            at <= raw.parts@.len(),
            parts@.len() == at,
            forall|i: int|
                0 <= i < at ==> (#[trigger] parts@[i])@ == (PartModel {
                    role: raw.parts@[i].role@,
                    share: raw.parts@[i].share,
                }),
        decreases raw.parts@.len() - at,
    {
        let part = &raw.parts[at];
        parts.push(FusionPart { role: part.role.clone(), share: part.share });
        at += 1;
    }
    let fusion = Fusion { groups: raw.groups, parts };
    assert(fusion@ =~= fusion_declared(*raw));
    fusion
}

/// A copy of a list of strings.
pub fn copy_texts(list: &Vec<String>) -> (copy: Vec<String>)
    ensures
        texts(copy@) == texts(list@),
{
    let mut copy: Vec<String> = Vec::new();
    let mut at: usize = 0;
    while at < list.len()
        invariant
            at <= list@.len(),
            copy@.len() == at,
            forall|i: int| 0 <= i < at ==> (#[trigger] copy@[i])@ == list@[i]@,
        decreases list@.len() - at,
    {
        copy.push(list[at].clone());
        at += 1;
    }
    assert(texts(copy@) =~= texts(list@));
    copy
}

/// Validates the `at`th declaration of a document.
fn declare_tensor(raws: &Vec<RawTensor>, at: usize) -> (tensor: Result<TensorPattern, ContractError>)
    requires
        at < raws@.len(),
    ensures
        match tensor {
            Ok(t) => tensor_refusal(raws@, at as int) is None && t.wf() && t@ == tensor_declared(
                raws@[at as int],
            ) && is_pattern(t@.role) && is_pattern(t@.pattern),
            Err(e) => tensor_refusal(raws@, at as int) == Some(e@),
        },
{
    let raw = &raws[at];
    let pattern = match Pattern::parse(raw.pattern.as_str()) {
        Ok(pattern) => pattern,
        Err(error) => {
            return Err(error);
        },
    };
    let role = match Pattern::parse(raw.role.as_str()) {
        Ok(role) => role,
        Err(error) => {
            return Err(error);
        },
    };
    if role.holes() != pattern.holes() {
        return Err(ContractError::RoleHoles(raw.role.clone()));
    }
    let mut same_role = false;
    let mut earlier: usize = 0;
    while earlier < at
        invariant
            earlier <= at,
            at < raws@.len(),
            *raw == raws@[at as int],
            is_pattern(raw.pattern@),
            is_pattern(raw.role@),
            hole_count(raw.role@) == hole_count(raw.pattern@),
            forall|i: int| 0 <= i < earlier ==> (#[trigger] raws@[i]).pattern@ != raw.pattern@,
            same_role == exists|i: int|
                0 <= i < earlier && (#[trigger] raws@[i]).role@ == raw.role@,
        decreases at - earlier,
    {
        if raws[earlier].pattern == raw.pattern {
            assert(raws@[earlier as int].pattern@ == raw.pattern@);
            return Err(ContractError::Duplicate(raw.pattern.clone()));
        }
        if raws[earlier].role == raw.role {
            assert(raws@[earlier as int].role@ == raw.role@);
            same_role = true;
        }
        earlier += 1;
    }
    if same_role {
        return Err(ContractError::Duplicate(raw.role.clone()));
    }
    let fusion = match &raw.fusion {
        None => None,
        Some(declared) => {
            if !fusion_usable(declared) {
                return Err(ContractError::Fusion(raw.pattern.clone()));
            }
            Some(declare_fusion(declared))
        },
    };
    let permute = match &raw.permute {
        None => None,
        Some(declared) => {
            if fusion.is_some() {
                return Err(ContractError::Permute(raw.pattern.clone()));
            }
            match declare_permute(declared) {
                None => {
                    return Err(ContractError::Permute(raw.pattern.clone()));
                },
                Some(permute) => Some(permute),
            }
        },
    };
    let tensor = TensorPattern {
        role,
        pattern,
        dtypes: copy_texts(&raw.dtypes),
        rank: raw.rank,
        required: raw.required,
        fusion,
        permute,
    };
    assert(tensor@ =~= tensor_declared(*raw));
    Ok(tensor)
}

fn declare_set(raw: &RawSet) -> (set: Result<NamedSet, ContractError>)
    ensures
        match set {
            Ok(s) => set_refusal(*raw) is None && s@ == (SetModel {
                name: raw.name@,
                members: texts(raw.members@),
            }) && forall|i: int| 0 <= i < s.members@.len() ==> (#[trigger] s.members@[i]).wf(),
            Err(e) => set_refusal(*raw) == Some(e@),
        },
{
    if raw.members.len() == 0 {
        return Err(ContractError::NamedSet(raw.name.clone()));
    }
    let mut members: Vec<Pattern> = Vec::new();
    let mut at: usize = 0;
    while at < raw.members.len()
        invariant
            at <= raw.members@.len(),
            raw.members@.len() > 0,
            members@.len() == at,
            first_bad_member(raw.members@, at as int) is None,
            forall|i: int| 0 <= i < at ==> (#[trigger] members@[i])@ == raw.members@[i]@,
            forall|i: int| 0 <= i < at ==> (#[trigger] members@[i]).wf(),
        decreases raw.members@.len() - at,
    {
        match Pattern::parse(raw.members[at].as_str()) {
            Ok(pattern) => {
                members.push(pattern);
            },
            Err(error) => {
                proof {
                    first_bad_member_stays(raw.members@, at + 1, raw.members@.len() as int);
                }
                return Err(error);
            },
        }
        at += 1;
    }
    let set = NamedSet { name: raw.name.clone(), members };
    assert(set@ =~= (SetModel { name: raw.name@, members: texts(raw.members@) }));
    Ok(set)
}

impl RawContract {
    /// The named sets stand in name order, none twice.
    pub open spec fn wf(self) -> bool {
        rising_names(self.sets@.map_values(|set: RawSet| set.name@))
    }

    /// Validates a document, in the order of its fields: the format tag, the
    /// identity, the dtype, each tensor declaration, each named set. The first
    /// refusal is the answer.
    pub fn validate(self) -> (contract: Result<Contract, ContractError>)
        requires
            self.wf(),
        ensures
            match contract {
                Ok(c) => validated(self) == Ok::<ContractModel, Refusal>(c@) && c.wf(),
                Err(e) => validated(self) == Err::<ContractModel, Refusal>(e@),
            },
    {
        let format = chars_of(self.format.as_str());
        let expected = chars_of(CONTRACT_FORMAT);
        if !same_chars(&format, &expected) {
            return Err(ContractError::Format);
        }
        let handle = match (&self.name, &self.version) {
            (None, None) => None,
            (Some(name), Some(version)) => match Handle::new(name.as_str(), *version) {
                Ok(handle) => Some(handle),
                Err(error) => {
                    return Err(error);
                },
            },
            _ => {
                return Err(ContractError::Identity);
            },
        };
        if let Some(dtype) = &self.dtype {
            if !dtype_usable(dtype.as_str()) {
                return Err(ContractError::Dtype(dtype.clone()));
            }
        }
        if self.tensors.len() == 0 {
            return Err(ContractError::NoTensors);
        }
        let tensors = match declare_tensors(&self.tensors) {
            Ok(tensors) => tensors,
            Err(error) => {
                return Err(error);
            },
        };
        let sets = match declare_sets(&self.sets) {
            Ok(sets) => sets,
            Err(error) => {
                return Err(error);
            },
        };
        let ghost raw = self;
        let contract = Contract {
            handle,
            description: self.description,
            dtype: self.dtype,
            tensors,
            sets,
        };
        proof {
            let model = validated(raw)->Ok_0;
            assert(contract@.handle =~= model.handle);
            assert(contract@.tensors =~= model.tensors);
            assert(contract@.sets =~= model.sets);
            assert(contract@ =~= model);
            assert(contract@.sets.map_values(|set: SetModel| set.name) =~= raw.sets@.map_values(
                |set: RawSet| set.name@,
            ));
            assert forall|i: int| 0 <= i < contract@.tensors.len() implies is_pattern(
                (#[trigger] contract@.tensors[i]).role,
            ) && is_pattern(contract@.tensors[i].pattern) by {
                assert(contract@.tensors[i] == contract.tensors@[i]@);
            }
            assert forall|i: int| 0 <= i < contract@.tensors.len() implies ((
            #[trigger] contract@.tensors[i]).fusion matches Some(fusion)
                ==> fusion.has_distinct_parts()) by {
                assert(contract@.tensors[i] == tensor_declared(raw.tensors@[i]));
                no_tensor_refusal(raw.tensors@, i, raw.tensors@.len() as int);
                if let Some(fusion) = raw.tensors@[i].fusion {
                    let parts = fusion_declared(fusion).parts;
                    assert forall|a: int, b: int| 0 <= a < b < parts.len() implies (
                    #[trigger] parts[a]).role != (#[trigger] parts[b]).role by {
                        assert(fusion.parts@[a].role@ != fusion.parts@[b].role@);
                    }
                }
            }
        }
        Ok(contract)
    }
}

fn declare_tensors(raws: &Vec<RawTensor>) -> (tensors: Result<Vec<TensorPattern>, ContractError>)
    ensures
        match tensors {
            Ok(t) => {
                &&& first_tensor_refusal(raws@, raws@.len() as int) is None
                &&& t@.len() == raws@.len()
                &&& forall|i: int|
                    0 <= i < t@.len() ==> (#[trigger] t@[i])@ == tensor_declared(raws@[i])
                &&& forall|i: int| 0 <= i < t@.len() ==> (#[trigger] t@[i]).wf()
                &&& forall|i: int|
                    0 <= i < t@.len() ==> is_pattern((#[trigger] t@[i])@.role) && is_pattern(
                        t@[i]@.pattern,
                    )
            },
            Err(e) => first_tensor_refusal(raws@, raws@.len() as int) == Some(e@),
        },
{
    let mut tensors: Vec<TensorPattern> = Vec::new();
    let mut at: usize = 0;
    while at < raws.len()
        invariant
            at <= raws@.len(),
            tensors@.len() == at,
            first_tensor_refusal(raws@, at as int) is None,
            forall|i: int|
                0 <= i < at ==> (#[trigger] tensors@[i])@ == tensor_declared(raws@[i]),
            forall|i: int| 0 <= i < at ==> (#[trigger] tensors@[i]).wf(),
            forall|i: int|
                0 <= i < at ==> is_pattern((#[trigger] tensors@[i])@.role) && is_pattern(
                    tensors@[i]@.pattern,
                ),
        decreases raws@.len() - at,
    {
        match declare_tensor(raws, at) {
            Ok(tensor) => {
                tensors.push(tensor);
            },
            Err(error) => {
                proof {
                    first_refusal_stays(raws@, at + 1, raws@.len() as int);
                }
                return Err(error);
            },
        }
        at += 1;
    }
    Ok(tensors)
}

fn declare_sets(raws: &Vec<RawSet>) -> (sets: Result<Vec<NamedSet>, ContractError>)
    ensures
        match sets {
            Ok(s) => {
                &&& first_set_refusal(raws@, raws@.len() as int) is None
                &&& s@.len() == raws@.len()
                &&& forall|i: int|
                    0 <= i < s@.len() ==> (#[trigger] s@[i])@ == (SetModel {
                        name: raws@[i].name@,
                        members: texts(raws@[i].members@),
                    })
                &&& forall|i: int, j: int|
                    0 <= i < s@.len() && 0 <= j < s@[i].members@.len()
                        ==> (#[trigger] s@[i].members@[j]).wf()
            },
            Err(e) => first_set_refusal(raws@, raws@.len() as int) == Some(e@),
        },
{
    let mut sets: Vec<NamedSet> = Vec::new();
    let mut at: usize = 0;
    while at < raws.len()
        invariant
            at <= raws@.len(),
            sets@.len() == at,
            first_set_refusal(raws@, at as int) is None,
            forall|i: int|
                0 <= i < at ==> (#[trigger] sets@[i])@ == (SetModel {
                    name: raws@[i].name@,
                    members: texts(raws@[i].members@),
                }),
            forall|i: int, j: int|
                0 <= i < at && 0 <= j < sets@[i].members@.len()
                    ==> (#[trigger] sets@[i].members@[j]).wf(),
        decreases raws@.len() - at,
    {
        match declare_set(&raws[at]) {
            Ok(set) => {
                sets.push(set);
            },
            Err(error) => {
                proof {
                    first_set_refusal_stays(raws@, at + 1, raws@.len() as int);
                }
                return Err(error);
            },
        }
        at += 1;
    }
    Ok(sets)
}

// ---------------------------------------------------------------------------
// The canonical rendering
// ---------------------------------------------------------------------------

/// The spelling of one view dimension.
pub open spec fn dim_text(dim: Dim) -> Seq<char> {
    match dim {
        Dim::Literal(literal) => decimal(literal as nat),
        Dim::Auto => "auto"@,
        Dim::Axis { axis, divisor } => "shape["@ + decimal(axis as nat) + "]/"@ + decimal(
            divisor as nat,
        ),
    }
}

/// The first `upto` view dimensions, each followed by a comma.
pub open spec fn dims_text(view: Seq<Dim>, upto: int) -> Seq<char>
    decreases upto,
{
    if upto <= 0 {
        Seq::empty()
    } else {
        dims_text(view, upto - 1) + dim_text(view[upto - 1]) + ","@
    }
}

/// The first `upto` axes, separated by a comma and a space.
pub open spec fn axes_text(axes: Seq<usize>, upto: int) -> Seq<char>
    decreases upto,
{
    if upto <= 0 {
        Seq::empty()
    } else if upto == 1 {
        decimal(axes[0] as nat)
    } else {
        axes_text(axes, upto - 1) + ", "@ + decimal(axes[upto - 1] as nat)
    }
}

/// The first `upto` texts, separated by commas.
pub open spec fn comma_text(list: Seq<Seq<char>>, upto: int) -> Seq<char>
    decreases upto,
{
    if upto <= 0 {
        Seq::empty()
    } else if upto == 1 {
        list[0]
    } else {
        comma_text(list, upto - 1) + ","@ + list[upto - 1]
    }
}

/// The first `upto` texts, each followed by a comma.
pub open spec fn listed_text(list: Seq<Seq<char>>, upto: int) -> Seq<char>
    decreases upto,
{
    if upto <= 0 {
        Seq::empty()
    } else {
        listed_text(list, upto - 1) + list[upto - 1] + ","@
    }
}

/// The first `upto` fusion parts as `role:share,`.
pub open spec fn parts_text(parts: Seq<PartModel>, upto: int) -> Seq<char>
    decreases upto,
{
    if upto <= 0 {
        Seq::empty()
    } else {
        parts_text(parts, upto - 1) + parts[upto - 1].role + ":"@ + decimal(
            parts[upto - 1].share as nat,
        ) + ","@
    }
}

pub open spec fn permute_text(permute: Option<PermuteModel>) -> Seq<char> {
    match permute {
        None => Seq::empty(),
        Some(p) => " permute="@ + dims_text(p.view, p.view.len() as int) + ":["@ + axes_text(
            p.axes,
            p.axes.len() as int,
        ) + "]"@,
    }
}

pub open spec fn fusion_text(fusion: Option<FusionModel>) -> Seq<char> {
    match fusion {
        None => Seq::empty(),
        Some(f) => " fusion=groups:"@ + decimal(f.groups as nat) + ","@ + parts_text(
            f.parts,
            f.parts.len() as int,
        ),
    }
}

pub open spec fn rank_text(rank: Option<usize>) -> Seq<char> {
    match rank {
        None => "any"@,
        Some(rank) => decimal(rank as nat),
    }
}

pub open spec fn required_text(required: bool) -> Seq<char> {
    if required {
        "true"@
    } else {
        "false"@
    }
}

/// The role, the pattern, the rank and whether it is required.
pub open spec fn tensor_head(tensor: TensorModel) -> Seq<char> {
    "tensor role="@ + tensor.role + " pattern="@ + tensor.pattern + " rank="@ + rank_text(
        tensor.rank,
    ) + " required="@ + required_text(tensor.required)
}

/// The accepted element types.
pub open spec fn dtypes_text(dtypes: Seq<Seq<char>>) -> Seq<char> {
    " dtypes="@ + comma_text(dtypes, dtypes.len() as int)
}

/// The line of one tensor declaration.
pub open spec fn tensor_text(tensor: TensorModel) -> Seq<char> {
    tensor_head(tensor) + dtypes_text(tensor.dtypes) + permute_text(tensor.permute) + fusion_text(
        tensor.fusion,
    ) + "\n"@
}

pub open spec fn tensors_text(tensors: Seq<TensorModel>, upto: int) -> Seq<char>
    decreases upto,
{
    if upto <= 0 {
        Seq::empty()
    } else {
        tensors_text(tensors, upto - 1) + tensor_text(tensors[upto - 1])
    }
}

/// The line of one named set.
pub open spec fn set_text(set: SetModel) -> Seq<char> {
    "set "@ + set.name + "="@ + listed_text(set.members, set.members.len() as int) + "\n"@
}

pub open spec fn sets_text(sets: Seq<SetModel>, upto: int) -> Seq<char>
    decreases upto,
{
    if upto <= 0 {
        Seq::empty()
    } else {
        sets_text(sets, upto - 1) + set_text(sets[upto - 1])
    }
}

/// The lines that open the rendering: the format tag, then the identity and the
/// dtype where the document declares them. An absent field has no line.
pub open spec fn heading_text(contract: ContractModel) -> Seq<char> {
    let identity = match contract.handle {
        None => Seq::empty(),
        Some(handle) => "name="@ + handle.name + "\nversion="@ + decimal(handle.version as nat)
            + "\n"@,
    };
    let dtype = match contract.dtype {
        None => Seq::empty(),
        Some(dtype) => "dtype="@ + dtype + "\n"@,
    };
    CONTRACT_FORMAT@ + "\n"@ + identity + dtype
}

/// The canonical rendering of a contract.
pub open spec fn canonical_text(contract: ContractModel) -> Seq<char> {
    heading_text(contract) + tensors_text(contract.tensors, contract.tensors.len() as int)
        + sets_text(contract.sets, contract.sets.len() as int)
}

/// The digest of a contract's canonical rendering.
pub open spec fn contract_digest(contract: ContractModel) -> Seq<u8> {
    sha256(vstd::utf8::encode_utf8(canonical_text(contract)))
}

fn render_permute(text: &mut String, permute: &Permute)
    ensures
        final(text)@ == old(text)@ + permute_text(Some(permute@)),
{
    text.append(" permute=");
    let ghost base = text@;
    let mut at: usize = 0;
    while at < permute.view.len()
        invariant
            at <= permute.view@.len(),
            text@ == base + dims_text(permute.view@, at as int),
        decreases permute.view@.len() - at,
    {
        let ghost before = text@;
        match permute.view[at] {
            Dim::Literal(literal) => {
                push_decimal(text, literal);
            },
            Dim::Auto => {
                text.append("auto");
            },
            Dim::Axis { axis, divisor } => {
                text.append("shape[");
                push_decimal(text, axis as u64);
                text.append("]/");
                push_decimal(text, divisor);
            },
        }
        proof {
            assert(text@ =~= before + dim_text(permute.view@[at as int]));
        }
        text.append(",");
        proof {
            assert(text@ =~= base + dims_text(permute.view@, at + 1));
        }
        at += 1;
    }
    text.append(":[");
    let ghost opened = text@;
    at = 0;
    while at < permute.axes.len()
        invariant
            at <= permute.axes@.len(),
            text@ == opened + axes_text(permute.axes@, at as int),
        decreases permute.axes@.len() - at,
    {
        if at > 0 {
            text.append(", ");
        }
        push_decimal(text, permute.axes[at] as u64);
        proof {
            assert(text@ =~= opened + axes_text(permute.axes@, at + 1));
        }
        at += 1;
    }
    text.append("]");
    assert(text@ =~= old(text)@ + permute_text(Some(permute@)));
}

fn render_fusion(text: &mut String, fusion: &Fusion)
    ensures
        final(text)@ == old(text)@ + fusion_text(Some(fusion@)),
{
    text.append(" fusion=groups:");
    push_decimal(text, fusion.groups);
    text.append(",");
    let ghost base = text@;
    let mut at: usize = 0;
    while at < fusion.parts.len()
        invariant
            at <= fusion.parts@.len(),
            text@ == base + parts_text(fusion@.parts, at as int),
        decreases fusion.parts@.len() - at,
    {
        let part = &fusion.parts[at];
        assert(fusion@.parts[at as int] == part@);
        text.append(part.role.as_str());
        text.append(":");
        push_decimal(text, part.share);
        text.append(",");
        proof {
            assert(text@ =~= base + parts_text(fusion@.parts, at + 1));
        }
        at += 1;
    }
    assert(text@ =~= old(text)@ + fusion_text(Some(fusion@)));
}

fn render_head(text: &mut String, tensor: &TensorPattern)
    requires
        tensor.wf(),
    ensures
        final(text)@ == old(text)@ + tensor_head(tensor@),
{
    text.append("tensor role=");
    text.append(tensor.role.as_str());
    text.append(" pattern=");
    text.append(tensor.pattern.as_str());
    text.append(" rank=");
    match tensor.rank {
        None => {
            text.append("any");
        },
        Some(rank) => {
            push_decimal(text, rank as u64);
        },
    }
    text.append(" required=");
    if tensor.required {
        text.append("true");
    } else {
        text.append("false");
    }
    assert(text@ =~= old(text)@ + tensor_head(tensor@));
}

fn render_dtypes(text: &mut String, dtypes: &Vec<String>)
    ensures
        final(text)@ == old(text)@ + dtypes_text(texts(dtypes@)),
{
    text.append(" dtypes=");
    let ghost base = text@;
    let ghost list = texts(dtypes@);
    let mut at: usize = 0;
    while at < dtypes.len()
        invariant
            at <= dtypes@.len(),
            list == texts(dtypes@),
            text@ == base + comma_text(list, at as int),
        decreases dtypes@.len() - at,
    {
        assert(list[at as int] == dtypes@[at as int]@);
        if at > 0 {
            text.append(",");
        }
        text.append(dtypes[at].as_str());
        proof {
            assert(text@ =~= base + comma_text(list, at + 1));
        }
        at += 1;
    }
    assert(text@ =~= old(text)@ + dtypes_text(list));
}

fn render_tensor(text: &mut String, tensor: &TensorPattern)
    requires
        tensor.wf(),
    ensures
        final(text)@ == old(text)@ + tensor_text(tensor@),
{
    render_head(text, tensor);
    render_dtypes(text, &tensor.dtypes);
    if let Some(permute) = &tensor.permute {
        render_permute(text, permute);
    }
    if let Some(fusion) = &tensor.fusion {
        render_fusion(text, fusion);
    }
    text.append("\n");
    proof {
        let a = tensor_head(tensor@);
        let b = dtypes_text(tensor@.dtypes);
        let c = permute_text(tensor@.permute);
        let d = fusion_text(tensor@.fusion);
        assert(text@ =~= old(text)@ + (a + b + c + d + "\n"@));
    }
}

fn render_set(text: &mut String, set: &NamedSet)
    ensures
        final(text)@ == old(text)@ + set_text(set@),
{
    text.append("set ");
    text.append(set.name.as_str());
    text.append("=");
    let ghost base = text@;
    let mut at: usize = 0;
    while at < set.members.len()
        invariant
            at <= set.members@.len(),
            text@ == base + listed_text(set@.members, at as int),
        decreases set.members@.len() - at,
    {
        assert(set@.members[at as int] == set.members@[at as int]@);
        text.append(set.members[at].as_str());
        text.append(",");
        proof {
            assert(text@ =~= base + listed_text(set@.members, at + 1));
        }
        at += 1;
    }
    text.append("\n");
    assert(text@ =~= old(text)@ + set_text(set@));
}

impl Contract {
    /// The canonical rendering: an absent field emits no line at all.
    pub fn canonical(&self) -> (text: String)
        requires
            self.wf(),
        ensures
            text@ == canonical_text(self@),
    {
        let mut text = String::new();
        text.append(CONTRACT_FORMAT);
        text.append("\n");
        if let Some(handle) = &self.handle {
            text.append("name=");
            text.append(handle.name());
            text.append("\nversion=");
            push_decimal(&mut text, handle.version() as u64);
            text.append("\n");
        }
        if let Some(dtype) = &self.dtype {
            text.append("dtype=");
            text.append(dtype.as_str());
            text.append("\n");
        }
        let ghost heading = heading_text(self@);
        assert(text@ =~= heading);
        let mut at: usize = 0;
        while at < self.tensors.len()
            invariant
                self.wf(),
                at <= self.tensors@.len(),
                text@ == heading + tensors_text(self@.tensors, at as int),
            decreases self.tensors@.len() - at,
        {
            assert(self@.tensors[at as int] == self.tensors@[at as int]@);
            render_tensor(&mut text, &self.tensors[at]);
            proof {
                assert(text@ =~= heading + tensors_text(self@.tensors, at + 1));
            }
            at += 1;
        }
        let ghost body = text@;
        at = 0;
        while at < self.sets.len()
            invariant
                at <= self.sets@.len(),
                text@ == body + sets_text(self@.sets, at as int),
            decreases self.sets@.len() - at,
        {
            assert(self@.sets[at as int] == self.sets@[at as int]@);
            render_set(&mut text, &self.sets[at]);
            proof {
                assert(text@ =~= body + sets_text(self@.sets, at + 1));
            }
            at += 1;
        }
        assert(text@ =~= canonical_text(self@));
        text
    }

    /// SHA-256 over the canonical rendering.
    pub fn digest(&self) -> (digest: [u8; 32])
        requires
            self.wf(),
        ensures
            digest@ == contract_digest(self@),
    {
        let text = self.canonical();
        sha256_digest(text.as_str().as_bytes())
    }

    /// `name@version` for a library document, the digest for a custom.
    pub fn stamp(&self) -> (stamp: Stamp)
        requires
            self.wf(),
        ensures
            stamp@ == stamp_for(self@),
            stamp@.wf(),
    {
        match &self.handle {
            Some(handle) => Stamp::Named(handle.clone()),
            None => Stamp::Digest(self.digest()),
        }
    }
}

/// The stamp that identifies a contract.
pub open spec fn stamp_for(contract: ContractModel) -> StampModel {
    match contract.handle {
        Some(handle) => StampModel::Named(handle),
        None => StampModel::Digest(contract_digest(contract)),
    }
}

} // verus!
