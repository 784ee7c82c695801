//! Fusions along the outermost axis, and generalized permutes.

use crate::arith::{checked_product, product};
use crate::text::{
    chars_of, decimal, decimal_round_trip, is_digit, parse_unsigned, push_decimal, same_chars,
    unsigned,
};
use vstd::arithmetic::div_mod::{lemma_fundamental_div_mod, lemma_fundamental_div_mod_converse};
use vstd::prelude::*;
use vstd::string::*;

verus! {

/// One part of a fused tensor: the role suffix it carries in the split
/// packaging, and its share of one group of the outermost axis.
#[derive(Debug, PartialEq, Eq)]
pub struct FusionPart {
    pub role: String,
    pub share: u64,
}

/// The value of a [`FusionPart`].
#[verifier::ext_equal]
pub struct PartModel {
    pub role: Seq<char>,
    pub share: u64,
}

impl View for FusionPart {
    type V = PartModel;

    open spec fn view(&self) -> PartModel {
        PartModel { role: self.role@, share: self.share }
    }
}

impl FusionPart {
    /// The role suffix, empty when this part is the whole declared role.
    pub fn role(&self) -> (role: &str)
        ensures
            role@ == self@.role,
    {
        self.role.as_str()
    }

    pub fn share(&self) -> (share: u64)
        ensures
            share == self@.share,
    {
        self.share
    }
}

/// One byte run a fusion cuts a tensor into: its length, and the role suffix
/// that identifies the same bytes in the other packaging.
#[derive(Debug, PartialEq, Eq)]
pub struct FusionRun {
    pub role: String,
    pub length: u64,
}

/// The value of a [`FusionRun`].
#[verifier::ext_equal]
pub struct RunModel {
    pub role: Seq<char>,
    pub length: u64,
}

impl View for FusionRun {
    type V = RunModel;

    open spec fn view(&self) -> RunModel {
        RunModel { role: self.role@, length: self.length }
    }
}

impl FusionRun {
    /// The whole tensor as its own single run.
    pub fn whole(length: u64) -> (run: Self)
        ensures
            run@ == (RunModel { role: Seq::empty(), length }),
    {
        FusionRun { role: String::new(), length }
    }

    pub fn role(&self) -> (role: &str)
        ensures
            role@ == self@.role,
    {
        self.role.as_str()
    }

    pub fn length(&self) -> (length: u64)
        ensures
            length == self@.length,
    {
        self.length
    }
}

/// A fusion along the outermost stored axis: `groups` repetitions of an ordered
/// part cycle. One group is plain stacking; more is an interleave.
#[derive(Debug, PartialEq, Eq)]
pub struct Fusion {
    pub groups: u64,
    pub parts: Vec<FusionPart>,
}

/// The value of a [`Fusion`].
#[verifier::ext_equal]
pub struct FusionModel {
    pub groups: u64,
    pub parts: Seq<PartModel>,
}

impl View for Fusion {
    type V = FusionModel;

    open spec fn view(&self) -> FusionModel {
        FusionModel {
            groups: self.groups,
            parts: self.parts@.map_values(|part: FusionPart| part@),
        }
    }
}

/// The sum of the shares of the first `upto` parts.
pub open spec fn share_sum(parts: Seq<PartModel>, upto: int) -> nat
    decreases upto,
{
    if upto <= 0 {
        0
    } else {
        share_sum(parts, upto - 1) + parts[upto - 1].share as nat
    }
}

impl FusionModel {
    /// How many equal units the outermost axis is divided into.
    pub open spec fn units(self) -> nat {
        self.groups as nat * share_sum(self.parts, self.parts.len() as int)
    }

    /// Whether the declaration can apply to a tensor of this shape and extent:
    /// whole units of whole rows.
    pub open spec fn applies(self, shape: Seq<u64>, byte_length: u64) -> bool {
        &&& shape.len() > 0
        &&& shape[0] > 0
        &&& self.units() > 0
        &&& shape[0] as int % self.units() as int == 0
        &&& byte_length % shape[0] == 0
    }

    /// The role suffix of one part of one group.
    pub open spec fn run_role(self, group: int, part: int) -> Seq<char> {
        let role = self.parts[part].role;
        let name = if role.len() == 0 {
            Seq::empty()
        } else {
            "#"@ + role
        };
        if self.groups > 1 {
            name + "@"@ + decimal(group as nat)
        } else {
            name
        }
    }

    /// No two parts have one role.
    pub open spec fn has_distinct_parts(self) -> bool {
        forall|i: int, j: int|
            0 <= i < j < self.parts.len() ==> (#[trigger] self.parts[i]).role != (
            #[trigger] self.parts[j]).role
    }

    /// The `k`th run in file order, `unit` being the bytes of one unit.
    pub open spec fn run_at(self, unit: int, k: int) -> RunModel {
        let n = self.parts.len() as int;
        RunModel {
            role: self.run_role(k / n, k % n),
            length: (unit * self.parts[k % n].share) as u64,
        }
    }

    /// The ordered runs this fusion cuts a tensor into.
    pub open spec fn runs(self, shape: Seq<u64>, byte_length: u64) -> Option<Seq<RunModel>> {
        if self.applies(shape, byte_length) {
            let unit = byte_length as int / self.units() as int;
            Some(
                Seq::new(
                    (self.groups * self.parts.len()) as nat,
                    |k: int| self.run_at(unit, k),
                ),
            )
        } else {
            None
        }
    }
}

/// The sum of the lengths of the first `upto` runs.
pub open spec fn run_sum(runs: Seq<RunModel>, upto: int) -> nat
    decreases upto,
{
    if upto <= 0 {
        0
    } else {
        run_sum(runs, upto - 1) + runs[upto - 1].length as nat
    }
}

/// Each part of each group has a role of its own.
pub proof fn run_roles_are_distinct(fusion: FusionModel, g: int, p: int, h: int, q: int)
    requires
        fusion.has_distinct_parts(),
        0 <= p < fusion.parts.len(),
        0 <= q < fusion.parts.len(),
        0 <= g < fusion.groups,
        0 <= h < fusion.groups,
        fusion.run_role(g, p) == fusion.run_role(h, q),
    ensures
        g == h,
        p == q,
{
    reveal_strlit("#");
    reveal_strlit("@");
    let x = part_name(fusion, p);
    let y = part_name(fusion, q);
    if fusion.groups > 1 {
        let a = decimal(g as nat);
        let b = decimal(h as nat);
        decimal_round_trip(g as nat);
        decimal_round_trip(h as nat);
        let s = x + "@"@ + a;
        let t = y + "@"@ + b;
        assert(s == t);
        if a.len() < b.len() {
            let at = s.len() - 1 - a.len();
            assert(s[at] == '@');
            assert(t[at] == b[at - y.len() - 1]);
            assert(is_digit(b[at - y.len() - 1]));
        }
        if b.len() < a.len() {
            let at = s.len() - 1 - b.len();
            assert(t[at] == '@');
            assert(s[at] == a[at - x.len() - 1]);
            assert(is_digit(a[at - x.len() - 1]));
        }
        assert(a =~= b) by {
            assert forall|i: int| 0 <= i < a.len() implies a[i] == b[i] by {
                assert(s[x.len() + 1 + i] == a[i]);
                assert(t[y.len() + 1 + i] == b[i]);
            }
        }
        assert(x =~= y) by {
            assert forall|i: int| 0 <= i < x.len() implies x[i] == y[i] by {
                assert(s[i] == x[i] && t[i] == y[i]);
            }
        }
    }
    assert(x == y);
    let r = fusion.parts[p].role;
    let u = fusion.parts[q].role;
    assert(r =~= u) by {
        assert(r.len() == u.len());
        assert forall|i: int| 0 <= i < r.len() implies r[i] == u[i] by {
            assert(x[i + 1] == r[i] && y[i + 1] == u[i]);
        }
    }
    if p < q {
        assert(fusion.parts[p].role != fusion.parts[q].role);
    }
    if q < p {
        assert(fusion.parts[q].role != fusion.parts[p].role);
    }
}

/// The name of a part within its group.
spec fn part_name(fusion: FusionModel, part: int) -> Seq<char> {
    let role = fusion.parts[part].role;
    if role.len() == 0 {
        Seq::empty()
    } else {
        "#"@ + role
    }
}

proof fn share_within(parts: Seq<PartModel>, part: int, upto: int)
    requires
        0 <= part < upto <= parts.len(),
    ensures
        parts[part].share <= share_sum(parts, upto),
    decreases upto,
{
    if part < upto - 1 {
        share_within(parts, part, upto - 1);
    }
}

pub(crate) proof fn unit_facts(rows: int, units: int, byte_length: int)
    requires
        0 < rows,
        0 < units,
        rows % units == 0,
        0 <= byte_length,
        byte_length % rows == 0,
    ensures
        units * (byte_length / units) == byte_length,
        (byte_length / rows) * (rows / units) == byte_length / units,
{
    lemma_fundamental_div_mod(rows, units);
    lemma_fundamental_div_mod(byte_length, rows);
    let a = byte_length / rows;
    let b = rows / units;
    assert(byte_length == units * (a * b) + 0) by (nonlinear_arith)
        requires
            byte_length == rows * a,
            rows == units * b,
    ;
    lemma_fundamental_div_mod_converse(byte_length, units, a * b, 0);
}

pub(crate) proof fn run_length_bound(fusion: FusionModel, byte_length: int, part: int)
    requires
        0 < fusion.units(),
        0 <= byte_length <= u64::MAX,
        0 <= part < fusion.parts.len(),
        fusion.units() * (byte_length / fusion.units() as int) == byte_length,
    ensures
        0 <= (byte_length / fusion.units() as int) * fusion.parts[part].share <= byte_length,
{
    let unit = byte_length / fusion.units() as int;
    let share = fusion.parts[part].share as int;
    let sum = share_sum(fusion.parts, fusion.parts.len() as int) as int;
    let groups = fusion.groups as int;
    share_within(fusion.parts, part, fusion.parts.len() as int);
    assert(groups >= 1) by (nonlinear_arith)
        requires
            groups * sum > 0,
            groups >= 0,
    ;
    assert(0 <= unit) by (nonlinear_arith)
        requires
            unit == byte_length / (groups * sum),
            groups * sum > 0,
            byte_length >= 0,
    ;
    assert(0 <= unit * share <= (groups * sum) * unit) by (nonlinear_arith)
        requires
            0 <= unit,
            0 <= share <= sum,
            groups >= 1,
    ;
}

pub(crate) proof fn runs_sum_to(fusion: FusionModel, shape: Seq<u64>, byte_length: u64, group: int, part: int)
    requires
        fusion.applies(shape, byte_length),
        0 <= group < fusion.groups,
        0 <= part <= fusion.parts.len(),
    ensures
        ({
            let runs = fusion.runs(shape, byte_length).unwrap();
            let n = fusion.parts.len() as int;
            let unit = byte_length as int / fusion.units() as int;
            let sum = share_sum(fusion.parts, n);
            run_sum(runs, group * n + part) == unit * (group * sum + share_sum(fusion.parts, part))
        }),
    decreases group, part,
{
    let runs = fusion.runs(shape, byte_length).unwrap();
    let n = fusion.parts.len() as int;
    let unit = byte_length as int / fusion.units() as int;
    let sum = share_sum(fusion.parts, n) as int;
    unit_facts(shape[0] as int, fusion.units() as int, byte_length as int);
    if part > 0 {
        runs_sum_to(fusion, shape, byte_length, group, part - 1);
        let k = group * n + part - 1;
        assert(0 <= k < fusion.groups * n) by (nonlinear_arith)
            requires
                k == group * n + part - 1,
                0 <= group < fusion.groups,
                0 < part <= n,
        ;
        lemma_fundamental_div_mod_converse(k, n, group, part - 1);
        run_length_bound(fusion, byte_length as int, part - 1);
        assert(runs[k].length == unit * fusion.parts[part - 1].share);
        assert(unit * (group * sum + share_sum(fusion.parts, part)) == unit * (group * sum
            + share_sum(fusion.parts, part - 1)) + unit * fusion.parts[part - 1].share)
            by (nonlinear_arith)
            requires
                share_sum(fusion.parts, part) == share_sum(fusion.parts, part - 1)
                    + fusion.parts[part - 1].share as nat,
        ;
    } else if group > 0 {
        runs_sum_to(fusion, shape, byte_length, group - 1, n);
        assert((group - 1) * n + n == group * n) by (nonlinear_arith);
        assert((group - 1) * sum + sum == group * sum) by (nonlinear_arith);
    } else {
        assert(0 * n == 0 && 0 * sum == 0);
        assert(unit * 0 == 0);
    }
}

/// The runs a fusion cuts a tensor into cover its extent exactly.
pub proof fn runs_tile_the_tensor(fusion: FusionModel, shape: Seq<u64>, byte_length: u64)
    requires
        fusion.runs(shape, byte_length) is Some,
    ensures
        fusion.runs(shape, byte_length).unwrap().len() > 0,
        run_sum(
            fusion.runs(shape, byte_length).unwrap(),
            fusion.runs(shape, byte_length).unwrap().len() as int,
        ) == byte_length,
{
    let n = fusion.parts.len() as int;
    let groups = fusion.groups as int;
    let sum = share_sum(fusion.parts, n) as int;
    let unit = byte_length as int / fusion.units() as int;
    unit_facts(shape[0] as int, fusion.units() as int, byte_length as int);
    assert(groups >= 1 && sum >= 1) by (nonlinear_arith)
        requires
            groups * sum > 0,
            groups >= 0,
            sum >= 0,
    ;
    assert(n >= 1);
    runs_sum_to(fusion, shape, byte_length, groups - 1, n);
    assert((groups - 1) * n + n == groups * n) by (nonlinear_arith);
    assert(unit * ((groups - 1) * sum + sum) == (groups * sum) * unit) by (nonlinear_arith);
    assert(groups * n >= 1) by (nonlinear_arith)
        requires
            groups >= 1,
            n >= 1,
    ;
}

impl Clone for Fusion {
    fn clone(&self) -> (copy: Self)
        ensures
            copy@ == self@,
    {
        let mut parts: Vec<FusionPart> = Vec::new();
        let mut at: usize = 0;
        while at < self.parts.len()
            invariant
                at <= self.parts@.len(),
                parts@.len() == at,
                forall|i: int| 0 <= i < at ==> (#[trigger] parts@[i])@ == self.parts@[i]@,
            decreases self.parts@.len() - at,
        {
            let part = &self.parts[at];
            parts.push(FusionPart { role: part.role.clone(), share: part.share });
            at += 1;
        }
        let copy = Fusion { groups: self.groups, parts };
        assert(copy@ =~= self@);
        copy
    }
}

impl Fusion {
    pub fn parts(&self) -> (parts: &[FusionPart])
        ensures
            parts@ == self.parts@,
    {
        &self.parts
    }

    pub fn groups(&self) -> (groups: u64)
        ensures
            groups == self@.groups,
    {
        self.groups
    }

    /// Whether the parts of one split tensor are scattered through the fused
    /// axis rather than contiguous in it.
    pub fn is_interleaved(&self) -> (yes: bool)
        ensures
            yes == (self@.groups > 1),
    {
        self.groups > 1
    }

    fn units(&self) -> (units: Option<u64>)
        ensures
            match units {
                Some(u) => u == self@.units(),
                None => self@.units() > u64::MAX || share_sum(self@.parts, self@.parts.len() as int)
                    > u64::MAX,
            },
    {
        let mut sum: u64 = 0;
        let mut at: usize = 0;
        while at < self.parts.len()
            invariant
                at <= self.parts@.len(),
                sum == share_sum(self@.parts, at as int),
            decreases self.parts@.len() - at,
        {
            match sum.checked_add(self.parts[at].share) {
                Some(next) => {
                    sum = next;
                },
                None => {
                    proof {
                        share_sum_grows(self@.parts, at + 1, self@.parts.len() as int);
                    }
                    return None;
                },
            }
            at += 1;
        }
        proof {
            assert(sum * self.groups == self.groups * sum) by (nonlinear_arith);
        }
        sum.checked_mul(self.groups)
    }

    /// The ordered runs this fusion cuts a tensor into, in file order, each
    /// tagged with the role suffix its bytes carry in the split packaging;
    /// `None` when the declaration cannot apply to this tensor.
    #[verifier::loop_isolation(false)]
    pub fn runs(&self, shape: &[u64], byte_length: u64) -> (runs: Option<Vec<FusionRun>>)
        ensures
            match runs {
                Some(r) => self@.runs(shape@, byte_length) == Some(
                    r@.map_values(|run: FusionRun| run@),
                ),
                None => self@.runs(shape@, byte_length) is None,
            },
    {
        if shape.len() == 0 || shape[0] == 0 {
            return None;
        }
        let rows: u64 = shape[0];
        let ghost model = self@;
        let units: u64 = match self.units() {
            Some(units) => units,
            None => {
                proof {
                    large_units(model, rows as int);
                }
                return None;
            },
        };
        if units == 0 || rows % units != 0 || byte_length % rows != 0 {
            return None;
        }
        proof {
            unit_facts(rows as int, units as int, byte_length as int);
            runs_tile_the_tensor(model, shape@, byte_length);
        }
        let row: u64 = byte_length / rows;
        let each: u64 = rows / units;
        let ghost unit = byte_length as int / units as int;
        proof {
            assert(0 <= unit <= byte_length) by (nonlinear_arith)
                requires
                    unit == byte_length as int / units as int,
                    units > 0,
                    byte_length >= 0,
            ;
        }
        let unit_bytes: u64 = row * each;
        let mut runs: Vec<FusionRun> = Vec::new();
        let ghost n = model.parts.len() as int;
        let mut group: u64 = 0;
        proof {
            assert(0 * n == 0);
        }
        while group < self.groups
            invariant
                group <= self.groups,
                runs@.len() == group * n,
                forall|k: int|
                    0 <= k < runs@.len() ==> (#[trigger] runs@[k])@ == model.run_at(unit, k),
            decreases self.groups - group,
        {
            let mut part: usize = 0;
            while part < self.parts.len()
                invariant
                    group < self.groups,
                    part <= self.parts@.len(),
                    runs@.len() == group * n + part,
                    forall|k: int|
                        0 <= k < runs@.len() ==> (#[trigger] runs@[k])@ == model.run_at(unit, k),
                decreases self.parts@.len() - part,
            {
                let piece = &self.parts[part];
                let ghost k = group * n + part;
                proof {
                    lemma_fundamental_div_mod_converse(k, n, group as int, part as int);
                    run_length_bound(model, byte_length as int, part as int);
                    assert(model.parts[part as int] == piece@);
                }
                let mut role = String::new();
                if !piece.role.as_str().is_empty() {
                    role.append("#");
                    role.append(piece.role.as_str());
                }
                if self.groups > 1 {
                    role.append("@");
                    push_decimal(&mut role, group);
                }
                proof {
                    assert(role@ =~= model.run_role(group as int, part as int));
                }
                runs.push(FusionRun { role, length: unit_bytes * piece.share });
                part += 1;
            }
            proof {
                assert(group * n + n == (group + 1) * n) by (nonlinear_arith);
            }
            group += 1;
        }
        proof {
            assert(runs@.map_values(|run: FusionRun| run@) =~= model.runs(
                shape@,
                byte_length,
            ).unwrap());
        }
        Some(runs)
    }
}

proof fn share_sum_grows(parts: Seq<PartModel>, low: int, high: int)
    requires
        0 <= low <= high <= parts.len(),
    ensures
        share_sum(parts, low) <= share_sum(parts, high),
    decreases high - low,
{
    if low < high {
        share_sum_grows(parts, low, high - 1);
    }
}

proof fn large_units(fusion: FusionModel, rows: int)
    requires
        0 < rows <= u64::MAX,
        fusion.units() > u64::MAX || share_sum(fusion.parts, fusion.parts.len() as int) > u64::MAX,
    ensures
        fusion.units() > 0 ==> rows % fusion.units() as int != 0,
{
    let sum = share_sum(fusion.parts, fusion.parts.len() as int) as int;
    let groups = fusion.groups as int;
    if fusion.units() > 0 {
        assert(groups * sum > u64::MAX) by (nonlinear_arith)
            requires
                groups * sum > 0,
                groups >= 0,
                groups * sum > u64::MAX || sum > u64::MAX,
        ;
        vstd::arithmetic::div_mod::lemma_small_mod(rows as nat, fusion.units());
    }
}

// ---------------------------------------------------------------------------
// Permutes
// ---------------------------------------------------------------------------

/// One dimension of a permute view: a literal, one axis of the tensor's own
/// shape, possibly divided, or the single inferred dimension.
#[derive(Clone, Copy, Debug, PartialEq, Eq, Structural)]
pub enum Dim {
    Literal(u64),
    Axis { axis: usize, divisor: u64 },
    Auto,
}

/// The position of the first slash, or the length.
pub open spec fn slash_at(s: Seq<char>) -> int
    decreases s.len(),
{
    if s.len() == 0 || s[0] == '/' {
        0
    } else {
        1 + slash_at(s.drop_first())
    }
}

/// The axis that `shape[k]` names.
pub open spec fn axis_named(head: Seq<char>) -> Option<nat> {
    if head.len() >= 7 && head.take(6) == "shape["@ && head.last() == ']' {
        unsigned(head.subrange(6, head.len() - 1), usize::MAX as nat)
    } else {
        None
    }
}

/// The dimension a text spells: `auto`, a positive integer, `shape[k]` or
/// `shape[k]/n` with a positive `n`.
pub open spec fn dim_of(s: Seq<char>) -> Option<Dim> {
    let slash = slash_at(s);
    let divisor = if slash < s.len() {
        unsigned(s.skip(slash + 1), u64::MAX as nat)
    } else {
        Some(1nat)
    };
    if s == "auto"@ {
        Some(Dim::Auto)
    } else if unsigned(s, u64::MAX as nat) is Some {
        let value = unsigned(s, u64::MAX as nat).unwrap();
        if value > 0 {
            Some(Dim::Literal(value as u64))
        } else {
            None
        }
    } else if divisor is Some && divisor.unwrap() > 0 && axis_named(s.take(slash)) is Some {
        Some(
            Dim::Axis {
                axis: axis_named(s.take(slash)).unwrap() as usize,
                divisor: divisor.unwrap() as u64,
            },
        )
    } else {
        None
    }
}

pub(crate) proof fn slash_is(s: Seq<char>, at: int)
    requires
        0 <= at <= s.len(),
        at < s.len() ==> s[at] == '/',
        forall|i: int| 0 <= i < at ==> s[i] != '/',
    ensures
        slash_at(s) == at,
    decreases s.len(),
{
    if at > 0 {
        assert forall|i: int| 0 <= i < at - 1 implies s.drop_first()[i] != '/' by {
            assert(s[i + 1] != '/');
        }
        slash_is(s.drop_first(), at - 1);
    }
}

impl Dim {
    /// Parses one dimension spelling.
    pub fn parse(text: &str) -> (dim: Option<Self>)
        ensures
            dim == dim_of(text@),
    {
        let chars = chars_of(text);
        let auto = chars_of("auto");
        if same_chars(&chars, &auto) {
            return Some(Dim::Auto);
        }
        if let Some(value) = parse_unsigned(&chars) {
            return if value > 0 {
                Some(Dim::Literal(value))
            } else {
                None
            };
        }
        let mut slash: usize = 0;
        while slash < chars.len() && chars[slash] != '/'
            invariant
                slash <= chars@.len(),
                forall|i: int| 0 <= i < slash ==> chars@[i] != '/',
            decreases chars@.len() - slash,
        {
            slash += 1;
        }
        proof {
            slash_is(chars@, slash as int);
        }
        let mut divisor: u64 = 1;
        if slash < chars.len() {
            let tail = vstd::slice::slice_subrange(&chars, slash + 1, chars.len());
            proof {
                assert(tail@ =~= text@.skip(slash + 1));
            }
            match parse_unsigned(tail) {
                Some(value) if value > 0 => {
                    divisor = value;
                },
                _ => {
                    return None;
                },
            }
        }
        proof {
            reveal_strlit("shape[");
        }
        let opening = chars_of("shape[");
        if slash < 7 || !same_chars(vstd::slice::slice_subrange(&chars, 0, 6), &opening)
            || chars[slash - 1] != ']' {
            proof {
                assert(slash >= 7 ==> text@.take(slash as int).take(6) =~= chars@.subrange(0, 6));
            }
            return None;
        }
        let inner = vstd::slice::slice_subrange(&chars, 6, slash - 1);
        proof {
            let head = text@.take(slash as int);
            assert(head.take(6) =~= chars@.subrange(0, 6));
            assert(inner@ =~= head.subrange(6, head.len() - 1));
        }
        match parse_unsigned(inner) {
            Some(value) if value <= usize::MAX as u64 => Some(
                Dim::Axis { axis: value as usize, divisor },
            ),
            _ => None,
        }
    }
}

/// A generalized permute: reshape to `view`, permute those axes, reshape back.
#[derive(Debug, PartialEq, Eq)]
pub struct Permute {
    pub view: Vec<Dim>,
    pub axes: Vec<usize>,
}

/// The value of a [`Permute`].
#[verifier::ext_equal]
pub struct PermuteModel {
    pub view: Seq<Dim>,
    pub axes: Seq<usize>,
}

impl View for Permute {
    type V = PermuteModel;

    open spec fn view(&self) -> PermuteModel {
        PermuteModel { view: self.view@, axes: self.axes@ }
    }
}

/// The size of one view dimension for a tensor of this shape, the inferred one
/// standing as 1.
pub open spec fn dim_size(dim: Dim, shape: Seq<u64>) -> Option<u64> {
    match dim {
        Dim::Literal(literal) => Some(literal),
        Dim::Axis { axis, divisor } => if axis < shape.len() && divisor > 0 && shape[axis as int]
            % divisor == 0 {
            Some(shape[axis as int] / divisor)
        } else {
            None
        },
        Dim::Auto => Some(1),
    }
}

/// The sizes of the view dimensions, when each is known and positive.
pub open spec fn dim_sizes(view: Seq<Dim>, shape: Seq<u64>) -> Option<Seq<u64>>
    decreases view.len(),
{
    if view.len() == 0 {
        Some(Seq::empty())
    } else {
        match (dim_sizes(view.drop_last(), shape), dim_size(view.last(), shape)) {
            (Some(head), Some(size)) => if size > 0 {
                Some(head.push(size))
            } else {
                None
            },
            _ => None,
        }
    }
}

/// Where the only inferred dimension stands; `None` when there is none, and
/// unusable when there are two.
pub open spec fn lone_auto(view: Seq<Dim>) -> bool {
    forall|i: int, j: int|
        0 <= i < view.len() && 0 <= j < view.len() && #[trigger] view[i] == Dim::Auto
            && #[trigger] view[j] == Dim::Auto ==> i == j
}

impl PermuteModel {
    /// The concrete view dimensions for a tensor of this shape: the declared
    /// sizes, with the inferred one set so that the products agree.
    pub open spec fn resolved(self, shape: Seq<u64>) -> Option<Seq<u64>> {
        match (product(shape), dim_sizes(self.view, shape)) {
            (Some(elements), Some(sizes)) => match product(sizes) {
                None => None,
                Some(known) => if !lone_auto(self.view) {
                    None
                } else if !self.view.contains(Dim::Auto) {
                    if known == elements {
                        Some(sizes)
                    } else {
                        None
                    }
                } else if known > 0 && elements % known == 0 {
                    Some(sizes.update(self.view.index_of(Dim::Auto), elements / known))
                } else {
                    None
                },
            },
            _ => None,
        }
    }
}

proof fn dim_sizes_of_prefix(view: Seq<Dim>, shape: Seq<u64>, upto: int)
    requires
        0 <= upto <= view.len(),
        dim_sizes(view, shape) is Some,
    ensures
        dim_sizes(view.take(upto), shape) is Some,
        dim_sizes(view.take(upto), shape).unwrap() == dim_sizes(view, shape).unwrap().take(upto),
        dim_sizes(view, shape).unwrap().len() == view.len(),
    decreases view.len(),
{
    if upto == view.len() {
        assert(view.take(upto) =~= view);
        if view.len() > 0 {
            dim_sizes_of_prefix(view.drop_last(), shape, upto - 1);
        }
        assert(dim_sizes(view, shape).unwrap().take(upto) =~= dim_sizes(view, shape).unwrap());
    } else {
        dim_sizes_of_prefix(view.drop_last(), shape, upto);
        assert(view.drop_last().take(upto) =~= view.take(upto));
        assert(dim_sizes(view, shape).unwrap().take(upto) =~= dim_sizes(
            view.drop_last(),
            shape,
        ).unwrap().take(upto));
    }
}

impl Clone for Permute {
    fn clone(&self) -> (copy: Self)
        ensures
            copy@ == self@,
    {
        let copy = Permute {
            view: vstd::slice::slice_to_vec(&self.view),
            axes: vstd::slice::slice_to_vec(&self.axes),
        };
        assert(copy@ =~= self@);
        copy
    }
}

impl Permute {
    pub fn axes(&self) -> (axes: &[usize])
        ensures
            axes@ == self@.axes,
    {
        &self.axes
    }

    /// The concrete view dimensions for a tensor of this shape, or `None` when
    /// the declaration cannot apply to it.
    #[verifier::loop_isolation(false)]
    pub fn resolve(&self, shape: &[u64]) -> (resolved: Option<Vec<u64>>)
        ensures
            match resolved {
                Some(r) => self@.resolved(shape@) == Some(r@),
                None => self@.resolved(shape@) is None,
            },
    {
        let elements: u64 = match checked_product(shape) {
            Some(elements) => elements,
            None => {
                return None;
            },
        };
        let ghost view = self.view@;
        let mut sizes: Vec<u64> = Vec::new();
        let mut auto: Option<usize> = None;
        let mut at: usize = 0;
        while at < self.view.len()
            invariant
                at <= view.len(),
                sizes@.len() == at,
                dim_sizes(view.take(at as int), shape@) == Some(sizes@),
                match auto {
                    None => forall|i: int| 0 <= i < at ==> #[trigger] view[i] != Dim::Auto,
                    Some(a) => a < at && view[a as int] == Dim::Auto && forall|i: int|
                        0 <= i < at && i != a ==> #[trigger] view[i] != Dim::Auto,
                },
            decreases view.len() - at,
        {
            proof {
                assert(view.take(at + 1).drop_last() =~= view.take(at as int));
                if dim_sizes(view, shape@) is Some {
                    dim_sizes_of_prefix(view, shape@, at + 1);
                }
            }
            let dim = self.view[at];
            let size: u64 = match dim {
                Dim::Literal(literal) => literal,
                Dim::Axis { axis, divisor } => {
                    if axis >= shape.len() || divisor == 0 || shape[axis] % divisor != 0 {
                        return None;
                    }
                    shape[axis] / divisor
                },
                Dim::Auto => {
                    if let Some(a) = auto {
                        assert(view[a as int] == Dim::Auto && view[at as int] == Dim::Auto);
                        return None;
                    }
                    auto = Some(at);
                    1
                },
            };
            if size == 0 {
                return None;
            }
            sizes.push(size);
            at += 1;
        }
        proof {
            assert(view.take(at as int) =~= view);
        }
        let known: u64 = match checked_product(&sizes) {
            Some(known) => known,
            None => {
                return None;
            },
        };
        match auto {
            None => {
                if known == elements {
                    Some(sizes)
                } else {
                    None
                }
            },
            Some(a) => {
                proof {
                    assert(view.contains(Dim::Auto));
                    assert(view.index_of(Dim::Auto) == a);
                }
                if known == 0 || elements % known != 0 {
                    return None;
                }
                sizes[a] = elements / known;
                Some(sizes)
            },
        }
    }
}

} // verus!
