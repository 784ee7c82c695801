//! The canonical rendering tells contracts apart: where no text holds a mark
//! that separates it from what stands behind it, two contracts of one rendering
//! declare the same.

use crate::contract::{
    axes_text, canonical_text, comma_text, dim_text, dims_text, dtypes_text, format_char,
    fusion_text, heading_text, listed_text, parts_text, permute_text, producer_char, rank_text,
    required_text, set_text, sets_text, tensor_head, tensor_text, tensors_text, ContractModel,
    HandleModel, SetModel, TensorModel, CONTRACT_FORMAT,
};
use crate::fusion::{Dim, FusionModel, PartModel, PermuteModel};
use crate::text::{decimal, decimal_round_trip, is_digit, joined};
use vstd::prelude::*;

verus! {

// ---------------------------------------------------------------------------
// Cutting texts apart
// ---------------------------------------------------------------------------

/// Whether a text holds none of some characters.
pub open spec fn without(text: Seq<char>, marks: Seq<char>) -> bool {
    forall|i: int| 0 <= i < text.len() ==> !marks.contains(#[trigger] text[i])
}

/// Two texts that are equal, and of which each starts with a part without the
/// marks that the rest starts with, have equal parts.
pub(crate) proof fn apart(u: Seq<char>, v: Seq<char>, x: Seq<char>, y: Seq<char>, marks: Seq<char>)
    requires
        without(u, marks),
        without(v, marks),
        x.len() > 0,
        y.len() > 0,
        marks.contains(x[0]),
        marks.contains(y[0]),
        u + x == v + y,
    ensures
        u == v,
        x == y,
{
    let whole = u + x;
    if u.len() < v.len() {
        assert(whole[u.len() as int] == x[0]);
        assert((v + y)[u.len() as int] == v[u.len() as int]);
    }
    if v.len() < u.len() {
        assert((v + y)[v.len() as int] == y[0]);
        assert(whole[v.len() as int] == u[v.len() as int]);
    }
    assert forall|i: int| 0 <= i < u.len() implies u[i] == v[i] by {
        assert(whole[i] == u[i] && (v + y)[i] == v[i]);
    }
    assert(u =~= v);
    behind(u, x, y);
}

/// What stands behind the same text is the same.
pub(crate) proof fn behind(head: Seq<char>, x: Seq<char>, y: Seq<char>)
    requires
        head + x == head + y,
    ensures
        x == y,
{
    assert((head + x).len() == head.len() + x.len());
    assert((head + y).len() == head.len() + y.len());
    assert forall|i: int| 0 <= i < x.len() implies x[i] == y[i] by {
        assert((head + x)[head.len() + i] == x[i]);
        assert((head + y)[head.len() + i] == y[i]);
    }
    assert(x =~= y);
}

/// The first `upto` texts, each followed by `end`.
pub open spec fn ended(list: Seq<Seq<char>>, end: Seq<char>, upto: int) -> Seq<char>
    decreases upto,
{
    if upto <= 0 {
        Seq::empty()
    } else {
        ended(list, end, upto - 1) + list[upto - 1] + end
    }
}

proof fn ended_from_the_left(list: Seq<Seq<char>>, end: Seq<char>, upto: int)
    requires
        0 < upto <= list.len(),
    ensures
        ended(list, end, upto) == list[0] + (end + ended(list.drop_first(), end, upto - 1)),
    decreases upto,
{
    let rest = list.drop_first();
    if upto == 1 {
        assert(ended(list, end, 0) =~= Seq::<char>::empty());
        assert(ended(rest, end, 0) =~= Seq::<char>::empty());
        assert(ended(list, end, 1) =~= list[0] + (end + ended(rest, end, 0)));
    } else {
        ended_from_the_left(list, end, upto - 1);
        assert(rest[upto - 2] == list[upto - 1]);
        assert(ended(list, end, upto) =~= list[0] + (end + (ended(rest, end, upto - 2)
            + rest[upto - 2] + end)));
    }
}

proof fn ended_tells_apart(a: Seq<Seq<char>>, b: Seq<Seq<char>>, end: Seq<char>)
    requires
        end.len() > 0,
        forall|i: int| 0 <= i < a.len() ==> without(#[trigger] a[i], seq![end[0]]),
        forall|i: int| 0 <= i < b.len() ==> without(#[trigger] b[i], seq![end[0]]),
        ended(a, end, a.len() as int) == ended(b, end, b.len() as int),
    ensures
        a == b,
    decreases a.len(),
{
    if a.len() > 0 {
        ended_from_the_left(a, end, a.len() as int);
        assert(ended(a, end, a.len() as int).len() > 0);
    }
    if b.len() > 0 {
        ended_from_the_left(b, end, b.len() as int);
        assert(ended(b, end, b.len() as int).len() > 0);
    }
    if a.len() == 0 || b.len() == 0 {
        assert(a =~= b);
    } else {
        let (x, y) = (a.drop_first(), b.drop_first());
        let p = ended(x, end, x.len() as int);
        let q = ended(y, end, y.len() as int);
        let marks = seq![end[0]];
        assert(marks[0] == end[0]);
        assert((end + p)[0] == end[0] && (end + q)[0] == end[0]);
        apart(a[0], b[0], end + p, end + q, marks);
        behind(end, p, q);
        assert forall|i: int| 0 <= i < x.len() implies without(#[trigger] x[i], marks) by {
            assert(x[i] == a[i + 1]);
        }
        assert forall|i: int| 0 <= i < y.len() implies without(#[trigger] y[i], marks) by {
            assert(y[i] == b[i + 1]);
        }
        ended_tells_apart(x, y, end);
        assert(a =~= seq![a[0]] + x);
        assert(b =~= seq![b[0]] + y);
    }
}

proof fn ended_of_two(a: Seq<Seq<char>>, b: Seq<Seq<char>>, end: Seq<char>, upto: int)
    requires
        0 <= upto <= b.len(),
    ensures
        ended(a + b, end, a.len() + upto) == ended(a, end, a.len() as int) + ended(b, end, upto),
    decreases upto,
{
    if upto == 0 {
        ended_of_first(a, b, end, a.len() as int);
        assert(ended(a, end, a.len() as int) + ended(b, end, 0) =~= ended(a, end, a.len() as int));
    } else {
        ended_of_two(a, b, end, upto - 1);
        assert((a + b)[a.len() + upto - 1] == b[upto - 1]);
        assert(ended(a + b, end, a.len() + upto) =~= ended(a, end, a.len() as int) + ended(
            b,
            end,
            upto,
        ));
    }
}

proof fn ended_of_first(a: Seq<Seq<char>>, b: Seq<Seq<char>>, end: Seq<char>, upto: int)
    requires
        0 <= upto <= a.len(),
    ensures
        ended(a + b, end, upto) == ended(a, end, upto),
    decreases upto,
{
    if upto > 0 {
        ended_of_first(a, b, end, upto - 1);
        assert((a + b)[upto - 1] == a[upto - 1]);
    }
}

proof fn joined_is_ended(list: Seq<Seq<char>>, between: Seq<char>, upto: int)
    requires
        1 <= upto <= list.len(),
    ensures
        joined(list, between, upto) + between == ended(list, between, upto),
    decreases upto,
{
    if upto == 1 {
        assert(ended(list, between, 0) =~= Seq::<char>::empty());
        assert(ended(list, between, 1) =~= list[0] + between);
    } else {
        joined_is_ended(list, between, upto - 1);
    }
}

proof fn joined_tells_apart(a: Seq<Seq<char>>, b: Seq<Seq<char>>, between: Seq<char>)
    requires
        between.len() > 0,
        forall|i: int|
            0 <= i < a.len() ==> without(#[trigger] a[i], seq![between[0]]) && a[i].len() > 0,
        forall|i: int|
            0 <= i < b.len() ==> without(#[trigger] b[i], seq![between[0]]) && b[i].len() > 0,
        joined(a, between, a.len() as int) == joined(b, between, b.len() as int),
    ensures
        a == b,
{
    if a.len() > 0 {
        joined_is_ended(a, between, a.len() as int);
        ended_from_the_left(a, between, a.len() as int);
        assert(a[0].len() > 0);
    }
    if b.len() > 0 {
        joined_is_ended(b, between, b.len() as int);
        ended_from_the_left(b, between, b.len() as int);
        assert(b[0].len() > 0);
    }
    if a.len() == 0 || b.len() == 0 {
        assert(a =~= b);
    } else {
        ended_tells_apart(a, b, between);
    }
}

/// Joined texts hold what the texts and what stands between them hold.
proof fn joined_without(list: Seq<Seq<char>>, between: Seq<char>, marks: Seq<char>, upto: int)
    requires
        0 <= upto <= list.len(),
        without(between, marks),
        forall|i: int| 0 <= i < list.len() ==> without(#[trigger] list[i], marks),
    ensures
        without(joined(list, between, upto), marks),
    decreases upto,
{
    if upto == 1 {
        assert(without(list[0], marks));
    } else if upto > 1 {
        joined_without(list, between, marks, upto - 1);
        assert(without(list[upto - 1], marks));
        without_either(joined(list, between, upto - 1), between, marks);
        without_either(joined(list, between, upto - 1) + between, list[upto - 1], marks);
    }
}

proof fn ended_without(list: Seq<Seq<char>>, end: Seq<char>, marks: Seq<char>, upto: int)
    requires
        0 <= upto <= list.len(),
        without(end, marks),
        forall|i: int| 0 <= i < list.len() ==> without(#[trigger] list[i], marks),
    ensures
        without(ended(list, end, upto), marks),
    decreases upto,
{
    if upto > 0 {
        ended_without(list, end, marks, upto - 1);
        assert(without(list[upto - 1], marks));
        without_either(ended(list, end, upto - 1), list[upto - 1], marks);
        without_either(ended(list, end, upto - 1) + list[upto - 1], end, marks);
    }
}

proof fn without_either(a: Seq<char>, b: Seq<char>, marks: Seq<char>)
    requires
        without(a, marks),
        without(b, marks),
    ensures
        without(a + b, marks),
{
    assert forall|i: int| 0 <= i < (a + b).len() implies !marks.contains(#[trigger] (a + b)[i]) by {
        if i < a.len() {
            assert((a + b)[i] == a[i]);
        } else {
            assert((a + b)[i] == b[i - a.len()]);
        }
    }
}

proof fn fewer_marks(text: Seq<char>, marks: Seq<char>, fewer: Seq<char>)
    requires
        without(text, marks),
        forall|c: char| fewer.contains(c) ==> marks.contains(c),
    ensures
        without(text, fewer),
{
    assert forall|i: int| 0 <= i < text.len() implies !fewer.contains(#[trigger] text[i]) by {
        assert(!marks.contains(text[i]));
    }
}

/// The marks that no number holds.
spec fn number_marks() -> Seq<char> {
    seq![' ', ',', ':', ']', '\n', '=']
}

proof fn numbers_are_unmarked(n: nat)
    ensures
        without(decimal(n), number_marks()),
        decimal(n).len() > 0,
        is_digit(decimal(n)[0]),
{
    decimal_round_trip(n);
    let text = decimal(n);
    assert forall|i: int| 0 <= i < text.len() implies !number_marks().contains(
        #[trigger] text[i],
    ) by {
        assert(is_digit(text[i]));
        if number_marks().contains(text[i]) {
            let k = choose|k: int| 0 <= k < number_marks().len() && number_marks()[k] == text[i];
        }
    }
}

proof fn number_without(n: nat, marks: Seq<char>)
    requires
        forall|c: char| marks.contains(c) ==> number_marks().contains(c),
    ensures
        without(decimal(n), marks),
{
    numbers_are_unmarked(n);
    fewer_marks(decimal(n), number_marks(), marks);
}

pub(crate) proof fn numbers_tell_apart(a: nat, b: nat)
    requires
        decimal(a) == decimal(b),
    ensures
        a == b,
{
    decimal_round_trip(a);
    decimal_round_trip(b);
}

// ---------------------------------------------------------------------------
// What a declaration renders
// ---------------------------------------------------------------------------

proof fn dims_are_unmarked(dim: Dim)
    ensures
        without(dim_text(dim), seq![',']),
        without(dim_text(dim), seq![':']),
        without(dim_text(dim), seq!['\n']),
        dim_text(dim).len() > 0,
        dim_text(dim)[0] == 'a' <==> dim is Auto,
        dim_text(dim)[0] == 's' <==> dim is Axis,
{
    reveal_strlit("auto");
    reveal_strlit("shape[");
    reveal_strlit("]/");
    match dim {
        Dim::Literal(literal) => {
            numbers_are_unmarked(literal as nat);
            number_without(literal as nat, seq![',']);
            number_without(literal as nat, seq![':']);
            number_without(literal as nat, seq!['\n']);
        },
        Dim::Auto => {},
        Dim::Axis { axis, divisor } => {
            let a = "shape["@ + decimal(axis as nat);
            let b = a + "]/"@;
            assert forall|c: char| c == ',' || c == ':' || c == '\n' implies without(
                dim_text(dim),
                #[trigger] seq![c],
            ) by {
                number_without(axis as nat, seq![c]);
                number_without(divisor as nat, seq![c]);
                without_either("shape["@, decimal(axis as nat), seq![c]);
                without_either(a, "]/"@, seq![c]);
                without_either(b, decimal(divisor as nat), seq![c]);
            }
            assert(dim_text(dim)[0] == "shape["@[0]);
            assert(without(dim_text(dim), seq![',']));
            assert(without(dim_text(dim), seq![':']));
            assert(without(dim_text(dim), seq!['\n']));
        },
    }
}

proof fn dims_tell_apart(a: Dim, b: Dim)
    requires
        dim_text(a) == dim_text(b),
    ensures
        a == b,
{
    dims_are_unmarked(a);
    dims_are_unmarked(b);
    match (a, b) {
        (Dim::Literal(x), Dim::Literal(y)) => {
            numbers_tell_apart(x as nat, y as nat);
        },
        (Dim::Axis { axis: x, divisor: p }, Dim::Axis { axis: y, divisor: q }) => {
            reveal_strlit("]/");
            let s = decimal(x as nat);
            let t = decimal(y as nat);
            let u = "]/"@ + decimal(p as nat);
            let v = "]/"@ + decimal(q as nat);
            let marks = seq![']'];
            assert("shape["@ + (s + u) =~= dim_text(a));
            assert("shape["@ + (t + v) =~= dim_text(b));
            behind("shape["@, s + u, t + v);
            number_without(x as nat, marks);
            number_without(y as nat, marks);
            assert(marks[0] == ']');
            apart(s, t, u, v, marks);
            numbers_tell_apart(x as nat, y as nat);
            behind("]/"@, decimal(p as nat), decimal(q as nat));
            numbers_tell_apart(p as nat, q as nat);
        },
        _ => {},
    }
}

spec fn dim_texts(view: Seq<Dim>) -> Seq<Seq<char>> {
    view.map_values(|dim: Dim| dim_text(dim))
}

proof fn dims_are_ended(view: Seq<Dim>, upto: int)
    requires
        0 <= upto <= view.len(),
    ensures
        dims_text(view, upto) == ended(dim_texts(view), ","@, upto),
    decreases upto,
{
    if upto > 0 {
        dims_are_ended(view, upto - 1);
    }
}

proof fn views_tell_apart(a: Seq<Dim>, b: Seq<Dim>)
    requires
        dims_text(a, a.len() as int) == dims_text(b, b.len() as int),
    ensures
        a == b,
{
    reveal_strlit(",");
    dims_are_ended(a, a.len() as int);
    dims_are_ended(b, b.len() as int);
    assert forall|i: int| 0 <= i < a.len() implies without(
        #[trigger] dim_texts(a)[i],
        seq![","@[0]],
    ) by {
        dims_are_unmarked(a[i]);
    }
    assert forall|i: int| 0 <= i < b.len() implies without(
        #[trigger] dim_texts(b)[i],
        seq![","@[0]],
    ) by {
        dims_are_unmarked(b[i]);
    }
    ended_tells_apart(dim_texts(a), dim_texts(b), ","@);
    assert(dim_texts(a).len() == a.len() && dim_texts(b).len() == b.len());
    assert forall|i: int| 0 <= i < a.len() implies a[i] == b[i] by {
        assert(dim_texts(a)[i] == dim_text(a[i]) && dim_texts(b)[i] == dim_text(b[i]));
        dims_tell_apart(a[i], b[i]);
    }
    assert(a =~= b);
}

spec fn axis_texts(axes: Seq<usize>) -> Seq<Seq<char>> {
    axes.map_values(|axis: usize| decimal(axis as nat))
}

proof fn axes_are_joined(axes: Seq<usize>, upto: int)
    requires
        0 <= upto <= axes.len(),
    ensures
        axes_text(axes, upto) == joined(axis_texts(axes), ", "@, upto),
    decreases upto,
{
    if upto > 1 {
        axes_are_joined(axes, upto - 1);
    }
}

proof fn axes_are_unmarked(axes: Seq<usize>, i: int)
    requires
        0 <= i < axes.len(),
    ensures
        without(axis_texts(axes)[i], seq![',']),
        without(axis_texts(axes)[i], seq![']']),
        without(axis_texts(axes)[i], seq!['\n']),
        axis_texts(axes)[i].len() > 0,
{
    numbers_are_unmarked(axes[i] as nat);
    number_without(axes[i] as nat, seq![',']);
    number_without(axes[i] as nat, seq![']']);
    number_without(axes[i] as nat, seq!['\n']);
}

proof fn axes_tell_apart(a: Seq<usize>, b: Seq<usize>)
    requires
        axes_text(a, a.len() as int) == axes_text(b, b.len() as int),
    ensures
        a == b,
{
    reveal_strlit(", ");
    axes_are_joined(a, a.len() as int);
    axes_are_joined(b, b.len() as int);
    assert forall|i: int| 0 <= i < a.len() implies without(
        #[trigger] axis_texts(a)[i],
        seq![", "@[0]],
    ) && axis_texts(a)[i].len() > 0 by {
        axes_are_unmarked(a, i);
    }
    assert forall|i: int| 0 <= i < b.len() implies without(
        #[trigger] axis_texts(b)[i],
        seq![", "@[0]],
    ) && axis_texts(b)[i].len() > 0 by {
        axes_are_unmarked(b, i);
    }
    joined_tells_apart(axis_texts(a), axis_texts(b), ", "@);
    assert(axis_texts(a).len() == a.len() && axis_texts(b).len() == b.len());
    assert forall|i: int| 0 <= i < a.len() implies a[i] == b[i] by {
        assert(axis_texts(a)[i] == decimal(a[i] as nat) && axis_texts(b)[i] == decimal(
            b[i] as nat,
        ));
        numbers_tell_apart(a[i] as nat, b[i] as nat);
    }
    assert(a =~= b);
}

spec fn part_text(part: PartModel) -> Seq<char> {
    part.role + ":"@ + decimal(part.share as nat)
}

spec fn part_texts(parts: Seq<PartModel>) -> Seq<Seq<char>> {
    parts.map_values(|part: PartModel| part_text(part))
}

proof fn parts_are_ended(parts: Seq<PartModel>, upto: int)
    requires
        0 <= upto <= parts.len(),
    ensures
        parts_text(parts, upto) == ended(part_texts(parts), ","@, upto),
    decreases upto,
{
    if upto > 0 {
        parts_are_ended(parts, upto - 1);
        assert(part_texts(parts)[upto - 1] == part_text(parts[upto - 1]));
        assert(parts_text(parts, upto) =~= ended(part_texts(parts), ","@, upto - 1) + part_text(
            parts[upto - 1],
        ) + ","@);
    }
}

/// A part whose role holds none of the marks around it.
pub open spec fn plain_part(part: PartModel) -> bool {
    without(part.role, seq![',', ':', '\n'])
}

proof fn a_part_is_unmarked(part: PartModel)
    requires
        plain_part(part),
    ensures
        without(part_text(part), seq![',']),
        without(part_text(part), seq!['\n']),
{
    reveal_strlit(":");
    let marks = seq![',', ':', '\n'];
    assert(marks[0] == ',' && marks[1] == ':' && marks[2] == '\n');
    assert forall|c: char| c == ',' || c == '\n' implies without(
        part_text(part),
        #[trigger] seq![c],
    ) by {
        fewer_marks(part.role, marks, seq![c]);
        number_without(part.share as nat, seq![c]);
        without_either(part.role, ":"@, seq![c]);
        without_either(part.role + ":"@, decimal(part.share as nat), seq![c]);
    }
    assert(without(part_text(part), seq![',']));
    assert(without(part_text(part), seq!['\n']));
}

proof fn parts_tell_apart(a: Seq<PartModel>, b: Seq<PartModel>)
    requires
        forall|i: int| 0 <= i < a.len() ==> plain_part(#[trigger] a[i]),
        forall|i: int| 0 <= i < b.len() ==> plain_part(#[trigger] b[i]),
        parts_text(a, a.len() as int) == parts_text(b, b.len() as int),
    ensures
        a == b,
{
    reveal_strlit(",");
    reveal_strlit(":");
    parts_are_ended(a, a.len() as int);
    parts_are_ended(b, b.len() as int);
    assert forall|i: int| 0 <= i < a.len() implies without(
        #[trigger] part_texts(a)[i],
        seq![","@[0]],
    ) by {
        a_part_is_unmarked(a[i]);
    }
    assert forall|i: int| 0 <= i < b.len() implies without(
        #[trigger] part_texts(b)[i],
        seq![","@[0]],
    ) by {
        a_part_is_unmarked(b[i]);
    }
    ended_tells_apart(part_texts(a), part_texts(b), ","@);
    assert(part_texts(a).len() == a.len() && part_texts(b).len() == b.len());
    assert forall|i: int| 0 <= i < a.len() implies a[i] == b[i] by {
        let marks = seq![':'];
        let all = seq![',', ':', '\n'];
        assert(all[1] == ':' && marks[0] == ':');
        assert(part_texts(a)[i] == part_text(a[i]) && part_texts(b)[i] == part_text(b[i]));
        let x = ":"@ + decimal(a[i].share as nat);
        let y = ":"@ + decimal(b[i].share as nat);
        assert(part_text(a[i]) =~= a[i].role + x);
        assert(part_text(b[i]) =~= b[i].role + y);
        assert(plain_part(a[i]) && plain_part(b[i]));
        fewer_marks(a[i].role, all, marks);
        fewer_marks(b[i].role, all, marks);
        apart(a[i].role, b[i].role, x, y, marks);
        behind(":"@, decimal(a[i].share as nat), decimal(b[i].share as nat));
        numbers_tell_apart(a[i].share as nat, b[i].share as nat);
    }
    assert(a =~= b);
}

// ---------------------------------------------------------------------------
// Lines
// ---------------------------------------------------------------------------

/// The marks that end a field of a declaration.
pub open spec fn field_marks() -> Seq<char> {
    seq![' ', '\n']
}

/// A declaration whose texts hold none of the marks around them, and whose
/// element types are not empty.
pub open spec fn plain_tensor(tensor: TensorModel) -> bool {
    &&& without(tensor.role, field_marks())
    &&& without(tensor.pattern, field_marks())
    &&& forall|i: int|
        0 <= i < tensor.dtypes.len() ==> without(#[trigger] tensor.dtypes[i], seq![' ', ',', '\n'])
            && tensor.dtypes[i].len() > 0
    &&& tensor.fusion matches Some(fusion) ==> forall|i: int|
        0 <= i < fusion.parts.len() ==> plain_part(#[trigger] fusion.parts[i])
}

/// A set whose texts hold none of the marks around them.
pub open spec fn plain_set(set: SetModel) -> bool {
    &&& without(set.name, seq!['=', '\n'])
    &&& forall|i: int|
        0 <= i < set.members.len() ==> without(#[trigger] set.members[i], seq![',', '\n'])
}

/// What stands behind the permute of a declaration.
spec fn fusion_tail(tensor: TensorModel) -> Seq<char> {
    fusion_text(tensor.fusion) + "\n"@
}

/// What stands behind the element types of a declaration.
spec fn permute_tail(tensor: TensorModel) -> Seq<char> {
    permute_text(tensor.permute) + fusion_tail(tensor)
}

proof fn tails_start_with_a_mark(tensor: TensorModel)
    ensures
        fusion_tail(tensor).len() > 0,
        permute_tail(tensor).len() > 0,
        tensor.fusion is None ==> fusion_tail(tensor)[0] == '\n',
        tensor.fusion is Some ==> fusion_tail(tensor).len() > 1 && fusion_tail(tensor)[0] == ' '
            && fusion_tail(tensor)[1] == 'f',
        tensor.permute is None ==> permute_tail(tensor) == fusion_tail(tensor),
        tensor.permute is Some ==> permute_tail(tensor).len() > 1 && permute_tail(tensor)[0] == ' '
            && permute_tail(tensor)[1] == 'p',
{
    reveal_strlit("\n");
    reveal_strlit(" permute=");
    reveal_strlit(" fusion=groups:");
    if tensor.permute is None {
        assert(permute_tail(tensor) =~= fusion_tail(tensor));
    }
    if let Some(f) = tensor.fusion {
        let text = fusion_text(tensor.fusion);
        assert(text[0] == " fusion=groups:"@[0] && text[1] == " fusion=groups:"@[1]);
        assert(fusion_tail(tensor)[0] == text[0] && fusion_tail(tensor)[1] == text[1]);
    }
    if let Some(p) = tensor.permute {
        let text = permute_text(tensor.permute);
        assert(text[0] == " permute="@[0] && text[1] == " permute="@[1]);
        assert(permute_tail(tensor)[0] == text[0] && permute_tail(tensor)[1] == text[1]);
    }
}

proof fn fusions_tell_apart(a: TensorModel, b: TensorModel)
    requires
        plain_tensor(a),
        plain_tensor(b),
        fusion_tail(a) == fusion_tail(b),
    ensures
        a.fusion == b.fusion,
{
    tails_start_with_a_mark(a);
    tails_start_with_a_mark(b);
    if let (Some(f), Some(g)) = (a.fusion, b.fusion) {
        groups_tell_apart(f, g);
    }
}

/// The parts of a fusion, and the end of its line.
spec fn parts_tail(fusion: FusionModel) -> Seq<char> {
    parts_text(fusion.parts, fusion.parts.len() as int) + "\n"@
}

proof fn a_fusion_in_parts(fusion: FusionModel)
    ensures
        fusion_text(Some(fusion)) + "\n"@ == " fusion=groups:"@ + (decimal(fusion.groups as nat) + (
        ","@ + parts_tail(fusion))),
{
    assert(fusion_text(Some(fusion)) + "\n"@ =~= " fusion=groups:"@ + (decimal(
        fusion.groups as nat,
    ) + (","@ + parts_tail(fusion))));
}

proof fn groups_tell_apart(f: FusionModel, g: FusionModel)
    requires
        forall|i: int| 0 <= i < f.parts.len() ==> plain_part(#[trigger] f.parts[i]),
        forall|i: int| 0 <= i < g.parts.len() ==> plain_part(#[trigger] g.parts[i]),
        fusion_text(Some(f)) + "\n"@ == fusion_text(Some(g)) + "\n"@,
    ensures
        f == g,
{
    reveal_strlit(",");
    reveal_strlit("\n");
    let x = ","@ + parts_tail(f);
    let y = ","@ + parts_tail(g);
    a_fusion_in_parts(f);
    a_fusion_in_parts(g);
    behind(" fusion=groups:"@, decimal(f.groups as nat) + x, decimal(g.groups as nat) + y);
    let marks = seq![','];
    assert(marks[0] == ',');
    number_without(f.groups as nat, marks);
    number_without(g.groups as nat, marks);
    apart(decimal(f.groups as nat), decimal(g.groups as nat), x, y, marks);
    numbers_tell_apart(f.groups as nat, g.groups as nat);
    behind(","@, parts_tail(f), parts_tail(g));
    let ends = seq!['\n'];
    assert(ends[0] == '\n');
    parts_are_one_line(f.parts);
    parts_are_one_line(g.parts);
    apart(
        parts_text(f.parts, f.parts.len() as int),
        parts_text(g.parts, g.parts.len() as int),
        "\n"@,
        "\n"@,
        ends,
    );
    parts_tell_apart(f.parts, g.parts);
}

proof fn parts_are_one_line(parts: Seq<PartModel>)
    requires
        forall|i: int| 0 <= i < parts.len() ==> plain_part(#[trigger] parts[i]),
    ensures
        without(parts_text(parts, parts.len() as int), seq!['\n']),
{
    reveal_strlit(",");
    parts_are_ended(parts, parts.len() as int);
    assert forall|i: int| 0 <= i < parts.len() implies without(
        #[trigger] part_texts(parts)[i],
        seq!['\n'],
    ) by {
        a_part_is_unmarked(parts[i]);
    }
    ended_without(part_texts(parts), ","@, seq!['\n'], parts.len() as int);
}

proof fn permutes_tell_apart(a: TensorModel, b: TensorModel)
    requires
        plain_tensor(a),
        plain_tensor(b),
        permute_tail(a) == permute_tail(b),
    ensures
        a.permute == b.permute,
        a.fusion == b.fusion,
{
    tails_start_with_a_mark(a);
    tails_start_with_a_mark(b);
    if let (Some(p), Some(q)) = (a.permute, b.permute) {
        reveal_strlit(":[");
        reveal_strlit("]");
        let head = " permute="@;
        let (u, v) = (dims_text(p.view, p.view.len() as int), dims_text(q.view, q.view.len() as int));
        let (s, t) = (axes_text(p.axes, p.axes.len() as int), axes_text(q.axes, q.axes.len() as int));
        let x = "]"@ + fusion_tail(a);
        let y = "]"@ + fusion_tail(b);
        assert(permute_tail(a) =~= head + (u + (":["@ + (s + x))));
        assert(permute_tail(b) =~= head + (v + (":["@ + (t + y))));
        behind(head, u + (":["@ + (s + x)), v + (":["@ + (t + y)));
        views_are_unmarked(p.view, ':');
        views_are_unmarked(q.view, ':');
        let marks = seq![':'];
        assert(marks[0] == ':');
        apart(u, v, ":["@ + (s + x), ":["@ + (t + y), marks);
        views_tell_apart(p.view, q.view);
        behind(":["@, s + x, t + y);
        axes_have_no(p.axes, ']');
        axes_have_no(q.axes, ']');
        let ends = seq![']'];
        assert(ends[0] == ']');
        apart(s, t, x, y, ends);
        axes_tell_apart(p.axes, q.axes);
        behind("]"@, fusion_tail(a), fusion_tail(b));
    }
    fusions_tell_apart(a, b);
}

proof fn views_are_unmarked(view: Seq<Dim>, mark: char)
    requires
        mark == ':' || mark == '\n',
    ensures
        without(dims_text(view, view.len() as int), seq![mark]),
{
    reveal_strlit(",");
    dims_are_ended(view, view.len() as int);
    assert forall|i: int| 0 <= i < view.len() implies without(
        #[trigger] dim_texts(view)[i],
        seq![mark],
    ) by {
        dims_are_unmarked(view[i]);
    }
    ended_without(dim_texts(view), ","@, seq![mark], view.len() as int);
}

proof fn axes_have_no(axes: Seq<usize>, mark: char)
    requires
        mark == ']' || mark == '\n',
    ensures
        without(axes_text(axes, axes.len() as int), seq![mark]),
{
    reveal_strlit(", ");
    axes_are_joined(axes, axes.len() as int);
    assert forall|i: int| 0 <= i < axes.len() implies without(
        #[trigger] axis_texts(axes)[i],
        seq![mark],
    ) by {
        axes_are_unmarked(axes, i);
    }
    joined_without(axis_texts(axes), ", "@, seq![mark], axes.len() as int);
}

proof fn dtypes_are_joined(list: Seq<Seq<char>>, upto: int)
    requires
        0 <= upto <= list.len(),
    ensures
        comma_text(list, upto) == joined(list, ","@, upto),
    decreases upto,
{
    if upto > 1 {
        dtypes_are_joined(list, upto - 1);
    }
}

proof fn dtypes_are_unmarked(tensor: TensorModel)
    requires
        plain_tensor(tensor),
    ensures
        without(comma_text(tensor.dtypes, tensor.dtypes.len() as int), field_marks()),
{
    reveal_strlit(",");
    let list = tensor.dtypes;
    let all = seq![' ', ',', '\n'];
    assert(all[0] == ' ' && all[1] == ',' && all[2] == '\n');
    dtypes_are_joined(list, list.len() as int);
    assert forall|i: int| 0 <= i < list.len() implies without(#[trigger] list[i], field_marks()) by {
        fewer_marks(list[i], all, field_marks());
    }
    joined_without(list, ","@, field_marks(), list.len() as int);
}

proof fn dtypes_tell_apart(a: TensorModel, b: TensorModel)
    requires
        plain_tensor(a),
        plain_tensor(b),
        comma_text(a.dtypes, a.dtypes.len() as int) == comma_text(b.dtypes, b.dtypes.len() as int),
    ensures
        a.dtypes == b.dtypes,
{
    reveal_strlit(",");
    let all = seq![' ', ',', '\n'];
    assert(all[1] == ',');
    dtypes_are_joined(a.dtypes, a.dtypes.len() as int);
    dtypes_are_joined(b.dtypes, b.dtypes.len() as int);
    assert forall|i: int| 0 <= i < a.dtypes.len() implies without(
        #[trigger] a.dtypes[i],
        seq![","@[0]],
    ) && a.dtypes[i].len() > 0 by {
        fewer_marks(a.dtypes[i], all, seq![","@[0]]);
    }
    assert forall|i: int| 0 <= i < b.dtypes.len() implies without(
        #[trigger] b.dtypes[i],
        seq![","@[0]],
    ) && b.dtypes[i].len() > 0 by {
        fewer_marks(b.dtypes[i], all, seq![","@[0]]);
    }
    joined_tells_apart(a.dtypes, b.dtypes, ","@);
}

proof fn ranks_are_unmarked(rank: Option<usize>)
    ensures
        without(rank_text(rank), field_marks()),
        rank_text(rank).len() > 0,
        rank is None ==> rank_text(rank)[0] == 'a',
        rank is Some ==> is_digit(rank_text(rank)[0]),
{
    reveal_strlit("any");
    if let Some(n) = rank {
        numbers_are_unmarked(n as nat);
        let all = number_marks();
        assert(all[0] == ' ' && all[4] == '\n');
        number_without(n as nat, field_marks());
    }
}

pub(crate) proof fn ranks_tell_apart(a: Option<usize>, b: Option<usize>)
    requires
        rank_text(a) == rank_text(b),
    ensures
        a == b,
{
    ranks_are_unmarked(a);
    ranks_are_unmarked(b);
    if let (Some(x), Some(y)) = (a, b) {
        numbers_tell_apart(x as nat, y as nat);
    }
}

pub(crate) proof fn answers_tell_apart(a: bool, b: bool)
    ensures
        without(required_text(a), field_marks()),
        required_text(a) == required_text(b) ==> a == b,
{
    reveal_strlit("true");
    reveal_strlit("false");
    assert("true"@.len() == 4 && "false"@.len() == 5);
}

/// The parts of a declaration's line behind its role.
spec fn tail_from_pattern(tensor: TensorModel) -> Seq<char> {
    " pattern="@ + (tensor.pattern + tail_from_rank(tensor))
}

spec fn tail_from_rank(tensor: TensorModel) -> Seq<char> {
    " rank="@ + (rank_text(tensor.rank) + tail_from_required(tensor))
}

spec fn tail_from_required(tensor: TensorModel) -> Seq<char> {
    " required="@ + (required_text(tensor.required) + tail_from_dtypes(tensor))
}

spec fn tail_from_dtypes(tensor: TensorModel) -> Seq<char> {
    " dtypes="@ + (comma_text(tensor.dtypes, tensor.dtypes.len() as int) + permute_tail(tensor))
}

proof fn a_line_in_parts(tensor: TensorModel)
    ensures
        tensor_text(tensor) == "tensor role="@ + (tensor.role + tail_from_pattern(tensor)),
{
    let (permute, fusion) = (permute_text(tensor.permute), fusion_text(tensor.fusion));
    let head = tensor_head(tensor);
    let list = comma_text(tensor.dtypes, tensor.dtypes.len() as int);
    let dtypes = dtypes_text(tensor.dtypes);
    grouped(head + dtypes + permute, fusion, "\n"@);
    grouped(head + dtypes, permute, fusion + "\n"@);
    grouped(head, dtypes, permute_tail(tensor));
    grouped(" dtypes="@, list, permute_tail(tensor));
    let to_role = "tensor role="@ + tensor.role;
    let to_pattern = to_role + " pattern="@ + tensor.pattern;
    let to_rank = to_pattern + " rank="@ + rank_text(tensor.rank);
    grouped(to_rank + " required="@, required_text(tensor.required), tail_from_dtypes(tensor));
    grouped(to_rank, " required="@, required_text(tensor.required) + tail_from_dtypes(tensor));
    grouped(to_pattern + " rank="@, rank_text(tensor.rank), tail_from_required(tensor));
    grouped(to_pattern, " rank="@, rank_text(tensor.rank) + tail_from_required(tensor));
    grouped(to_role + " pattern="@, tensor.pattern, tail_from_rank(tensor));
    grouped(to_role, " pattern="@, tensor.pattern + tail_from_rank(tensor));
    grouped("tensor role="@, tensor.role, tail_from_pattern(tensor));
}

pub(crate) proof fn grouped(a: Seq<char>, b: Seq<char>, c: Seq<char>)
    ensures
        (a + b) + c == a + (b + c),
{
    assert((a + b) + c =~= a + (b + c));
}

proof fn tensors_tell_apart(a: TensorModel, b: TensorModel)
    requires
        plain_tensor(a),
        plain_tensor(b),
        tensor_text(a) == tensor_text(b),
    ensures
        a == b,
{
    reveal_strlit(" pattern=");
    reveal_strlit(" rank=");
    reveal_strlit(" required=");
    reveal_strlit(" dtypes=");
    let marks = field_marks();
    assert(marks[0] == ' ' && marks[1] == '\n');
    a_line_in_parts(a);
    a_line_in_parts(b);
    behind("tensor role="@, a.role + tail_from_pattern(a), b.role + tail_from_pattern(b));
    apart(a.role, b.role, tail_from_pattern(a), tail_from_pattern(b), marks);
    behind(" pattern="@, a.pattern + tail_from_rank(a), b.pattern + tail_from_rank(b));
    apart(a.pattern, b.pattern, tail_from_rank(a), tail_from_rank(b), marks);
    behind(
        " rank="@,
        rank_text(a.rank) + tail_from_required(a),
        rank_text(b.rank) + tail_from_required(b),
    );
    ranks_are_unmarked(a.rank);
    ranks_are_unmarked(b.rank);
    apart(
        rank_text(a.rank),
        rank_text(b.rank),
        tail_from_required(a),
        tail_from_required(b),
        marks,
    );
    ranks_tell_apart(a.rank, b.rank);
    behind(
        " required="@,
        required_text(a.required) + tail_from_dtypes(a),
        required_text(b.required) + tail_from_dtypes(b),
    );
    answers_tell_apart(a.required, b.required);
    answers_tell_apart(b.required, a.required);
    apart(
        required_text(a.required),
        required_text(b.required),
        tail_from_dtypes(a),
        tail_from_dtypes(b),
        marks,
    );
    let (s, t) = (
        comma_text(a.dtypes, a.dtypes.len() as int),
        comma_text(b.dtypes, b.dtypes.len() as int),
    );
    behind(" dtypes="@, s + permute_tail(a), t + permute_tail(b));
    dtypes_are_unmarked(a);
    dtypes_are_unmarked(b);
    tails_start_with_a_mark(a);
    tails_start_with_a_mark(b);
    apart(s, t, permute_tail(a), permute_tail(b), marks);
    dtypes_tell_apart(a, b);
    permutes_tell_apart(a, b);
}

proof fn members_are_ended(list: Seq<Seq<char>>, upto: int)
    requires
        0 <= upto <= list.len(),
    ensures
        listed_text(list, upto) == ended(list, ","@, upto),
    decreases upto,
{
    if upto > 0 {
        members_are_ended(list, upto - 1);
    }
}

proof fn members_are_one_line(set: SetModel)
    requires
        plain_set(set),
    ensures
        without(listed_text(set.members, set.members.len() as int), seq!['\n']),
{
    reveal_strlit(",");
    let all = seq![',', '\n'];
    assert(all[0] == ',' && all[1] == '\n');
    members_are_ended(set.members, set.members.len() as int);
    assert forall|i: int| 0 <= i < set.members.len() implies without(
        #[trigger] set.members[i],
        seq!['\n'],
    ) by {
        fewer_marks(set.members[i], all, seq!['\n']);
    }
    ended_without(set.members, ","@, seq!['\n'], set.members.len() as int);
}

proof fn sets_tell_apart(a: SetModel, b: SetModel)
    requires
        plain_set(a),
        plain_set(b),
        set_text(a) == set_text(b),
    ensures
        a == b,
{
    reveal_strlit("=");
    reveal_strlit(",");
    reveal_strlit("\n");
    let (p, q) = (
        listed_text(a.members, a.members.len() as int),
        listed_text(b.members, b.members.len() as int),
    );
    let x = "="@ + (p + "\n"@);
    let y = "="@ + (q + "\n"@);
    assert(set_text(a) =~= "set "@ + (a.name + x));
    assert(set_text(b) =~= "set "@ + (b.name + y));
    behind("set "@, a.name + x, b.name + y);
    let names = seq!['=', '\n'];
    assert(names[0] == '=');
    apart(a.name, b.name, x, y, names);
    behind("="@, p + "\n"@, q + "\n"@);
    members_are_one_line(a);
    members_are_one_line(b);
    let ends = seq!['\n'];
    assert(ends[0] == '\n');
    apart(p, q, "\n"@, "\n"@, ends);
    members_are_ended(a.members, a.members.len() as int);
    members_are_ended(b.members, b.members.len() as int);
    let all = seq![',', '\n'];
    assert(all[0] == ',');
    assert forall|i: int| 0 <= i < a.members.len() implies without(
        #[trigger] a.members[i],
        seq![","@[0]],
    ) by {
        fewer_marks(a.members[i], all, seq![","@[0]]);
    }
    assert forall|i: int| 0 <= i < b.members.len() implies without(
        #[trigger] b.members[i],
        seq![","@[0]],
    ) by {
        fewer_marks(b.members[i], all, seq![","@[0]]);
    }
    ended_tells_apart(a.members, b.members, ","@);
}

// ---------------------------------------------------------------------------
// The whole rendering
// ---------------------------------------------------------------------------

spec fn tensor_line(tensor: TensorModel) -> Seq<char> {
    tensor_head(tensor) + dtypes_text(tensor.dtypes) + permute_text(tensor.permute) + fusion_text(
        tensor.fusion,
    )
}

spec fn set_line(set: SetModel) -> Seq<char> {
    "set "@ + set.name + "="@ + listed_text(set.members, set.members.len() as int)
}

spec fn tensor_lines(tensors: Seq<TensorModel>) -> Seq<Seq<char>> {
    tensors.map_values(|tensor: TensorModel| tensor_line(tensor))
}

spec fn set_lines(sets: Seq<SetModel>) -> Seq<Seq<char>> {
    sets.map_values(|set: SetModel| set_line(set))
}

spec fn identity_lines(handle: Option<HandleModel>) -> Seq<Seq<char>> {
    match handle {
        None => Seq::empty(),
        Some(handle) => seq!["name="@ + handle.name, "version="@ + decimal(handle.version as nat)],
    }
}

spec fn dtype_lines(dtype: Option<Seq<char>>) -> Seq<Seq<char>> {
    match dtype {
        None => Seq::empty(),
        Some(dtype) => seq!["dtype="@ + dtype],
    }
}

spec fn head_lines(contract: ContractModel) -> Seq<Seq<char>> {
    seq![CONTRACT_FORMAT@] + identity_lines(contract.handle) + dtype_lines(contract.dtype)
}

spec fn contract_lines(contract: ContractModel) -> Seq<Seq<char>> {
    head_lines(contract) + tensor_lines(contract.tensors) + set_lines(contract.sets)
}

proof fn tensors_are_lines(tensors: Seq<TensorModel>, upto: int)
    requires
        0 <= upto <= tensors.len(),
    ensures
        tensors_text(tensors, upto) == ended(tensor_lines(tensors), "\n"@, upto),
    decreases upto,
{
    if upto > 0 {
        tensors_are_lines(tensors, upto - 1);
        let before = tensors_text(tensors, upto - 1);
        grouped(before, tensor_line(tensors[upto - 1]), "\n"@);
    }
}

proof fn sets_are_lines(sets: Seq<SetModel>, upto: int)
    requires
        0 <= upto <= sets.len(),
    ensures
        sets_text(sets, upto) == ended(set_lines(sets), "\n"@, upto),
    decreases upto,
{
    if upto > 0 {
        sets_are_lines(sets, upto - 1);
        let before = sets_text(sets, upto - 1);
        grouped(before, set_line(sets[upto - 1]), "\n"@);
    }
}

proof fn one_line(line: Seq<char>)
    ensures
        ended(seq![line], "\n"@, 1) == line + "\n"@,
{
    ended_from_the_left(seq![line], "\n"@, 1);
    assert(ended(seq![line].drop_first(), "\n"@, 0) =~= Seq::<char>::empty());
    assert(line + ("\n"@ + Seq::<char>::empty()) =~= line + "\n"@);
}

proof fn the_heading_is_lines(contract: ContractModel)
    ensures
        heading_text(contract) == ended(
            head_lines(contract),
            "\n"@,
            head_lines(contract).len() as int,
        ),
{
    let end = "\n"@;
    let format = seq![CONTRACT_FORMAT@];
    let identity = identity_lines(contract.handle);
    let dtype = dtype_lines(contract.dtype);
    one_line(CONTRACT_FORMAT@);
    ended_of_two(format, identity, end, identity.len() as int);
    ended_of_two(format + identity, dtype, end, dtype.len() as int);
    let first = ended(identity, end, identity.len() as int);
    let second = ended(dtype, end, dtype.len() as int);
    if let Some(handle) = contract.handle {
        reveal_strlit("\nversion=");
        reveal_strlit("version=");
        reveal_strlit("\n");
        let name = "name="@ + handle.name;
        let version = "version="@ + decimal(handle.version as nat);
        one_line(name);
        one_line(version);
        ended_of_two(seq![name], seq![version], end, 1);
        assert(seq![name] + seq![version] =~= identity);
        assert("\n"@ + "version="@ =~= "\nversion="@);
        assert(first =~= "name="@ + handle.name + "\nversion="@ + decimal(handle.version as nat)
            + "\n"@);
    } else {
        assert(first =~= Seq::<char>::empty());
    }
    if let Some(dtype) = contract.dtype {
        one_line("dtype="@ + dtype);
    } else {
        assert(second =~= Seq::<char>::empty());
    }
}

proof fn a_rendering_is_lines(contract: ContractModel)
    ensures
        canonical_text(contract) == ended(
            contract_lines(contract),
            "\n"@,
            contract_lines(contract).len() as int,
        ),
{
    let end = "\n"@;
    let head = head_lines(contract);
    let tensors = tensor_lines(contract.tensors);
    let sets = set_lines(contract.sets);
    the_heading_is_lines(contract);
    tensors_are_lines(contract.tensors, contract.tensors.len() as int);
    sets_are_lines(contract.sets, contract.sets.len() as int);
    ended_of_two(head, tensors, end, tensors.len() as int);
    ended_of_two(head + tensors, sets, end, sets.len() as int);
}

/// A contract whose texts hold none of the marks around them.
pub open spec fn plain(contract: ContractModel) -> bool {
    &&& contract.dtype matches Some(dtype) ==> without(dtype, seq!['\n'])
    &&& forall|i: int| 0 <= i < contract.tensors.len() ==> plain_tensor(#[trigger] contract.tensors[i])
    &&& forall|i: int| 0 <= i < contract.sets.len() ==> plain_set(#[trigger] contract.sets[i])
}

proof fn a_tensor_is_one_line(tensor: TensorModel)
    requires
        plain_tensor(tensor),
    ensures
        without(tensor_line(tensor), seq!['\n']),
        tensor_line(tensor).len() > 0,
        tensor_line(tensor)[0] == 't',
{
    reveal_strlit("tensor role=");
    reveal_strlit(" pattern=");
    reveal_strlit(" rank=");
    reveal_strlit(" required=");
    reveal_strlit(" dtypes=");
    let marks = seq!['\n'];
    let fields = field_marks();
    assert(fields[1] == '\n');
    fewer_marks(tensor.role, fields, marks);
    fewer_marks(tensor.pattern, fields, marks);
    ranks_are_unmarked(tensor.rank);
    fewer_marks(rank_text(tensor.rank), fields, marks);
    answers_tell_apart(tensor.required, tensor.required);
    fewer_marks(required_text(tensor.required), fields, marks);
    dtypes_are_unmarked(tensor);
    let list = comma_text(tensor.dtypes, tensor.dtypes.len() as int);
    fewer_marks(list, fields, marks);
    let a = "tensor role="@ + tensor.role;
    without_either("tensor role="@, tensor.role, marks);
    let b = a + " pattern="@;
    without_either(a, " pattern="@, marks);
    let c = b + tensor.pattern;
    without_either(b, tensor.pattern, marks);
    let d = c + " rank="@;
    without_either(c, " rank="@, marks);
    let e = d + rank_text(tensor.rank);
    without_either(d, rank_text(tensor.rank), marks);
    let f = e + " required="@;
    without_either(e, " required="@, marks);
    let head = tensor_head(tensor);
    without_either(f, required_text(tensor.required), marks);
    without_either(" dtypes="@, list, marks);
    without_either(head, dtypes_text(tensor.dtypes), marks);
    a_permute_is_in_line(tensor.permute);
    without_either(head + dtypes_text(tensor.dtypes), permute_text(tensor.permute), marks);
    a_fusion_is_in_line(tensor);
    without_either(
        head + dtypes_text(tensor.dtypes) + permute_text(tensor.permute),
        fusion_text(tensor.fusion),
        marks,
    );
    assert(tensor_line(tensor)[0] == "tensor role="@[0]);
}

proof fn a_permute_is_in_line(permute: Option<PermuteModel>)
    ensures
        without(permute_text(permute), seq!['\n']),
{
    if let Some(p) = permute {
        reveal_strlit(" permute=");
        reveal_strlit(":[");
        reveal_strlit("]");
        let marks = seq!['\n'];
        let dims = dims_text(p.view, p.view.len() as int);
        let axes = axes_text(p.axes, p.axes.len() as int);
        views_are_unmarked(p.view, '\n');
        axes_have_no(p.axes, '\n');
        without_either(" permute="@, dims, marks);
        without_either(" permute="@ + dims, ":["@, marks);
        without_either(" permute="@ + dims + ":["@, axes, marks);
        without_either(" permute="@ + dims + ":["@ + axes, "]"@, marks);
    }
}

proof fn a_fusion_is_in_line(tensor: TensorModel)
    requires
        plain_tensor(tensor),
    ensures
        without(fusion_text(tensor.fusion), seq!['\n']),
{
    if let Some(f) = tensor.fusion {
        reveal_strlit(" fusion=groups:");
        reveal_strlit(",");
        let marks = seq!['\n'];
        let groups = decimal(f.groups as nat);
        parts_are_one_line(f.parts);
        number_without(f.groups as nat, marks);
        without_either(" fusion=groups:"@, groups, marks);
        without_either(" fusion=groups:"@ + groups, ","@, marks);
        without_either(
            " fusion=groups:"@ + groups + ","@,
            parts_text(f.parts, f.parts.len() as int),
            marks,
        );
    }
}

proof fn a_set_is_one_line(set: SetModel)
    requires
        plain_set(set),
    ensures
        without(set_line(set), seq!['\n']),
        set_line(set).len() > 0,
        set_line(set)[0] == 's',
{
    reveal_strlit("set ");
    reveal_strlit("=");
    let marks = seq!['\n'];
    let all = seq!['=', '\n'];
    assert(all[1] == '\n');
    fewer_marks(set.name, all, marks);
    members_are_one_line(set);
    without_either("set "@, set.name, marks);
    without_either("set "@ + set.name, "="@, marks);
    without_either(
        "set "@ + set.name + "="@,
        listed_text(set.members, set.members.len() as int),
        marks,
    );
    assert(set_line(set)[0] == "set "@[0]);
}

/// Where the declarations start.
spec fn first_tensor(contract: ContractModel) -> int {
    head_lines(contract).len() as int
}

/// What each line of a rendering is, and how it starts.
proof fn lines_are_told_by_their_start(contract: ContractModel, i: int)
    requires
        contract.wf(),
        plain(contract),
        0 <= i < contract_lines(contract).len(),
    ensures
        without(contract_lines(contract)[i], seq!['\n']),
        contract_lines(contract).len() == first_tensor(contract) + contract.tensors.len()
            + contract.sets.len(),
        i == 0 ==> contract_lines(contract)[i] == CONTRACT_FORMAT@,
        i >= 1 ==> contract_lines(contract)[i].len() > 0,
        contract.handle matches Some(handle) ==> first_tensor(contract) >= 3 && (i == 1
            ==> contract_lines(contract)[i] == "name="@ + handle.name
            && contract_lines(contract)[i][0] == 'n') && (i == 2 ==> contract_lines(contract)[i]
            == "version="@ + decimal(handle.version as nat)),
        contract.dtype matches Some(dtype) ==> first_tensor(contract) >= 2 && (i
            == first_tensor(contract) - 1 ==> contract_lines(contract)[i] == "dtype="@ + dtype
            && contract_lines(contract)[i][0] == 'd'),
        first_tensor(contract) == 1 + (if contract.handle is Some {
            2int
        } else {
            0
        }) + (if contract.dtype is Some {
            1int
        } else {
            0
        }),
        first_tensor(contract) <= i < first_tensor(contract) + contract.tensors.len()
            ==> contract_lines(contract)[i] == tensor_line(
            contract.tensors[i - first_tensor(contract)],
        ) && contract_lines(contract)[i][0] == 't',
        i >= first_tensor(contract) + contract.tensors.len() ==> contract_lines(contract)[i]
            == set_line(contract.sets[i - first_tensor(contract) - contract.tensors.len()])
            && contract_lines(contract)[i][0] == 's',
{
    reveal_strlit("tensorfs-contract-v1");
    reveal_strlit("name=");
    reveal_strlit("version=");
    reveal_strlit("dtype=");
    let lines = contract_lines(contract);
    let head = head_lines(contract);
    let g = head.len() as int;
    let n = contract.tensors.len() as int;
    let marks = seq!['\n'];
    if i >= g + n {
        let set = contract.sets[i - g - n];
        assert(lines[i] == set_lines(contract.sets)[i - g - n]);
        a_set_is_one_line(set);
    } else if i >= g {
        let tensor = contract.tensors[i - g];
        assert(lines[i] == tensor_lines(contract.tensors)[i - g]);
        a_tensor_is_one_line(tensor);
    } else {
        assert(lines[i] == head[i]);
        if let Some(handle) = contract.handle {
            if i == 1 {
                assert(head[1] == "name="@ + handle.name);
                a_name_is_in_line(handle);
                without_either("name="@, handle.name, marks);
                assert(head[1][0] == "name="@[0]);
            }
            if i == 2 {
                assert(head[2] == "version="@ + decimal(handle.version as nat));
                number_without(handle.version as nat, marks);
                without_either("version="@, decimal(handle.version as nat), marks);
            }
        }
        if let Some(dtype) = contract.dtype {
            if i == g - 1 {
                assert(head[g - 1] == "dtype="@ + dtype);
                without_either("dtype="@, dtype, marks);
                assert(head[g - 1][0] == "dtype="@[0]);
            }
        }
        if i == 0 {
            assert(head[0] == CONTRACT_FORMAT@);
        }
    }
}

pub(crate) proof fn a_name_is_in_line(handle: HandleModel)
    requires
        handle.wf(),
    ensures
        without(handle.name, seq!['\n']),
{
    let dot = crate::text::first_index(handle.name, '.');
    assert forall|i: int| 0 <= i < handle.name.len() implies !seq!['\n'].contains(
        #[trigger] handle.name[i],
    ) by {
        if i < dot {
            assert(producer_char(handle.name[i]));
        } else if i > dot {
            assert(format_char(handle.name[i]));
        } else {
            crate::text::first_index_facts(handle.name, '.');
        }
    }
}

/// Two contracts of one rendering declare the same: the identity, the dtype, the
/// tensors and the sets are equal. The rendering leaves the description out.
pub proof fn a_rendering_tells_contracts_apart(a: ContractModel, b: ContractModel)
    requires
        a.wf(),
        b.wf(),
        plain(a),
        plain(b),
        canonical_text(a) == canonical_text(b),
    ensures
        a.handle == b.handle,
        a.dtype == b.dtype,
        a.tensors == b.tensors,
        a.sets == b.sets,
{
    reveal_strlit("\n");
    let x = contract_lines(a);
    let y = contract_lines(b);
    a_rendering_is_lines(a);
    a_rendering_is_lines(b);
    assert forall|i: int| 0 <= i < x.len() implies without(#[trigger] x[i], seq!["\n"@[0]]) by {
        lines_are_told_by_their_start(a, i);
    }
    assert forall|i: int| 0 <= i < y.len() implies without(#[trigger] y[i], seq!["\n"@[0]]) by {
        lines_are_told_by_their_start(b, i);
    }
    ended_tells_apart(x, y, "\n"@);
    lines_are_told_by_their_start(a, 0);
    lines_are_told_by_their_start(b, 0);
    headings_tell_apart(a, b);
    declarations_tell_apart(a, b);
}

proof fn headings_tell_apart(a: ContractModel, b: ContractModel)
    requires
        a.wf(),
        b.wf(),
        plain(a),
        plain(b),
        contract_lines(a) == contract_lines(b),
    ensures
        a.handle == b.handle,
        a.dtype == b.dtype,
{
    lines_are_told_by_their_start(a, 0);
    lines_are_told_by_their_start(b, 0);
    lines_are_told_by_their_start(a, 1);
    lines_are_told_by_their_start(b, 1);
    assert((a.handle is Some) == (b.handle is Some));
    if let (Some(p), Some(q)) = (a.handle, b.handle) {
        lines_are_told_by_their_start(a, 2);
        lines_are_told_by_their_start(b, 2);
        behind("name="@, p.name, q.name);
        behind("version="@, decimal(p.version as nat), decimal(q.version as nat));
        numbers_tell_apart(p.version as nat, q.version as nat);
    }
    let h: int = if a.handle is Some {
        3
    } else {
        1
    };
    lines_are_told_by_their_start(a, h);
    lines_are_told_by_their_start(b, h);
    assert((a.dtype is Some) == (b.dtype is Some));
    if let (Some(p), Some(q)) = (a.dtype, b.dtype) {
        behind("dtype="@, p, q);
    }
}

proof fn declarations_tell_apart(a: ContractModel, b: ContractModel)
    requires
        a.wf(),
        b.wf(),
        plain(a),
        plain(b),
        contract_lines(a) == contract_lines(b),
        a.handle == b.handle,
        a.dtype == b.dtype,
    ensures
        a.tensors == b.tensors,
        a.sets == b.sets,
{
    let g = first_tensor(a);
    lines_are_told_by_their_start(a, 0);
    lines_are_told_by_their_start(b, 0);
    let (m, n) = (a.tensors.len() as int, b.tensors.len() as int);
    if m < n {
        lines_are_told_by_their_start(a, g + m);
        lines_are_told_by_their_start(b, g + m);
    }
    if n < m {
        lines_are_told_by_their_start(a, g + n);
        lines_are_told_by_their_start(b, g + n);
    }
    assert(m == n);
    assert forall|i: int| 0 <= i < m implies a.tensors[i] == b.tensors[i] by {
        lines_are_told_by_their_start(a, g + i);
        lines_are_told_by_their_start(b, g + i);
        assert(tensor_text(a.tensors[i]) == tensor_line(a.tensors[i]) + "\n"@);
        assert(tensor_text(b.tensors[i]) == tensor_line(b.tensors[i]) + "\n"@);
        tensors_tell_apart(a.tensors[i], b.tensors[i]);
    }
    assert(a.tensors =~= b.tensors);
    assert forall|i: int| 0 <= i < a.sets.len() implies a.sets[i] == b.sets[i] by {
        lines_are_told_by_their_start(a, g + m + i);
        lines_are_told_by_their_start(b, g + m + i);
        assert(set_text(a.sets[i]) == set_line(a.sets[i]) + "\n"@);
        assert(set_text(b.sets[i]) == set_line(b.sets[i]) + "\n"@);
        sets_tell_apart(a.sets[i], b.sets[i]);
    }
    assert(a.sets =~= b.sets);
}

} // verus!
