//! What a projected tree shows of a snapshot, and what a listing of refs and
//! trees holds.

use crate::layout::{
    below, encodings, entry_artifact, is_ref_name, named_ids, object_link, occurrences, pointing,
    snapshots_place, sorted_bytes, sorted_texts, steps_up, usable_names, ArtifactModel,
};
use crate::sort::{keys_have_an_order, stands_before};
use crate::store::object_place;
use crate::text::{
    bytes_less, bytes_less_irreflexive, bytes_less_transitive, digest_of_hex, hex, hex_at,
};
use crate::tfm1::laws::one_carrier;
use crate::tfm1::{files_before, BodyModel, EntryModel, SnapshotId};
use vstd::prelude::*;
use vstd::utf8::encode_utf8;

verus! {

/// How many directories stand above a path.
pub open spec fn directories_above(path: Seq<char>) -> nat
    decreases path.len(),
{
    if path.len() == 0 {
        0
    } else {
        (if path[0] == '/' {
            1nat
        } else {
            0nat
        }) + directories_above(path.drop_first())
    }
}

/// Where a link leads when it is followed from so many directories below the
/// root, as a path below the root: each `../` leaves one directory.
pub open spec fn followed(link: Seq<char>, directories: nat) -> Option<Seq<char>>
    decreases directories,
{
    if directories == 0 {
        Some(link)
    } else if link.len() >= 3 && link[0] == '.' && link[1] == '.' && link[2] == '/' {
        followed(link.skip(3), (directories - 1) as nat)
    } else {
        None
    }
}

proof fn directories_are_occurrences(path: Seq<char>)
    ensures
        directories_above(path) == occurrences(path, '/'),
    decreases path.len(),
{
    if path.len() > 0 {
        let middle = path.drop_first();
        directories_are_occurrences(middle);
        first_occurrence(path);
    }
}

proof fn first_occurrence(path: Seq<char>)
    requires
        path.len() > 0,
    ensures
        occurrences(path, '/') == occurrences(path.drop_first(), '/') + if path[0] == '/' {
            1nat
        } else {
            0nat
        },
    decreases path.len(),
{
    if path.len() == 1 {
        assert(path.drop_last() =~= Seq::empty());
        assert(path.drop_first() =~= Seq::empty());
    } else {
        first_occurrence(path.drop_last());
        assert(path.drop_first().drop_last() =~= path.drop_last().drop_first());
    }
}

proof fn directories_add_up(left: Seq<char>, right: Seq<char>)
    ensures
        directories_above(left + right) == directories_above(left) + directories_above(right),
    decreases left.len(),
{
    if left.len() == 0 {
        assert(left + right =~= right);
    } else {
        directories_add_up(left.drop_first(), right);
        assert((left + right).drop_first() =~= left.drop_first() + right);
    }
}

proof fn no_directory_above(text: Seq<char>)
    requires
        forall|i: int| 0 <= i < text.len() ==> #[trigger] text[i] != '/',
    ensures
        directories_above(text) == 0,
    decreases text.len(),
{
    if text.len() > 0 {
        let rest = text.drop_first();
        assert forall|i: int| 0 <= i < rest.len() implies #[trigger] rest[i] != '/' by {
            assert(rest[i] == text[i + 1]);
        }
        no_directory_above(rest);
    }
}

proof fn steps_are_followed(count: nat, rest: Seq<char>)
    ensures
        followed(steps_up(count) + rest, count) == Some(rest),
    decreases count,
{
    reveal_strlit("../");
    if count == 0 {
        assert(steps_up(0) + rest =~= rest);
    } else {
        let fewer = (count - 1) as nat;
        steps_begin(fewer);
        let link = steps_up(count) + rest;
        assert(link =~= "../"@ + (steps_up(fewer) + rest));
        assert(link.skip(3) =~= steps_up(fewer) + rest);
        steps_are_followed(fewer, rest);
    }
}

proof fn steps_begin(count: nat)
    ensures
        steps_up(count + 1) == "../"@ + steps_up(count),
    decreases count,
{
    if count == 0 {
        assert(steps_up(1) =~= steps_up(0) + "../"@);
        assert(steps_up(1) =~= "../"@ + steps_up(0));
    } else {
        steps_begin((count - 1) as nat);
        assert(steps_up(count + 1) =~= "../"@ + steps_up(count));
    }
}

proof fn hex_has_no_slash(bytes: Seq<u8>)
    ensures
        directories_above(hex(bytes)) == 0,
{
    let text = hex(bytes);
    if bytes.len() > 0 {
        hex_at(bytes, 0);
    }
    assert forall|i: int| 0 <= i < text.len() implies #[trigger] text[i] != '/' by {
        if bytes.len() > 0 {
            hex_at(bytes, i / 2);
            assert(i == 2 * (i / 2) || i == 2 * (i / 2) + 1);
        }
    }
    no_directory_above(text);
}

/// A link in a projected tree leads to the object: followed from where the link
/// stands, it ends at the place of the object below the root.
pub proof fn a_projected_link_leads_to_its_object(id: Seq<u8>, path: Seq<char>, digest: Seq<u8>)
    ensures
        followed(
            object_link(path, digest),
            directories_above(below(below(snapshots_place(), hex(id)), path)),
        ) == Some(object_place(digest)),
{
    reveal_strlit("snapshots");
    reveal_strlit("/");
    let tree = below(snapshots_place(), hex(id));
    let slash = "/"@;
    no_directory_above("snapshots"@);
    hex_has_no_slash(id);
    assert(slash =~= seq!['/']);
    assert(slash.drop_first() =~= Seq::empty());
    assert(directories_above(Seq::<char>::empty()) == 0);
    assert(directories_above(slash) == 1);
    directories_add_up("snapshots"@, slash);
    directories_add_up("snapshots"@ + slash, hex(id));
    directories_add_up(tree, slash);
    directories_add_up(tree + slash, path);
    directories_are_occurrences(path);
    steps_are_followed(occurrences(path, '/') + 2, object_place(digest));
}

/// What an artifact shows to a reader at its place: bytes of its own, or an object.
pub enum Shown {
    Bytes(Seq<u8>),
    Object(Seq<char>),
    Nothing,
}

/// What a reader finds through an artifact that stands below so many directories.
pub open spec fn shown(artifact: ArtifactModel, directories: nat) -> Shown {
    match artifact {
        ArtifactModel::Bytes(bytes) => Shown::Bytes(bytes),
        ArtifactModel::Copy(digest) => Shown::Object(object_place(digest)),
        ArtifactModel::Link(link) => match followed(link, directories) {
            Some(place) => Shown::Object(place),
            None => Shown::Nothing,
        },
        ArtifactModel::Directory => Shown::Nothing,
    }
}

/// A blob shows its object, or no bytes where it has none, and a hardlink shows
/// what the file shows that it counts, with links and with copies alike.
pub proof fn a_projection_shows_the_files(
    symlinks: bool,
    entries: Seq<(Seq<char>, EntryModel)>,
    i: int,
    file: int,
)
    requires
        0 <= i < entries.len(),
        0 <= file < entries.len(),
        entries[file].1 is File,
        i == file || (entries[i].1 is Hardlink && entries[i].1->ordinal == files_before(
            entries,
            file,
        )),
    ensures
        ({
            let here = shown(
                entry_artifact(symlinks, entries, i),
                directories_above(entries[i].0) + 2,
            );
            &&& here == shown(
                entry_artifact(symlinks, entries, file),
                directories_above(entries[file].0) + 2,
            )
            &&& entries[file].1->File_body matches BodyModel::Blob { logical_size, digest } ==> here
                == if logical_size == 0 {
                Shown::Bytes(Seq::empty())
            } else {
                Shown::Object(object_place(digest))
            }
            &&& entries[file].1->File_body is Tensor ==> here is Bytes
        }),
{
    if entries[i].1 is Hardlink {
        one_carrier(entries, entries[i].1->ordinal, file);
    }
    directories_are_occurrences(entries[i].0);
    directories_are_occurrences(entries[file].0);
    if entries[file].1->File_body is Blob {
        let place = object_place(entries[file].1->File_body->digest);
        steps_are_followed(occurrences(entries[i].0, '/') + 2, place);
        steps_are_followed(occurrences(entries[file].0, '/') + 2, place);
    }
}

/// A directory is projected as a directory, and a symlink with its own target.
pub proof fn a_projection_keeps_directories_and_symlinks(
    symlinks: bool,
    entries: Seq<(Seq<char>, EntryModel)>,
    i: int,
)
    requires
        0 <= i < entries.len(),
    ensures
        entries[i].1 is Directory ==> entry_artifact(symlinks, entries, i) is Directory,
        entries[i].1 matches EntryModel::Symlink { target } ==> entry_artifact(symlinks, entries, i)
            == ArtifactModel::Link(target),
{
}

/// The refs that are listed for a snapshot are exactly those that point at it, in
/// their order.
pub proof fn the_listed_refs_point_at_the_snapshot(
    refs: Seq<(String, Option<SnapshotId>)>,
    id: Seq<u8>,
    upto: int,
) -> (picked: Seq<int>)
    requires
        0 <= upto <= refs.len(),
    ensures
        picked.len() == pointing(refs, id, upto).len(),
        forall|k: int|
            0 <= k < picked.len() ==> 0 <= #[trigger] picked[k] < upto && pointing(
                refs,
                id,
                upto,
            )[k] == refs[picked[k]].0@,
        forall|j: int, k: int|
            0 <= j < k < picked.len() ==> #[trigger] picked[j] < #[trigger] picked[k],
        forall|i: int|
            0 <= i < upto ==> (#[trigger] picked.contains(i) <==> refs[i].1 is Some
                && refs[i].1->Some_0@ == id),
    decreases upto,
{
    if upto <= 0 {
        Seq::empty()
    } else {
        let before = the_listed_refs_point_at_the_snapshot(refs, id, upto - 1);
        if refs[upto - 1].1 is Some && refs[upto - 1].1->Some_0@ == id {
            let picked = before.push(upto - 1);
            assert(picked[before.len() as int] == upto - 1);
            assert forall|i: int| 0 <= i < upto implies (#[trigger] picked.contains(i)
                <==> refs[i].1 is Some && refs[i].1->Some_0@ == id) by {
                if i < upto - 1 {
                    if before.contains(i) {
                        let k = choose|k: int| 0 <= k < before.len() && before[k] == i;
                        assert(picked[k] == i);
                    }
                    if picked.contains(i) {
                        let k = choose|k: int| 0 <= k < picked.len() && picked[k] == i;
                        assert(before[k] == i);
                    }
                }
            }
            picked
        } else {
            assert forall|i: int| 0 <= i < upto implies (#[trigger] before.contains(i)
                <==> refs[i].1 is Some && refs[i].1->Some_0@ == id) by {
                if i == upto - 1 && before.contains(i) {
                    let k = choose|k: int| 0 <= k < before.len() && before[k] == i;
                    assert(before[k] < upto - 1);
                }
            }
            before
        }
    }
}

proof fn usable_are_kept(names: Seq<Seq<char>>, upto: int, name: Seq<char>)
    requires
        0 <= upto <= names.len(),
    ensures
        usable_names(names, upto).contains(name) <==> names.take(upto).contains(name)
            && is_ref_name(name),
        usable_names(names, upto).len() <= upto,
    decreases upto,
{
    if upto > 0 {
        usable_are_kept(names, upto - 1, name);
        pushed_is_contained(names, upto, name);
        let before = usable_names(names, upto - 1);
        one_more_is_contained(before, names[upto - 1], name);
    }
}

proof fn pushed_is_contained<T>(list: Seq<T>, upto: int, one: T)
    requires
        0 < upto <= list.len(),
    ensures
        list.take(upto).contains(one) <==> list.take(upto - 1).contains(one) || one == list[upto
            - 1],
{
    assert(list.take(upto) =~= list.take(upto - 1).push(list[upto - 1]));
    one_more_is_contained(list.take(upto - 1), list[upto - 1], one);
}

proof fn one_more_is_contained<T>(list: Seq<T>, more: T, one: T)
    ensures
        list.push(more).contains(one) <==> list.contains(one) || one == more,
{
    let all = list.push(more);
    if list.contains(one) {
        let k = choose|k: int| 0 <= k < list.len() && list[k] == one;
        assert(all[k] == one);
    }
    if one == more {
        assert(all[list.len() as int] == one);
    }
    if all.contains(one) {
        let k = choose|k: int| 0 <= k < all.len() && all[k] == one;
        if k < list.len() {
            assert(list[k] == one);
        }
    }
}

proof fn comes_first(keys: Seq<Seq<u8>>, x: int, y: int)
    requires
        stands_before(keys, x, y),
    ensures
        !bytes_less(keys[y], keys[x]),
{
    bytes_less_irreflexive(keys[x]);
    if bytes_less(keys[x], keys[y]) && bytes_less(keys[y], keys[x]) {
        bytes_less_transitive(keys[x], keys[y], keys[x]);
    }
}

/// The listed refs are the names that refs may have, no others, and they never
/// fall in the order of their bytes.
pub proof fn the_refs_are_listed_in_order(names: Seq<Seq<char>>, name: Seq<char>)
    requires
        names.len() <= usize::MAX,
    ensures
        ({
            let listed = sorted_texts(usable_names(names, names.len() as int));
            &&& listed.contains(name) <==> names.contains(name) && is_ref_name(name)
            &&& forall|i: int, j: int|
                0 <= i < j < listed.len() ==> !bytes_less(
                    encode_utf8(#[trigger] listed[j]),
                    encode_utf8(#[trigger] listed[i]),
                )
        }),
{
    let kept = usable_names(names, names.len() as int);
    usable_are_kept(names, names.len() as int, name);
    assert(names.take(names.len() as int) =~= names);
    let keys = encodings(kept);
    let order = keys_have_an_order(keys);
    let listed = sorted_texts(kept);
    if kept.contains(name) {
        let k = choose|k: int| 0 <= k < kept.len() && kept[k] == name;
        assert(order.contains(k as usize));
        let at = choose|at: int| 0 <= at < order.len() && order[at] == k as usize;
        assert(listed[at] == name);
    }
    if listed.contains(name) {
        let at = choose|at: int| 0 <= at < listed.len() && listed[at] == name;
        assert(order[at] < keys.len());
        assert(kept[order[at] as int] == name);
    }
    assert forall|i: int, j: int| 0 <= i < j < listed.len() implies !bytes_less(
        encode_utf8(#[trigger] listed[j]),
        encode_utf8(#[trigger] listed[i]),
    ) by {
        assert(order[i] < keys.len() && order[j] < keys.len());
        assert(keys[order[i] as int] == encode_utf8(listed[i]));
        assert(keys[order[j] as int] == encode_utf8(listed[j]));
        comes_first(keys, order[i] as int, order[j] as int);
    }
}

proof fn ids_are_kept(names: Seq<Seq<char>>, upto: int, id: Seq<u8>)
    requires
        0 <= upto <= names.len(),
    ensures
        named_ids(names, upto).contains(id) <==> exists|i: int|
            0 <= i < upto && digest_of_hex(#[trigger] names[i]) == Some(id),
        named_ids(names, upto).len() <= upto,
    decreases upto,
{
    if upto > 0 {
        ids_are_kept(names, upto - 1, id);
        let before = named_ids(names, upto - 1);
        if digest_of_hex(names[upto - 1]) is Some {
            one_more_is_contained(before, digest_of_hex(names[upto - 1])->Some_0, id);
        }
        if exists|i: int| 0 <= i < upto - 1 && digest_of_hex(#[trigger] names[i]) == Some(id) {
            let i = choose|i: int|
                0 <= i < upto - 1 && digest_of_hex(#[trigger] names[i]) == Some(id);
            assert(digest_of_hex(names[i]) == Some(id));
        }
    }
}

/// The listed trees are the identities that names spell, no others, and they
/// never fall in order.
pub proof fn the_trees_are_listed_in_order(names: Seq<Seq<char>>, id: Seq<u8>)
    requires
        names.len() <= usize::MAX,
    ensures
        ({
            let listed = sorted_bytes(named_ids(names, names.len() as int));
            &&& listed.contains(id) <==> exists|i: int|
                0 <= i < names.len() && digest_of_hex(#[trigger] names[i]) == Some(id)
            &&& forall|i: int, j: int|
                0 <= i < j < listed.len() ==> !bytes_less(#[trigger] listed[j], #[trigger] listed[i])
        }),
{
    let kept = named_ids(names, names.len() as int);
    ids_are_kept(names, names.len() as int, id);
    let order = keys_have_an_order(kept);
    let listed = sorted_bytes(kept);
    if kept.contains(id) {
        let k = choose|k: int| 0 <= k < kept.len() && kept[k] == id;
        assert(order.contains(k as usize));
        let at = choose|at: int| 0 <= at < order.len() && order[at] == k as usize;
        assert(listed[at] == id);
    }
    if listed.contains(id) {
        let at = choose|at: int| 0 <= at < listed.len() && listed[at] == id;
        assert(order[at] < kept.len());
        assert(kept[order[at] as int] == id);
    }
    assert forall|i: int, j: int| 0 <= i < j < listed.len() implies !bytes_less(
        #[trigger] listed[j],
        #[trigger] listed[i],
    ) by {
        assert(order[i] < kept.len() && order[j] < kept.len());
        comes_first(kept, order[i] as int, order[j] as int);
    }
}

} // verus!
