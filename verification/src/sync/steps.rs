//! How a transfer goes on: which part, which batch and which grant is next, and
//! what its reports add up to.

use super::blobs::{
    first_blob_grant, is_held, next_unheld, parts_total, parts_total_grows, BlobLaneModel, BlobModel,
    BlobStep,
};
use super::packs::{first_grant, has_room, payload, with_pack};
use super::pull::{first_download_grant, PullModel};
use super::{BlobGrant, DownloadGrant, PackGrant, PushReport, RowModel};
use vstd::prelude::*;

verus! {

proof fn the_first_unheld(grant: BlobGrant, at: int)
    requires
        0 <= at <= grant.parts@.len(),
    ensures
        at <= next_unheld(grant, at) <= grant.parts@.len(),
        forall|i: int| at <= i < next_unheld(grant, at) ==> #[trigger] is_held(grant, i),
        next_unheld(grant, at) < grant.parts@.len() ==> !is_held(grant, next_unheld(grant, at)),
    decreases grant.parts@.len() - at,
{
    if at < grant.parts@.len() && is_held(grant, at) {
        the_first_unheld(grant, at + 1);
    }
}

/// Where the parts before one end: the sum of their sizes.
pub open spec fn sizes_before(grant: BlobGrant, i: int) -> nat
    decreases i,
{
    if i <= 0 {
        0
    } else {
        grant.parts@[i - 1].size_bytes as nat + sizes_before(grant, i - 1)
    }
}

proof fn sizes_are_the_total(grant: BlobGrant, i: int)
    ensures
        sizes_before(grant, i) == parts_total(grant.parts@, i),
    decreases i,
{
    if i > 0 {
        sizes_are_the_total(grant, i - 1);
    }
}

/// When a part has landed, the next one to send is the first behind it that the
/// remote does not hold, from where the parts before it end. The upload finishes
/// exactly if the remote holds all parts behind, and reports what it sent.
pub proof fn the_next_part_is_the_first_that_is_not_held(blob: BlobModel, etag: Seq<char>)
    requires
        blob.valid(),
        blob.step() is Send,
        blob.grant.parts@.len() <= usize::MAX,
    ensures
        ({
            let sent = blob.settled;
            let parts = blob.grant.parts@;
            match blob.with_landed(etag).step() {
                BlobStep::Send { index, start, size } => {
                    &&& sent < index < parts.len()
                    &&& !blob.grant.uploaded_parts@.contains(parts[index as int].part_number)
                    &&& forall|i: int|
                        sent < i < index ==> blob.grant.uploaded_parts@.contains(
                            (#[trigger] parts[i]).part_number,
                        )
                    &&& start == sizes_before(blob.grant, index as int)
                    &&& size == parts[index as int].size_bytes
                },
                BlobStep::Finish { report } => {
                    &&& report
                    &&& forall|i: int|
                        sent < i < parts.len() ==> blob.grant.uploaded_parts@.contains(
                            (#[trigger] parts[i]).part_number,
                        )
                },
            }
        }),
{
    let next = next_unheld(blob.grant, blob.settled + 1);
    let parts = blob.grant.parts@;
    the_first_unheld(blob.grant, blob.settled + 1);
    sizes_are_the_total(blob.grant, next);
    parts_total_grows(parts, next, parts.len() as int);
    assert forall|i: int| blob.settled < i < next implies blob.grant.uploaded_parts@.contains(
        (#[trigger] parts[i]).part_number,
    ) by {
        assert(is_held(blob.grant, i));
    }
}

/// A batch of blobs is all that is left of the round, or sixteen of it, in order
/// and with something in it. A blob that is put off, alone or with its batch, is
/// owed in the next round, behind those put off before it.
pub proof fn what_is_put_off_is_owed_next(lane: BlobLaneModel, parts: u64)
    requires
        lane.valid(),
        lane.settled < lane.pending.len(),
    ensures
        ({
            let left = lane.pending.len() - lane.settled;
            &&& 0 < lane.batch().len() <= 16
            &&& lane.batch().len() == left || (left > 16 && lane.batch().len() == 16)
            &&& forall|k: int|
                0 <= k < lane.batch().len() ==> #[trigger] lane.batch()[k]
                    == lane.pending[lane.settled + k]
            &&& lane.with_batch_deferred().next_round(parts).pending == lane.deferred
                + lane.batch()
            &&& lane.with_blob_deferred().next_round(parts).pending == lane.deferred + seq![
                lane.pending[lane.settled],
            ]
            &&& lane.with_batch_deferred().settled == lane.settled + lane.batch().len()
        }),
{
    assert(lane.deferred.push(lane.pending[lane.settled]) =~= lane.deferred + seq![
        lane.pending[lane.settled],
    ]);
}

/// A pull asks for all that is left, or for two hundred and fifty-six of it, and is done exactly
/// if every object is fetched.
pub proof fn a_pull_ends_when_all_is_fetched(pull: PullModel)
    requires
        pull.valid(),
    ensures
        pull.step() is Done <==> pull.settled == pull.missing.len(),
        pull.step() is Ask ==> {
            let left = pull.missing.len() - pull.settled;
            let asked = pull.batch_end() - pull.settled;
            0 < asked <= 256 && (asked == left || (left > 256 && asked == 256))
        },
        pull.step() is Fetch ==> pull.settled < pull.granted,
{
}

/// The bytes of packs add up: those of two lists together are those of the one and
/// those of the other, and a single object has its own.
pub proof fn payloads_add_up(a: Seq<RowModel>, b: Seq<RowModel>, row: RowModel)
    ensures
        payload(a + b) == payload(a) + payload(b),
        payload(seq![row]) == row.1,
        payload(Seq::<RowModel>::empty()) == 0,
    decreases b.len(),
{
    assert(seq![row].drop_last() =~= Seq::<RowModel>::empty());
    assert(payload(Seq::<RowModel>::empty()) == 0);
    assert(payload(seq![row]) == payload(seq![row].drop_last()) + seq![row].last().1);
    if b.len() == 0 {
        assert(a + b =~= a);
        assert(b =~= Seq::empty());
    } else {
        payloads_add_up(a, b.drop_last(), row);
        assert((a + b).drop_last() =~= a + b.drop_last());
        assert((a + b).last() == b.last());
    }
}

/// Two packs in turn are counted as their objects and bytes together, and as two.
pub proof fn packs_are_counted_together(
    report: PushReport,
    a: Seq<RowModel>,
    b: Seq<RowModel>,
)
    requires
        has_room(report, a + b),
        report.packs + 2 <= u64::MAX,
    ensures
        ({
            let after = with_pack(with_pack(report, a), b);
            &&& after.uploaded_objects == report.uploaded_objects + a.len() + b.len()
            &&& after.uploaded_bytes == report.uploaded_bytes + payload(a) + payload(b)
            &&& after.packs == report.packs + 2
        }),
{
    payloads_add_up(a, b, (Seq::empty(), 0));
}

/// An object goes under the first grant that names it, and under none exactly if
/// none names it.
pub proof fn the_first_grant_that_names_an_object_is_taken(
    packs: Seq<PackGrant>,
    blobs: Seq<BlobGrant>,
    downloads: Seq<DownloadGrant>,
    sha: Seq<char>,
    digest: Seq<u8>,
)
    ensures
        ({
            let found = first_grant(packs, sha, 0);
            &&& 0 <= found <= packs.len()
            &&& found < packs.len() ==> packs[found].pack_sha256@ == sha
            &&& forall|i: int| 0 <= i < found ==> (#[trigger] packs[i]).pack_sha256@ != sha
        }),
        ({
            let found = first_blob_grant(blobs, digest, 0);
            &&& 0 <= found <= blobs.len()
            &&& found < blobs.len() ==> blobs[found].digest@ == digest
            &&& forall|i: int| 0 <= i < found ==> (#[trigger] blobs[i]).digest@ != digest
        }),
        ({
            let found = first_download_grant(downloads, digest, 0);
            &&& 0 <= found <= downloads.len()
            &&& found < downloads.len() ==> downloads[found].digest@ == digest
            &&& forall|i: int| 0 <= i < found ==> (#[trigger] downloads[i]).digest@ != digest
        }),
{
    first_pack_grant(packs, sha, 0);
    first_of_blobs(blobs, digest, 0);
    first_of_downloads(downloads, digest, 0);
}

proof fn first_pack_grant(grants: Seq<PackGrant>, sha: Seq<char>, at: int)
    requires
        0 <= at <= grants.len(),
    ensures
        ({
            let found = first_grant(grants, sha, at);
            &&& at <= found <= grants.len()
            &&& found < grants.len() ==> grants[found].pack_sha256@ == sha
            &&& forall|i: int| at <= i < found ==> (#[trigger] grants[i]).pack_sha256@ != sha
        }),
    decreases grants.len() - at,
{
    if at < grants.len() && grants[at].pack_sha256@ != sha {
        first_pack_grant(grants, sha, at + 1);
    }
}

proof fn first_of_blobs(grants: Seq<BlobGrant>, digest: Seq<u8>, at: int)
    requires
        0 <= at <= grants.len(),
    ensures
        ({
            let found = first_blob_grant(grants, digest, at);
            &&& at <= found <= grants.len()
            &&& found < grants.len() ==> grants[found].digest@ == digest
            &&& forall|i: int| at <= i < found ==> (#[trigger] grants[i]).digest@ != digest
        }),
    decreases grants.len() - at,
{
    if at < grants.len() && grants[at].digest@ != digest {
        first_of_blobs(grants, digest, at + 1);
    }
}

proof fn first_of_downloads(grants: Seq<DownloadGrant>, digest: Seq<u8>, at: int)
    requires
        0 <= at <= grants.len(),
    ensures
        ({
            let found = first_download_grant(grants, digest, at);
            &&& at <= found <= grants.len()
            &&& found < grants.len() ==> grants[found].digest@ == digest
            &&& forall|i: int| at <= i < found ==> (#[trigger] grants[i]).digest@ != digest
        }),
    decreases grants.len() - at,
{
    if at < grants.len() && grants[at].digest@ != digest {
        first_of_downloads(grants, digest, at + 1);
    }
}

} // verus!
