//! The remote's wire: routes, references, and what a status means.

use super::{CompleteStatus, DownloadGrant, TransportError};
use crate::object::{digest_spelling, ObjectDigest};
use crate::text::{chars_of, decimal, push_decimal, same_chars, string_of, trim, trimmed};
use crate::text::digest_of_hex;
use crate::tfm1::SnapshotId;
use crate::trusted::{base64_standard, base64_text, quotation, quoted};
use vstd::prelude::*;
use vstd::string::*;

verus! {

/// A text without the slashes at its end.
pub open spec fn without_slashes(text: Seq<char>) -> Seq<char>
    decreases text.len(),
{
    if text.len() > 0 && text.last() == '/' {
        without_slashes(text.drop_last())
    } else {
        text
    }
}

/// A base address without the slashes at its end.
pub fn base_url(text: &str) -> (base: String)
    ensures
        base@ == without_slashes(text@),
{
    let chars = chars_of(text);
    let mut end: usize = chars.len();
    assert(chars@.take(chars@.len() as int) =~= chars@);
    while end > 0 && chars[end - 1] == '/'
        invariant
            end <= chars@.len(),
            without_slashes(text@) == without_slashes(chars@.take(end as int)),
        decreases end,
    {
        assert(chars@.take(end as int).drop_last() =~= chars@.take(end - 1));
        end -= 1;
    }
    proof {
        if end > 0 {
            assert(chars@.take(end as int).last() == chars@[end - 1]);
        }
    }
    string_of(vstd::slice::slice_subrange(chars.as_slice(), 0, end))
}

/// The address of a route of the repository's snapshot sync.
pub open spec fn route_text(base: Seq<char>, org: Seq<char>, repo: Seq<char>, tail: Seq<char>) -> Seq<char> {
    base + "/api/v1/repos/"@ + org + "/"@ + repo + "/snapshot-sync"@ + tail
}

pub fn route(base: &str, org: &str, repo: &str, tail: &str) -> (address: String)
    ensures
        address@ == route_text(base@, org@, repo@, tail@),
{
    let mut text = String::new();
    text.append(base);
    text.append("/api/v1/repos/");
    text.append(org);
    text.append("/");
    text.append(repo);
    text.append("/snapshot-sync");
    text.append(tail);
    assert(text@ =~= route_text(base@, org@, repo@, tail@));
    text
}

/// A bearer token as it stands in its file, without the white space round it.
pub fn bearer_of(raw: &str) -> (token: String)
    ensures
        token@ == trimmed(raw@),
{
    let chars = chars_of(raw);
    string_of(trim(&chars))
}

/// What a declaration says: the manifest's canonical bytes in base64, and the
/// head that it expects, spelled in hexadecimal digits, empty where it expects
/// none.
pub fn declaration(tfm1_bytes: &[u8], expected_head: Option<&SnapshotId>) -> (body: (String, String))
    requires
        4 * (tfm1_bytes@.len() / 3 + 1) <= isize::MAX,
    ensures
        body.0@ == base64_text(tfm1_bytes@),
        body.1@ == match expected_head {
            Some(id) => crate::text::hex(id@),
            None => Seq::<char>::empty(),
        },
{
    let head = match expected_head {
        Some(id) => id.to_text(),
        None => String::new(),
    };
    (base64_standard(tfm1_bytes), head)
}

// ---------------------------------------------------------------------------
// References
// ---------------------------------------------------------------------------

/// The digest that a tagged reference names, or why it names none.
pub open spec fn referenced(raw: Seq<char>) -> Result<Seq<u8>, Seq<char>> {
    if !"sha256:"@.is_prefix_of(raw) {
        Err("untagged ref "@ + quotation(raw))
    } else {
        match digest_of_hex(raw.skip("sha256:"@.len() as int)) {
            Some(digest) => Ok(digest),
            None => Err("undecodable ref "@ + quotation(raw)),
        }
    }
}

/// Whether an error is a failure of the carrier with this detail.
pub open spec fn io_with(error: TransportError, detail: Seq<char>) -> bool {
    error matches TransportError::Io(text) && text@ == detail
}

fn with_quotation(text: &str, raw: &str) -> (error: TransportError)
    ensures
        io_with(error, text@ + quotation(raw@)),
{
    let mut detail = String::new();
    detail.append(text);
    let quote = quoted(raw);
    detail.append(quote.as_str());
    assert(detail@ =~= text@ + quotation(raw@));
    TransportError::Io(detail)
}

/// Reads a tagged reference.
pub fn parse_ref(raw: &str) -> (outcome: Result<ObjectDigest, TransportError>)
    ensures
        match referenced(raw@) {
            Ok(digest) => outcome is Ok && outcome->Ok_0@ == digest,
            Err(detail) => outcome is Err && io_with(outcome->Err_0, detail),
        },
{
    let chars = chars_of(raw);
    let tag = chars_of("sha256:");
    if chars.len() < tag.len() || !same_chars(
        vstd::slice::slice_subrange(chars.as_slice(), 0, tag.len()),
        &tag,
    ) {
        proof {
            if "sha256:"@.is_prefix_of(raw@) {
                assert(raw@.take(tag@.len() as int) =~= tag@);
            }
        }
        return Err(with_quotation("untagged ref ", raw));
    }
    assert("sha256:"@.is_prefix_of(raw@)) by {
        assert(raw@.subrange(0, tag@.len() as int) =~= tag@);
    }
    let rest = string_of(vstd::slice::slice_subrange(chars.as_slice(), tag.len(), chars.len()));
    assert(rest@ =~= raw@.skip("sha256:"@.len() as int));
    match SnapshotId::parse_hex(rest.as_str()) {
        Some(id) => Ok(ObjectDigest::from_bytes(*id.as_bytes())),
        None => Err(with_quotation("undecodable ref ", raw)),
    }
}

/// An object's reference on the wire.
pub fn tagged(digest: &ObjectDigest) -> (text: String)
    ensures
        text@ == digest_spelling(digest@),
{
    digest.to_text()
}

/// A reference is read back as the digest that it was written for.
pub proof fn a_tagged_digest_is_read_back(digest: Seq<u8>)
    requires
        digest.len() == 32,
    ensures
        referenced(digest_spelling(digest)) == Ok::<Seq<u8>, Seq<char>>(digest),
{
    let text = digest_spelling(digest);
    crate::text::digest_of_hex_reads_back(digest);
    assert(text.take("sha256:"@.len() as int) =~= "sha256:"@);
    assert(text.skip("sha256:"@.len() as int) =~= crate::text::hex(digest));
}

/// The first reference at or behind `at` that names no digest, and why.
pub open spec fn first_bad_ref(raws: Seq<String>, at: int) -> Option<Seq<char>>
    decreases raws.len() - at,
{
    if at >= raws.len() {
        None
    } else {
        match referenced(raws[at]@) {
            Err(detail) => Some(detail),
            Ok(_) => first_bad_ref(raws, at + 1),
        }
    }
}

/// Reads a list of references.
pub fn parse_refs(raws: &[String]) -> (outcome: Result<Vec<ObjectDigest>, TransportError>)
    ensures
        match first_bad_ref(raws@, 0) {
            Some(detail) => outcome is Err && io_with(outcome->Err_0, detail),
            None => {
                &&& outcome matches Ok(list)
                &&& list@.len() == raws@.len()
                &&& forall|i: int|
                    0 <= i < list@.len() ==> referenced(raws@[i]@) == Ok::<Seq<u8>, Seq<char>>(
                        (#[trigger] list@[i])@,
                    )
            },
        },
{
    let mut list: Vec<ObjectDigest> = Vec::new();
    let mut at: usize = 0;
    while at < raws.len()
        invariant
            at <= raws@.len(),
            list@.len() == at,
            first_bad_ref(raws@, 0) == first_bad_ref(raws@, at as int),
            forall|i: int|
                0 <= i < at ==> referenced(raws@[i]@) == Ok::<Seq<u8>, Seq<char>>(
                    (#[trigger] list@[i])@,
                ),
        decreases raws@.len() - at,
    {
        let digest = parse_ref(raws[at].as_str())?;
        list.push(digest);
        at += 1;
    }
    Ok(list)
}

/// Pairs references with lengths.
pub fn missing_pairs(raws: &[String], sizes: &[u64]) -> (outcome: Result<
    Vec<(ObjectDigest, u64)>,
    TransportError,
>)
    requires
        sizes@.len() == raws@.len(),
    ensures
        match first_bad_ref(raws@, 0) {
            Some(detail) => outcome is Err && io_with(outcome->Err_0, detail),
            None => {
                &&& outcome matches Ok(list)
                &&& list@.len() == raws@.len()
                &&& forall|i: int|
                    0 <= i < list@.len() ==> referenced(raws@[i]@) == Ok::<Seq<u8>, Seq<char>>(
                        (#[trigger] list@[i]).0@,
                    ) && list@[i].1 == sizes@[i]
            },
        },
{
    let named = parse_refs(raws)?;
    let mut list: Vec<(ObjectDigest, u64)> = Vec::new();
    let mut at: usize = 0;
    while at < named.len()
        invariant
            at <= named@.len(),
            named@.len() == raws@.len() == sizes@.len(),
            list@.len() == at,
            forall|i: int|
                0 <= i < at ==> (#[trigger] list@[i]).0 == named@[i] && list@[i].1 == sizes@[i],
        decreases named@.len() - at,
    {
        list.push((named[at], sizes[at]));
        at += 1;
    }
    proof {
        assert forall|i: int| 0 <= i < list@.len() implies referenced(raws@[i]@) == Ok::<
            Seq<u8>,
            Seq<char>,
        >((#[trigger] list@[i]).0@) && list@[i].1 == sizes@[i] by {
            assert(list@[i].0 == named@[i]);
        }
    }
    Ok(list)
}

/// The head that the remote names: none where the text is empty.
pub fn parse_head(raw: &str) -> (outcome: Result<Option<SnapshotId>, TransportError>)
    ensures
        if raw@.len() == 0 {
            outcome == Ok::<Option<SnapshotId>, TransportError>(None)
        } else {
            match digest_of_hex(raw@) {
                Some(id) => {
                    &&& outcome matches Ok(Some(found))
                    &&& found@ == id
                },
                None => outcome is Err && io_with(
                    outcome->Err_0,
                    "undecodable head "@ + quotation(raw@),
                ),
            }
        },
{
    let chars = chars_of(raw);
    if chars.len() == 0 {
        return Ok(None);
    }
    match SnapshotId::parse_hex(raw) {
        Some(id) => Ok(Some(id)),
        None => Err(with_quotation("undecodable head ", raw)),
    }
}

/// The identity that the remote computed.
pub fn parse_snapshot_id(raw: &str) -> (outcome: Result<SnapshotId, TransportError>)
    ensures
        match digest_of_hex(raw@) {
            Some(id) => outcome is Ok && outcome->Ok_0@ == id,
            None => outcome is Err && io_with(
                outcome->Err_0,
                "undecodable snapshot id "@ + quotation(raw@),
            ),
        },
{
    match SnapshotId::parse_hex(raw) {
        Some(id) => Ok(id),
        None => Err(with_quotation("undecodable snapshot id ", raw)),
    }
}

// ---------------------------------------------------------------------------
// Statuses
// ---------------------------------------------------------------------------

/// Whether `part` stands somewhere in `text`.
pub open spec fn contains_text(text: Seq<char>, part: Seq<char>) -> bool {
    exists|i: int| 0 <= i <= text.len() - part.len() && #[trigger] text.subrange(i, i + part.len()) == part
}

fn holds_text(text: &[char], part: &[char]) -> (found: bool)
    ensures
        found == contains_text(text@, part@),
{
    let mut at: usize = 0;
    if part.len() > text.len() {
        return false;
    }
    let last: usize = text.len() - part.len();
    while at <= last
        invariant
            last == text@.len() - part@.len(),
            at <= last + 1,
            last <= text@.len(),
            text@.len() <= usize::MAX,
            forall|i: int| 0 <= i < at ==> #[trigger] text@.subrange(i, i + part@.len()) != part@,
        decreases last + 1 - at,
    {
        if same_chars(vstd::slice::slice_subrange(text, at, at + part.len()), part) {
            assert(text@.subrange(at as int, at + part@.len()) == part@);
            return true;
        }
        if at == last {
            return false;
        }
        at += 1;
    }
    false
}

/// The name of a status that comes without an error of its own.
pub open spec fn status_code(status: u16) -> Seq<char> {
    "http-"@ + decimal(status as nat)
}

/// Whether an error is a refusal with this code and this detail.
pub open spec fn refused_with(error: TransportError, code: Seq<char>, detail: Seq<char>) -> bool {
    error matches TransportError::Refused { code: c, detail: d } && c@ == code && d@ == detail
}

fn refused_status(status: u16, detail: String) -> (error: TransportError)
    ensures
        refused_with(error, status_code(status), detail@),
{
    let mut code = String::new();
    code.append("http-");
    push_decimal(&mut code, status as u64);
    assert(code@ =~= status_code(status));
    TransportError::Refused { code, detail }
}

/// What an answer means that is no success. An error whose code speaks of
/// expiry has the caller plan again; another is a refusal; an answer without an
/// error is a refusal named by its status.
pub fn refuse(status: u16, error: Option<(String, String)>, body: String) -> (refusal: TransportError)
    ensures
        match error {
            Some((code, message)) => if contains_text(code@, "expired"@) {
                refusal == TransportError::Expired(code)
            } else {
                refusal == (TransportError::Refused { code, detail: message })
            },
            None => refused_with(refusal, status_code(status), body@),
        },
{
    match error {
        Some((code, message)) => {
            let chars = chars_of(code.as_str());
            let expired = chars_of("expired");
            if holds_text(&chars, &expired) {
                TransportError::Expired(code)
            } else {
                TransportError::Refused { code, detail: message }
            }
        },
        None => refused_status(status, body),
    }
}

/// What a remote says of a completion.
#[derive(Clone, Debug, PartialEq, Eq)]
pub struct CompleteAnswer {
    pub stage: String,
    pub promoted: u64,
    pub total: u64,
    /// The code of a failure, and whether calling again can mend it.
    pub failure: Option<(String, bool)>,
}

/// What a completion's answer means; nothing where it is to be refused.
pub fn complete_status(status: u16, answer: Option<CompleteAnswer>) -> (meaning: Option<CompleteStatus>)
    ensures
        match answer {
            None => meaning is None,
            Some(said) => match said.failure {
                Some((code, true)) => meaning == Some(
                    CompleteStatus::Incomplete {
                        code,
                        promoted: said.promoted,
                        total: said.total,
                    },
                ),
                Some((code, false)) => meaning == Some(CompleteStatus::Failed { code }),
                None => if status == 200 && said.stage@ == "promoted"@ {
                    meaning == Some(CompleteStatus::Promoted)
                } else {
                    meaning is None
                },
            },
        },
{
    match answer {
        None => None,
        Some(said) => match said.failure {
            Some((code, retryable)) => if retryable {
                Some(
                    CompleteStatus::Incomplete {
                        code,
                        promoted: said.promoted,
                        total: said.total,
                    },
                )
            } else {
                Some(CompleteStatus::Failed { code })
            },
            None => {
                let stage = chars_of(said.stage.as_str());
                let promoted = chars_of("promoted");
                if status == 200 && same_chars(&stage, &promoted) {
                    Some(CompleteStatus::Promoted)
                } else {
                    None
                }
            },
        },
    }
}

/// Whether an error is an expiry with this detail.
pub open spec fn expired_with(error: TransportError, detail: Seq<char>) -> bool {
    error matches TransportError::Expired(text) && text@ == detail
}

/// What the store means by refusing a part: an authorization or an upload that
/// is gone has the caller plan again.
pub fn part_refusal(status: u16, detail: String) -> (error: TransportError)
    ensures
        if status == 403 {
            expired_with(error, "blob part grant refused (403)"@)
        } else if status == 404 {
            expired_with(error, "blob part upload no longer exists (404)"@)
        } else {
            refused_with(error, status_code(status), detail@)
        },
{
    if status == 403 {
        TransportError::Expired("blob part grant refused (403)".to_string())
    } else if status == 404 {
        TransportError::Expired("blob part upload no longer exists (404)".to_string())
    } else {
        refused_status(status, detail)
    }
}

/// What the store means by refusing a pack.
pub fn pack_refusal(status: u16, detail: String) -> (error: TransportError)
    ensures
        if status == 403 {
            expired_with(error, "upload grant refused (403)"@)
        } else {
            refused_with(error, status_code(status), detail@)
        },
{
    if status == 403 {
        TransportError::Expired("upload grant refused (403)".to_string())
    } else {
        refused_status(status, detail)
    }
}

/// What the store means by refusing a download.
pub fn download_refusal(status: u16, detail: String) -> (error: TransportError)
    ensures
        if status == 403 {
            expired_with(error, "download grant refused (403)"@)
        } else {
            refused_with(error, status_code(status), detail@)
        },
{
    if status == 403 {
        TransportError::Expired("download grant refused (403)".to_string())
    } else {
        refused_status(status, detail)
    }
}

/// The name that the store gave a part. A part without one cannot be completed.
pub fn part_etag(etag: Option<String>, part_number: u32) -> (outcome: Result<String, TransportError>)
    ensures
        match etag {
            Some(name) if name@.len() > 0 => outcome == Ok::<String, TransportError>(name),
            _ => outcome is Err && io_with(
                outcome->Err_0,
                "part "@ + decimal(part_number as nat) + " landed without an etag"@,
            ),
        },
{
    if let Some(name) = etag {
        if chars_of(name.as_str()).len() > 0 {
            return Ok(name);
        }
    }
    let mut detail = String::new();
    detail.append("part ");
    push_decimal(&mut detail, part_number as u64);
    detail.append(" landed without an etag");
    assert(detail@ =~= "part "@ + decimal(part_number as nat) + " landed without an etag"@);
    Err(TransportError::Io(detail))
}

/// The lowercase form of an ASCII letter; any other character is its own.
pub open spec fn ascii_lower(c: char) -> char {
    if 'A' <= c <= 'Z' {
        ((c as u32 + 32) as u32) as char
    } else {
        c
    }
}

/// Whether two texts are the same but for the case of ASCII letters.
pub open spec fn same_but_case(a: Seq<char>, b: Seq<char>) -> bool {
    a.len() == b.len() && forall|i: int| 0 <= i < a.len() ==> ascii_lower(#[trigger] a[i]) == ascii_lower(b[i])
}

fn lowered(c: char) -> (lower: char)
    ensures
        lower == ascii_lower(c),
{
    if c >= 'A' && c <= 'Z' {
        ((c as u8) + 32) as char
    } else {
        c
    }
}

fn equal_but_case(a: &[char], b: &[char]) -> (same: bool)
    ensures
        same == same_but_case(a@, b@),
{
    if a.len() != b.len() {
        return false;
    }
    let mut at: usize = 0;
    while at < a.len()
        invariant
            at <= a@.len(),
            a@.len() == b@.len(),
            forall|i: int| 0 <= i < at ==> ascii_lower(#[trigger] a@[i]) == ascii_lower(b@[i]),
        decreases a@.len() - at,
    {
        if lowered(a[at]) != lowered(b[at]) {
            assert(ascii_lower(a@[at as int]) != ascii_lower(b@[at as int]));
            return false;
        }
        at += 1;
    }
    true
}

/// Whether granted headers name the length of the body. Where they do not, the
/// sender states it, so that the body is not sent in chunks.
pub fn states_length(headers: &[(String, String)]) -> (yes: bool)
    ensures
        yes == exists|i: int|
            0 <= i < headers@.len() && same_but_case((#[trigger] headers@[i]).0@, "content-length"@),
{
    let name = chars_of("content-length");
    let mut at: usize = 0;
    while at < headers.len()
        invariant
            at <= headers@.len(),
            name@ == "content-length"@,
            forall|i: int| 0 <= i < at ==> !same_but_case((#[trigger] headers@[i]).0@, "content-length"@),
        decreases headers@.len() - at,
    {
        let chars = chars_of(headers[at].0.as_str());
        if equal_but_case(&chars, &name) {
            return true;
        }
        at += 1;
    }
    false
}

/// Refuses a download that is not as long as its grant says.
pub fn check_download(grant: &DownloadGrant, written: u64) -> (outcome: Result<u64, TransportError>)
    ensures
        if written == grant.length {
            outcome == Ok::<u64, TransportError>(written)
        } else {
            outcome is Err && io_with(
                outcome->Err_0,
                "download for "@ + digest_spelling(grant.digest@) + " returned "@ + decimal(
                    written as nat,
                ) + " bytes, grant says "@ + decimal(grant.length as nat),
            )
        },
{
    if written == grant.length {
        return Ok(written);
    }
    let mut detail = String::new();
    detail.append("download for ");
    let name = grant.digest.to_text();
    detail.append(name.as_str());
    detail.append(" returned ");
    push_decimal(&mut detail, written);
    detail.append(" bytes, grant says ");
    push_decimal(&mut detail, grant.length);
    assert(detail@ =~= "download for "@ + digest_spelling(grant.digest@) + " returned "@ + decimal(
        written as nat,
    ) + " bytes, grant says "@ + decimal(grant.length as nat));
    Err(TransportError::Io(detail))
}

} // verus!
