//! The path rules of a manifest.

use super::Tfm1Error;
use crate::contract::byte_len;
use crate::text::{chars_of, first_index, position_of};
use crate::trusted::{is_nfc, lowercase, nfc, to_lowercase};
use vstd::prelude::*;
use vstd::string::*;

verus! {

pub const MAX_PATH_BYTES: usize = 4096;

pub const MAX_SYMLINK_TARGET_BYTES: usize = 4096;

/// A control code.
pub open spec fn is_control(c: char) -> bool {
    c as u32 <= 0x1f || 0x7f <= c as u32 <= 0x9f
}

/// A character that no path segment may hold.
pub open spec fn forbidden(c: char) -> bool {
    is_control(c) || c == '\\' || c == ':' || c == '*' || c == '?' || c == '"' || c == '<' || c
        == '>' || c == '|'
}

/// The uppercase of an ASCII letter, any other character being kept.
pub open spec fn ascii_upper(c: char) -> char {
    if 'a' <= c <= 'z' {
        (c as u32 - 32) as char
    } else {
        c
    }
}

/// A Windows-reserved device name, in either case.
pub open spec fn reserved(stem: Seq<char>) -> bool {
    let upper = stem.map_values(|c: char| ascii_upper(c));
    ||| upper == seq!['C', 'O', 'N']
    ||| upper == seq!['P', 'R', 'N']
    ||| upper == seq!['A', 'U', 'X']
    ||| upper == seq!['N', 'U', 'L']
    ||| (upper.len() == 4 && (upper.take(3) == seq!['C', 'O', 'M'] || upper.take(3) == seq![
        'L',
        'P',
        'T',
    ]) && '1' <= upper[3] <= '9')
}

/// The first rule that one path segment breaks.
pub open spec fn segment_error(segment: Seq<char>) -> Option<Tfm1Error> {
    if segment.len() == 0 {
        Some(Tfm1Error::PathEmptySegment)
    } else if segment == seq!['.'] || segment == seq!['.', '.'] {
        Some(Tfm1Error::PathDotSegment)
    } else if exists|i: int| 0 <= i < segment.len() && forbidden(#[trigger] segment[i]) {
        Some(Tfm1Error::PathForbiddenCharacter)
    } else if segment.last() == '.' || segment.last() == ' ' {
        Some(Tfm1Error::PathTrailingDotSpace)
    } else if reserved(segment.take(first_index(segment, '.'))) {
        Some(Tfm1Error::PathWindowsReserved)
    } else {
        None
    }
}

/// The first rule that a slash-separated segment breaks, segment by segment.
pub open spec fn segments_error(path: Seq<char>) -> Option<Tfm1Error>
    decreases path.len(),
{
    let at = first_index(path, '/');
    match segment_error(path.take(at)) {
        Some(error) => Some(error),
        None => if at < 0 || at >= path.len() {
            None
        } else {
            segments_error(path.skip(at + 1))
        },
    }
}

/// The first rule that a path breaks.
pub open spec fn path_error(path: Seq<char>) -> Option<Tfm1Error> {
    if path.len() == 0 || byte_len(path) > MAX_PATH_BYTES {
        Some(Tfm1Error::PathLength)
    } else if !nfc(path) {
        Some(Tfm1Error::PathNotNfc)
    } else if path[0] == '/' {
        Some(Tfm1Error::PathAbsolute)
    } else {
        segments_error(path)
    }
}

/// A symlink target: not empty, bounded, without control codes.
pub open spec fn usable_target(target: Seq<char>) -> bool {
    &&& target.len() > 0
    &&& byte_len(target) <= MAX_SYMLINK_TARGET_BYTES
    &&& forall|i: int| 0 <= i < target.len() ==> !is_control(#[trigger] target[i])
}

/// A text with every character in lower case.
pub open spec fn folded(text: Seq<char>) -> Seq<char>
    decreases text.len(),
{
    if text.len() == 0 {
        Seq::empty()
    } else {
        folded(text.drop_last()) + lowercase(text.last())
    }
}

fn control(c: char) -> (yes: bool)
    ensures
        yes == is_control(c),
{
    c as u32 <= 0x1f || (0x7f <= c as u32 && c as u32 <= 0x9f)
}

fn upper(c: char) -> (result: char)
    ensures
        result == ascii_upper(c),
{
    if 'a' <= c && c <= 'z' {
        ((c as u8) - 32) as char
    } else {
        c
    }
}

fn is_reserved(stem: &[char]) -> (yes: bool)
    ensures
        yes == reserved(stem@),
{
    let n = stem.len();
    let ghost all = stem@.map_values(|c: char| ascii_upper(c));
    if n != 3 && n != 4 {
        assert(all.len() == n);
        assert(seq!['C', 'O', 'N'].len() == 3 && seq!['P', 'R', 'N'].len() == 3);
        assert(seq!['A', 'U', 'X'].len() == 3 && seq!['N', 'U', 'L'].len() == 3);
        return false;
    }
    let a = upper(stem[0]);
    let b = upper(stem[1]);
    let c = upper(stem[2]);
    assert(all[0] == a && all[1] == b && all[2] == c);
    if n == 3 {
        let yes = (a == 'C' && b == 'O' && c == 'N') || (a == 'P' && b == 'R' && c == 'N') || (a
            == 'A' && b == 'U' && c == 'X') || (a == 'N' && b == 'U' && c == 'L');
        assert(all =~= seq![a, b, c]);
        yes
    } else {
        let d = upper(stem[3]);
        assert(all[3] == d);
        assert(all.take(3) =~= seq![a, b, c]);
        ((a == 'C' && b == 'O' && c == 'M') || (a == 'L' && b == 'P' && c == 'T')) && '1' <= d && d
            <= '9'
    }
}

/// Checks one path segment.
fn check_segment(segment: &[char]) -> (outcome: Result<(), Tfm1Error>)
    ensures
        match outcome {
            Ok(_) => segment_error(segment@) is None,
            Err(e) => segment_error(segment@) == Some(e),
        },
{
    let n = segment.len();
    if n == 0 {
        return Err(Tfm1Error::PathEmptySegment);
    }
    if n == 1 && segment[0] == '.' {
        assert(segment@ =~= seq!['.']);
        return Err(Tfm1Error::PathDotSegment);
    }
    if n == 2 && segment[0] == '.' && segment[1] == '.' {
        assert(segment@ =~= seq!['.', '.']);
        return Err(Tfm1Error::PathDotSegment);
    }
    proof {
        if segment@ == seq!['.'] {
            assert(segment@[0] == '.');
        }
        if segment@ == seq!['.', '.'] {
            assert(segment@[0] == '.' && segment@[1] == '.');
        }
    }
    let mut at: usize = 0;
    while at < n
        invariant
            n == segment@.len(),
            n > 0,
            segment@ != seq!['.'],
            segment@ != seq!['.', '.'],
            at <= n,
            forall|i: int| 0 <= i < at ==> !forbidden(#[trigger] segment@[i]),
        decreases n - at,
    {
        let c = segment[at];
        if control(c) || c == '\\' || c == ':' || c == '*' || c == '?' || c == '"' || c == '<' || c
            == '>' || c == '|' {
            assert(forbidden(segment@[at as int]));
            return Err(Tfm1Error::PathForbiddenCharacter);
        }
        at += 1;
    }
    if segment[n - 1] == '.' || segment[n - 1] == ' ' {
        return Err(Tfm1Error::PathTrailingDotSpace);
    }
    let dot = position_of(segment, '.');
    let stem = vstd::slice::slice_subrange(segment, 0, dot);
    assert(stem@ =~= segment@.take(first_index(segment@, '.')));
    if is_reserved(stem) {
        return Err(Tfm1Error::PathWindowsReserved);
    }
    Ok(())
}

/// Checks the path rules.
pub fn validate_path(path: &str) -> (outcome: Result<(), Tfm1Error>)
    ensures
        match outcome {
            Ok(_) => path_error(path@) is None,
            Err(e) => path_error(path@) == Some(e),
        },
{
    let chars = chars_of(path);
    if chars.len() == 0 || path.as_bytes().len() > MAX_PATH_BYTES {
        return Err(Tfm1Error::PathLength);
    }
    if !is_nfc(path) {
        return Err(Tfm1Error::PathNotNfc);
    }
    if chars[0] == '/' {
        return Err(Tfm1Error::PathAbsolute);
    }
    let mut from: usize = 0;
    assert(path@.skip(0) =~= path@);
    loop
        invariant
            chars@ == path@,
            path_error(path@) == segments_error(path@),
            from <= chars@.len(),
            segments_error(path@) == segments_error(path@.skip(from as int)),
        decreases chars@.len() - from,
    {
        let rest = vstd::slice::slice_subrange(chars.as_slice(), from, chars.len());
        assert(rest@ =~= path@.skip(from as int));
        let at = position_of(rest, '/');
        let segment = vstd::slice::slice_subrange(rest, 0, at);
        assert(segment@ =~= rest@.take(at as int));
        match check_segment(segment) {
            Ok(_) => {},
            Err(error) => {
                return Err(error);
            },
        }
        if at == rest.len() {
            return Ok(());
        }
        assert(rest@.skip(at + 1) =~= path@.skip(from + at + 1));
        from = from + at + 1;
    }
}

/// Checks a symlink target.
pub fn validate_symlink_target(target: &str) -> (outcome: Result<(), Tfm1Error>)
    ensures
        match outcome {
            Ok(_) => usable_target(target@),
            Err(e) => !usable_target(target@) && e == Tfm1Error::SymlinkTarget,
        },
{
    let chars = chars_of(target);
    if chars.len() == 0 || target.as_bytes().len() > MAX_SYMLINK_TARGET_BYTES {
        return Err(Tfm1Error::SymlinkTarget);
    }
    let mut at: usize = 0;
    while at < chars.len()
        invariant
            chars@ == target@,
            at <= chars@.len(),
            forall|i: int| 0 <= i < at ==> !is_control(#[trigger] chars@[i]),
        decreases chars@.len() - at,
    {
        if control(chars[at]) {
            assert(is_control(target@[at as int]));
            return Err(Tfm1Error::SymlinkTarget);
        }
        at += 1;
    }
    Ok(())
}

/// The text with every character in lower case.
pub fn case_fold(path: &str) -> (text: String)
    ensures
        text@ == folded(path@),
{
    let chars = chars_of(path);
    let mut text = String::new();
    let mut at: usize = 0;
    while at < chars.len()
        invariant
            chars@ == path@,
            at <= chars@.len(),
            text@ == folded(chars@.take(at as int)),
        decreases chars@.len() - at,
    {
        proof {
            assert(chars@.take(at + 1).drop_last() =~= chars@.take(at as int));
        }
        let lower = to_lowercase(chars[at]);
        text.append(lower.as_str());
        at += 1;
    }
    assert(chars@.take(at as int) =~= path@);
    text
}

} // verus!
