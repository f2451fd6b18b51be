//! The decision whether a newer release of the proxy exists, from the fields
//! of the latest release that the release feed reports.

use vstd::prelude::*;
use vstd::utf8::*;

verus! {

/// A release newer than the running one: its tag and where to download it.
pub struct NewVersion {
    pub tag: String,
    pub link: String,
}

/// What is missing from the feed's description of the latest release.
#[derive(Clone, Copy, PartialEq, Eq, Structural, Debug)]
pub enum ReleaseError {
    /// The release has no tag.
    MissingTag,
    /// The release has no asset to download.
    MissingAsset,
}

/// Whether two byte sequences are equal.
fn bytes_equal(a: &[u8], b: &[u8]) -> (r: bool)
    ensures
        r == (a@ == b@),
{
    if a.len() != b.len() {
        return false;
    }
    let mut i: usize = 0;
    while i < a.len()
        invariant
            i <= a@.len() == b@.len(),
            forall|j: int| 0 <= j < i ==> a@[j] == b@[j],
        decreases a@.len() - i,
    {
        if a[i] != b[i] {
            return false;
        }
        i = i + 1;
    }
    assert(a@ =~= b@);
    true
}

/// Whether two texts are equal.
fn same_text(a: &str, b: &str) -> (r: bool)
    ensures
        r == (a@ == b@),
{
    let r = bytes_equal(a.as_bytes(), b.as_bytes());
    proof {
        broadcast use encode_utf8_decode_utf8;

        assert(decode_utf8(encode_utf8(a@)) == a@);
        assert(decode_utf8(encode_utf8(b@)) == b@);
    }
    r
}

/// The newer release, if any, given the running version and the tag and
/// download link of the latest release: none where the tag is the running
/// version.
pub fn update_from_release(current: &str, tag: Option<String>, link: Option<String>) -> (r:
    Result<Option<NewVersion>, ReleaseError>)
    ensures
        match tag {
            None => r == Err::<Option<NewVersion>, ReleaseError>(ReleaseError::MissingTag),
            Some(t) => if t@ == current@ {
                r matches Ok(None)
            } else {
                match link {
                    None => r == Err::<Option<NewVersion>, ReleaseError>(
                        ReleaseError::MissingAsset,
                    ),
                    Some(l) => r matches Ok(Some(v)) && v.tag@ == t@ && v.link@ == l@,
                }
            },
        },
{
    let tag = match tag {
        Some(t) => t,
        None => return Err(ReleaseError::MissingTag),
    };
    if same_text(tag.as_str(), current) {
        return Ok(None);
    }
    match link {
        Some(link) => Ok(Some(NewVersion { tag, link })),
        None => Err(ReleaseError::MissingAsset),
    }
}

} // verus!
