//! Asset-side decisions: proxy targets, image-sequence file names, and the
//! choice of decoder for an asset path.

use vstd::prelude::*;
use crate::text::{chars_of, decimal, push_decimal};

verus! {

/// Proxy configuration for a video asset cache.
#[derive(Clone, Copy, PartialEq, Eq, Structural, Debug)]
pub struct ProxyConfig {
    /// Target height in pixels (width follows aspect ratio).
    pub target_height: u32,
}

impl ProxyConfig {
    /// A proxy at half or quarter resolution, whichever is closer: none for
    /// HD and below, 540 lines for up to 2159 lines, 1080 above.
    pub fn for_source(height: u32) -> (p: Option<ProxyConfig>)
        ensures
            height < 1080 ==> p is None,
            1080 <= height < 2160 ==> p == Some(ProxyConfig { target_height: 540 }),
            height >= 2160 ==> p == Some(ProxyConfig { target_height: 1080 }),
    {
        if height < 1080 {
            None
        } else if height < 2160 {
            Some(ProxyConfig { target_height: 540 })
        } else {
            Some(ProxyConfig { target_height: 1080 })
        }
    }
}

/// `digits` rendered with leading zeros up to `width` characters.
pub open spec fn zero_padded(digits: Seq<char>, width: nat) -> Seq<char> {
    if digits.len() >= width {
        digits
    } else {
        Seq::new((width - digits.len()) as nat, |i: int| '0') + digits
    }
}

/// The file name of frame `index` in an image sequence:
/// `{prefix}{index:0width}.{extension}`.
pub open spec fn sequence_file_name_spec(prefix: Seq<char>, index: nat, width: nat, extension: Seq<char>) -> Seq<char> {
    prefix + zero_padded(decimal(index), width) + "."@ + extension
}

/// The file name of frame `index` in an image sequence: the prefix, the
/// index zero-padded to `digits` characters, a dot and the extension.
pub fn sequence_file_name(prefix: &str, index: u64, digits: usize, extension: &str) -> (name: String)
    ensures
        name@ == sequence_file_name_spec(prefix@, index as nat, digits as nat, extension@),
{
    let mut number = String::new();
    push_decimal(&mut number, index as u128);
    let number_len = chars_of(number.as_str()).len();
    let mut name = String::new();
    name.append(prefix);
    if number_len < digits {
        let mut k: usize = 0;
        let ghost padding = Seq::new((digits - number_len) as nat, |i: int| '0');
        while k < digits - number_len
            invariant
                k <= digits - number_len,
                name@ == prefix@ + Seq::new(k as nat, |i: int| '0'),
            decreases digits - number_len - k,
        {
            proof {
                reveal_strlit("0");
            }
            name.append("0");
            assert(name@ =~= prefix@ + Seq::new((k + 1) as nat, |i: int| '0'));
            k += 1;
        }
    }
    name.append(number.as_str());
    name.append(".");
    name.append(extension);
    assert(name@ =~= sequence_file_name_spec(prefix@, index as nat, digits as nat, extension@));
    name
}

/// `s` ends with `suffix`.
pub open spec fn has_suffix(s: Seq<char>, suffix: Seq<char>) -> bool {
    suffix.len() <= s.len() && s.skip(s.len() - suffix.len()) == suffix
}

/// Whether an asset path names media that the container decoder reads:
/// an `.mp4`/`.mov` file that is not a `procedural://` pseudo-path.
pub open spec fn is_media_path_spec(path: Seq<char>) -> bool {
    (has_suffix(path, ".mp4"@) || has_suffix(path, ".mov"@)) && !(path.len() >= "procedural://"@.len()
        && path.take("procedural://"@.len() as int) == "procedural://"@)
}

fn ends_with(s: &Vec<char>, suffix: &Vec<char>) -> (b: bool)
    ensures
        b == has_suffix(s@, suffix@),
{
    if suffix.len() > s.len() {
        return false;
    }
    let n = s.len();
    let offset = n - suffix.len();
    let mut i: usize = 0;
    while i < suffix.len()
        invariant
            n == s@.len(),
            offset + suffix@.len() == s@.len(),
            i <= suffix@.len(),
            forall|k: int| 0 <= k < i ==> s@[offset + k] == suffix@[k],
        decreases suffix@.len() - i,
    {
        if s[offset + i] != suffix[i] {
            assert(s@.skip(offset as int)[i as int] != suffix@[i as int]);
            return false;
        }
        i += 1;
    }
    assert(s@.skip(offset as int) =~= suffix@);
    true
}

fn starts_with(s: &Vec<char>, prefix: &Vec<char>) -> (b: bool)
    ensures
        b == (s@.len() >= prefix@.len() && s@.take(prefix@.len() as int) == prefix@),
{
    if prefix.len() > s.len() {
        return false;
    }
    let mut i: usize = 0;
    while i < prefix.len()
        invariant
            prefix@.len() <= s@.len(),
            i <= prefix@.len(),
            forall|k: int| 0 <= k < i ==> s@[k] == prefix@[k],
        decreases prefix@.len() - i,
    {
        if s[i] != prefix[i] {
            assert(s@.take(prefix@.len() as int)[i as int] != prefix@[i as int]);
            return false;
        }
        i += 1;
    }
    assert(s@.take(prefix@.len() as int) =~= prefix@);
    true
}

/// Whether the asset at `path` should be decoded as a media file (rather
/// than served by the procedural test-pattern source).
pub fn is_media_path(path: &str) -> (b: bool)
    ensures
        b == is_media_path_spec(path@),
{
    let p = chars_of(path);
    let mp4 = chars_of(".mp4");
    let mov = chars_of(".mov");
    let procedural = chars_of("procedural://");
    (ends_with(&p, &mp4) || ends_with(&p, &mov)) && !starts_with(&p, &procedural)
}

} // verus!
