//! OpenColorIO config compatibility: a best-effort scanner for the color
//! spaces and roles declared in a `.ocio` (XML) config.
//!
//! Attribute parsing is deliberately minimal (`key="value"` scanning);
//! configs that rely on YAML syntax or exotic XML features are not
//! understood.

use vstd::prelude::*;
use crate::text::{chars_of, find_char, find_char_range, is_whitespace, is_ws, lemma_find_char, pieces_after_first, split_pieces, substring};

verus! {

/// A minimal description of a color space entry parsed from an OCIO config.
#[derive(Debug, Clone, PartialEq)]
pub struct OcioColorSpace {
    /// The `name` attribute of the `<ColorSpace>` element.
    pub name: String,
    /// The `family` attribute, when present (used for UI grouping).
    pub family: Option<String>,
}

/// A role mapping from an OCIO config (`<Role name="..." colorspace="..."/>`).
#[derive(Debug, Clone, PartialEq)]
pub struct OcioRole {
    /// Role name (e.g. `scene_linear`, `texture`, `data`).
    pub name: String,
    /// The color space the role points at.
    pub color_space: String,
}

/// Metadata about OCIO compatibility support in this version.
#[derive(Debug, Clone, Copy, PartialEq, Eq)]
pub struct OcioSupport {
    /// Config scanning (color spaces, roles) is implemented.
    pub config_scanning: bool,
    /// Whether `ColorPipeline` can compile OCIO file transforms (future).
    pub file_transforms: bool,
}

/// Returns the current OCIO support level: config scanning, no file
/// transforms.
pub fn ocio_support() -> (s: OcioSupport)
    ensures
        s.config_scanning,
        !s.file_transforms,
{
    OcioSupport { config_scanning: true, file_transforms: false }
}

/// A character that may start an attribute name.
pub open spec fn is_key_start(c: char) -> bool {
    ('a' <= c && c <= 'z') || ('A' <= c && c <= 'Z') || c == '_'
}

/// A character that may continue an attribute name.
pub open spec fn is_key_char(c: char) -> bool {
    is_key_start(c) || ('0' <= c && c <= '9') || c == '-'
}

/// End of the attribute name starting at `i`.
pub open spec fn key_end(tag: Seq<char>, i: int) -> int
    decreases tag.len() - i,
{
    if 0 <= i < tag.len() && is_key_char(tag[i]) {
        key_end(tag, i + 1)
    } else {
        i
    }
}

pub proof fn lemma_key_end(tag: Seq<char>, i: int)
    requires
        0 <= i <= tag.len(),
    ensures
        i <= key_end(tag, i) <= tag.len(),
        i < tag.len() && is_key_char(tag[i]) ==> key_end(tag, i) > i,
        forall|k: int| i <= k < key_end(tag, i) ==> is_key_char(#[trigger] tag[k]),
        key_end(tag, i) < tag.len() ==> !is_key_char(tag[key_end(tag, i)]),
    decreases tag.len() - i,
{
    if i < tag.len() && is_key_char(tag[i]) {
        lemma_key_end(tag, i + 1);
    }
}

/// The `key="value"` / `key='value'` pairs of a tag body, scanning from
/// position `i`. A name not followed by `=` and a closed quote is skipped
/// and scanning resumes right after it.
pub open spec fn scan_attributes(tag: Seq<char>, i: int) -> Seq<(Seq<char>, Seq<char>)>
    decreases tag.len() - i, 1int,
{
    if i < 0 || i >= tag.len() {
        Seq::empty()
    } else if is_key_start(tag[i]) {
        let k = key_end(tag, i);
        proof {
            lemma_key_end(tag, i);
        }
        if k + 1 < tag.len() && tag[k] == '=' && (tag[k + 1] == '"' || tag[k + 1] == '\'') {
            let rest = tag.skip(k + 2);
            let rel = find_char(rest, tag[k + 1]);
            if rel < rest.len() {
                seq![(tag.subrange(i, k), rest.take(rel as int))] + scan_attributes(tag, k + 2 + rel + 1)
            } else {
                scan_attributes(tag, k)
            }
        } else {
            scan_attributes(tag, k)
        }
    } else {
        scan_attributes(tag, i + 1)
    }
}

/// The attribute pairs of a tag body.
pub open spec fn attribute_pairs(tag: Seq<char>) -> Seq<(Seq<char>, Seq<char>)> {
    scan_attributes(tag, 0)
}

/// The view of exec attribute pairs.
pub open spec fn pairs_view(v: Seq<(String, String)>) -> Seq<(Seq<char>, Seq<char>)> {
    Seq::new(v.len(), |i: int| (v[i].0@, v[i].1@))
}

/// Extracts `key="value"` (or `key='value'`) attribute pairs from one tag
/// body. Quote-aware: values may contain spaces.
pub fn attributes(tag: &str) -> (out: Vec<(String, String)>)
    ensures
        pairs_view(out@) == attribute_pairs(tag@),
{
    let chars = chars_of(tag);
    assert(chars@.subrange(0, chars@.len() as int) =~= chars@);
    attributes_in(&chars, 0, chars.len())
}

/// [`attributes`] of the tag body `chars[start..end]`.
fn attributes_in(chars: &Vec<char>, start: usize, end: usize) -> (out: Vec<(String, String)>)
    requires
        start <= end <= chars@.len(),
    ensures
        pairs_view(out@) == attribute_pairs(chars@.subrange(start as int, end as int)),
{
    let ghost tag = chars@.subrange(start as int, end as int);
    let mut out: Vec<(String, String)> = Vec::new();
    let mut i = start;
    while i < end
        invariant
            start <= i <= end <= chars@.len(),
            tag == chars@.subrange(start as int, end as int),
            attribute_pairs(tag) == pairs_view(out@) + scan_attributes(tag, i - start),
        decreases end - i,
    {
        let ghost j = i - start;
        let ghost before = pairs_view(out@);
        let c = chars[i];
        assert(tag[j] == c);
        if ('a' <= c && c <= 'z') || ('A' <= c && c <= 'Z') || c == '_' {
            let key_start = i;
            while i < end && ((('a' <= chars[i] && chars[i] <= 'z') || ('A' <= chars[i] && chars[i] <= 'Z') || chars[i] == '_')
                || ('0' <= chars[i] && chars[i] <= '9') || chars[i] == '-')
                invariant
                    start <= key_start <= i <= end <= chars@.len(),
                    tag == chars@.subrange(start as int, end as int),
                    key_end(tag, j) == key_end(tag, i - start),
                    j == key_start - start,
                decreases end - i,
            {
                assert(tag[i - start] == chars@[i as int]);
                i += 1;
            }
            proof {
                lemma_key_end(tag, j);
                if i < end {
                    assert(tag[i - start] == chars@[i as int]);
                }
            }
            let ghost k = i - start;
            assert(key_end(tag, j) == k);
            if end - i > 1 && chars[i] == '=' && (chars[i + 1] == '"' || chars[i + 1] == '\'') {
                let quote = chars[i + 1];
                assert(tag[k] == '=' && tag[k + 1] == quote);
                let ghost rest = tag.skip(k + 2);
                assert(rest =~= chars@.subrange(i + 2, end as int));
                let close = find_char_range(chars, i + 2, end, quote);
                proof {
                    lemma_find_char(rest, quote);
                }
                if close < end {
                    let key = substring(chars, key_start, i);
                    let value = substring(chars, i + 2, close);
                    assert(key@ =~= tag.subrange(j, k));
                    assert(value@ =~= rest.take((close - (i + 2)) as int));
                    out.push((key, value));
                    assert(pairs_view(out@) =~= before.push((key@, value@)));
                    i = close + 1;
                }
            }
        } else {
            i += 1;
        }
    }
    assert(scan_attributes(tag, end - start) == Seq::<(Seq<char>, Seq<char>)>::empty());
    assert(pairs_view(out@) + Seq::<(Seq<char>, Seq<char>)>::empty() =~= pairs_view(out@));
    out
}


/// The value of the first pair named `key`.
pub open spec fn lookup_value(pairs: Seq<(Seq<char>, Seq<char>)>, key: Seq<char>) -> Option<Seq<char>>
    decreases pairs.len(),
{
    if pairs.len() == 0 {
        None
    } else if pairs[0].0 == key {
        Some(pairs[0].1)
    } else {
        lookup_value(pairs.drop_first(), key)
    }
}

/// Law: the value looked up for `key` is that of the first pair named
/// `key`, and there is none exactly when no pair is named `key`.
pub proof fn lemma_lookup_value_first_wins(pairs: Seq<(Seq<char>, Seq<char>)>, key: Seq<char>)
    ensures
        lookup_value(pairs, key) is None <==> forall|i: int| 0 <= i < pairs.len() ==> #[trigger] pairs[i].0 != key,
        lookup_value(pairs, key) is Some ==> exists|i: int|
            0 <= i < pairs.len() && #[trigger] pairs[i].0 == key && lookup_value(pairs, key) == Some(pairs[i].1)
                && forall|j: int| 0 <= j < i ==> #[trigger] pairs[j].0 != key,
    decreases pairs.len(),
{
    if pairs.len() > 0 {
        let tail = pairs.drop_first();
        lemma_lookup_value_first_wins(tail, key);
        if pairs[0].0 == key {
            assert(pairs[0].0 == key);
        } else {
            assert forall|i: int| 0 <= i < tail.len() implies #[trigger] tail[i].0 == pairs[i + 1].0 by {}
            if lookup_value(tail, key) is None {
                assert forall|i: int| 0 <= i < pairs.len() implies #[trigger] pairs[i].0 != key by {
                    if i > 0 {
                        assert(tail[i - 1].0 == pairs[i].0);
                    }
                }
            } else {
                let i0 = choose|i: int| 0 <= i < tail.len() && #[trigger] tail[i].0 == key && lookup_value(tail, key) == Some(tail[i].1)
                    && forall|j: int| 0 <= j < i ==> #[trigger] tail[j].0 != key;
                assert(pairs[i0 + 1] == tail[i0]);
                assert forall|j: int| 0 <= j < i0 + 1 implies #[trigger] pairs[j].0 != key by {
                    if j > 0 {
                        assert(tail[j - 1].0 == pairs[j].0);
                    }
                }
                assert(pairs[i0 + 1].0 == key);
            }
        }
    }
}

/// The attributes of the tag opened by a segment (its text up to the first
/// `>`), or `None` when the segment holds no `>`.
pub open spec fn segment_tag_attributes(segment: Seq<char>) -> Option<Seq<(Seq<char>, Seq<char>)>> {
    let te = find_char(segment, '>');
    if te >= segment.len() {
        None
    } else {
        Some(attribute_pairs(segment.take(te as int)))
    }
}

/// Whether the text after `<ColorSpace` continues that very element name:
/// the next character is whitespace, `/` or `>` (so `<ColorSpaceTransform`
/// and `<ColorSpaces` do not open a color space).
pub open spec fn ends_element_name(segment: Seq<char>) -> bool {
    segment.len() > 0 && (is_ws(segment[0]) || segment[0] == '/' || segment[0] == '>')
}

/// The entry a `<ColorSpace` segment declares: `(name, family)` when the
/// segment opens a `<ColorSpace>` tag that has a `name`.
pub open spec fn color_space_entry(segment: Seq<char>) -> Option<(Seq<char>, Option<Seq<char>>)> {
    if !ends_element_name(segment) {
        None
    } else {
        match segment_tag_attributes(segment) {
            None => None,
            Some(attrs) => match lookup_value(attrs, "name"@) {
                None => None,
                Some(name) => Some((name, lookup_value(attrs, "family"@))),
            },
        }
    }
}

/// The entries of `segments`, in order, for which `entry` gives one.
pub open spec fn kept_entries<T>(segments: Seq<Seq<char>>, entry: spec_fn(Seq<char>) -> Option<T>) -> Seq<T>
    decreases segments.len(),
{
    if segments.len() == 0 {
        Seq::empty()
    } else {
        let rest = kept_entries(segments.drop_first(), entry);
        match entry(segments[0]) {
            Some(e) => seq![e] + rest,
            None => rest,
        }
    }
}

/// The positions in `segments`, in order, of those for which `entry`
/// gives an entry.
pub open spec fn kept_positions<T>(segments: Seq<Seq<char>>, entry: spec_fn(Seq<char>) -> Option<T>) -> Seq<int>
    decreases segments.len(),
{
    if segments.len() == 0 {
        Seq::empty()
    } else {
        let rest = kept_positions(segments.drop_first(), entry).map_values(|p: int| p + 1);
        match entry(segments[0]) {
            Some(_) => seq![0int] + rest,
            None => rest,
        }
    }
}

/// The kept entries are exactly those of the segments that give one, in
/// their order: `kept_positions` lists those segments, strictly
/// increasing, and each kept entry is its segment's entry.
pub proof fn lemma_kept_entries<T>(segments: Seq<Seq<char>>, entry: spec_fn(Seq<char>) -> Option<T>)
    ensures
        ({
            let out = kept_entries(segments, entry);
            let pos = kept_positions(segments, entry);
            &&& pos.len() == out.len()
            &&& out.len() <= segments.len()
            &&& forall|k: int| 0 <= k < pos.len() ==> 0 <= #[trigger] pos[k] < segments.len()
            &&& forall|k1: int, k2: int| 0 <= k1 < k2 < pos.len() ==> pos[k1] < pos[k2]
            &&& forall|k: int| 0 <= k < pos.len() ==> entry(segments[#[trigger] pos[k]]) == Some(out[k])
            &&& forall|j: int| 0 <= j < segments.len() && (#[trigger] entry(segments[j])) is Some ==> exists|k: int| 0 <= k < pos.len() && pos[k] == j
        }),
    decreases segments.len(),
{
    if segments.len() > 0 {
        let tail = segments.drop_first();
        lemma_kept_entries(tail, entry);
        let out = kept_entries(segments, entry);
        let pos = kept_positions(segments, entry);
        let out_t = kept_entries(tail, entry);
        let pos_t = kept_positions(tail, entry);
        let shifted = pos_t.map_values(|p: int| p + 1);
        assert forall|k: int| 0 <= k < shifted.len() implies #[trigger] shifted[k] == pos_t[k] + 1 && entry(segments[shifted[k]]) == Some(out_t[k]) by {
            assert(segments[pos_t[k] + 1] == tail[pos_t[k]]);
        }
        match entry(segments[0]) {
            Some(e) => {
                assert(pos =~= seq![0int] + shifted);
                assert(out =~= seq![e] + out_t);
                assert forall|k: int| 0 <= k < pos.len() implies entry(segments[#[trigger] pos[k]]) == Some(out[k]) by {
                    if k > 0 {
                        assert(pos[k] == shifted[k - 1]);
                        assert(out[k] == out_t[k - 1]);
                    }
                }
                assert forall|k1: int, k2: int| 0 <= k1 < k2 < pos.len() implies pos[k1] < pos[k2] by {
                    assert(pos[k2] == shifted[k2 - 1]);
                    if k1 > 0 {
                        assert(pos[k1] == shifted[k1 - 1]);
                    }
                }
                assert forall|k: int| 0 <= k < pos.len() implies 0 <= #[trigger] pos[k] < segments.len() by {
                    if k > 0 {
                        assert(pos[k] == shifted[k - 1]);
                    }
                }
                assert forall|j: int| 0 <= j < segments.len() && (#[trigger] entry(segments[j])) is Some implies exists|k: int| 0 <= k < pos.len() && pos[k] == j by {
                    if j == 0 {
                        assert(pos[0] == 0);
                    } else {
                        assert(tail[j - 1] == segments[j]);
                        assert(entry(tail[j - 1]) is Some);
                        let k0 = choose|k: int| 0 <= k < pos_t.len() && pos_t[k] == j - 1;
                        assert(pos[k0 + 1] == shifted[k0]);
                    }
                }
            },
            None => {
                assert(pos =~= shifted);
                assert(out =~= out_t);
                assert forall|j: int| 0 <= j < segments.len() && (#[trigger] entry(segments[j])) is Some implies exists|k: int| 0 <= k < pos.len() && pos[k] == j by {
                    assert(j != 0);
                    assert(tail[j - 1] == segments[j]);
                    assert(entry(tail[j - 1]) is Some);
                    let k0 = choose|k: int| 0 <= k < pos_t.len() && pos_t[k] == j - 1;
                    assert(pos[k0] == shifted[k0]);
                }
                assert forall|k: int| 0 <= k < pos.len() implies entry(segments[#[trigger] pos[k]]) == Some(out[k]) by {
                    assert(pos[k] == shifted[k]);
                }
                assert forall|k1: int, k2: int| 0 <= k1 < k2 < pos.len() implies pos[k1] < pos[k2] by {
                    assert(pos[k1] == shifted[k1]);
                    assert(pos[k2] == shifted[k2]);
                }
            },
        }
    }
}

/// The color space entries declared by `segments`, each the text after one
/// `<ColorSpace`: `(name, family)` for every `<ColorSpace>` tag with a
/// `name`.
pub open spec fn color_space_entries(segments: Seq<Seq<char>>) -> Seq<(Seq<char>, Option<Seq<char>>)> {
    kept_entries(segments, |segment: Seq<char>| color_space_entry(segment))
}

/// Law: scanning color spaces yields, in document order, exactly one entry
/// per `<ColorSpace>` tag that carries a `name` (see [`color_space_entry`]),
/// so there are at most as many entries as occurrences of `<ColorSpace`.
pub proof fn lemma_color_spaces_one_per_named_tag(config: Seq<char>)
    ensures
        ({
            let segments = split_pieces(config, "<ColorSpace"@).drop_first();
            let out = config_color_spaces(config);
            &&& out.len() <= split_pieces(config, "<ColorSpace"@).len() - 1
            &&& exists|pos: Seq<int>| {
                &&& pos.len() == out.len()
                &&& forall|k1: int, k2: int| 0 <= k1 < k2 < pos.len() ==> pos[k1] < pos[k2]
                &&& forall|k: int| 0 <= k < pos.len() ==> 0 <= #[trigger] pos[k] < segments.len()
                    && color_space_entry(segments[pos[k]]) == Some(out[k])
                &&& forall|j: int| 0 <= j < segments.len() && (#[trigger] color_space_entry(segments[j])) is Some
                    ==> exists|k: int| 0 <= k < pos.len() && pos[k] == j
            }
        }),
{
    let segments = split_pieces(config, "<ColorSpace"@).drop_first();
    let entry = |segment: Seq<char>| color_space_entry(segment);
    lemma_kept_entries(segments, entry);
    let out = config_color_spaces(config);
    assert(out == kept_entries(segments, entry));
    let pos = kept_positions(segments, entry);
    assert forall|j: int| 0 <= j < segments.len() && (#[trigger] color_space_entry(segments[j])) is Some
        implies exists|k: int| 0 <= k < pos.len() && pos[k] == j by {
        assert(entry(segments[j]) is Some);
    }
    assert forall|k: int| 0 <= k < pos.len() implies 0 <= #[trigger] pos[k] < segments.len()
        && color_space_entry(segments[pos[k]]) == Some(out[k]) by {
        assert(entry(segments[pos[k]]) == Some(out[k]));
    }
}

/// The color spaces a config declares.
pub open spec fn config_color_spaces(config: Seq<char>) -> Seq<(Seq<char>, Option<Seq<char>>)> {
    color_space_entries(split_pieces(config, "<ColorSpace"@).drop_first())
}

/// The role a `<Role` segment declares: `(name, colorspace)` when its tag
/// has both attributes.
pub open spec fn role_entry(segment: Seq<char>) -> Option<(Seq<char>, Seq<char>)> {
    match segment_tag_attributes(segment) {
        None => None,
        Some(attrs) => match (lookup_value(attrs, "name"@), lookup_value(attrs, "colorspace"@)) {
            (Some(name), Some(space)) => Some((name, space)),
            _ => None,
        },
    }
}

/// The role entries declared by `segments`, each the text after one
/// `<Role`: `(name, colorspace)` for every tag with both attributes.
pub open spec fn role_entries(segments: Seq<Seq<char>>) -> Seq<(Seq<char>, Seq<char>)> {
    kept_entries(segments, |segment: Seq<char>| role_entry(segment))
}

/// Law: scanning roles yields, in document order, exactly one role per
/// `<Role` tag that carries both a `name` and a `colorspace` (see
/// [`role_entry`]); tags missing either are dropped.
pub proof fn lemma_roles_one_per_complete_tag(config: Seq<char>)
    ensures
        ({
            let segments = split_pieces(config, "<Role"@).drop_first();
            let out = config_roles(config);
            &&& out.len() <= split_pieces(config, "<Role"@).len() - 1
            &&& exists|pos: Seq<int>| {
                &&& pos.len() == out.len()
                &&& forall|k1: int, k2: int| 0 <= k1 < k2 < pos.len() ==> pos[k1] < pos[k2]
                &&& forall|k: int| 0 <= k < pos.len() ==> 0 <= #[trigger] pos[k] < segments.len()
                    && role_entry(segments[pos[k]]) == Some(out[k])
                &&& forall|j: int| 0 <= j < segments.len() && (#[trigger] role_entry(segments[j])) is Some
                    ==> exists|k: int| 0 <= k < pos.len() && pos[k] == j
            }
        }),
{
    let segments = split_pieces(config, "<Role"@).drop_first();
    let entry = |segment: Seq<char>| role_entry(segment);
    lemma_kept_entries(segments, entry);
    let out = config_roles(config);
    assert(out == kept_entries(segments, entry));
    let pos = kept_positions(segments, entry);
    assert forall|j: int| 0 <= j < segments.len() && (#[trigger] role_entry(segments[j])) is Some
        implies exists|k: int| 0 <= k < pos.len() && pos[k] == j by {
        assert(entry(segments[j]) is Some);
    }
    assert forall|k: int| 0 <= k < pos.len() implies 0 <= #[trigger] pos[k] < segments.len()
        && role_entry(segments[pos[k]]) == Some(out[k]) by {
        assert(entry(segments[pos[k]]) == Some(out[k]));
    }
}

/// The roles a config declares.
pub open spec fn config_roles(config: Seq<char>) -> Seq<(Seq<char>, Seq<char>)> {
    role_entries(split_pieces(config, "<Role"@).drop_first())
}

/// The view of an optional string.
pub open spec fn opt_view(o: Option<String>) -> Option<Seq<char>> {
    match o {
        Some(s) => Some(s@),
        None => None,
    }
}

/// The view of scanned color spaces.
pub open spec fn color_spaces_view(v: Seq<OcioColorSpace>) -> Seq<(Seq<char>, Option<Seq<char>>)> {
    Seq::new(v.len(), |i: int| (v[i].name@, opt_view(v[i].family)))
}

/// The view of scanned roles.
pub open spec fn roles_view(v: Seq<OcioRole>) -> Seq<(Seq<char>, Seq<char>)> {
    Seq::new(v.len(), |i: int| (v[i].name@, v[i].color_space@))
}

/// The value of the first attribute named `key`.
fn find_attribute(attrs: &Vec<(String, String)>, key: &str) -> (v: Option<String>)
    ensures
        opt_view(v) == lookup_value(pairs_view(attrs@), key@),
{
    let key_s = key.to_owned();
    let mut i: usize = 0;
    assert(pairs_view(attrs@).skip(0) =~= pairs_view(attrs@));
    while i < attrs.len()
        invariant
            i <= attrs@.len(),
            key_s@ == key@,
            lookup_value(pairs_view(attrs@), key@) == lookup_value(pairs_view(attrs@).skip(i as int), key@),
        decreases attrs@.len() - i,
    {
        let ghost rest = pairs_view(attrs@).skip(i as int);
        assert(rest[0] == (attrs@[i as int].0@, attrs@[i as int].1@));
        if attrs[i].0 == key_s {
            return Some(attrs[i].1.clone());
        }
        assert(rest.drop_first() =~= pairs_view(attrs@).skip(i + 1));
        i += 1;
    }
    assert(pairs_view(attrs@).skip(i as int) =~= Seq::<(Seq<char>, Seq<char>)>::empty());
    None
}

/// The attributes of the tag opened by segment `chars[a..b]`.
fn segment_attributes(chars: &Vec<char>, a: usize, b: usize) -> (r: Option<Vec<(String, String)>>)
    requires
        a <= b <= chars@.len(),
    ensures
        match segment_tag_attributes(chars@.subrange(a as int, b as int)) {
            None => r is None,
            Some(attrs) => r matches Some(v) && pairs_view(v@) == attrs,
        },
{
    let ghost seg = chars@.subrange(a as int, b as int);
    let te = find_char_range(chars, a, b, '>');
    if te == b {
        return None;
    }
    assert(seg.take((te - a) as int) =~= chars@.subrange(a as int, te as int));
    Some(attributes_in(chars, a, te))
}

/// Scans an OCIO config for its declared color spaces.
///
/// Best-effort: only compact `<ColorSpace ...>` tags with `name` attributes
/// are recognized; elements whose name merely begins with `ColorSpace`
/// (such as `<ColorSpaceTransform>`) are not color spaces.
pub fn scan_config_colorspaces(config: &str) -> (out: Vec<OcioColorSpace>)
    ensures
        color_spaces_view(out@) == config_color_spaces(config@),
{
    let chars = chars_of(config);
    let pat = chars_of("<ColorSpace");
    proof {
        reveal_strlit("<ColorSpace");
    }
    let segs = pieces_after_first(&chars, &pat);
    let ghost all = split_pieces(chars@, pat@).drop_first();
    let mut out: Vec<OcioColorSpace> = Vec::new();
    let mut i: usize = 0;
    assert(all.skip(0) =~= all);
    assert(color_spaces_view(out@) + color_space_entries(all) =~= color_space_entries(all));
    while i < segs.len()
        invariant
            segs@.len() == all.len(),
            forall|k: int| 0 <= k < segs@.len() ==> (#[trigger] segs@[k]).0 <= segs@[k].1 <= chars@.len(),
            forall|k: int| 0 <= k < segs@.len() ==> chars@.subrange((#[trigger] segs@[k]).0 as int, segs@[k].1 as int) == all[k],
            i <= segs@.len(),
            color_space_entries(all) == color_spaces_view(out@) + color_space_entries(all.skip(i as int)),
        decreases segs@.len() - i,
    {
        let ghost rest = all.skip(i as int);
        assert(rest.drop_first() =~= all.skip(i + 1));
        assert(rest[0] == all[i as int]);
        let ghost before = color_spaces_view(out@);
        let (a, b) = segs[i];
        let opens = a < b && (is_whitespace(chars[a]) || chars[a] == '/' || chars[a] == '>');
        proof {
            if a < b {
                assert(all[i as int][0] == chars@[a as int]);
            }
        }
        let attributes = if opens { segment_attributes(&chars, a, b) } else { None };
        match attributes {
            None => {},
            Some(attrs) => {
                match find_attribute(&attrs, "name") {
                    None => {},
                    Some(name) => {
                        let family = find_attribute(&attrs, "family");
                        out.push(OcioColorSpace { name, family });
                        assert(color_spaces_view(out@) =~= before.push(color_spaces_view(out@).last()));
                        assert(color_spaces_view(out@) + color_space_entries(all.skip(i + 1)) =~= before + color_space_entries(rest));
                    },
                }
            },
        }
        i += 1;
    }
    assert(all.skip(i as int) =~= Seq::<Seq<char>>::empty());
    assert(color_spaces_view(out@) + Seq::<(Seq<char>, Option<Seq<char>>)>::empty() =~= color_spaces_view(out@));
    out
}

/// Scans an OCIO config for its role mappings (`<Role>` tags with both a
/// `name` and a `colorspace`).
pub fn scan_config_roles(config: &str) -> (out: Vec<OcioRole>)
    ensures
        roles_view(out@) == config_roles(config@),
{
    let chars = chars_of(config);
    let pat = chars_of("<Role");
    proof {
        reveal_strlit("<Role");
    }
    let segs = pieces_after_first(&chars, &pat);
    let ghost all = split_pieces(chars@, pat@).drop_first();
    let mut out: Vec<OcioRole> = Vec::new();
    let mut i: usize = 0;
    assert(all.skip(0) =~= all);
    assert(roles_view(out@) + role_entries(all) =~= role_entries(all));
    while i < segs.len()
        invariant
            segs@.len() == all.len(),
            forall|k: int| 0 <= k < segs@.len() ==> (#[trigger] segs@[k]).0 <= segs@[k].1 <= chars@.len(),
            forall|k: int| 0 <= k < segs@.len() ==> chars@.subrange((#[trigger] segs@[k]).0 as int, segs@[k].1 as int) == all[k],
            i <= segs@.len(),
            role_entries(all) == roles_view(out@) + role_entries(all.skip(i as int)),
        decreases segs@.len() - i,
    {
        let ghost rest = all.skip(i as int);
        assert(rest.drop_first() =~= all.skip(i + 1));
        assert(rest[0] == all[i as int]);
        let ghost before = roles_view(out@);
        let (a, b) = segs[i];
        match segment_attributes(&chars, a, b) {
            None => {},
            Some(attrs) => {
                let name = find_attribute(&attrs, "name");
                let space = find_attribute(&attrs, "colorspace");
                match (name, space) {
                    (Some(name), Some(color_space)) => {
                        out.push(OcioRole { name, color_space });
                        assert(roles_view(out@) =~= before.push(roles_view(out@).last()));
                        assert(roles_view(out@) + role_entries(all.skip(i + 1)) =~= before + role_entries(rest));
                    },
                    _ => {},
                }
            },
        }
        i += 1;
    }
    assert(all.skip(i as int) =~= Seq::<Seq<char>>::empty());
    assert(roles_view(out@) + Seq::<(Seq<char>, Seq<char>)>::empty() =~= roles_view(out@));
    out
}

} // verus!
