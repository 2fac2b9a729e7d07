//! Download links and playable qualities read from a file detail, and `.part` paths.

use vstd::prelude::*;

use crate::error::Error;
use crate::json::{nonempty_str, nonempty_str_member, Json};
use crate::text::{
    chars_of, contains, contains_chars, dec, occurs_at, parse_i64, parse_i64_chars, push_dec, push_str,
    string_from_chars, trim, trim_chars,
};

verus! {

/// Download information resolved from a file detail.
#[derive(Debug)]
pub struct DownloadLink {
    pub file_id: String,
    /// Direct link (may expire; resolve again when it does).
    pub url: String,
    /// File name given by the server.
    pub name: String,
    /// File size (0 when unknown).
    pub size: i64,
}

/// One playable quality of a media file (the original included).
#[derive(Debug)]
pub struct MediaVariant {
    /// Display label such as "原画", "1080P" or "720P h264".
    pub label: String,
    /// Time-limited direct link of this quality.
    pub url: String,
    /// Whether this is the original (not transcoded) file.
    pub is_origin: bool,
    /// Video height in pixels; 0 when unknown.
    pub height: i64,
}

/// Plain view of a `MediaVariant`.
pub struct VariantView {
    pub label: Seq<char>,
    pub url: Seq<char>,
    pub is_origin: bool,
    pub height: i64,
}

impl View for MediaVariant {
    type V = VariantView;

    open spec fn view(&self) -> VariantView {
        VariantView { label: self.label@, url: self.url@, is_origin: self.is_origin, height: self.height }
    }
}

/// `value_i64`: an integer given as a JSON number or as a (trimmed) decimal string.
pub open spec fn json_i64(v: Json) -> Option<i64> {
    match v.spec_i64() {
        Some(n) => Some(n),
        None => match v.spec_str() {
            Some(s) => parse_i64(trim(s)),
            None => None,
        },
    }
}

/// Integer accepted as a JSON number or a decimal string (surrounding whitespace allowed).
pub fn value_i64(v: &Json) -> (r: Option<i64>)
    ensures
        r == json_i64(*v),
{
    match v.as_i64() {
        Some(n) => Some(n),
        None => match v.as_str() {
            Some(s) => {
                let cs = chars_of(s.as_str());
                let t = trim_chars(&cs);
                parse_i64_chars(&t)
            },
            None => None,
        },
    }
}

/// Direct link of one `medias[]` item: `url`, else `link` as a string, else `link.url`.
pub open spec fn media_url(m: Json) -> Option<Seq<char>> {
    match nonempty_str(m.spec_get("url"@)) {
        Some(u) => Some(u),
        None => match m.spec_get("link"@) {
            Some(link) => match link {
                Json::Str(s) => if s@.len() > 0 {
                    Some(s@)
                } else {
                    None
                },
                _ => nonempty_str(link.spec_get("url"@)),
            },
            None => None,
        },
    }
}

fn pick_media_url(m: &Json) -> (r: Option<String>)
    ensures
        match r {
            Some(u) => media_url(*m) == Some(u@),
            None => media_url(*m) is None,
        },
{
    if let Some(u) = nonempty_str_member(m, "url") {
        return Some(u.clone());
    }
    match m.get("link") {
        Some(link) => match link {
            Json::Str(s) => if s.as_str().is_empty() {
                None
            } else {
                Some(s.clone())
            },
            _ => match nonempty_str_member(link, "url") {
                Some(u) => Some(u.clone()),
                None => None,
            },
        },
        None => None,
    }
}

/// Video height of a media item (`video.height`), 0 when absent.
pub open spec fn media_height(m: Json) -> i64 {
    match m.spec_get("video"@) {
        Some(v) => match v.spec_get("height"@) {
            Some(h) => match json_i64(h) {
                Some(n) => n,
                None => 0,
            },
            None => 0,
        },
        None => 0,
    }
}

fn height_of(m: &Json) -> (h: i64)
    ensures
        h == media_height(*m),
{
    match m.get("video") {
        Some(v) => match v.get("height") {
            Some(h) => match value_i64(h) {
                Some(n) => n,
                None => 0,
            },
            None => 0,
        },
        None => 0,
    }
}

/// Whether a media item is marked as the original file.
pub open spec fn media_is_origin(m: Json) -> bool {
    match m.spec_get("is_origin"@) {
        Some(v) => v.spec_bool() == Some(true),
        None => false,
    }
}

/// Video codec of a media item, if present and non-empty.
pub open spec fn media_codec(m: Json) -> Option<Seq<char>> {
    match m.spec_get("video"@) {
        Some(v) => nonempty_str(v.spec_get("video_codec"@)),
        None => None,
    }
}

/// Label of a transcoded stream.
pub open spec fn media_label_text(m: Json, is_origin: bool, height: i64) -> Seq<char> {
    if is_origin {
        "原画"@
    } else if height > 0 {
        match media_codec(m) {
            Some(c) => dec(height as nat) + "P "@ + c,
            None => dec(height as nat) + "P"@,
        }
    } else {
        match nonempty_str(m.spec_get("media_name"@)) {
            Some(n) => n,
            None => "转码"@,
        }
    }
}

fn media_label(m: &Json, is_origin: bool, height: i64) -> (r: String)
    ensures
        r@ == media_label_text(*m, is_origin, height),
{
    if is_origin {
        return "原画".to_owned();
    }
    let codec = match m.get("video") {
        Some(v) => nonempty_str_member(v, "video_codec"),
        None => None,
    };
    if height > 0 {
        let mut out: Vec<char> = Vec::new();
        push_dec(&mut out, height as u64);
        match codec {
            Some(c) => {
                push_str(&mut out, "P ");
                push_str(&mut out, c.as_str());
            },
            None => {
                push_str(&mut out, "P");
            },
        }
        crate::text::string_from_chars(&out)
    } else {
        match nonempty_str_member(m, "media_name") {
            Some(n) => n.clone(),
            None => "转码".to_owned(),
        }
    }
}

/// The variant a `medias[]` item yields, or `None` when it is hidden or has no link.
pub open spec fn media_variant(m: Json) -> Option<VariantView> {
    if m.spec_get("is_visible"@) matches Some(v) && v.spec_bool() == Some(false) {
        None
    } else {
        match media_url(m) {
            Some(url) => Some(
                VariantView {
                    label: media_label_text(m, media_is_origin(m), media_height(m)),
                    url,
                    is_origin: media_is_origin(m),
                    height: media_height(m),
                },
            ),
            None => None,
        }
    }
}

/// Variants of the `medias[]` items, in order.
pub open spec fn media_variants(ms: Seq<Json>) -> Seq<VariantView>
    decreases ms.len(),
{
    if ms.len() == 0 {
        Seq::empty()
    } else {
        let rest = media_variants(ms.drop_last());
        match media_variant(ms.last()) {
            Some(v) => rest.push(v),
            None => rest,
        }
    }
}

/// The `medias` array of a detail (empty when absent).
pub open spec fn detail_medias(detail: Json) -> Seq<Json> {
    match detail.spec_get("medias"@) {
        Some(Json::Arr(a)) => a@,
        _ => Seq::empty(),
    }
}

/// All variants before ordering: the media streams, then the top-level
/// `web_content_link` as the original when no stream is the original.
pub open spec fn candidate_variants(detail: Json) -> Seq<VariantView> {
    let vs = media_variants(detail_medias(detail));
    if exists|i: int| 0 <= i < vs.len() && vs[i].is_origin {
        vs
    } else {
        match nonempty_str(detail.spec_get("web_content_link"@)) {
            Some(url) => vs.push(VariantView { label: "原画"@, url, is_origin: true, height: 0 }),
            None => vs,
        }
    }
}

/// Lexicographic order of strings by code point (`String`'s `Ord`).
pub open spec fn text_lt(a: Seq<char>, b: Seq<char>) -> bool
    decreases a.len(),
{
    if a.len() == 0 {
        b.len() > 0
    } else if b.len() == 0 {
        false
    } else if a[0] != b[0] {
        a[0] < b[0]
    } else {
        text_lt(a.drop_first(), b.drop_first())
    }
}

/// Display order: originals first, then greater height first, then label.
pub open spec fn variant_before(a: VariantView, b: VariantView) -> bool {
    ||| (a.is_origin && !b.is_origin)
    ||| (a.is_origin == b.is_origin && a.height > b.height)
    ||| (a.is_origin == b.is_origin && a.height == b.height && text_lt(a.label, b.label))
}

/// Candidate `i` is the one kept for its label: the first in display order,
/// earliest among equals.
pub open spec fn kept_for_label(c: Seq<VariantView>, i: int) -> bool {
    &&& 0 <= i < c.len()
    &&& forall|j: int|
        0 <= j < i && #[trigger] c[j].label == c[i].label ==> variant_before(c[i], c[j])
    &&& forall|j: int|
        i < j < c.len() && #[trigger] c[j].label == c[i].label ==> !variant_before(c[j], c[i])
}

/// `x` is one of the kept candidates.
pub open spec fn is_kept_value(c: Seq<VariantView>, x: VariantView) -> bool {
    exists|i: int| #[trigger] kept_for_label(c, i) && c[i] == x
}

/// `r` lists exactly the kept candidates, in strictly increasing display order.
pub open spec fn ordered_variants(c: Seq<VariantView>, r: Seq<VariantView>) -> bool {
    &&& forall|k: int| 0 <= k < r.len() ==> is_kept_value(c, #[trigger] r[k])
    &&& forall|i: int| #[trigger] kept_for_label(c, i) ==> r.contains(c[i])
    &&& forall|k1: int, k2: int|
        0 <= k1 < k2 < r.len() ==> variant_before(#[trigger] r[k1], #[trigger] r[k2])
}

proof fn lemma_text_lt_irreflexive(a: Seq<char>)
    ensures
        !text_lt(a, a),
    decreases a.len(),
{
    if a.len() > 0 {
        lemma_text_lt_irreflexive(a.drop_first());
    }
}

proof fn lemma_text_lt_trans(a: Seq<char>, b: Seq<char>, c: Seq<char>)
    requires
        text_lt(a, b),
        text_lt(b, c),
    ensures
        text_lt(a, c),
    decreases a.len(),
{
    if a.len() > 0 && b.len() > 0 && c.len() > 0 && a[0] == b[0] && b[0] == c[0] {
        lemma_text_lt_trans(a.drop_first(), b.drop_first(), c.drop_first());
    }
}

proof fn lemma_text_lt_total(a: Seq<char>, b: Seq<char>)
    requires
        a != b,
    ensures
        text_lt(a, b) || text_lt(b, a),
    decreases a.len(),
{
    if a.len() > 0 && b.len() > 0 && a[0] == b[0] {
        if a.drop_first() == b.drop_first() {
            assert(a == seq![a[0]] + a.drop_first());
            assert(b == seq![b[0]] + b.drop_first());
        }
        lemma_text_lt_total(a.drop_first(), b.drop_first());
    } else if a.len() == 0 && b.len() == 0 {
        assert(a == b);
    }
}

proof fn lemma_before_irreflexive(a: VariantView)
    ensures
        !variant_before(a, a),
{
    lemma_text_lt_irreflexive(a.label);
}

proof fn lemma_before_trans(a: VariantView, b: VariantView, c: VariantView)
    requires
        variant_before(a, b),
        variant_before(b, c),
    ensures
        variant_before(a, c),
{
    if a.is_origin == b.is_origin && b.is_origin == c.is_origin && a.height == b.height
        && b.height == c.height {
        lemma_text_lt_trans(a.label, b.label, c.label);
    }
}

proof fn lemma_before_total(a: VariantView, b: VariantView)
    requires
        a.label != b.label,
    ensures
        variant_before(a, b) || variant_before(b, a),
{
    lemma_text_lt_total(a.label, b.label);
}

/// Exec form of `text_lt`.
fn label_lt(a: &String, b: &String) -> (r: bool)
    ensures
        r == text_lt(a@, b@),
{
    let x = chars_of(a.as_str());
    let y = chars_of(b.as_str());
    let mut i: usize = 0;
    proof {
        assert(x@.skip(0) == x@);
        assert(y@.skip(0) == y@);
    }
    while i < x.len() && i < y.len() && x[i] == y[i]
        invariant
            0 <= i <= x@.len(),
            i <= y@.len(),
            forall|j: int| 0 <= j < i ==> x@[j] == y@[j],
            text_lt(x@, y@) == text_lt(x@.skip(i as int), y@.skip(i as int)),
        decreases x@.len() - i,
    {
        proof {
            assert(x@.skip(i as int).drop_first() == x@.skip(i + 1));
            assert(y@.skip(i as int).drop_first() == y@.skip(i + 1));
        }
        i += 1;
    }
    if i == x.len() {
        i < y.len()
    } else if i == y.len() {
        false
    } else {
        x[i] < y[i]
    }
}

fn before(a: &MediaVariant, b: &MediaVariant) -> (r: bool)
    ensures
        r == variant_before(a@, b@),
{
    (a.is_origin && !b.is_origin) || (a.is_origin == b.is_origin && a.height > b.height) || (
    a.is_origin == b.is_origin && a.height == b.height && label_lt(&a.label, &b.label))
}

proof fn lemma_kept_unique_label(c: Seq<VariantView>, t1: int, t2: int)
    requires
        kept_for_label(c, t1),
        kept_for_label(c, t2),
        c[t1].label == c[t2].label,
    ensures
        t1 == t2,
{
    if t1 < t2 {
        assert(variant_before(c[t2], c[t1]));
        assert(!variant_before(c[t2], c[t1]));
    } else if t2 < t1 {
        assert(variant_before(c[t1], c[t2]));
        assert(!variant_before(c[t1], c[t2]));
    }
}

fn copy_variant(v: &MediaVariant) -> (r: MediaVariant)
    ensures
        r@ == v@,
{
    MediaVariant { label: v.label.clone(), url: v.url.clone(), is_origin: v.is_origin, height: v.height }
}

/// Views of a list of variants.
pub open spec fn views(r: Seq<MediaVariant>) -> Seq<VariantView> {
    r.map_values(|x: MediaVariant| x@)
}

/// Strictly increasing display order.
pub open spec fn strictly_ordered(rv: Seq<VariantView>) -> bool {
    forall|k1: int, k2: int|
        0 <= k1 < k2 < rv.len() ==> variant_before(#[trigger] rv[k1], #[trigger] rv[k2])
}

/// Whether candidate `i` is the one kept for its label.
fn is_kept(c: &Vec<MediaVariant>, i: usize) -> (b: bool)
    requires
        i < c@.len(),
    ensures
        b == kept_for_label(views(c@), i as int),
{
    let ghost cv = views(c@);
    let mut j: usize = 0;
    while j < c.len()
        invariant
            0 <= j <= c@.len(),
            i < c@.len(),
            cv == views(c@),
            forall|t: int|
                0 <= t < j && t < i && #[trigger] cv[t].label == cv[i as int].label ==> variant_before(
                    cv[i as int],
                    cv[t],
                ),
            forall|t: int|
                0 <= t < j && i < t && #[trigger] cv[t].label == cv[i as int].label
                    ==> !variant_before(cv[t], cv[i as int]),
        decreases c@.len() - j,
    {
        if c[j].label == c[i].label {
            proof {
                assert(cv[j as int] == c@[j as int]@);
                assert(cv[i as int] == c@[i as int]@);
            }
            if j < i && !before(&c[i], &c[j]) {
                assert(cv[j as int].label == cv[i as int].label && !variant_before(
                    cv[i as int],
                    cv[j as int],
                ));
                return false;
            }
            if i < j && before(&c[j], &c[i]) {
                assert(cv[j as int].label == cv[i as int].label && variant_before(
                    cv[j as int],
                    cv[i as int],
                ));
                return false;
            }
        } else {
            proof {
                assert(cv[j as int] == c@[j as int]@);
                assert(cv[i as int] == c@[i as int]@);
            }
        }
        j += 1;
    }
    true
}

/// Inserts `v` at its place in a strictly ordered list whose labels differ from `v`'s.
fn insert_ordered(r: &mut Vec<MediaVariant>, v: MediaVariant)
    requires
        strictly_ordered(views(old(r)@)),
        forall|k: int| 0 <= k < old(r)@.len() ==> (#[trigger] views(old(r)@)[k]).label != v@.label,
    ensures
        strictly_ordered(views(final(r)@)),
        forall|x: VariantView|
            views(final(r)@).contains(x) <==> (views(old(r)@).contains(x) || x == v@),
{
    let ghost ov = views(r@);
    let mut p: usize = 0;
    while p < r.len() && !before(&v, &r[p])
        invariant
            0 <= p <= r@.len(),
            ov == views(r@),
            forall|k: int| 0 <= k < p ==> !variant_before(v@, #[trigger] ov[k]),
        decreases r@.len() - p,
    {
        assert(ov[p as int] == r@[p as int]@);
        p += 1;
    }
    proof {
        assert forall|k: int| 0 <= k < p implies variant_before(#[trigger] ov[k], v@) by {
            lemma_before_total(ov[k], v@);
        }
        if p < r@.len() {
            assert(ov[p as int] == r@[p as int]@);
        }
        assert forall|k: int| p <= k < ov.len() implies variant_before(v@, #[trigger] ov[k]) by {
            if k > p {
                lemma_before_trans(v@, ov[p as int], ov[k]);
            }
        }
    }
    let ghost vv = v@;
    r.insert(p, v);
    proof {
        let nv = views(r@);
        assert(nv == ov.insert(p as int, vv));
        assert forall|k1: int, k2: int| 0 <= k1 < k2 < nv.len() implies variant_before(
            #[trigger] nv[k1],
            #[trigger] nv[k2],
        ) by {
            if k2 < p {
            } else if k2 == p {
            } else if k1 < p {
                lemma_before_trans(ov[k1], vv, ov[k2 - 1]);
            } else if k1 == p {
            } else {
            }
        }
        assert forall|x: VariantView| nv.contains(x) <==> (ov.contains(x) || x == vv) by {
            if nv.contains(x) {
                let k = choose|k: int| 0 <= k < nv.len() && nv[k] == x;
                if k < p {
                    assert(ov[k] == x);
                } else if k > p {
                    assert(ov[k - 1] == x);
                }
            }
            if ov.contains(x) {
                let k = choose|k: int| 0 <= k < ov.len() && ov[k] == x;
                if k < p {
                    assert(nv[k] == x);
                } else {
                    assert(nv[k + 1] == x);
                }
            }
            if x == vv {
                assert(nv[p as int] == x);
            }
        }
    }
}

proof fn lemma_ordered_from_members(c: Seq<VariantView>, rv: Seq<VariantView>)
    requires
        strictly_ordered(rv),
        forall|x: VariantView|
            rv.contains(x) <==> exists|t: int|
                0 <= t < c.len() && #[trigger] kept_for_label(c, t) && c[t] == x,
    ensures
        ordered_variants(c, rv),
{
    assert forall|k: int| 0 <= k < rv.len() implies is_kept_value(c, #[trigger] rv[k]) by {
        assert(rv.contains(rv[k]));
    }
}

/// Keeps one candidate per label and orders them for display.
fn order_candidates(cands: &Vec<MediaVariant>) -> (r: Vec<MediaVariant>)
    ensures
        ordered_variants(views(cands@), views(r@)),
{
    let ghost c = views(cands@);
    let mut r: Vec<MediaVariant> = Vec::new();
    let mut i: usize = 0;
    while i < cands.len()
        invariant
            0 <= i <= cands@.len(),
            c == views(cands@),
            strictly_ordered(views(r@)),
            forall|x: VariantView|
                views(r@).contains(x) <==> exists|t: int|
                    0 <= t < i && #[trigger] kept_for_label(c, t) && c[t] == x,
        decreases cands@.len() - i,
    {
        if is_kept(cands, i) {
            let v = copy_variant(&cands[i]);
            proof {
                assert(v@ == c[i as int]);
                assert forall|k: int| 0 <= k < r@.len() implies (#[trigger] views(r@)[k]).label != v@.label by {
                    let x = views(r@)[k];
                    assert(views(r@).contains(x));
                    let t = choose|t: int| 0 <= t < i && #[trigger] kept_for_label(c, t) && c[t] == x;
                    if x.label == v@.label {
                        lemma_kept_unique_label(c, t, i as int);
                    }
                }
            }
            let ghost before_r = views(r@);
            insert_ordered(&mut r, v);
            proof {
                assert forall|x: VariantView|
                    views(r@).contains(x) <==> exists|t: int|
                        0 <= t < i + 1 && #[trigger] kept_for_label(c, t) && c[t] == x by {
                    if x == c[i as int] {
                        assert(kept_for_label(c, i as int));
                    }
                    if exists|t: int| 0 <= t < i + 1 && #[trigger] kept_for_label(c, t) && c[t] == x {
                        let t = choose|t: int| 0 <= t < i + 1 && #[trigger] kept_for_label(c, t) && c[t] == x;
                        if t < i {
                            assert(before_r.contains(x));
                        }
                    }
                }
            }
        } else {
            proof {
                assert forall|x: VariantView|
                    views(r@).contains(x) <==> exists|t: int|
                        0 <= t < i + 1 && #[trigger] kept_for_label(c, t) && c[t] == x by {
                    if exists|t: int| 0 <= t < i + 1 && #[trigger] kept_for_label(c, t) && c[t] == x {
                        let t = choose|t: int| 0 <= t < i + 1 && #[trigger] kept_for_label(c, t) && c[t] == x;
                        assert(t != i);
                    }
                }
            }
        }
        i += 1;
    }
    proof {
        lemma_ordered_from_members(c, views(r@));
    }
    r
}

/// Variants of the `medias[]` items, in order, and whether one is the original.
fn collect_media_variants(medias: &Vec<Json>) -> (r: (Vec<MediaVariant>, bool))
    ensures
        r.0@.map_values(|x: MediaVariant| x@) == media_variants(medias@),
        r.1 == exists|k: int| 0 <= k < r.0@.len() && (#[trigger] r.0@[k]).is_origin,
{
    let mut out: Vec<MediaVariant> = Vec::new();
    let mut origin = false;
    let mut i: usize = 0;
    while i < medias.len()
        invariant
            0 <= i <= medias@.len(),
            out@.map_values(|x: MediaVariant| x@) == media_variants(medias@.take(i as int)),
            origin == exists|k: int| 0 <= k < out@.len() && (#[trigger] out@[k]).is_origin,
        decreases medias@.len() - i,
    {
        let m = &medias[i];
        proof {
            assert(medias@.take(i + 1).drop_last() == medias@.take(i as int));
            assert(medias@.take(i + 1).last() == *m);
        }
        let hidden = match m.get("is_visible") {
            Some(v) => v.as_bool() == Some(false),
            None => false,
        };
        if !hidden {
            if let Some(url) = pick_media_url(m) {
                let is_origin = match m.get("is_origin") {
                    Some(v) => v.as_bool() == Some(true),
                    None => false,
                };
                let height = height_of(m);
                let label = media_label(m, is_origin, height);
                let ghost before_push = out@;
                out.push(MediaVariant { label, url, is_origin, height });
                proof {
                    assert(out@.map_values(|x: MediaVariant| x@) == before_push.map_values(
                        |x: MediaVariant| x@,
                    ).push(out@.last()@));
                    if is_origin {
                        assert(out@[out@.len() - 1].is_origin);
                    }
                    if origin {
                        let k = choose|k: int| 0 <= k < before_push.len() && (#[trigger] before_push[k]).is_origin;
                        assert(out@[k] == before_push[k]);
                    }
                    if !origin && !is_origin {
                        assert forall|k: int| 0 <= k < out@.len() implies !(#[trigger] out@[k]).is_origin by {
                            if k < before_push.len() {
                                assert(out@[k] == before_push[k]);
                            }
                        }
                    }
                }
                if is_origin {
                    origin = true;
                }
            }
        }
        i += 1;
    }
    assert(medias@.take(medias@.len() as int) == medias@);
    (out, origin)
}

impl MediaVariant {
    /// All playable qualities of a file detail: originals first, then by
    /// height (highest first), then by label; one entry per label. The top-level
    /// `web_content_link` stands for the original when no stream is one.
    /// Empty when there is no usable link.
    pub fn from_detail(detail: &Json) -> (r: Vec<MediaVariant>)
        ensures
            ordered_variants(candidate_variants(*detail), views(r@)),
            forall|a: int, b: int| 0 <= a < b < r@.len() ==> variant_before(r@[a]@, r@[b]@),
            forall|a: int, b: int| 0 <= a < b < r@.len() ==> r@[a]@.label != r@[b]@.label,
            forall|k: int| 0 <= k < r@.len() ==> candidate_variants(*detail).contains(#[trigger] views(r@)[k]),
            !(exists|i: int|
                0 <= i < media_variants(detail_medias(*detail)).len() && media_variants(
                    detail_medias(*detail),
                )[i].is_origin) ==> match nonempty_str(detail.spec_get("web_content_link"@)) {
                Some(w) => views(r@).contains(VariantView { label: "原画"@, url: w, is_origin: true, height: 0 }),
                None => true,
            },
            candidate_variants(*detail).len() == 0 <==> r@.len() == 0,
    {
        let empty: Vec<Json> = Vec::new();
        let medias: &Vec<Json> = match detail.get("medias") {
            Some(Json::Arr(a)) => a,
            _ => &empty,
        };
        let (mut cands, origin) = collect_media_variants(medias);
        proof {
            assert(medias@ == detail_medias(*detail));
        }
        let ghost vs = cands@.map_values(|x: MediaVariant| x@);
        proof {
            assert((exists|i: int| 0 <= i < vs.len() && vs[i].is_origin) == origin) by {
                if origin {
                    let k = choose|k: int| 0 <= k < cands@.len() && (#[trigger] cands@[k]).is_origin;
                    assert(vs[k].is_origin);
                }
                if exists|i: int| 0 <= i < vs.len() && vs[i].is_origin {
                    let k = choose|i: int| 0 <= i < vs.len() && vs[i].is_origin;
                    assert(cands@[k].is_origin);
                }
            }
        }
        if !origin {
            if let Some(url) = nonempty_str_member(detail, "web_content_link") {
                cands.push(
                    MediaVariant { label: "原画".to_owned(), url: url.clone(), is_origin: true, height: 0 },
                );
                proof {
                    assert(cands@.map_values(|x: MediaVariant| x@) == vs.push(cands@.last()@));
                }
            }
        }
        assert(views(cands@) == candidate_variants(*detail));
        let r = order_candidates(&cands);
        proof {
            lemma_quality_list(*detail, views(r@));
            assert forall|a: int, b: int| 0 <= a < b < r@.len() implies variant_before(r@[a]@, r@[b]@) by {
                assert(views(r@)[a] == r@[a]@);
                assert(views(r@)[b] == r@[b]@);
            }
            assert forall|a: int, b: int| 0 <= a < b < r@.len() implies r@[a]@.label != r@[b]@.label by {
                assert(views(r@)[a] == r@[a]@);
                assert(views(r@)[b] == r@[b]@);
            }
        }
        r
    }
}

/// Every variant of the `medias[]` items comes from a visible item with a link.
pub proof fn lemma_media_variants_visible(ms: Seq<Json>)
    ensures
        forall|k: int|
            0 <= k < media_variants(ms).len() ==> exists|i: int|
                0 <= i < ms.len() && media_variant(#[trigger] ms[i]) == Some(#[trigger] media_variants(ms)[k]),
    decreases ms.len(),
{
    if ms.len() > 0 {
        let p = ms.drop_last();
        lemma_media_variants_visible(p);
        let rest = media_variants(p);
        assert forall|k: int| 0 <= k < media_variants(ms).len() implies exists|i: int|
            0 <= i < ms.len() && media_variant(#[trigger] ms[i]) == Some(#[trigger] media_variants(ms)[k]) by {
            if k < rest.len() {
                let i = choose|i: int| 0 <= i < p.len() && media_variant(#[trigger] p[i]) == Some(rest[k]);
                assert(ms[i] == p[i]);
            } else {
                assert(media_variant(ms[ms.len() - 1]) == Some(media_variants(ms)[k]));
            }
        }
    }
}

/// Display order is a strict weak order: whatever `c` is, it falls after `a`
/// or before `b` when `a` comes before `b`.
proof fn lemma_before_split(a: VariantView, b: VariantView, c: VariantView)
    requires
        variant_before(a, b),
    ensures
        variant_before(a, c) || variant_before(c, b),
{
    if !variant_before(a, c) && !variant_before(c, b) {
        if a.is_origin == c.is_origin && a.height == c.height && c.is_origin == b.is_origin && c.height == b.height {
            if a.label != c.label {
                lemma_text_lt_total(a.label, c.label);
            }
            if c.label != b.label {
                lemma_text_lt_total(c.label, b.label);
            }
            if a.label == c.label {
                assert(text_lt(c.label, b.label));
            } else {
                lemma_text_lt_trans(c.label, a.label, b.label);
            }
        }
    }
}

/// Whether `b` is the kept one among the first `n` candidates labelled `l`.
pub open spec fn kept_in_prefix(c: Seq<VariantView>, n: int, b: int) -> bool {
    &&& 0 <= b < n <= c.len()
    &&& forall|j: int| 0 <= j < b && #[trigger] c[j].label == c[b].label ==> variant_before(c[b], c[j])
    &&& forall|j: int| b < j < n && #[trigger] c[j].label == c[b].label ==> !variant_before(c[j], c[b])
}

proof fn lemma_kept_exists(c: Seq<VariantView>, n: int, i: int) -> (b: int)
    requires
        0 <= i < n <= c.len(),
    ensures
        kept_in_prefix(c, n, b),
        c[b].label == c[i].label,
    decreases n,
{
    if n == i + 1 {
        let prior = exists|j: int| 0 <= j < i && c[j].label == c[i].label;
        if prior {
            let j0 = choose|j: int| 0 <= j < i && c[j].label == c[i].label;
            let b0 = lemma_kept_exists(c, i, j0);
            extend_kept(c, i, b0)
        } else {
            assert forall|j: int| 0 <= j < i && #[trigger] c[j].label == c[i].label implies variant_before(c[i], c[j]) by {}
            i
        }
    } else {
        let b0 = lemma_kept_exists(c, n - 1, i);
        if c[n - 1].label == c[b0].label {
            extend_kept(c, n - 1, b0)
        } else {
            assert forall|j: int| b0 < j < n && #[trigger] c[j].label == c[b0].label implies !variant_before(c[j], c[b0]) by {
                if j < n - 1 {
                }
            }
            b0
        }
    }
}

/// Adding candidate `n` (labelled like the kept one `b0`) to the prefix.
proof fn extend_kept(c: Seq<VariantView>, n: int, b0: int) -> (b: int)
    requires
        kept_in_prefix(c, n, b0),
        n < c.len(),
    ensures
        kept_in_prefix(c, n + 1, b),
        c[n].label == c[b0].label ==> c[b].label == c[b0].label,
        c[n].label != c[b0].label ==> b == b0,
{
    let x = c[n];
    if x.label != c[b0].label {
        b0
    } else if variant_before(x, c[b0]) {
        assert forall|j: int| 0 <= j < n && #[trigger] c[j].label == c[n].label implies variant_before(c[n], c[j]) by {
            if j < b0 {
                lemma_before_trans(x, c[b0], c[j]);
            } else if j > b0 {
                lemma_before_split(x, c[b0], c[j]);
            }
        }
        n
    } else {
        b0
    }
}

/// The quality list of a detail: in strict display order (originals, then
/// greater height, then label), one entry per label, each a candidate (a
/// visible media item's stream, or the top-level link standing for the
/// original); the top-level link is listed as "原画" when no stream is the
/// original; and nothing is listed when there is no candidate.
pub proof fn lemma_quality_list(detail: Json, r: Seq<VariantView>)
    requires
        ordered_variants(candidate_variants(detail), r),
    ensures
        forall|a: int, b: int| 0 <= a < b < r.len() ==> variant_before(r[a], r[b]),
        forall|a: int, b: int| 0 <= a < b < r.len() ==> r[a].label != r[b].label,
        forall|k: int| 0 <= k < r.len() ==> candidate_variants(detail).contains(#[trigger] r[k]),
        !(exists|i: int|
            0 <= i < media_variants(detail_medias(detail)).len() && media_variants(detail_medias(detail))[i].is_origin)
            ==> match nonempty_str(detail.spec_get("web_content_link"@)) {
            Some(w) => r.contains(VariantView { label: "原画"@, url: w, is_origin: true, height: 0 }),
            None => true,
        },
        candidate_variants(detail).len() == 0 <==> r.len() == 0,
{
    let c = candidate_variants(detail);
    if c.len() > 0 {
        let b = lemma_kept_exists(c, c.len() as int, 0);
        assert(kept_for_label(c, b));
        assert(r.contains(c[b]));
    }
    assert forall|a: int, b: int| 0 <= a < b < r.len() implies r[a].label != r[b].label by {
        assert(is_kept_value(c, r[a]));
        assert(is_kept_value(c, r[b]));
        let i1 = choose|i: int| #[trigger] kept_for_label(c, i) && c[i] == r[a];
        let i2 = choose|i: int| #[trigger] kept_for_label(c, i) && c[i] == r[b];
        assert(variant_before(r[a], r[b]));
        if r[a].label == r[b].label {
            if i1 < i2 {
                assert(c[i2].label == c[i1].label);
                assert(!variant_before(c[i2], c[i1]));
                assert(variant_before(c[i2], c[i1]));
            } else if i2 < i1 {
                assert(c[i1].label == c[i2].label);
                assert(!variant_before(c[i1], c[i2]));
            } else {
                lemma_text_lt_irreflexive(r[a].label);
            }
        }
    }
    assert forall|k: int| 0 <= k < r.len() implies c.contains(#[trigger] r[k]) by {
        assert(is_kept_value(c, r[k]));
        let i = choose|i: int| #[trigger] kept_for_label(c, i) && c[i] == r[k];
    }
    let vs = media_variants(detail_medias(detail));
    if !(exists|i: int| 0 <= i < vs.len() && vs[i].is_origin) {
        match nonempty_str(detail.spec_get("web_content_link"@)) {
            Some(w) => {
                let f = VariantView { label: "原画"@, url: w, is_origin: true, height: 0 };
                assert(c == vs.push(f));
                let n = vs.len() as int;
                assert(c[n] == f);
                assert forall|j: int| 0 <= j < n && #[trigger] c[j].label == c[n].label implies variant_before(
                    c[n],
                    c[j],
                ) by {
                    assert(c[j] == vs[j]);
                    assert(!vs[j].is_origin);
                }
                assert(kept_for_label(c, n));
            },
            None => {},
        }
    }
    if c.len() == 0 && r.len() > 0 {
        assert(is_kept_value(c, r[0]));
        let i = choose|i: int| #[trigger] kept_for_label(c, i) && c[i] == r[0];
    }
}

/// `link.url` of a media item, if non-empty.
pub open spec fn media_link_url(m: Json) -> Option<Seq<char>> {
    match m.spec_get("link"@) {
        Some(l) => nonempty_str(l.spec_get("url"@)),
        None => None,
    }
}

/// First media item with a `link.url`.
pub open spec fn first_media_link(ms: Seq<Json>) -> Option<Seq<char>>
    decreases ms.len(),
{
    if ms.len() == 0 {
        None
    } else {
        match media_link_url(ms[0]) {
            Some(u) => Some(u),
            None => first_media_link(ms.drop_first()),
        }
    }
}

/// First member of `links` (in the object's order) with a non-empty `url`.
pub open spec fn first_member_url(ms: Seq<(String, Json)>) -> Option<Seq<char>>
    decreases ms.len(),
{
    if ms.len() == 0 {
        None
    } else {
        match nonempty_str(ms[0].1.spec_get("url"@)) {
            Some(u) => Some(u),
            None => first_member_url(ms.drop_first()),
        }
    }
}

/// Download link of a file detail: `web_content_link`, else the first
/// `medias[].link.url`, else the first `links.*.url`.
pub open spec fn download_url(d: Json) -> Option<Seq<char>> {
    match nonempty_str(d.spec_get("web_content_link"@)) {
        Some(u) => Some(u),
        None => {
            let from_medias = match d.spec_get("medias"@) {
                Some(Json::Arr(a)) => first_media_link(a@),
                _ => None,
            };
            match from_medias {
                Some(u) => Some(u),
                None => match d.spec_get("links"@) {
                    Some(Json::Obj(ms)) => first_member_url(ms@),
                    _ => None,
                },
            }
        },
    }
}

fn first_media_link_exec(ms: &Vec<Json>) -> (r: Option<String>)
    ensures
        match r {
            Some(u) => first_media_link(ms@) == Some(u@),
            None => first_media_link(ms@) is None,
        },
{
    let mut i: usize = 0;
    assert(ms@.skip(0) == ms@);
    while i < ms.len()
        invariant
            0 <= i <= ms@.len(),
            first_media_link(ms@) == first_media_link(ms@.skip(i as int)),
        decreases ms@.len() - i,
    {
        proof {
            assert(ms@.skip(i as int).drop_first() == ms@.skip(i + 1));
            assert(ms@.skip(i as int)[0] == ms@[i as int]);
        }
        let found = match ms[i].get("link") {
            Some(l) => nonempty_str_member(l, "url"),
            None => None,
        };
        if let Some(u) = found {
            return Some(u.clone());
        }
        i += 1;
    }
    None
}

fn first_member_url_exec(ms: &Vec<(String, Json)>) -> (r: Option<String>)
    ensures
        match r {
            Some(u) => first_member_url(ms@) == Some(u@),
            None => first_member_url(ms@) is None,
        },
{
    let mut i: usize = 0;
    assert(ms@.skip(0) == ms@);
    while i < ms.len()
        invariant
            0 <= i <= ms@.len(),
            first_member_url(ms@) == first_member_url(ms@.skip(i as int)),
        decreases ms@.len() - i,
    {
        proof {
            assert(ms@.skip(i as int).drop_first() == ms@.skip(i + 1));
            assert(ms@.skip(i as int)[0] == ms@[i as int]);
        }
        if let Some(u) = nonempty_str_member(&ms[i].1, "url") {
            return Some(u.clone());
        }
        i += 1;
    }
    None
}

fn pick_download_url(detail: &Json) -> (r: Option<String>)
    ensures
        match r {
            Some(u) => download_url(*detail) == Some(u@),
            None => download_url(*detail) is None,
        },
{
    if let Some(u) = nonempty_str_member(detail, "web_content_link") {
        return Some(u.clone());
    }
    if let Some(Json::Arr(a)) = detail.get("medias") {
        if let Some(u) = first_media_link_exec(a) {
            return Some(u);
        }
    }
    if let Some(Json::Obj(ms)) = detail.get("links") {
        return first_member_url_exec(ms);
    }
    None
}

/// Plain view of a `DownloadLink`.
pub struct LinkView {
    pub file_id: Seq<char>,
    pub url: Seq<char>,
    pub name: Seq<char>,
    pub size: i64,
}

impl View for DownloadLink {
    type V = LinkView;

    open spec fn view(&self) -> LinkView {
        LinkView { file_id: self.file_id@, url: self.url@, name: self.name@, size: self.size }
    }
}

/// File name of a detail (`"download"` when absent or empty).
pub open spec fn detail_name(d: Json) -> Seq<char> {
    match nonempty_str(d.spec_get("name"@)) {
        Some(n) => n,
        None => "download"@,
    }
}

/// Declared size of a detail (0 when absent or unreadable).
pub open spec fn detail_size(d: Json) -> i64 {
    match d.spec_get("size"@) {
        Some(v) => match json_i64(v) {
            Some(n) => n,
            None => 0,
        },
        None => 0,
    }
}

impl DownloadLink {
    /// Reads the download information of `GET /drive/v1/files/{id}`: an error
    /// exactly when the detail has no usable direct link.
    pub fn from_detail(file_id: &str, detail: &Json) -> (r: Result<DownloadLink, Error>)
        ensures
            match r {
                Ok(dl) => download_url(*detail) == Some(dl.url@) && dl@ == (LinkView {
                    file_id: file_id@,
                    url: dl.url@,
                    name: detail_name(*detail),
                    size: detail_size(*detail),
                }),
                Err(_) => download_url(*detail) is None,
            },
    {
        let url = match pick_download_url(detail) {
            Some(u) => u,
            None => return Err(Error::Msg("文件详情中未找到可用的下载直链".to_owned())),
        };
        let name = match nonempty_str_member(detail, "name") {
            Some(n) => n.clone(),
            None => "download".to_owned(),
        };
        let size = match detail.get("size") {
            Some(v) => match value_i64(v) {
                Some(n) => n,
                None => 0,
            },
            None => 0,
        };
        Ok(DownloadLink { file_id: file_id.to_owned(), url, name, size })
    }
}

/// The `.part` file that accompanies download target `dest` while it is incomplete.
pub fn part_path(dest: &str) -> (r: String)
    ensures
        r@ == dest@ + ".part"@,
{
    let mut out = chars_of(dest);
    push_str(&mut out, ".part");
    crate::text::string_from_chars(&out)
}

/// The qualities offered for a file detail: its variants; when none is usable,
/// the original through the download link; an error when there is no link at all.
pub fn media_variants_of(file_id: &str, detail: &Json) -> (r: Result<Vec<MediaVariant>, Error>)
    ensures
        match r {
            Ok(v) => if ordered_variants(candidate_variants(*detail), Seq::empty()) {
                download_url(*detail) matches Some(u) && views(v@) == seq![
                    VariantView { label: "原画"@, url: u, is_origin: true, height: 0 },
                ]
            } else {
                ordered_variants(candidate_variants(*detail), views(v@))
            },
            Err(_) => ordered_variants(candidate_variants(*detail), Seq::empty()) && download_url(
                *detail,
            ) is None,
        },
{
    let variants = MediaVariant::from_detail(detail);
    if variants.len() > 0 {
        proof {
            let c = candidate_variants(*detail);
            let rv = views(variants@);
            assert(is_kept_value(c, rv[0]));
            let i = choose|i: int| #[trigger] kept_for_label(c, i) && c[i] == rv[0];
            assert(!Seq::<VariantView>::empty().contains(c[i]));
        }
        return Ok(variants);
    }
    assert(views(variants@) =~= Seq::<VariantView>::empty());
    let trimmed = string_from_chars(&trim_chars(&chars_of(file_id)));
    let dl = DownloadLink::from_detail(trimmed.as_str(), detail)?;
    let mut out: Vec<MediaVariant> = Vec::new();
    out.push(MediaVariant { label: "原画".to_owned(), url: dl.url, is_origin: true, height: 0 });
    assert(views(out@) =~= seq![VariantView { label: "原画"@, url: dl.url@, is_origin: true, height: 0 }]);
    Ok(out)
}

/// The kind of a file detail (empty when absent).
pub open spec fn detail_kind(d: Json) -> Seq<char> {
    match d.spec_get("kind"@) {
        Some(v) => match v.spec_str() {
            Some(k) => k,
            None => Seq::empty(),
        },
        None => Seq::empty(),
    }
}

/// A file detail is only used for a single file: one whose kind names a
/// folder is refused.
pub fn check_file_detail(detail: Json) -> (r: Result<Json, Error>)
    ensures
        match r {
            Ok(d) => d == detail && !contains(detail_kind(detail), "folder"@),
            Err(_) => contains(detail_kind(detail), "folder"@),
        },
{
    let is_folder = match detail.get("kind") {
        Some(v) => match v.as_str() {
            Some(k) => contains_chars(&chars_of(k.as_str()), &chars_of("folder")),
            None => false,
        },
        None => false,
    };
    proof {
        if detail_kind(detail).len() == 0 {
            assert(!contains(Seq::<char>::empty(), "folder"@)) by {
                reveal_strlit("folder");
                assert forall|i: int| !occurs_at(Seq::<char>::empty(), "folder"@, i) by {}
            }
        }
    }
    if is_folder {
        Err(Error::Msg("该目标是一个文件夹, 暂只支持单个文件".to_owned()))
    } else {
        Ok(detail)
    }
}

/// The captcha action of a file-detail request, `GET:/drive/v1/files/<id>`
/// with the id trimmed; an empty id is an error.
pub fn detail_action(file_id: &str) -> (r: Result<String, Error>)
    ensures
        match r {
            Ok(a) => trim(file_id@).len() > 0 && a@ == "GET:/drive/v1/files/"@ + trim(file_id@),
            Err(_) => trim(file_id@).len() == 0,
        },
{
    let id = trim_chars(&chars_of(file_id));
    if id.len() == 0 {
        return Err(Error::Msg("文件 ID 为空".to_owned()));
    }
    let mut out = chars_of("GET:/drive/v1/files/");
    crate::text::push_chars(&mut out, &id);
    Ok(string_from_chars(&out))
}

/// What a download does with the answer to its request, given the bytes of the
/// `.part` file already on disk and the size the server declared (0 if unknown).
#[derive(Clone, Copy, Debug, PartialEq, Eq, Structural)]
pub enum ResumeAction {
    /// 206 to a range request: append to the `.part` file.
    Append,
    /// 416 with a `.part` file already as large as declared: it is complete.
    AlreadyComplete,
    /// 416 otherwise: the `.part` file is stale; empty it and ask again.
    TruncateAndRetry,
    /// Any other success: write the whole body from the start.
    Restart,
    /// Any other status: the download fails with it.
    Fail,
}

/// The decision of `resume_action`.
pub open spec fn resume_decision(status: u16, existing: u64, expected: u64) -> ResumeAction {
    if status == 206 && existing > 0 {
        ResumeAction::Append
    } else if status == 416 && existing > 0 {
        if expected > 0 && existing >= expected {
            ResumeAction::AlreadyComplete
        } else {
            ResumeAction::TruncateAndRetry
        }
    } else if 200 <= status < 300 {
        ResumeAction::Restart
    } else {
        ResumeAction::Fail
    }
}

/// How a download continues after the server answered `status`.
pub fn resume_action(status: u16, existing: u64, expected: u64) -> (a: ResumeAction)
    ensures
        a == resume_decision(status, existing, expected),
{
    if status == 206 && existing > 0 {
        ResumeAction::Append
    } else if status == 416 && existing > 0 {
        if expected > 0 && existing >= expected {
            ResumeAction::AlreadyComplete
        } else {
            ResumeAction::TruncateAndRetry
        }
    } else if 200 <= status && status < 300 {
        ResumeAction::Restart
    } else {
        ResumeAction::Fail
    }
}

/// Whether a signed link that answered `status` without credentials is
/// tried again with the session's bearer token (401 or 403, and a token exists).
pub fn retry_with_token(status: u16, has_token: bool) -> (b: bool)
    ensures
        b == ((status == 401 || status == 403) && has_token),
{
    (status == 401 || status == 403) && has_token
}

/// Whether a finished transfer may be moved into place: when the server
/// declared a size, fewer bytes than that mean the body was cut short.
pub fn transfer_complete(expected: u64, downloaded: u64) -> (b: bool)
    ensures
        b == !(expected > 0 && downloaded < expected),
{
    !(expected > 0 && downloaded < expected)
}

/// The `Range` header a download request carries when `existing` bytes of
/// the `.part` file are already on disk: `bytes=<existing>-`, none when empty.
pub fn range_header(existing: u64) -> (r: Option<String>)
    ensures
        existing == 0 <==> r is None,
        r matches Some(h) ==> h@ == "bytes="@ + dec(existing as nat) + "-"@,
{
    if existing == 0 {
        return None;
    }
    let mut out: Vec<char> = Vec::new();
    push_str(&mut out, "bytes=");
    push_dec(&mut out, existing);
    push_str(&mut out, "-");
    Some(crate::text::string_from_chars(&out))
}

/// The message of a transfer cut short.
pub open spec fn incomplete_text(expected: u64, downloaded: u64) -> Seq<char> {
    "传输不完整: 期望 "@ + dec(expected as nat) + " 字节, 仅收到 "@ + dec(downloaded as nat) + " 字节(可重试续传)"@
}

/// The end of a transfer of `downloaded` bytes when the server declared
/// `expected` (0: unknown): `Ok(downloaded)` when the `.part` file may be
/// renamed into place, else the (retryable) error that keeps it for resuming.
pub fn finish_transfer(expected: u64, downloaded: u64) -> (r: Result<u64, String>)
    ensures
        (expected > 0 && downloaded < expected) <==> r is Err,
        r matches Ok(n) ==> n == downloaded && (expected > 0 ==> n >= expected),
        r matches Err(m) ==> m@ == incomplete_text(expected, downloaded),
{
    if transfer_complete(expected, downloaded) {
        return Ok(downloaded);
    }
    let mut out: Vec<char> = Vec::new();
    push_str(&mut out, "传输不完整: 期望 ");
    push_dec(&mut out, expected);
    push_str(&mut out, " 字节, 仅收到 ");
    push_dec(&mut out, downloaded);
    push_str(&mut out, " 字节(可重试续传)");
    Err(crate::text::string_from_chars(&out))
}

/// A download puts its `.part` file in place only when it is complete: the
/// server said the range was already all there (416) and the file holds the
/// declared size (the other way in, `finish_transfer`, needs the declared
/// bytes too). Any status that is neither a success nor 416 to a range request fails.
pub proof fn lemma_only_complete_is_renamed(status: u16, existing: u64, expected: u64)
    ensures
        resume_decision(status, existing, expected) == ResumeAction::AlreadyComplete ==> expected > 0 && existing
            >= expected,
        !(200 <= status < 300) && !(status == 416 && existing > 0) ==> resume_decision(status, existing, expected)
            == ResumeAction::Fail,
        existing == 0 ==> resume_decision(status, existing, expected) != ResumeAction::Append
            && resume_decision(status, existing, expected) != ResumeAction::TruncateAndRetry,
{
}

} // verus!
