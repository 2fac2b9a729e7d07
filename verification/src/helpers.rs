//! Small judgements the interface makes about texts: whether an opener's error
//! means "no application for this file", and whether a subtitle belongs to a video.

use vstd::prelude::*;

use crate::filetypes::{ext_of, has_prefix, is_subtitle, last_dot, subtitle_exts};
use crate::types::File;
use crate::text::{
    ascii_lower, chars_eq, chars_of, contains, contains_chars, slice_chars, starts_with_chars,
    string_from_chars, to_ascii_lower, to_lowercase, unicode_lowercase,
};

verus! {

/// Phrases with which openers report that no application handles a file (lower case).
pub open spec fn no_handler_phrases() -> Seq<Seq<char>> {
    seq![
        "no method available"@, "no application"@, "no default application"@, "no handler"@,
        "not supported"@, "unhandled"@,
    ]
}

/// Whether an opener's error text (compared ASCII-case-insensitively) says that
/// no application is associated with the file, as opposed to other failures
/// such as a missing file.
pub fn looks_like_no_handler(err: &str) -> (b: bool)
    ensures
        b == exists|i: int|
            0 <= i < no_handler_phrases().len() && contains(
                ascii_lower(err@),
                #[trigger] no_handler_phrases()[i],
            ),
{
    let e = to_ascii_lower(&chars_of(err));
    let phrases: [&str; 6] = [
        "no method available",
        "no application",
        "no default application",
        "no handler",
        "not supported",
        "unhandled",
    ];
    assert(crate::filetypes::views(phrases@) == no_handler_phrases());
    let mut i: usize = 0;
    while i < 6
        invariant
            0 <= i <= 6,
            e@ == ascii_lower(err@),
            crate::filetypes::views(phrases@) == no_handler_phrases(),
            forall|j: int| 0 <= j < i ==> !contains(e@, #[trigger] no_handler_phrases()[j]),
        decreases 6 - i,
    {
        let p = chars_of(phrases[i]);
        assert(p@ == no_handler_phrases()[i as int]);
        if contains_chars(&e, &p) {
            return true;
        }
        i += 1;
    }
    false
}

/// Whether `std`'s `char::is_alphanumeric` holds of `c` (Unicode letters and numbers).
pub uninterp spec fn unicode_alphanumeric(c: char) -> bool;

/// std's `char::is_alphanumeric`; its result is named `unicode_alphanumeric`.
#[verifier::external_body]
fn is_alphanumeric(c: char) -> (b: bool)
    ensures
        b == unicode_alphanumeric(c),
{
    c.is_alphanumeric()
}

/// Whether `sub` is a subtitle file for `video`: both have an extension, and
/// the subtitle's stem (lower-cased) is the video's stem, possibly followed by
/// a non-alphanumeric character and more text (`ep01.chs.srt`, `ep01-CN.ass`).
pub open spec fn subtitle_matches(video: Seq<char>, sub: Seq<char>) -> bool {
    let kv = last_dot(video);
    let ks = last_dot(sub);
    if kv < 0 || ks < 0 {
        false
    } else {
        let vstem = unicode_lowercase(video.take(kv));
        let sstem = unicode_lowercase(sub.take(ks));
        sstem == vstem || (has_prefix(sstem, vstem) && sstem.len() > vstem.len()
            && !unicode_alphanumeric(sstem[vstem.len() as int]))
    }
}

/// The characters before the last dot of `s`, if `s` has a dot.
fn stem_of(s: &str) -> (r: Option<Vec<char>>)
    ensures
        match r {
            Some(v) => last_dot(s@) >= 0 && v@ == s@.take(last_dot(s@)),
            None => last_dot(s@) < 0,
        },
{
    let cs = chars_of(s);
    let mut k: usize = cs.len();
    while k > 0 && cs[k - 1] != '.'
        invariant
            0 <= k <= cs@.len(),
            cs@ == s@,
            forall|j: int| k <= j < cs@.len() ==> cs@[j] != '.',
        decreases k,
    {
        k -= 1;
    }
    proof {
        crate::filetypes::lemma_last_dot(cs@, k - 1);
    }
    if k == 0 {
        None
    } else {
        let v = slice_chars(&cs, 0, k - 1);
        assert(v@ == s@.take(k - 1));
        Some(v)
    }
}

/// Whether the subtitle file `sub` belongs to the video file `video` (see `subtitle_matches`).
pub fn subtitle_of(video: &str, sub: &str) -> (b: bool)
    ensures
        b == subtitle_matches(video@, sub@),
{
    let vs = match stem_of(video) {
        Some(v) => v,
        None => return false,
    };
    let ss = match stem_of(sub) {
        Some(v) => v,
        None => return false,
    };
    let vstem = chars_of(to_lowercase(string_from_chars(&vs).as_str()).as_str());
    let sstem = chars_of(to_lowercase(string_from_chars(&ss).as_str()).as_str());
    if chars_eq(&sstem, &vstem) {
        return true;
    }
    starts_with_chars(&sstem, &vstem) && sstem.len() > vstem.len() && !is_alphanumeric(
        sstem[vstem.len()],
    )
}

/// Whether a listed entry is an external subtitle of the episode `name`: a
/// file (not a folder) with a subtitle extension that `subtitle_matches` it.
pub open spec fn is_episode_subtitle(f: File, name: Seq<char>) -> bool {
    !contains(f.kind@, "folder"@) && subtitle_exts().contains(ext_of(f.name@)) && subtitle_matches(
        name,
        f.name@,
    )
}

/// The external subtitles of the video `name` among the listed files, as
/// (id, file name) pairs in listing order.
pub fn episode_subtitles(files: &[File], name: &str) -> (r: Vec<(String, String)>)
    ensures
        r@.len() == files@.filter(|f: File| is_episode_subtitle(f, name@)).len(),
        forall|i: int|
            0 <= i < r@.len() ==> (#[trigger] r@[i]).0@ == files@.filter(
                |f: File| is_episode_subtitle(f, name@),
            )[i].id@ && r@[i].1@ == files@.filter(|f: File| is_episode_subtitle(f, name@))[i].name@,
{
    let ghost p = |f: File| is_episode_subtitle(f, name@);
    let mut r: Vec<(String, String)> = Vec::new();
    let mut i: usize = 0;
    while i < files.len()
        invariant
            0 <= i <= files@.len(),
            p == (|f: File| is_episode_subtitle(f, name@)),
            r@.len() == files@.take(i as int).filter(p).len(),
            forall|k: int|
                0 <= k < r@.len() ==> (#[trigger] r@[k]).0@ == files@.take(i as int).filter(p)[k].id@
                    && r@[k].1@ == files@.take(i as int).filter(p)[k].name@,
        decreases files@.len() - i,
    {
        let f = &files[i];
        proof {
            assert(files@.take(i + 1) == files@.take(i as int).push(files@[i as int]));
            files@.take(i as int).lemma_filter_push(files@[i as int], p);
        }
        if !f.is_folder() && is_subtitle(f.name.as_str()) && subtitle_of(name, f.name.as_str()) {
            r.push((f.id.clone(), f.name.clone()));
        }
        i += 1;
    }
    assert(files@.take(files@.len() as int) == files@);
    r
}

/// Whether a header name is `User-Agent`, ignoring ASCII case.
pub open spec fn is_user_agent(k: Seq<char>) -> bool {
    ascii_lower(k) == "user-agent"@
}

/// The `--user-agent=` options for the User-Agent headers, in order.
pub open spec fn ua_options(hs: Seq<(String, String)>) -> Seq<Seq<char>>
    decreases hs.len(),
{
    if hs.len() == 0 {
        Seq::empty()
    } else {
        ua_options(hs.drop_last()) + if is_user_agent(hs.last().0@) {
            seq!["--user-agent="@ + hs.last().1@]
        } else {
            Seq::empty()
        }
    }
}

/// The other headers as `Name: value` fields, in order.
pub open spec fn header_fields(hs: Seq<(String, String)>) -> Seq<Seq<char>>
    decreases hs.len(),
{
    if hs.len() == 0 {
        Seq::empty()
    } else {
        header_fields(hs.drop_last()) + if is_user_agent(hs.last().0@) {
            Seq::empty()
        } else {
            seq![hs.last().0@ + ": "@ + hs.last().1@]
        }
    }
}

/// The pieces joined with commas.
pub open spec fn comma_joined(fs: Seq<Seq<char>>) -> Seq<char>
    decreases fs.len(),
{
    if fs.len() == 0 {
        Seq::empty()
    } else if fs.len() == 1 {
        fs[0]
    } else {
        comma_joined(fs.drop_last()) + seq![','] + fs.last()
    }
}

/// The `--sub-file=` options for the subtitle files, in order.
pub open spec fn sub_options(subs: Seq<String>) -> Seq<Seq<char>> {
    subs.map_values(|p: String| "--sub-file="@ + p@)
}

/// The command line for playing `url` in mpv: a window even for audio, no
/// youtube-dl hook, the file name as title, the User-Agent through its own
/// option and the other headers as header fields, Chinese subtitles preferred,
/// the subtitle files attached, then the URL after `--`.
pub open spec fn mpv_command(
    name: Seq<char>,
    url: Seq<char>,
    headers: Seq<(String, String)>,
    subs: Seq<String>,
) -> Seq<Seq<char>> {
    let fields = header_fields(headers);
    seq!["--force-window=yes"@, "--ytdl=no"@, "--title="@ + name] + ua_options(headers) + (if fields.len()
        > 0 {
        seq!["--http-header-fields="@ + comma_joined(fields)]
    } else {
        Seq::empty()
    }) + seq!["--slang=zh-Hans,zh-CN,zh-Hant,zh-TW,chs,cht,sc,tc,chi,zh,en"@] + sub_options(subs)
        + seq!["--"@, url]
}

/// Views of a list of strings.
pub open spec fn string_views(v: Seq<String>) -> Seq<Seq<char>> {
    v.map_values(|s: String| s@)
}

fn text_of(parts: &[&str], tail: &str) -> (r: String)
    requires
        parts@.len() == 1,
    ensures
        r@ == parts@[0]@ + tail@,
{
    let mut out = chars_of(parts[0]);
    crate::text::push_str(&mut out, tail);
    string_from_chars(&out)
}

/// The arguments to start mpv with (see `mpv_command`); `subs` are the local
/// paths of the subtitle files.
pub fn mpv_args(name: &str, url: &str, headers: &[(String, String)], subs: &[String]) -> (args: Vec<String>)
    ensures
        string_views(args@) == mpv_command(name@, url@, headers@, subs@),
{
    let mut args: Vec<String> = Vec::new();
    args.push("--force-window=yes".to_owned());
    args.push("--ytdl=no".to_owned());
    args.push(text_of(&["--title="], name));
    let ghost head = seq!["--force-window=yes"@, "--ytdl=no"@, "--title="@ + name@];
    assert(string_views(args@) =~= head);
    let mut fields: Vec<Vec<char>> = Vec::new();
    let mut i: usize = 0;
    while i < headers.len()
        invariant
            0 <= i <= headers@.len(),
            string_views(args@) == head + ua_options(headers@.take(i as int)),
            crate::paths::vviews(fields@) == header_fields(headers@.take(i as int)),
        decreases headers@.len() - i,
    {
        let (k, v) = &headers[i];
        proof {
            assert(headers@.take(i + 1).drop_last() == headers@.take(i as int));
            assert(headers@.take(i + 1).last() == headers@[i as int]);
        }
        let lk = to_ascii_lower(&chars_of(k.as_str()));
        if crate::text::chars_eq_str(&lk, "user-agent") {
            args.push(text_of(&["--user-agent="], v.as_str()));
            proof {
                assert(string_views(args@) =~= head + ua_options(headers@.take(i as int)) + seq![
                    "--user-agent="@ + v@,
                ]);
            }
        } else {
            let mut f = chars_of(k.as_str());
            crate::text::push_str(&mut f, ": ");
            crate::text::push_str(&mut f, v.as_str());
            fields.push(f);
            proof {
                assert(crate::paths::vviews(fields@) =~= header_fields(headers@.take(i as int)) + seq![
                    k@ + ": "@ + v@,
                ]);
            }
        }
        i += 1;
    }
    assert(headers@.take(headers@.len() as int) == headers@);
    let ghost fv = crate::paths::vviews(fields@);
    if fields.len() > 0 {
        let mut joined: Vec<char> = Vec::new();
        let mut j: usize = 0;
        while j < fields.len()
            invariant
                0 <= j <= fields@.len(),
                fv == crate::paths::vviews(fields@),
                j > 0 ==> joined@ == comma_joined(fv.take(j as int)),
                j == 0 ==> joined@.len() == 0,
            decreases fields@.len() - j,
        {
            proof {
                assert(fv.take(j + 1).drop_last() == fv.take(j as int));
                assert(fv.take(j + 1).last() == fields@[j as int]@);
            }
            if j > 0 {
                joined.push(',');
            }
            crate::text::push_chars(&mut joined, &fields[j]);
            proof {
                if j == 0 {
                    assert(fv.take(1).len() == 1);
                    assert(joined@ =~= fv.take(1)[0]);
                }
            }
            j += 1;
        }
        assert(fv.take(fv.len() as int) == fv);
        let mut opt = chars_of("--http-header-fields=");
        crate::text::push_chars(&mut opt, &joined);
        let ghost before = string_views(args@);
        args.push(string_from_chars(&opt));
        assert(string_views(args@) =~= before.push("--http-header-fields="@ + comma_joined(fv)));
    }
    let ghost mid = string_views(args@);
    assert(fv == header_fields(headers@));
    assert(mid =~= head + ua_options(headers@) + (if fv.len() > 0 {
        seq!["--http-header-fields="@ + comma_joined(fv)]
    } else {
        Seq::<Seq<char>>::empty()
    }));
    let ghost slang = seq!["--slang=zh-Hans,zh-CN,zh-Hant,zh-TW,chs,cht,sc,tc,chi,zh,en"@];
    args.push("--slang=zh-Hans,zh-CN,zh-Hant,zh-TW,chs,cht,sc,tc,chi,zh,en".to_owned());
    let mut k: usize = 0;
    while k < subs.len()
        invariant
            0 <= k <= subs@.len(),
            string_views(args@) == mid + seq!["--slang=zh-Hans,zh-CN,zh-Hant,zh-TW,chs,cht,sc,tc,chi,zh,en"@]
                + sub_options(subs@.take(k as int)),
        decreases subs@.len() - k,
    {
        let ghost prev = string_views(args@);
        args.push(text_of(&["--sub-file="], subs[k].as_str()));
        proof {
            assert(string_views(args@) =~= prev.push("--sub-file="@ + subs@[k as int]@));
            assert(sub_options(subs@.take(k + 1)) =~= sub_options(subs@.take(k as int)).push(
                "--sub-file="@ + subs@[k as int]@,
            ));
            assert(mid + slang + sub_options(subs@.take(k + 1)) =~= (mid + slang + sub_options(
                subs@.take(k as int),
            )).push("--sub-file="@ + subs@[k as int]@));
        }
        k += 1;
    }
    assert(subs@.take(subs@.len() as int) == subs@);
    let ghost body = string_views(args@);
    args.push("--".to_owned());
    args.push(url.to_owned());
    assert(string_views(args@) =~= body + seq!["--"@, url@]);
    args
}

} // verus!
