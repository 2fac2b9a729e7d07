//! File-type classification: one table shared by icons, playback, opening
//! with the system and the "download only" decision.

use vstd::prelude::*;

use crate::text::{
    ascii_lower, chars_eq, chars_of, slice_chars, starts_with_chars, string_from_chars,
    to_ascii_lower, to_lowercase, trim, trim_chars, unicode_lowercase,
};
use crate::types::File;

verus! {

/// Kind of a file, as far as the client treats kinds differently.
#[derive(Clone, Copy, PartialEq, Eq, Structural, Debug)]
pub enum FileType {
    Folder,
    Video,
    Audio,
    Image,
    Document,
    Archive,
    Executable,
    Torrent,
    Other,
}

/// Video extensions that the player handles (lower case).
pub open spec fn video_exts() -> Seq<Seq<char>> {
    seq![
        "mp4"@, "mkv"@, "avi"@, "mov"@, "wmv"@, "flv"@, "webm"@, "ts"@, "rmvb"@, "m4v"@,
        "m2ts"@, "mpg"@, "mpeg"@,
    ]
}

/// Audio extensions that the player handles (lower case).
pub open spec fn audio_exts() -> Seq<Seq<char>> {
    seq!["mp3"@, "flac"@, "wav"@, "aac"@, "ogg"@, "m4a"@, "opus"@, "ape"@]
}

/// Common image extensions (lower case).
pub open spec fn image_exts() -> Seq<Seq<char>> {
    seq!["jpg"@, "jpeg"@, "png"@, "gif"@, "bmp"@, "webp"@, "heic"@, "svg"@, "tiff"@]
}

/// Common document extensions (lower case).
pub open spec fn doc_exts() -> Seq<Seq<char>> {
    seq![
        "pdf"@, "doc"@, "docx"@, "xls"@, "xlsx"@, "ppt"@, "pptx"@, "txt"@, "md"@, "epub"@,
        "csv"@,
    ]
}

/// Common subtitle extensions (lower case).
pub open spec fn subtitle_exts() -> Seq<Seq<char>> {
    seq!["ass"@, "ssa"@, "srt"@, "sub"@, "vtt"@, "sbv"@, "sup"@]
}

/// Archive and disk-image extensions (lower case).
pub open spec fn archive_exts() -> Seq<Seq<char>> {
    seq![
        "zip"@, "rar"@, "7z"@, "tar"@, "gz"@, "bz2"@, "xz"@, "zst"@, "iso"@, "img"@, "dmg"@,
    ]
}

/// Executable and installer extensions (lower case).
pub open spec fn exec_exts() -> Seq<Seq<char>> {
    seq!["exe"@, "msi"@, "deb"@, "rpm"@, "apk"@, "appimage"@, "run"@, "bin"@]
}

/// Torrent extensions (lower case).
pub open spec fn torrent_exts() -> Seq<Seq<char>> {
    seq!["torrent"@]
}

/// MIME types that carry no information about the content.
pub open spec fn generic_mimes() -> Seq<Seq<char>> {
    seq![
        "application/octet-stream"@, "binary/octet-stream"@, "application/x-download"@,
        "application/force-download"@, "application/unknown"@,
    ]
}

/// Application MIME types of documents.
pub open spec fn doc_mimes() -> Seq<Seq<char>> {
    seq![
        "application/pdf"@, "application/rtf"@, "application/epub+zip"@,
        "application/typescript"@, "application/msword"@, "application/vnd.ms-excel"@,
        "application/vnd.ms-powerpoint"@, "application/x-subrip"@,
    ]
}

/// Application MIME types of archives and disk images.
pub open spec fn archive_mimes() -> Seq<Seq<char>> {
    seq![
        "application/zip"@, "application/x-zip-compressed"@, "application/x-rar"@,
        "application/x-rar-compressed"@, "application/vnd.rar"@, "application/x-7z-compressed"@,
        "application/x-tar"@, "application/gzip"@, "application/x-gzip"@, "application/x-bzip2"@,
        "application/x-xz"@, "application/x-zstd"@, "application/x-iso9660-image"@,
        "application/x-apple-diskimage"@,
    ]
}

/// Application MIME types of executables and packages.
pub open spec fn exec_mimes() -> Seq<Seq<char>> {
    seq![
        "application/x-msdownload"@, "application/x-dosexec"@, "application/x-msi"@,
        "application/vnd.microsoft.portable-executable"@, "application/x-executable"@,
        "application/x-pie-executable"@, "application/x-sharedlib"@,
        "application/x-mach-binary"@, "application/vnd.android.package-archive"@,
        "application/x-deb"@, "application/x-debian-package"@, "application/x-rpm"@,
    ]
}

/// Index of the last `'.'` in `s`, or -1.
pub open spec fn last_dot(s: Seq<char>) -> int
    decreases s.len(),
{
    if s.len() == 0 {
        -1
    } else if s.last() == '.' {
        s.len() - 1
    } else {
        last_dot(s.drop_last())
    }
}

/// Lower-cased extension of a file name: what follows its last dot, or empty
/// when it has none.
pub open spec fn ext_of(name: Seq<char>) -> Seq<char> {
    let k = last_dot(name);
    if k < 0 {
        Seq::empty()
    } else {
        unicode_lowercase(name.subrange(k + 1, name.len() as int))
    }
}

/// Whether `s` starts with `p`.
pub open spec fn has_prefix(s: Seq<char>, p: Seq<char>) -> bool {
    p.len() <= s.len() && s.take(p.len() as int) == p
}

/// Type of a file by its lower-cased extension.
pub open spec fn ext_type(ext: Seq<char>) -> FileType {
    if video_exts().contains(ext) {
        FileType::Video
    } else if audio_exts().contains(ext) {
        FileType::Audio
    } else if image_exts().contains(ext) {
        FileType::Image
    } else if doc_exts().contains(ext) || subtitle_exts().contains(ext) {
        FileType::Document
    } else if archive_exts().contains(ext) {
        FileType::Archive
    } else if exec_exts().contains(ext) {
        FileType::Executable
    } else if torrent_exts().contains(ext) {
        FileType::Torrent
    } else {
        FileType::Other
    }
}

/// Type given by a normalised (trimmed, lower-cased) MIME type; `None` when the
/// MIME type says nothing useful and the extension must decide.
pub open spec fn mime_kind(m: Seq<char>) -> Option<FileType> {
    if m.len() == 0 || generic_mimes().contains(m) {
        None
    } else if has_prefix(m, "video/"@) {
        Some(FileType::Video)
    } else if has_prefix(m, "audio/"@) {
        Some(FileType::Audio)
    } else if has_prefix(m, "image/"@) {
        Some(FileType::Image)
    } else if has_prefix(m, "text/"@) {
        Some(FileType::Document)
    } else if doc_mimes().contains(m) {
        Some(FileType::Document)
    } else if archive_mimes().contains(m) {
        Some(FileType::Archive)
    } else if exec_mimes().contains(m) {
        Some(FileType::Executable)
    } else if m == "application/x-bittorrent"@ {
        Some(FileType::Torrent)
    } else if has_prefix(m, "application/vnd.openxmlformats-officedocument."@) || has_prefix(
        m,
        "application/vnd.oasis.opendocument."@,
    ) || has_prefix(m, "application/vnd.ms-"@) {
        Some(FileType::Document)
    } else {
        None
    }
}

/// Type given by a MIME type as the server sent it.
pub open spec fn mime_type_of(mime: Seq<char>) -> Option<FileType> {
    mime_kind(ascii_lower(trim(mime)))
}

/// Type of a file name with an optional MIME type: an informative MIME type
/// wins, otherwise the extension decides.
pub open spec fn classified(name: Seq<char>, mime: Option<Seq<char>>) -> FileType {
    match mime {
        Some(m) => match mime_type_of(m) {
            Some(t) => t,
            None => ext_type(ext_of(name)),
        },
        None => ext_type(ext_of(name)),
    }
}

/// The views of a list of string literals.
pub open spec fn views(list: Seq<&str>) -> Seq<Seq<char>> {
    list.map_values(|k: &str| k@)
}

/// Whether `s` equals one of the strings in `list`.
fn in_list(s: &[char], list: &[&str]) -> (b: bool)
    ensures
        b == views(list@).contains(s@),
{
    let mut i: usize = 0;
    while i < list.len()
        invariant
            0 <= i <= list@.len(),
            forall|j: int| 0 <= j < i ==> views(list@)[j] != s@,
        decreases list@.len() - i,
    {
        let item = chars_of(list[i]);
        if chars_eq(&item, s) {
            assert(views(list@)[i as int] == s@);
            return true;
        }
        i += 1;
    }
    false
}

pub proof fn lemma_last_dot(s: Seq<char>, k: int)
    requires
        -1 <= k < s.len(),
        k >= 0 ==> s[k] == '.',
        forall|j: int| k < j < s.len() ==> s[j] != '.',
    ensures
        last_dot(s) == k,
    decreases s.len(),
{
    if s.len() > 0 && s.last() != '.' {
        lemma_last_dot(s.drop_last(), k);
    }
}

/// The lower-cased extension of `name` (after its last dot); empty when there is none.
pub fn ext_lower(name: &str) -> (r: String)
    ensures
        r@ == ext_of(name@),
{
    let cs = chars_of(name);
    let mut k: usize = cs.len();
    while k > 0 && cs[k - 1] != '.'
        invariant
            0 <= k <= cs@.len(),
            cs@ == name@,
            forall|j: int| k <= j < cs@.len() ==> cs@[j] != '.',
        decreases k,
    {
        k -= 1;
    }
    proof {
        lemma_last_dot(cs@, k - 1);
    }
    if k == 0 {
        String::new()
    } else {
        let e = string_from_chars(&slice_chars(&cs, k, cs.len()));
        to_lowercase(e.as_str())
    }
}

/// Type of a file by its lower-cased extension; subtitles count as documents.
pub fn from_ext(ext: &str) -> (t: FileType)
    ensures
        t == ext_type(ext@),
{
    let e = chars_of(ext);
    let video: [&str; 13] = [
        "mp4", "mkv", "avi", "mov", "wmv", "flv", "webm", "ts", "rmvb", "m4v", "m2ts", "mpg", "mpeg",
    ];
    let audio: [&str; 8] = ["mp3", "flac", "wav", "aac", "ogg", "m4a", "opus", "ape"];
    let image: [&str; 9] = ["jpg", "jpeg", "png", "gif", "bmp", "webp", "heic", "svg", "tiff"];
    let doc: [&str; 11] = [
        "pdf", "doc", "docx", "xls", "xlsx", "ppt", "pptx", "txt", "md", "epub", "csv",
    ];
    let subtitle: [&str; 7] = ["ass", "ssa", "srt", "sub", "vtt", "sbv", "sup"];
    let archive: [&str; 11] = [
        "zip", "rar", "7z", "tar", "gz", "bz2", "xz", "zst", "iso", "img", "dmg",
    ];
    let exec: [&str; 8] = ["exe", "msi", "deb", "rpm", "apk", "appimage", "run", "bin"];
    let torrent: [&str; 1] = ["torrent"];
    assert(views(video@) == video_exts());
    assert(views(audio@) == audio_exts());
    assert(views(image@) == image_exts());
    assert(views(doc@) == doc_exts());
    assert(views(subtitle@) == subtitle_exts());
    assert(views(archive@) == archive_exts());
    assert(views(exec@) == exec_exts());
    assert(views(torrent@) == torrent_exts());
    if in_list(&e, &video) {
        FileType::Video
    } else if in_list(&e, &audio) {
        FileType::Audio
    } else if in_list(&e, &image) {
        FileType::Image
    } else if in_list(&e, &doc) || in_list(&e, &subtitle) {
        FileType::Document
    } else if in_list(&e, &archive) {
        FileType::Archive
    } else if in_list(&e, &exec) {
        FileType::Executable
    } else if in_list(&e, &torrent) {
        FileType::Torrent
    } else {
        FileType::Other
    }
}

fn mime_kind_of(m: &[char]) -> (r: Option<FileType>)
    ensures
        r == mime_kind(m@),
{
    let generic: [&str; 5] = [
        "application/octet-stream",
        "binary/octet-stream",
        "application/x-download",
        "application/force-download",
        "application/unknown",
    ];
    assert(views(generic@) == generic_mimes());
    if m.len() == 0 || in_list(m, &generic) {
        return None;
    }
    if starts_with_chars(m, &chars_of("video/")) {
        return Some(FileType::Video);
    }
    if starts_with_chars(m, &chars_of("audio/")) {
        return Some(FileType::Audio);
    }
    if starts_with_chars(m, &chars_of("image/")) {
        return Some(FileType::Image);
    }
    if starts_with_chars(m, &chars_of("text/")) {
        return Some(FileType::Document);
    }
    let doc: [&str; 8] = [
        "application/pdf",
        "application/rtf",
        "application/epub+zip",
        "application/typescript",
        "application/msword",
        "application/vnd.ms-excel",
        "application/vnd.ms-powerpoint",
        "application/x-subrip",
    ];
    let archive: [&str; 14] = [
        "application/zip",
        "application/x-zip-compressed",
        "application/x-rar",
        "application/x-rar-compressed",
        "application/vnd.rar",
        "application/x-7z-compressed",
        "application/x-tar",
        "application/gzip",
        "application/x-gzip",
        "application/x-bzip2",
        "application/x-xz",
        "application/x-zstd",
        "application/x-iso9660-image",
        "application/x-apple-diskimage",
    ];
    let exec: [&str; 12] = [
        "application/x-msdownload",
        "application/x-dosexec",
        "application/x-msi",
        "application/vnd.microsoft.portable-executable",
        "application/x-executable",
        "application/x-pie-executable",
        "application/x-sharedlib",
        "application/x-mach-binary",
        "application/vnd.android.package-archive",
        "application/x-deb",
        "application/x-debian-package",
        "application/x-rpm",
    ];
    assert(views(doc@) == doc_mimes());
    assert(views(archive@) == archive_mimes());
    assert(views(exec@) == exec_mimes());
    if in_list(m, &doc) {
        Some(FileType::Document)
    } else if in_list(m, &archive) {
        Some(FileType::Archive)
    } else if in_list(m, &exec) {
        Some(FileType::Executable)
    } else if chars_eq(m, &chars_of("application/x-bittorrent")) {
        Some(FileType::Torrent)
    } else if starts_with_chars(m, &chars_of("application/vnd.openxmlformats-officedocument."))
        || starts_with_chars(m, &chars_of("application/vnd.oasis.opendocument."))
        || starts_with_chars(m, &chars_of("application/vnd.ms-")) {
        Some(FileType::Document)
    } else {
        None
    }
}

/// No generic binary MIME type is in the video, audio, image or text family:
/// each starts with `application/` or `binary/`.
proof fn lemma_generic_not_media(m: Seq<char>)
    requires
        generic_mimes().contains(m),
    ensures
        !has_prefix(m, "video/"@),
        !has_prefix(m, "audio/"@),
        !has_prefix(m, "image/"@),
        !has_prefix(m, "text/"@),
{
    reveal_strlit("application/octet-stream");
    reveal_strlit("binary/octet-stream");
    reveal_strlit("application/x-download");
    reveal_strlit("application/force-download");
    reveal_strlit("application/unknown");
    reveal_strlit("video/");
    reveal_strlit("audio/");
    reveal_strlit("image/");
    reveal_strlit("text/");
    let g = generic_mimes();
    let k = choose|k: int| 0 <= k < g.len() && g[k] == m;
    assert(m[0] == 'a' || m[0] == 'b');
    assert(m[0] == 'a' ==> m[1] == 'p');
    if has_prefix(m, "audio/"@) {
        assert(m.take(6)[1] == "audio/"@[1]);
    }
    if has_prefix(m, "video/"@) {
        assert(m.take(6)[0] == "video/"@[0]);
    }
    if has_prefix(m, "image/"@) {
        assert(m.take(6)[0] == "image/"@[0]);
    }
    if has_prefix(m, "text/"@) {
        assert(m.take(5)[0] == "text/"@[0]);
    }
}

/// The MIME families decide the type: whatever follows the family, a
/// (trimmed, lower-cased) `video/…` is a video, `audio/…` audio, `image/…` an
/// image, and `text/…` a document.
pub proof fn lemma_mime_families(mime: Seq<char>)
    ensures
        has_prefix(ascii_lower(trim(mime)), "video/"@) ==> mime_type_of(mime) == Some(FileType::Video),
        has_prefix(ascii_lower(trim(mime)), "audio/"@) ==> mime_type_of(mime) == Some(FileType::Audio),
        has_prefix(ascii_lower(trim(mime)), "image/"@) ==> mime_type_of(mime) == Some(FileType::Image),
        has_prefix(ascii_lower(trim(mime)), "text/"@) ==> mime_type_of(mime) == Some(FileType::Document),
{
    let m = ascii_lower(trim(mime));
    reveal_strlit("video/");
    reveal_strlit("audio/");
    reveal_strlit("image/");
    reveal_strlit("text/");
    if generic_mimes().contains(m) {
        lemma_generic_not_media(m);
    }
    if has_prefix(m, "audio/"@) {
        assert(m.take(6)[0] == 'a');
        assert(!has_prefix(m, "video/"@)) by {
            if has_prefix(m, "video/"@) {
                assert(m.take(6)[0] == 'v');
            }
        }
    }
    if has_prefix(m, "image/"@) {
        assert(m.take(6)[0] == 'i');
        if has_prefix(m, "video/"@) {
            assert(m.take(6)[0] == 'v');
        }
        if has_prefix(m, "audio/"@) {
            assert(m.take(6)[0] == 'a');
        }
    }
    if has_prefix(m, "text/"@) {
        assert(m.take(5)[0] == 't');
        if has_prefix(m, "video/"@) {
            assert(m.take(6)[0] == 'v');
        }
        if has_prefix(m, "audio/"@) {
            assert(m.take(6)[0] == 'a');
        }
        if has_prefix(m, "image/"@) {
            assert(m.take(6)[0] == 'i');
        }
    }
}

/// Type given by a MIME type, when it is informative: `None` for an empty,
/// generic binary or download-placeholder type, and for unknown ones.
pub fn from_mime(mime: &str) -> (r: Option<FileType>)
    ensures
        r == mime_type_of(mime@),
        has_prefix(ascii_lower(trim(mime@)), "video/"@) ==> r == Some(FileType::Video),
        has_prefix(ascii_lower(trim(mime@)), "audio/"@) ==> r == Some(FileType::Audio),
        has_prefix(ascii_lower(trim(mime@)), "image/"@) ==> r == Some(FileType::Image),
        has_prefix(ascii_lower(trim(mime@)), "text/"@) ==> r == Some(FileType::Document),
{
    proof {
        lemma_mime_families(mime@);
    }
    let m = to_ascii_lower(&trim_chars(&chars_of(mime)));
    mime_kind_of(&m)
}

/// Classifies a file name: an informative MIME type wins, otherwise the extension decides.
pub fn classify(name: &str, mime: Option<&str>) -> (t: FileType)
    ensures
        mime matches Some(m) && has_prefix(ascii_lower(trim(m@)), "video/"@) ==> t == FileType::Video,
        mime matches Some(m) && has_prefix(ascii_lower(trim(m@)), "audio/"@) ==> t == FileType::Audio,
        mime matches Some(m) && has_prefix(ascii_lower(trim(m@)), "image/"@) ==> t == FileType::Image,
        mime matches Some(m) && has_prefix(ascii_lower(trim(m@)), "text/"@) ==> t == FileType::Document,
        t == classified(
            name@,
            match mime {
                Some(m) => Some(m@),
                None => None,
            },
        ),
{
    proof {
        if let Some(m) = mime {
            lemma_mime_families(m@);
        }
    }
    if let Some(m) = mime {
        if let Some(ft) = from_mime(m) {
            return ft;
        }
    }
    let e = ext_lower(name);
    from_ext(e.as_str())
}

/// Classifies a drive entry: folders are folders, files go by MIME type and name.
pub fn classify_file(f: &File) -> (t: FileType)
    ensures
        t == if crate::text::contains(f.kind@, "folder"@) {
            FileType::Folder
        } else {
            classified(
                f.name@,
                match f.mime_type {
                    Some(m) => Some(m@),
                    None => None,
                },
            )
        },
{
    if f.is_folder() {
        return FileType::Folder;
    }
    match &f.mime_type {
        Some(m) => classify(f.name.as_str(), Some(m.as_str())),
        None => classify(f.name.as_str(), None),
    }
}

/// Whether the file name has a common subtitle extension.
pub fn is_subtitle(name: &str) -> (b: bool)
    ensures
        b == subtitle_exts().contains(ext_of(name@)),
{
    let e = ext_lower(name);
    let subtitle: [&str; 7] = ["ass", "ssa", "srt", "sub", "vtt", "sbv", "sup"];
    assert(views(subtitle@) == subtitle_exts());
    in_list(&chars_of(e.as_str()), &subtitle)
}

} // verus!
