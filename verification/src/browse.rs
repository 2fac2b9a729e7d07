//! The rows the file browser shows: the current folder's files (or the search
//! results) that match the filter box and are not hidden, folders first, each
//! group ordered by the chosen column.

use vstd::prelude::*;

use crate::text::{
    chars_of, contains, contains_chars, to_lowercase, trim, trim_chars, unicode_lowercase,
    string_from_chars,
};
use crate::types::{opt_view, File};

verus! {

/// The column the list is ordered by.
#[derive(Debug, Clone, Copy, PartialEq, Eq)]
pub enum SortBy {
    Name,
    Size,
    Modified,
}

/// Lexicographic order of two texts by character code: -1, 0 or 1.
pub open spec fn lex(a: Seq<char>, b: Seq<char>) -> int
    decreases a.len(),
{
    if a.len() == 0 {
        if b.len() == 0 {
            0
        } else {
            -1
        }
    } else if b.len() == 0 {
        1
    } else if (a[0] as u32) < (b[0] as u32) {
        -1
    } else if (a[0] as u32) > (b[0] as u32) {
        1
    } else {
        lex(a.drop_first(), b.drop_first())
    }
}

/// Order of two optional texts: a missing one comes first.
pub open spec fn opt_lex(a: Option<Seq<char>>, b: Option<Seq<char>>) -> int {
    match (a, b) {
        (None, None) => 0,
        (None, Some(_)) => -1,
        (Some(_), None) => 1,
        (Some(x), Some(y)) => lex(x, y),
    }
}

/// The time a file is ordered by: its modification time, else its creation time.
pub open spec fn time_of(f: File) -> Option<Seq<char>> {
    match f.modified_time {
        Some(t) => Some(t@),
        None => opt_view(f.created_time),
    }
}

/// Order of two numbers: -1, 0 or 1.
pub open spec fn sign(a: int, b: int) -> int {
    if a < b {
        -1
    } else if a > b {
        1
    } else {
        0
    }
}

/// Order of two files by a column: names ignoring case, sizes, or times.
pub open spec fn key_order(by: SortBy, a: File, b: File) -> int {
    match by {
        SortBy::Name => lex(unicode_lowercase(a.name@), unicode_lowercase(b.name@)),
        SortBy::Size => sign(a.size as int, b.size as int),
        SortBy::Modified => opt_lex(time_of(a), time_of(b)),
    }
}

/// Ordering by time uses a file's modification time whenever it has one; only a
/// file without one is ordered by its creation time. Two files that both carry
/// a modification time are ordered by those times alone, whatever their
/// creation times.
pub proof fn lemma_modified_time_wins(a: File, b: File)
    ensures
        a.modified_time is Some ==> time_of(a) == Some(a.modified_time->0@),
        a.modified_time is None ==> time_of(a) == opt_view(a.created_time),
        (a.modified_time is Some && b.modified_time is Some) ==> key_order(SortBy::Modified, a, b)
            == lex(a.modified_time->0@, b.modified_time->0@),
        (a.modified_time is Some && b.modified_time is None && b.created_time is Some) ==> key_order(
            SortBy::Modified,
            a,
            b,
        ) == lex(a.modified_time->0@, b.created_time->0@),
        (a.modified_time is None && a.created_time is None && b.modified_time is Some)
            ==> key_order(SortBy::Modified, a, b) == -1,
{
}

/// Whether file `i` is listed before file `j`: by the column (reversed when
/// descending); equal keys keep their order in the folder.
pub open spec fn listed_before(fs: Seq<File>, by: SortBy, desc: bool, i: int, j: int) -> bool {
    let o = if desc {
        -key_order(by, fs[i], fs[j])
    } else {
        key_order(by, fs[i], fs[j])
    };
    o < 0 || (o == 0 && i < j)
}

/// Whether some hidden id is `id`, hidden in folder `cur`.
pub open spec fn hidden_in(hidden: Seq<(String, Option<String>)>, id: Seq<char>, cur: Option<Seq<char>>) -> bool {
    exists|k: int| 0 <= k < hidden.len() && hidden[k].0@ == id && opt_view(hidden[k].1) == cur
}

/// The lower-cased, trimmed filter text (none while showing search results,
/// which are filtered already).
pub open spec fn keyword(search_mode: bool, filter: Seq<char>) -> Seq<char> {
    if search_mode {
        Seq::empty()
    } else {
        unicode_lowercase(trim(filter))
    }
}

/// Whether file `f` is shown: not hidden in the current folder (outside a
/// search), and its lower-cased name holds the keyword.
pub open spec fn shown(
    f: File,
    search_mode: bool,
    kw: Seq<char>,
    hidden: Seq<(String, Option<String>)>,
    cur: Option<Seq<char>>,
) -> bool {
    &&& !(!search_mode && hidden_in(hidden, f.id@, cur))
    &&& (kw.len() == 0 || contains(unicode_lowercase(f.name@), kw))
}

/// Whether a list of row indices is in listing order with no repeats.
pub open spec fn in_listing_order(r: Seq<usize>, fs: Seq<File>, by: SortBy, desc: bool) -> bool {
    forall|a: int, b: int|
        0 <= a < b < r.len() ==> listed_before(fs, by, desc, r[a] as int, r[b] as int)
}

proof fn lemma_lex_props(a: Seq<char>, b: Seq<char>, c: Seq<char>)
    ensures
        lex(a, b) == -lex(b, a),
        lex(a, b) == 0 <==> a == b,
        -1 <= lex(a, b) <= 1,
        lex(a, b) < 0 && lex(b, c) < 0 ==> lex(a, c) < 0,
    decreases a.len(),
{
    if a.len() > 0 && b.len() > 0 {
        lemma_lex_props(a.drop_first(), b.drop_first(), if c.len() > 0 {
            c.drop_first()
        } else {
            c
        });
        if (a[0] as u32) == (b[0] as u32) {
            vstd::utf8::char_u32_cast(a[0], a[0] as u32);
            vstd::utf8::char_u32_cast(b[0], b[0] as u32);
            assert(a[0] == b[0]);
            if a.drop_first() == b.drop_first() {
                assert(a =~= seq![a[0]] + a.drop_first());
                assert(b =~= seq![b[0]] + b.drop_first());
            }
        }
        if c.len() > 0 && lex(a, b) < 0 && lex(b, c) < 0 {
            if (a[0] as u32) == (b[0] as u32) && (b[0] as u32) == (c[0] as u32) {
                lemma_lex_props(a.drop_first(), b.drop_first(), c.drop_first());
            }
        }
    } else if a.len() == 0 && b.len() == 0 {
        assert(a =~= b);
    }
}

proof fn lemma_key_order(by: SortBy, a: File, b: File, c: File)
    ensures
        key_order(by, a, b) == -key_order(by, b, a),
        -1 <= key_order(by, a, b) <= 1,
        key_order(by, a, b) < 0 && key_order(by, b, c) < 0 ==> key_order(by, a, c) < 0,
        key_order(by, a, b) == 0 && key_order(by, b, c) == 0 ==> key_order(by, a, c) == 0,
        key_order(by, a, b) == 0 && key_order(by, b, c) < 0 ==> key_order(by, a, c) < 0,
        key_order(by, a, b) < 0 && key_order(by, b, c) == 0 ==> key_order(by, a, c) < 0,
{
    match by {
        SortBy::Name => {
            let (x, y, z) = (unicode_lowercase(a.name@), unicode_lowercase(b.name@), unicode_lowercase(c.name@));
            lemma_lex_props(x, y, z);
            lemma_lex_props(y, z, x);
            lemma_lex_props(x, z, y);
        },
        SortBy::Size => {},
        SortBy::Modified => {
            let (x, y, z) = (time_of(a), time_of(b), time_of(c));
            if x is Some && y is Some && z is Some {
                lemma_lex_props(x.unwrap(), y.unwrap(), z.unwrap());
                lemma_lex_props(y.unwrap(), z.unwrap(), x.unwrap());
                lemma_lex_props(x.unwrap(), z.unwrap(), y.unwrap());
            } else if x is Some && y is Some {
                lemma_lex_props(x.unwrap(), y.unwrap(), x.unwrap());
            } else if y is Some && z is Some {
                lemma_lex_props(y.unwrap(), z.unwrap(), y.unwrap());
            } else if x is Some && z is Some {
                lemma_lex_props(x.unwrap(), z.unwrap(), x.unwrap());
            }
        },
    }
}

/// The listing order is a strict total order: no row comes before itself, of
/// two different rows exactly one comes first, and it is transitive.
pub proof fn lemma_listed_before(fs: Seq<File>, by: SortBy, desc: bool, i: int, j: int, k: int)
    requires
        0 <= i < fs.len(),
        0 <= j < fs.len(),
        0 <= k < fs.len(),
    ensures
        i != j ==> (listed_before(fs, by, desc, i, j) <==> !listed_before(fs, by, desc, j, i)),
        !listed_before(fs, by, desc, i, i),
        listed_before(fs, by, desc, i, j) && listed_before(fs, by, desc, j, k) ==> listed_before(fs, by, desc, i, k),
{
    lemma_key_order(by, fs[i], fs[j], fs[k]);
    lemma_key_order(by, fs[j], fs[k], fs[i]);
    lemma_key_order(by, fs[i], fs[k], fs[j]);
    lemma_key_order(by, fs[k], fs[j], fs[i]);
    lemma_key_order(by, fs[j], fs[i], fs[k]);
    lemma_key_order(by, fs[k], fs[i], fs[j]);
    lemma_key_order(by, fs[i], fs[i], fs[i]);
}

/// Lexicographic order of two character slices: -1, 0 or 1.
fn lex_chars(a: &[char], b: &[char]) -> (r: i8)
    ensures
        r == lex(a@, b@),
{
    let mut i: usize = 0;
    assert(a@.skip(0) == a@ && b@.skip(0) == b@);
    while i < a.len() && i < b.len()
        invariant
            0 <= i <= a@.len(),
            i <= b@.len(),
            lex(a@, b@) == lex(a@.skip(i as int), b@.skip(i as int)),
        decreases a@.len() - i,
    {
        let x = a[i] as u32;
        let y = b[i] as u32;
        proof {
            assert(a@.skip(i as int)[0] == a@[i as int]);
            assert(b@.skip(i as int)[0] == b@[i as int]);
            assert(a@.skip(i as int).drop_first() == a@.skip(i + 1));
            assert(b@.skip(i as int).drop_first() == b@.skip(i + 1));
        }
        if x < y {
            return -1;
        }
        if x > y {
            return 1;
        }
        i += 1;
    }
    if i < a.len() {
        1
    } else if i < b.len() {
        -1
    } else {
        0
    }
}

/// Order of two optional texts: a missing one comes first.
fn opt_lex_exec(a: &Option<String>, b: &Option<String>) -> (r: i8)
    ensures
        r == opt_lex(opt_view(*a), opt_view(*b)),
{
    match (a, b) {
        (None, None) => 0,
        (None, Some(_)) => -1,
        (Some(_), None) => 1,
        (Some(x), Some(y)) => {
            let xs = chars_of(x.as_str());
            let ys = chars_of(y.as_str());
            lex_chars(&xs, &ys)
        },
    }
}

/// The ordering time of a file: its modification time, else its creation time.
fn time_ref(f: &File) -> (r: &Option<String>)
    ensures
        opt_view(*r) == time_of(*f),
        f.modified_time is Some ==> *r == f.modified_time,
        f.modified_time is None ==> *r == f.created_time,
{
    if f.modified_time.is_some() {
        &f.modified_time
    } else {
        &f.created_time
    }
}

/// Order of files `a` and `b` (whose lower-cased names are `la`, `lb`) by a column.
fn key_order_exec(by: SortBy, a: &File, b: &File, la: &Vec<char>, lb: &Vec<char>) -> (r: i8)
    requires
        la@ == unicode_lowercase(a.name@),
        lb@ == unicode_lowercase(b.name@),
    ensures
        r == key_order(by, *a, *b),
{
    match by {
        SortBy::Name => lex_chars(la, lb),
        SortBy::Size => if a.size < b.size {
            -1
        } else if a.size > b.size {
            1
        } else {
            0
        },
        SortBy::Modified => opt_lex_exec(time_ref(a), time_ref(b)),
    }
}

/// Whether row `i` is listed before row `j`.
fn listed_before_exec(
    files: &[File],
    lows: &Vec<Vec<char>>,
    by: SortBy,
    desc: bool,
    i: usize,
    j: usize,
) -> (b: bool)
    requires
        i < files@.len(),
        j < files@.len(),
        lows@.len() == files@.len(),
        forall|k: int| 0 <= k < files@.len() ==> (#[trigger] lows@[k])@ == unicode_lowercase(files@[k].name@),
    ensures
        b == listed_before(files@, by, desc, i as int, j as int),
{
    proof {
        lemma_key_order(by, files@[i as int], files@[j as int], files@[j as int]);
    }
    let o = key_order_exec(by, &files[i], &files[j], &lows[i], &lows[j]);
    let o2 = if desc {
        -o
    } else {
        o
    };
    o2 < 0 || (o2 == 0 && i < j)
}

/// Puts row `x` into `r` at its place in listing order.
fn insert_row(
    r: &mut Vec<usize>,
    x: usize,
    files: &[File],
    lows: &Vec<Vec<char>>,
    by: SortBy,
    desc: bool,
)
    requires
        x < files@.len(),
        lows@.len() == files@.len(),
        forall|k: int| 0 <= k < files@.len() ==> (#[trigger] lows@[k])@ == unicode_lowercase(files@[k].name@),
        in_listing_order(old(r)@, files@, by, desc),
        forall|a: int| 0 <= a < old(r)@.len() ==> (#[trigger] old(r)@[a]) < files@.len() && old(r)@[a] != x,
    ensures
        in_listing_order(final(r)@, files@, by, desc),
        forall|a: int| 0 <= a < final(r)@.len() ==> (#[trigger] final(r)@[a]) < files@.len(),
        forall|y: usize| final(r)@.contains(y) <==> (old(r)@.contains(y) || y == x),
{
    let ghost r0 = r@;
    let mut p: usize = 0;
    while p < r.len() && !listed_before_exec(files, lows, by, desc, x, r[p])
        invariant
            r@ == r0,
            0 <= p <= r@.len(),
            x < files@.len(),
            lows@.len() == files@.len(),
            forall|k: int| 0 <= k < files@.len() ==> (#[trigger] lows@[k])@ == unicode_lowercase(files@[k].name@),
            forall|a: int| 0 <= a < r@.len() ==> (#[trigger] r@[a]) < files@.len() && r@[a] != x,
            forall|a: int| 0 <= a < p ==> listed_before(files@, by, desc, #[trigger] r@[a] as int, x as int),
        decreases r@.len() - p,
    {
        proof {
            lemma_listed_before(files@, by, desc, x as int, r@[p as int] as int, x as int);
        }
        p += 1;
    }
    r.insert(p, x);
    proof {
        let r1 = r@;
        assert forall|a: int, b: int| 0 <= a < b < r1.len() implies listed_before(
            files@,
            by,
            desc,
            r1[a] as int,
            r1[b] as int,
        ) by {
            if b < p {
                assert(r1[a] == r0[a] && r1[b] == r0[b]);
            } else if b == p {
                assert(r1[b] == x && r1[a] == r0[a]);
            } else if a < p {
                assert(r1[a] == r0[a] && r1[b] == r0[b - 1]);
            } else if a == p {
                assert(r1[a] == x && r1[b] == r0[b - 1]);
                assert(listed_before(files@, by, desc, x as int, r0[p as int] as int));
                if b - 1 > p {
                    lemma_listed_before(files@, by, desc, x as int, r0[p as int] as int, r0[b - 1] as int);
                }
            } else {
                assert(r1[a] == r0[a - 1] && r1[b] == r0[b - 1]);
            }
        }
        assert forall|y: usize| r1.contains(y) <==> (r0.contains(y) || y == x) by {
            if r1.contains(y) {
                let w = choose|w: int| 0 <= w < r1.len() && r1[w] == y;
                if w < p {
                    assert(r0[w] == y);
                } else if w > p {
                    assert(r0[w - 1] == y);
                }
            }
            if r0.contains(y) {
                let w = choose|w: int| 0 <= w < r0.len() && r0[w] == y;
                if w < p {
                    assert(r1[w] == y);
                } else {
                    assert(r1[w + 1] == y);
                }
            }
            if y == x {
                assert(r1[p as int] == x);
            }
        }
    }
}

/// Whether `id` is hidden in folder `cur`.
fn is_hidden(hidden: &[(String, Option<String>)], id: &str, cur: &Option<String>) -> (b: bool)
    ensures
        b == hidden_in(hidden@, id@, opt_view(*cur)),
{
    let mut k: usize = 0;
    while k < hidden.len()
        invariant
            0 <= k <= hidden@.len(),
            forall|q: int| 0 <= q < k ==> !((#[trigger] hidden@[q]).0@ == id@ && opt_view(hidden@[q].1) == opt_view(*cur)),
        decreases hidden@.len() - k,
    {
        if crate::text::str_eq(hidden[k].0.as_str(), id) && crate::dircache::opt_str_eq(&hidden[k].1, cur) {
            return true;
        }
        k += 1;
    }
    false
}

/// Rows below `i`, with at most row `i` added, stay below `i + 1`.
proof fn lemma_rows_below(r0: Seq<usize>, r1: Seq<usize>, i: usize)
    requires
        forall|a: int| 0 <= a < r0.len() ==> (#[trigger] r0[a]) < i,
        forall|y: usize| r1.contains(y) ==> (r0.contains(y) || y == i),
    ensures
        forall|a: int| 0 <= a < r1.len() ==> (#[trigger] r1[a]) < i + 1,
{
    assert forall|a: int| 0 <= a < r1.len() implies (#[trigger] r1[a]) < i + 1 by {
        assert(r1.contains(r1[a]));
        if r0.contains(r1[a]) {
            let w = choose|w: int| 0 <= w < r0.len() && r0[w] == r1[a];
        }
    }
}

/// The rows to show, folders and other files apart, each in listing order:
/// a row is shown unless it is hidden in the current folder `cur` (outside a
/// search) or its lower-cased name lacks the lower-cased, trimmed `filter`
/// (ignored while showing search results). Rows are given by their index in
/// `files`; equal keys keep the folder's order, also when descending.
pub fn visible_rows(
    files: &[File],
    search_mode: bool,
    filter: &str,
    hidden: &[(String, Option<String>)],
    cur: &Option<String>,
    by: SortBy,
    desc: bool,
) -> (r: (Vec<usize>, Vec<usize>))
    ensures
        in_listing_order(r.0@, files@, by, desc),
        in_listing_order(r.1@, files@, by, desc),
        forall|i: usize|
            r.0@.contains(i) <==> (i < files@.len() && shown(
                files@[i as int],
                search_mode,
                keyword(search_mode, filter@),
                hidden@,
                opt_view(*cur),
            ) && contains(files@[i as int].kind@, "folder"@)),
        forall|i: usize|
            r.1@.contains(i) <==> (i < files@.len() && shown(
                files@[i as int],
                search_mode,
                keyword(search_mode, filter@),
                hidden@,
                opt_view(*cur),
            ) && !contains(files@[i as int].kind@, "folder"@)),
{
    let kw: Vec<char> = if search_mode {
        Vec::new()
    } else {
        let trimmed = trim_chars(&chars_of(filter));
        let t = string_from_chars(&trimmed);
        chars_of(to_lowercase(t.as_str()).as_str())
    };
    proof {
        assert(kw@ == keyword(search_mode, filter@));
    }
    let mut lows: Vec<Vec<char>> = Vec::new();
    let mut i: usize = 0;
    while i < files.len()
        invariant
            0 <= i <= files@.len(),
            lows@.len() == i,
            forall|k: int| 0 <= k < i ==> (#[trigger] lows@[k])@ == unicode_lowercase(files@[k].name@),
        decreases files@.len() - i,
    {
        lows.push(chars_of(to_lowercase(files[i].name.as_str()).as_str()));
        i += 1;
    }
    let mut folders: Vec<usize> = Vec::new();
    let mut plain: Vec<usize> = Vec::new();
    let mut i: usize = 0;
    while i < files.len()
        invariant
            0 <= i <= files@.len(),
            kw@ == keyword(search_mode, filter@),
            lows@.len() == files@.len(),
            forall|k: int| 0 <= k < files@.len() ==> (#[trigger] lows@[k])@ == unicode_lowercase(files@[k].name@),
            in_listing_order(folders@, files@, by, desc),
            in_listing_order(plain@, files@, by, desc),
            forall|a: int| 0 <= a < folders@.len() ==> (#[trigger] folders@[a]) < i,
            forall|a: int| 0 <= a < plain@.len() ==> (#[trigger] plain@[a]) < i,
            forall|x: usize|
                folders@.contains(x) <==> (x < i && shown(files@[x as int], search_mode, kw@, hidden@, opt_view(*cur))
                    && contains(files@[x as int].kind@, "folder"@)),
            forall|x: usize|
                plain@.contains(x) <==> (x < i && shown(files@[x as int], search_mode, kw@, hidden@, opt_view(*cur))
                    && !contains(files@[x as int].kind@, "folder"@)),
        decreases files@.len() - i,
    {
        let f = &files[i];
        let hid = !search_mode && is_hidden(hidden, f.id.as_str(), cur);
        let hit = kw.len() == 0 || contains_chars(&lows[i], &kw);
        let ghost f0 = folders@;
        let ghost p0 = plain@;
        if !hid && hit {
            if f.is_folder() {
                insert_row(&mut folders, i, files, &lows, by, desc);
            } else {
                insert_row(&mut plain, i, files, &lows, by, desc);
            }
        }
        proof {
            lemma_rows_below(f0, folders@, i);
            lemma_rows_below(p0, plain@, i);
        }
        i += 1;
    }
    (folders, plain)
}

/// Whether the ids are distinct (a selection is a set).
pub open spec fn distinct_ids(ids: Seq<String>) -> bool {
    forall|a: int, b: int| 0 <= a < b < ids.len() ==> ids[a]@ != ids[b]@
}

/// Whether `id` is among `ids`.
pub open spec fn has_id(ids: Seq<String>, id: Seq<char>) -> bool {
    exists|k: int| 0 <= k < ids.len() && ids[k]@ == id
}

/// Whether `id` is among `ids`.
pub fn contains_id(ids: &[String], id: &str) -> (b: bool)
    ensures
        b == has_id(ids@, id@),
{
    let mut k: usize = 0;
    while k < ids.len()
        invariant
            0 <= k <= ids@.len(),
            forall|q: int| 0 <= q < k ==> (#[trigger] ids@[q])@ != id@,
        decreases ids@.len() - k,
    {
        if crate::text::str_eq(ids[k].as_str(), id) {
            return true;
        }
        k += 1;
    }
    false
}

/// The selected files' ids, in list order.
pub open spec fn selected_in_order(files: Seq<File>, selected: Seq<String>) -> Seq<Seq<char>> {
    files.filter(|f: File| has_id(selected, f.id@)).map_values(|f: File| f.id@)
}

/// The ids of the listed files that are selected, in list order.
pub fn selected_ids(files: &[File], selected: &[String]) -> (r: Vec<String>)
    ensures
        r@.map_values(|s: String| s@) == selected_in_order(files@, selected@),
{
    let ghost pred = |f: File| has_id(selected@, f.id@);
    let mut r: Vec<String> = Vec::new();
    let mut i: usize = 0;
    while i < files.len()
        invariant
            0 <= i <= files@.len(),
            pred == (|f: File| has_id(selected@, f.id@)),
            r@.map_values(|s: String| s@) == files@.take(i as int).filter(pred).map_values(|f: File| f.id@),
        decreases files@.len() - i,
    {
        proof {
            assert(files@.take(i + 1) == files@.take(i as int).push(files@[i as int]));
            files@.take(i as int).lemma_filter_push(files@[i as int], pred);
        }
        let ghost r0 = r@;
        if contains_id(selected, files[i].id.as_str()) {
            r.push(files[i].id.clone());
            proof {
                assert(r@.map_values(|s: String| s@) =~= r0.map_values(|s: String| s@).push(files@[i as int].id@));
            }
        }
        i += 1;
    }
    assert(files@.take(files@.len() as int) == files@);
    r
}

/// Which of the selected files a list of names is about.
#[derive(Debug, Clone, Copy, PartialEq, Eq)]
pub enum Pick {
    /// Every selected entry.
    All,
    /// Selected files, folders left out (what can be downloaded one by one).
    Plain,
    /// Selected folders.
    Folders,
}

/// Whether file `f` is picked: selected, and of the kind asked for.
pub open spec fn picked(selected: Seq<String>, which: Pick, f: File) -> bool {
    has_id(selected, f.id@) && match which {
        Pick::All => true,
        Pick::Plain => !contains(f.kind@, "folder"@),
        Pick::Folders => contains(f.kind@, "folder"@),
    }
}

/// The (id, name) of each picked file, in list order.
pub open spec fn picked_names(files: Seq<File>, selected: Seq<String>, which: Pick) -> Seq<(Seq<char>, Seq<char>)> {
    files.filter(|f: File| picked(selected, which, f)).map_values(|f: File| (f.id@, f.name@))
}

/// The id and name of each picked file in list order (to share, to
/// download, or to download as whole folders).
pub fn selected_names(files: &[File], selected: &[String], which: Pick) -> (r: Vec<(String, String)>)
    ensures
        r@.map_values(|p: (String, String)| (p.0@, p.1@)) == picked_names(files@, selected@, which),
{
    let ghost pred = |f: File| picked(selected@, which, f);
    let mut r: Vec<(String, String)> = Vec::new();
    let mut i: usize = 0;
    while i < files.len()
        invariant
            0 <= i <= files@.len(),
            pred == (|f: File| picked(selected@, which, f)),
            r@.map_values(|p: (String, String)| (p.0@, p.1@)) == files@.take(i as int).filter(pred).map_values(
                |f: File| (f.id@, f.name@),
            ),
        decreases files@.len() - i,
    {
        proof {
            assert(files@.take(i + 1) == files@.take(i as int).push(files@[i as int]));
            files@.take(i as int).lemma_filter_push(files@[i as int], pred);
        }
        let ghost r0 = r@;
        let f = &files[i];
        let kind_ok = match which {
            Pick::All => true,
            Pick::Plain => !f.is_folder(),
            Pick::Folders => f.is_folder(),
        };
        if kind_ok && contains_id(selected, f.id.as_str()) {
            r.push((f.id.clone(), f.name.clone()));
            proof {
                assert(r@.map_values(|p: (String, String)| (p.0@, p.1@)) =~= r0.map_values(
                    |p: (String, String)| (p.0@, p.1@),
                ).push((files@[i as int].id@, files@[i as int].name@)));
            }
        }
        i += 1;
    }
    assert(files@.take(files@.len() as int) == files@);
    r
}

/// What a context-menu "share" on `id` shares: the whole selection when `id`
/// is part of a selection of several, else the listed file(s) with that id.
pub fn share_targets(files: &[File], selected: &[String], id: &str) -> (r: Vec<(String, String)>)
    requires
        distinct_ids(selected@),
    ensures
        has_id(selected@, id@) && selected@.len() > 1 ==> r@.map_values(|p: (String, String)| (p.0@, p.1@))
            == picked_names(files@, selected@, Pick::All),
        !(has_id(selected@, id@) && selected@.len() > 1) ==> r@.map_values(|p: (String, String)| (p.0@, p.1@))
            == files@.filter(|f: File| f.id@ == id@).map_values(|f: File| (f.id@, f.name@)),
{
    if contains_id(selected, id) && selected.len() > 1 {
        return selected_names(files, selected, Pick::All);
    }
    let ghost pred = |f: File| f.id@ == id@;
    let mut r: Vec<(String, String)> = Vec::new();
    let mut i: usize = 0;
    while i < files.len()
        invariant
            0 <= i <= files@.len(),
            pred == (|f: File| f.id@ == id@),
            r@.map_values(|p: (String, String)| (p.0@, p.1@)) == files@.take(i as int).filter(pred).map_values(
                |f: File| (f.id@, f.name@),
            ),
        decreases files@.len() - i,
    {
        proof {
            assert(files@.take(i + 1) == files@.take(i as int).push(files@[i as int]));
            files@.take(i as int).lemma_filter_push(files@[i as int], pred);
        }
        let ghost r0 = r@;
        if crate::text::str_eq(files[i].id.as_str(), id) {
            r.push((files[i].id.clone(), files[i].name.clone()));
            proof {
                assert(r@.map_values(|p: (String, String)| (p.0@, p.1@)) =~= r0.map_values(
                    |p: (String, String)| (p.0@, p.1@),
                ).push((files@[i as int].id@, files@[i as int].name@)));
            }
        }
        i += 1;
    }
    assert(files@.take(files@.len() as int) == files@);
    r
}

/// Copy or cut.
#[derive(Debug, Clone, Copy, PartialEq, Eq)]
pub enum ClipKind {
    Copy,
    Cut,
}

/// Files copied or cut in one folder, to be pasted into another.
#[derive(Debug)]
pub struct Clipboard {
    pub kind: ClipKind,
    pub ids: Vec<String>,
    /// The folder they were taken from (`None` is the root).
    pub src_parent: Option<String>,
    /// What the notice calls them: the file's name, or "n 项".
    pub label: String,
}

/// The files a context-menu action on `id` works on: the whole selection when
/// `id` is part of a selection of several, else `id` alone.
pub fn clip_targets(files: &[File], selected: &[String], id: String) -> (r: Vec<String>)
    requires
        distinct_ids(selected@),
    ensures
        has_id(selected@, id@) && selected@.len() > 1 ==> r@.map_values(|s: String| s@)
            == selected_in_order(files@, selected@),
        !(has_id(selected@, id@) && selected@.len() > 1) ==> r@ == seq![id],
{
    if contains_id(selected, id.as_str()) && selected.len() > 1 {
        selected_ids(files, selected)
    } else {
        vec![id]
    }
}

/// The name the notice gives one file: the listed file with that id (the
/// first one), or "文件" when it is not listed.
pub open spec fn name_of(files: Seq<File>, id: Seq<char>) -> Seq<char> {
    if exists|k: int| 0 <= k < files.len() && files[k].id@ == id {
        files[choose|k: int| 0 <= k < files.len() && files[k].id@ == id && forall|q: int| 0 <= q < k ==> files[q].id@ != id].name@
    } else {
        "文件"@
    }
}

/// The label of a clipboard: one file's name, else the count ("n 项").
pub open spec fn clip_label_text(files: Seq<File>, ids: Seq<String>) -> Seq<char> {
    if ids.len() == 1 {
        name_of(files, ids[0]@)
    } else {
        crate::text::dec(ids.len()) + " 项"@
    }
}

/// Puts `ids`, taken from folder `src_parent`, on the clipboard. Nothing is
/// taken when `ids` is empty.
pub fn make_clipboard(kind: ClipKind, ids: Vec<String>, src_parent: Option<String>, files: &[File]) -> (c: Option<Clipboard>)
    requires
        ids@.len() <= u64::MAX,
    ensures
        ids@.len() == 0 ==> c is None,
        ids@.len() > 0 ==> (c matches Some(cb) && cb.kind == kind && cb.ids@ == ids@ && cb.src_parent == src_parent
            && cb.label@ == clip_label_text(files@, ids@)),
{
    if ids.len() == 0 {
        return None;
    }
    let label = if ids.len() == 1 {
        let mut k: usize = 0;
        let mut found: Option<usize> = None;
        while k < files.len()
            invariant
                0 <= k <= files@.len(),
                ids@.len() == 1,
                found is None ==> forall|q: int| 0 <= q < k ==> (#[trigger] files@[q]).id@ != ids@[0]@,
                found matches Some(w) ==> w < files@.len() && files@[w as int].id@ == ids@[0]@ && forall|q: int|
                    0 <= q < w ==> (#[trigger] files@[q]).id@ != ids@[0]@,
            decreases files@.len() - k,
        {
            if found.is_none() && crate::text::str_eq(files[k].id.as_str(), ids[0].as_str()) {
                found = Some(k);
            }
            k += 1;
        }
        match found {
            Some(w) => {
                proof {
                    let id = ids@[0]@;
                    assert(exists|q: int| 0 <= q < files@.len() && files@[q].id@ == id);
                    let c = choose|q: int| 0 <= q < files@.len() && files@[q].id@ == id && forall|p: int| 0 <= p < q ==> files@[p].id@ != id;
                    assert(files@[w as int].id@ == id);
                    if c < w {
                        assert(files@[c].id@ != id);
                    } else if c > w {
                        assert(files@[w as int].id@ != id);
                    }
                }
                files[w].name.clone()
            },
            None => {
                proof {
                    let id = ids@[0]@;
                    assert(!exists|q: int| 0 <= q < files@.len() && files@[q].id@ == id);
                }
                "文件".to_owned()
            },
        }
    } else {
        let mut t: Vec<char> = Vec::new();
        crate::text::push_dec(&mut t, ids.len() as u64);
        crate::text::push_str(&mut t, " 项");
        string_from_chars(&t)
    };
    Some(Clipboard { kind, ids, src_parent, label })
}

/// What pasting does.
#[derive(Debug, Clone, PartialEq, Eq)]
pub enum Paste {
    /// Nothing was copied or cut.
    Empty,
    /// The target is one of the folders being pasted.
    IntoItself,
    /// Cut files would go back to their own folder.
    SameFolder,
    /// Copy the ids into the target.
    Copy,
    /// Move the ids from the source folder into the target; the clipboard
    /// is used up.
    Move,
}

/// What pasting the clipboard into folder `dest` does: refused when the
/// target is one of the pasted folders, or when cut files would stay where
/// they are; otherwise copied, or moved (emptying the clipboard).
pub fn paste_into(clip: &Option<Clipboard>, dest: &Option<String>) -> (p: Paste)
    ensures
        p == match clip {
            None => Paste::Empty,
            Some(c) => if dest is Some && has_id(c.ids@, dest.unwrap()@) {
                Paste::IntoItself
            } else if c.kind == ClipKind::Cut && opt_view(*dest) == opt_view(c.src_parent) {
                Paste::SameFolder
            } else if c.kind == ClipKind::Copy {
                Paste::Copy
            } else {
                Paste::Move
            },
        },
{
    let c = match clip {
        None => return Paste::Empty,
        Some(c) => c,
    };
    if let Some(d) = dest {
        if contains_id(&c.ids, d.as_str()) {
            return Paste::IntoItself;
        }
    }
    match c.kind {
        ClipKind::Cut => {
            if crate::dircache::opt_str_eq(dest, &c.src_parent) {
                Paste::SameFolder
            } else {
                Paste::Move
            }
        },
        ClipKind::Copy => Paste::Copy,
    }
}

/// Adds `s` to a list of distinct ids unless it is there.
pub fn insert_id(v: &mut Vec<String>, s: String)
    requires
        distinct_ids(old(v)@),
    ensures
        distinct_ids(final(v)@),
        forall|t: Seq<char>| has_id(final(v)@, t) <==> (has_id(old(v)@, t) || t == s@),
{
    if contains_id(v.as_slice(), s.as_str()) {
        return;
    }
    let ghost sv = s@;
    v.push(s);
    proof {
        let o = old(v)@;
        assert forall|t: Seq<char>| has_id(v@, t) <==> (has_id(o, t) || t == sv) by {
            if has_id(o, t) {
                let k = choose|k: int| 0 <= k < o.len() && o[k]@ == t;
                assert(v@[k] == o[k]);
            }
            if t == sv {
                assert(v@[o.len() as int]@ == t);
            }
            if has_id(v@, t) {
                let k = choose|k: int| 0 <= k < v@.len() && v@[k]@ == t;
                if k < o.len() {
                    assert(v@[k] == o[k]);
                }
            }
        }
        assert forall|a: int, b: int| 0 <= a < b < v@.len() implies v@[a]@ != v@[b]@ by {
            if b == o.len() {
                assert(v@[a] == o[a]);
                assert(!has_id(o, sv));
            } else {
                assert(v@[a] == o[a]);
                assert(v@[b] == o[b]);
            }
        }
    }
}

/// Takes `s` out of a list of distinct ids.
pub fn remove_id(v: &mut Vec<String>, s: &str)
    requires
        distinct_ids(old(v)@),
    ensures
        distinct_ids(final(v)@),
        forall|t: Seq<char>| has_id(final(v)@, t) <==> (has_id(old(v)@, t) && t != s@),
{
    let ghost o = v@;
    let ghost pred = |x: String| x@ != s@;
    let mut rest: Vec<String> = Vec::new();
    std::mem::swap(&mut rest, v);
    let total = rest.len();
    let mut k: usize = 0;
    while rest.len() > 0
        invariant
            total == o.len(),
            0 <= k <= o.len(),
            rest@ == o.subrange(k as int, o.len() as int),
            v@ == o.take(k as int).filter(pred),
            pred == (|x: String| x@ != s@),
        decreases rest@.len(),
    {
        let x = rest.remove(0);
        proof {
            assert(k < o.len());
            assert(x == o[k as int]);
            assert(o.take(k + 1) == o.take(k as int).push(x));
            o.take(k as int).lemma_filter_push(x, pred);
        }
        if !crate::text::str_eq(x.as_str(), s) {
            v.push(x);
        }
        k = k + 1;
        proof {
            assert(rest@ == o.subrange(k as int, o.len() as int));
        }
    }
    proof {
        assert(o.take(k as int) == o);
        let f = o.filter(pred);
        lemma_filter_members(o, pred);
        assert forall|t: Seq<char>| has_id(f, t) <==> (has_id(o, t) && t != s@) by {
            if has_id(f, t) {
                let q = choose|q: int| 0 <= q < f.len() && f[q]@ == t;
                assert(f.contains(f[q]));
                assert(o.contains(f[q]) && pred(f[q]));
                let j = choose|j: int| 0 <= j < o.len() && o[j] == f[q];
                assert(o[j]@ == t);
            }
            if has_id(o, t) && t != s@ {
                let j = choose|j: int| 0 <= j < o.len() && o[j]@ == t;
                assert(o.contains(o[j]) && pred(o[j]));
                assert(f.contains(o[j]));
                let q = choose|q: int| 0 <= q < f.len() && f[q] == o[j];
                assert(f[q]@ == t);
            }
        }
        lemma_filter_distinct(o, pred);
    }
}

/// What a filter keeps is exactly what it is given and lets through.
proof fn lemma_filter_members(o: Seq<String>, pred: spec_fn(String) -> bool)
    ensures
        forall|x: String| o.filter(pred).contains(x) <==> (o.contains(x) && pred(x)),
{
    assert forall|x: String| o.filter(pred).contains(x) <==> (o.contains(x) && pred(x)) by {
        if o.contains(x) && pred(x) {
            let j = choose|j: int| 0 <= j < o.len() && o[j] == x;
            o.lemma_filter_contains(pred, j);
        }
        if o.filter(pred).contains(x) {
            o.lemma_filter_contains_rev(pred, x);
            let q = choose|q: int| 0 <= q < o.filter(pred).len() && o.filter(pred)[q] == x;
            o.lemma_filter_pred(pred, q);
        }
    }
}

/// Filtering keeps the strings distinct.
proof fn lemma_filter_distinct(o: Seq<String>, pred: spec_fn(String) -> bool)
    requires
        distinct_ids(o),
    ensures
        distinct_ids(o.filter(pred)),
    decreases o.len(),
{
    reveal(Seq::filter);
    if o.len() > 0 {
        let init = o.drop_last();
        assert forall|a: int, b: int| 0 <= a < b < init.len() implies init[a]@ != init[b]@ by {
            assert(init[a] == o[a]);
            assert(init[b] == o[b]);
        }
        lemma_filter_distinct(init, pred);
        if pred(o.last()) {
            let f = init.filter(pred);
            lemma_filter_members(init, pred);
            assert forall|a: int| 0 <= a < f.len() implies (#[trigger] f[a])@ != o.last()@ by {
                assert(f.contains(f[a]));
                assert(init.contains(f[a]));
                let j = choose|j: int| 0 <= j < init.len() && init[j] == f[a];
                assert(o[j] == init[j]);
                assert(o[j]@ != o[o.len() - 1]@);
            }
        }
    }
}

} // verus!
