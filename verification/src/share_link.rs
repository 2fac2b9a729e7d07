//! Reading a share id (and an access code) out of what the user pasted.

use vstd::prelude::*;

use crate::text::{
    chars_eq_str, chars_of, contains, contains_chars, is_whitespace, is_ws, occurs_at,
    occurs_at_exec, slice_chars, string_from_chars, trim, trim_chars,
};

verus! {

/// Characters a share id may consist of: ASCII letters and digits, `-` and `_`.
pub open spec fn is_id_char(c: char) -> bool {
    ('a' <= c <= 'z') || ('A' <= c <= 'Z') || ('0' <= c <= '9') || c == '-' || c == '_'
}

/// Whether `id` is a valid share id: non-empty, made of id characters.
pub open spec fn valid_share_id(id: Seq<char>) -> bool {
    id.len() > 0 && forall|i: int| 0 <= i < id.len() ==> is_id_char(#[trigger] id[i])
}

/// Length of the longest prefix of `s` made of id characters.
pub open spec fn id_prefix_len(s: Seq<char>) -> nat
    decreases s.len(),
{
    if s.len() > 0 && is_id_char(s[0]) {
        1 + id_prefix_len(s.drop_first())
    } else {
        0
    }
}

/// Index of the first `c` in `s`, or its length.
pub open spec fn first_of(s: Seq<char>, c: char) -> int
    decreases s.len(),
{
    if s.len() == 0 || s[0] == c {
        0
    } else {
        1 + first_of(s.drop_first(), c)
    }
}

/// Index of the first `#` or whitespace character in `s`, or its length.
pub open spec fn query_end(s: Seq<char>) -> int
    decreases s.len(),
{
    if s.len() == 0 || s[0] == '#' || is_ws(s[0]) {
        0
    } else {
        1 + query_end(s.drop_first())
    }
}

/// Start of the last occurrence of `p` in `s` (`str::rfind`).
pub open spec fn rfind(s: Seq<char>, p: Seq<char>) -> Option<int> {
    if exists|i: int| occurs_at(s, p, i) {
        Some(choose|i: int| occurs_at(s, p, i) && forall|j: int| i < j ==> !occurs_at(s, p, j))
    } else {
        None
    }
}

/// The pieces of `s` between occurrences of `c` (`str::split`); an empty `s`
/// is one empty piece.
pub open spec fn split_on(s: Seq<char>, c: char) -> Seq<Seq<char>>
    decreases s.len(),
{
    let k = first_of(s, c);
    if k >= s.len() {
        seq![s]
    } else {
        proof {
            lemma_first_of_range(s, c);
        }
        seq![s.take(k)] + split_on(s.skip(k + 1), c)
    }
}

/// The access code in one `key=value` pair of a query, if the key names one
/// and the trimmed value is not empty.
pub open spec fn pass_code_in_pair(pair: Seq<char>) -> Option<Seq<char>> {
    let k = first_of(pair, '=');
    let key = pair.take(k);
    if (key == "password"@ || key == "pass_code"@ || key == "passcode"@) && k < pair.len() {
        let v = trim(pair.skip(k + 1));
        if v.len() > 0 {
            Some(v)
        } else {
            None
        }
    } else {
        None
    }
}

/// The first access code among the pairs.
pub open spec fn pass_code_in_pairs(pairs: Seq<Seq<char>>) -> Option<Seq<char>>
    decreases pairs.len(),
{
    if pairs.len() == 0 {
        None
    } else {
        match pass_code_in_pair(pairs[0]) {
            Some(v) => Some(v),
            None => pass_code_in_pairs(pairs.drop_first()),
        }
    }
}

/// The query string after the id in `rest` (the text after `/s/`): what
/// follows the first `?`, up to a `#` or whitespace.
pub open spec fn share_query(rest: Seq<char>) -> Option<Seq<char>> {
    let q = first_of(rest, '?');
    if q < rest.len() {
        let after = rest.skip(q + 1);
        Some(after.take(query_end(after)))
    } else {
        None
    }
}

/// The id candidate and query of trimmed, non-empty input: what follows the
/// last `/s/`; `None` for a link without one; else the whole text as a bare id.
pub open spec fn share_candidate(t: Seq<char>) -> Option<(Seq<char>, Option<Seq<char>>)> {
    match rfind(t, seq!['/', 's', '/']) {
        Some(idx) => {
            let rest = t.skip(idx + 3);
            Some((rest.take(id_prefix_len(rest) as int), share_query(rest)))
        },
        None => if contains(t, seq![':', '/', '/']) {
            None
        } else {
            Some((t, None))
        },
    }
}

/// What `parse_share_input` reads from `input`: the share id and the access
/// code carried in the link, if any.
pub open spec fn parsed_share(input: Seq<char>) -> Option<(Seq<char>, Option<Seq<char>>)> {
    let t = trim(input);
    if t.len() == 0 {
        None
    } else {
        match share_candidate(t) {
            Some((id, query)) => if valid_share_id(id) {
                Some(
                    (
                        id,
                        match query {
                            Some(q) => pass_code_in_pairs(split_on(q, '&')),
                            None => None,
                        },
                    ),
                )
            } else {
                None
            },
            None => None,
        }
    }
}

pub proof fn lemma_first_of_range(s: Seq<char>, c: char)
    ensures
        0 <= first_of(s, c) <= s.len(),
        first_of(s, c) < s.len() ==> s[first_of(s, c)] == c,
    decreases s.len(),
{
    if s.len() > 0 && s[0] != c {
        lemma_first_of_range(s.drop_first(), c);
    }
}

/// Index of the first `c` in `s` (or its length).
fn find_char(s: &[char], c: char) -> (k: usize)
    ensures
        k == first_of(s@, c),
{
    let mut k: usize = 0;
    assert(s@.skip(0) == s@);
    while k < s.len() && s[k] != c
        invariant
            0 <= k <= s@.len(),
            first_of(s@, c) == k + first_of(s@.skip(k as int), c),
        decreases s@.len() - k,
    {
        assert(s@.skip(k as int).drop_first() == s@.skip(k + 1));
        k += 1;
    }
    assert(s@.skip(0) == s@);
    k
}

fn query_end_of(s: &[char]) -> (k: usize)
    ensures
        k == query_end(s@),
        k <= s@.len(),
{
    let mut k: usize = 0;
    assert(s@.skip(0) == s@);
    while k < s.len() && s[k] != '#' && !is_whitespace(s[k])
        invariant
            0 <= k <= s@.len(),
            query_end(s@) == k + query_end(s@.skip(k as int)),
        decreases s@.len() - k,
    {
        assert(s@.skip(k as int).drop_first() == s@.skip(k + 1));
        k += 1;
    }
    assert(s@.skip(0) == s@);
    k
}

fn id_prefix(s: &[char]) -> (k: usize)
    ensures
        k == id_prefix_len(s@),
        k <= s@.len(),
{
    let mut k: usize = 0;
    assert(s@.skip(0) == s@);
    while k < s.len() && (('a' <= s[k] && s[k] <= 'z') || ('A' <= s[k] && s[k] <= 'Z') || ('0'
        <= s[k] && s[k] <= '9') || s[k] == '-' || s[k] == '_')
        invariant
            0 <= k <= s@.len(),
            id_prefix_len(s@) == k + id_prefix_len(s@.skip(k as int)),
        decreases s@.len() - k,
    {
        assert(s@.skip(k as int).drop_first() == s@.skip(k + 1));
        k += 1;
    }
    assert(s@.skip(0) == s@);
    k
}

/// Start of the last occurrence of `p` in `s`.
fn rfind_chars(s: &[char], p: &[char]) -> (r: Option<usize>)
    ensures
        match r {
            Some(i) => rfind(s@, p@) == Some(i as int) && occurs_at(s@, p@, i as int),
            None => rfind(s@, p@) is None,
        },
{
    if p.len() > s.len() {
        assert forall|i: int| !occurs_at(s@, p@, i) by {}
        return None;
    }
    let mut i: usize = s.len() - p.len();
    loop
        invariant
            0 <= i <= s@.len() - p@.len(),
            p@.len() <= s@.len(),
            forall|j: int| i < j ==> !occurs_at(s@, p@, j),
        ensures
            forall|j: int| 0 <= j ==> !occurs_at(s@, p@, j),
        decreases i,
    {
        if occurs_at_exec(s, p, i) {
            proof {
                let w = choose|w: int| occurs_at(s@, p@, w) && forall|j: int| w < j ==> !occurs_at(s@, p@, j);
                assert(occurs_at(s@, p@, i as int) && forall|j: int| i < j ==> !occurs_at(s@, p@, j));
                if w < i {
                    assert(!occurs_at(s@, p@, i as int));
                } else if w > i {
                    assert(!occurs_at(s@, p@, w));
                }
            }
            return Some(i);
        }
        if i == 0 {
            break;
        }
        i -= 1;
    }
    assert forall|j: int| !occurs_at(s@, p@, j) by {
        if j >= 0 {
        }
    }
    None
}

/// Whether `id` is a valid share id (non-empty; ASCII letters, digits, `-`, `_`).
pub fn is_valid_share_id(id: &[char]) -> (b: bool)
    ensures
        b == valid_share_id(id@),
{
    if id.len() == 0 {
        return false;
    }
    let k = id_prefix(id);
    proof {
        lemma_id_prefix(id@);
    }
    k == id.len()
}

proof fn lemma_id_prefix(s: Seq<char>)
    ensures
        id_prefix_len(s) <= s.len(),
        forall|i: int| 0 <= i < id_prefix_len(s) ==> is_id_char(#[trigger] s[i]),
        id_prefix_len(s) < s.len() ==> !is_id_char(s[id_prefix_len(s) as int]),
    decreases s.len(),
{
    if s.len() > 0 && is_id_char(s[0]) {
        lemma_id_prefix(s.drop_first());
        assert forall|i: int| 0 <= i < id_prefix_len(s) implies is_id_char(#[trigger] s[i]) by {
            if i > 0 {
                assert(s[i] == s.drop_first()[i - 1]);
            }
        }
    }
}

/// The access code in a link's query string (`password`, `pass_code` or
/// `passcode`): the first such pair with a non-empty trimmed value.
pub fn pass_code_from_query(query: &[char]) -> (r: Option<String>)
    ensures
        match r {
            Some(v) => pass_code_in_pairs(split_on(query@, '&')) == Some(v@),
            None => pass_code_in_pairs(split_on(query@, '&')) is None,
        },
    decreases query@.len(),
{
    let k = find_char(query, '&');
    proof {
        lemma_first_of_range(query@, '&');
    }
    let pair = slice_chars(query, 0, k);
    let ghost pairs = split_on(query@, '&');
    proof {
        assert(pair@ == query@.take(k as int));
        if k < query@.len() {
            assert(pairs == seq![query@.take(k as int)] + split_on(query@.skip(k + 1), '&'));
            assert(pairs.drop_first() == split_on(query@.skip(k + 1), '&'));
        } else {
            assert(query@.take(k as int) == query@);
            assert(pairs == seq![query@]);
        }
        assert(pairs[0] == pair@);
    }
    let here = pass_code_in(&pair);
    match here {
        Some(v) => {
            return Some(v);
        },
        None => {},
    }
    proof {
        assert(pass_code_in_pair(pairs[0]) is None);
        assert(pass_code_in_pairs(pairs) == pass_code_in_pairs(pairs.drop_first()));
    }
    if k < query.len() {
        let rest = slice_chars(query, k + 1, query.len());
        assert(rest@ == query@.skip(k + 1));
        pass_code_from_query(&rest)
    } else {
        assert(pairs.drop_first().len() == 0);
        None
    }
}

/// The access code in one `key=value` pair (see `pass_code_in_pair`).
fn pass_code_in(pair: &Vec<char>) -> (r: Option<String>)
    ensures
        match r {
            Some(v) => pass_code_in_pair(pair@) == Some(v@),
            None => pass_code_in_pair(pair@) is None,
        },
{
    let e = find_char(pair, '=');
    proof {
        lemma_first_of_range(pair@, '=');
    }
    let key = slice_chars(pair, 0, e);
    assert(key@ == pair@.take(e as int));
    let named = chars_eq_str(&key, "password") || chars_eq_str(&key, "pass_code")
        || chars_eq_str(&key, "passcode");
    if named && e < pair.len() {
        let v = trim_chars(&slice_chars(pair, e + 1, pair.len()));
        assert(pair@.subrange(e + 1, pair@.len() as int) == pair@.skip(e + 1));
        if v.len() > 0 {
            return Some(string_from_chars(&v));
        }
    }
    None
}

/// The id candidate and query found in the text after `/s/`.
fn after_marker(rest: &Vec<char>) -> (r: (Vec<char>, Option<Vec<char>>))
    ensures
        r.0@ == rest@.take(id_prefix_len(rest@) as int),
        match r.1 {
            Some(q) => share_query(rest@) == Some(q@),
            None => share_query(rest@) is None,
        },
{
    let n = id_prefix(rest);
    let id = slice_chars(rest, 0, n);
    let q = find_char(rest, '?');
    proof {
        lemma_first_of_range(rest@, '?');
    }
    let query = if q < rest.len() {
        let after = slice_chars(rest, q + 1, rest.len());
        assert(after@ == rest@.skip(q + 1));
        let end = query_end_of(&after);
        Some(slice_chars(&after, 0, end))
    } else {
        None
    };
    (id, query)
}

#[verifier::rlimit(40)]
fn candidate(t: &Vec<char>) -> (r: Option<(Vec<char>, Option<Vec<char>>)>)
    ensures
        match r {
            Some((id, query)) => share_candidate(t@) == Some(
                (
                    id@,
                    match query {
                        Some(q) => Some(q@),
                        None => None,
                    },
                ),
            ),
            None => share_candidate(t@) is None,
        },
{
    let marker: Vec<char> = vec!['/', 's', '/'];
    let scheme: Vec<char> = vec![':', '/', '/'];
    assert(marker@ == seq!['/', 's', '/']);
    assert(scheme@ == seq![':', '/', '/']);
    match rfind_chars(t, &marker) {
        Some(idx) => {
            let tl = t.len();
            assert(idx + 3 <= tl);
            let rest = slice_chars(t, idx + 3, tl);
            assert(rest@ == t@.skip(idx + 3));
            Some(after_marker(&rest))
        },
        None => {
            if contains_chars(t, &scheme) {
                return None;
            }
            let whole = slice_chars(t, 0, t.len());
            assert(whole@ == t@);
            Some((whole, None))
        },
    }
}

/// Reads a share id, and the access code the link carries, out of pasted text.
///
/// Accepted forms: a full link `https://mypikpak.com/s/<id>`, optionally with
/// a query (`?password=abcd`, from which the code is taken) or a fragment;
/// such a link with text around it (only what follows the last `/s/` counts,
/// the id ending at the first character that cannot be part of one); or a bare
/// id. Anything else (a link without `/s/`, invalid characters, empty input)
/// gives `None`.
pub fn parse_share_input(input: &str) -> (r: Option<(String, Option<String>)>)
    ensures
        match r {
            Some((id, code)) => parsed_share(input@) == Some(
                (
                    id@,
                    match code {
                        Some(c) => Some(c@),
                        None => None,
                    },
                ),
            ),
            None => parsed_share(input@) is None,
        },
{
    let t = trim_chars(&chars_of(input));
    if t.len() == 0 {
        return None;
    }
    let (id, query) = match candidate(&t) {
        Some(c) => c,
        None => return None,
    };
    if !is_valid_share_id(&id) {
        return None;
    }
    let code = match query {
        Some(q) => pass_code_from_query(&q),
        None => None,
    };
    Some((string_from_chars(&id), code))
}

} // verus!
