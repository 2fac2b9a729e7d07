//! Unix paths as text, compared the way `std::path::Path` compares them: by
//! their components, so that `a//b`, `a/./b` and `a/b/` all name `a/b`.

use vstd::prelude::*;

use crate::text::{chars_eq, chars_eq_str, chars_of, slice_chars};

verus! {

/// Index of the first `'/'` in `s`, or its length when there is none.
pub open spec fn first_slash(s: Seq<char>) -> int
    decreases s.len(),
{
    if s.len() == 0 {
        0
    } else if s[0] == '/' {
        0
    } else {
        1 + first_slash(s.drop_first())
    }
}

pub proof fn lemma_first_slash_range(s: Seq<char>)
    ensures
        0 <= first_slash(s) <= s.len(),
    decreases s.len(),
{
    if s.len() > 0 && s[0] != '/' {
        lemma_first_slash_range(s.drop_first());
    }
}

proof fn lemma_first_slash(s: Seq<char>, k: int)
    requires
        0 <= k <= s.len(),
        forall|j: int| 0 <= j < k ==> s[j] != '/',
        k == s.len() || s[k] == '/',
    ensures
        first_slash(s) == k,
    decreases k,
{
    if k > 0 {
        assert forall|j: int| 0 <= j < k - 1 implies s.drop_first()[j] != '/' by {
            assert(s.drop_first()[j] == s[j + 1]);
        }
        if k < s.len() {
            assert(s.drop_first()[k - 1] == s[k]);
        }
        lemma_first_slash(s.drop_first(), k - 1);
    }
}

/// The normal components of a path: the pieces between slashes, without the
/// empty ones and without `.`; `..` is kept.
pub open spec fn normal_parts(s: Seq<char>) -> Seq<Seq<char>>
    decreases s.len(),
{
    if s.len() == 0 {
        Seq::empty()
    } else {
        let k = first_slash(s);
        proof {
            lemma_first_slash_range(s);
        }
        let seg = s.take(k);
        let rest = if k < s.len() {
            normal_parts(s.skip(k + 1))
        } else {
            Seq::empty()
        };
        if seg.len() == 0 || seg == "."@ {
            rest
        } else {
            seq![seg] + rest
        }
    }
}

/// Whether the path is absolute (starts at the root).
pub open spec fn has_root(s: Seq<char>) -> bool {
    s.len() > 0 && s[0] == '/'
}

/// Whether a relative path starts with a `.` component (`.` or `./...`).
pub open spec fn has_cur_dir(s: Seq<char>) -> bool {
    !has_root(s) && s.len() > 0 && s[0] == '.' && (s.len() == 1 || s[1] == '/')
}

/// The components of a path, as `Path::components` yields them: the root as
/// `/`, a leading current directory as `.`, then the normal components.
pub open spec fn components(s: Seq<char>) -> Seq<Seq<char>> {
    (if has_root(s) {
        seq!["/"@]
    } else {
        Seq::empty()
    }) + (if has_cur_dir(s) {
        seq!["."@]
    } else {
        Seq::empty()
    }) + normal_parts(s)
}

/// `Path` equality: the same components.
pub open spec fn same_path(a: Seq<char>, b: Seq<char>) -> bool {
    components(a) == components(b)
}

/// `Path::starts_with`: the components of `base` are a prefix of those of `p`.
pub open spec fn path_starts_with(p: Seq<char>, base: Seq<char>) -> bool {
    let cp = components(p);
    let cb = components(base);
    cb.len() <= cp.len() && cp.take(cb.len() as int) == cb
}

/// `PathBuf::push`: an absolute `c` replaces the path; otherwise `c` is
/// appended, with a separator unless the path is empty or already ends in one.
pub open spec fn pushed(p: Seq<char>, c: Seq<char>) -> Seq<char> {
    if has_root(c) {
        c
    } else if p.len() > 0 && p.last() != '/' {
        p.push('/') + c
    } else {
        p + c
    }
}

/// Whether `c` is a plain path component: not empty, not `.` or `..`, and
/// without a separator.
pub open spec fn plain_component(c: Seq<char>) -> bool {
    &&& c.len() > 0
    &&& c != "."@
    &&& c != ".."@
    &&& forall|i: int| 0 <= i < c.len() ==> c[i] != '/'
}

proof fn lemma_parts_after_sep(a: Seq<char>, c: Seq<char>)
    requires
        forall|i: int| 0 <= i < c.len() ==> c[i] != '/',
    ensures
        normal_parts(a.push('/') + c) == normal_parts(a) + (if c.len() > 0 && c != "."@ {
            seq![c]
        } else {
            Seq::<Seq<char>>::empty()
        }),
    decreases a.len(),
{
    let s = a.push('/') + c;
    let tail = if c.len() > 0 && c != "."@ {
        seq![c]
    } else {
        Seq::<Seq<char>>::empty()
    };
    lemma_first_slash_range(a);
    let ka = first_slash(a);
    assert forall|j: int| 0 <= j < a.len() implies s[j] == a[j] by {}
    assert(s[a.len() as int] == '/');
    // The pieces of `c` alone.
    assert(normal_parts(c) == tail) by {
        if c.len() > 0 {
            lemma_first_slash(c, c.len() as int);
            assert(c.take(c.len() as int) == c);
        }
    }
    if ka < a.len() {
        assert forall|j: int| 0 <= j < ka implies s[j] != '/' by {
            lemma_first_slash_prefix(a, j);
        }
        lemma_first_slash_prefix(a, ka);
        lemma_first_slash(s, ka);
        assert(s.take(ka) == a.take(ka));
        assert(s.skip(ka + 1) == a.skip(ka + 1).push('/') + c);
        lemma_parts_after_sep(a.skip(ka + 1), c);
        let seg = a.take(ka);
        if seg.len() == 0 || seg == "."@ {
        } else {
            assert(seq![seg] + (normal_parts(a.skip(ka + 1)) + tail) == (seq![seg] + normal_parts(
                a.skip(ka + 1),
            )) + tail);
        }
    } else {
        assert forall|j: int| 0 <= j < a.len() implies s[j] != '/' by {
            lemma_first_slash_prefix(a, j);
        }
        lemma_first_slash(s, a.len() as int);
        assert(s.take(a.len() as int) == a);
        assert(s.skip(a.len() as int + 1) == c);
        if a.len() > 0 {
            lemma_first_slash(a, a.len() as int);
            assert(a.take(a.len() as int) == a);
            assert(normal_parts(a) == (if a.len() == 0 || a == "."@ {
                Seq::<Seq<char>>::empty()
            } else {
                seq![a]
            }));
        }
    }
}

proof fn lemma_first_slash_prefix(a: Seq<char>, j: int)
    requires
        0 <= j <= first_slash(a),
        j < a.len(),
    ensures
        j < first_slash(a) ==> a[j] != '/',
        j == first_slash(a) ==> a[j] == '/',
    decreases a.len(),
{
    lemma_first_slash_range(a);
    if a.len() > 0 && a[0] != '/' {
        lemma_first_slash_range(a.drop_first());
    }
    if a.len() > 0 && a[0] != '/' && j > 0 {
        lemma_first_slash_prefix(a.drop_first(), j - 1);
        assert(a[j] == a.drop_first()[j - 1]);
    }
}

/// Appending a plain component to a path adds exactly that component.
pub proof fn lemma_push_plain(p: Seq<char>, c: Seq<char>)
    requires
        plain_component(c),
    ensures
        components(pushed(p, c)) == components(p).push(c),
{
    reveal_strlit(".");
    let s = pushed(p, c);
    assert(!has_root(c));
    if p.len() > 0 && p.last() != '/' {
        lemma_parts_after_sep(p, c);
        assert(s == p.push('/') + c);
        assert(s[0] == p[0]);
        if p.len() >= 2 {
            assert(s[1] == p[1]);
        }
    } else if p.len() == 0 {
        assert(s == c);
        lemma_first_slash(c, c.len() as int);
        assert(c.take(c.len() as int) == c);
        if c.len() == 1 && c[0] == '.' {
            assert(c =~= "."@);
        }
        assert(!has_cur_dir(c));
    } else {
        let a = p.drop_last();
        assert(p == a.push('/'));
        assert(s == a.push('/') + c);
        lemma_parts_after_sep(a, c);
        lemma_parts_after_sep(a, Seq::empty());
        assert(a.push('/') + Seq::<char>::empty() == p);
        assert(s[0] == p[0]);
        if p.len() >= 2 {
            assert(s[1] == p[1]);
        }
    }
}

/// The views of a list of character vectors.
pub open spec fn vviews(v: Seq<Vec<char>>) -> Seq<Seq<char>> {
    v.map_values(|x: Vec<char>| x@)
}

fn push_normal_parts(cs: &Vec<char>, parts: &mut Vec<Vec<char>>)
    ensures
        vviews(final(parts)@) == vviews(old(parts)@) + normal_parts(cs@),
{
    let n = cs.len();
    let mut i: usize = 0;
    assert(cs@.skip(0) == cs@);
    let ghost start = vviews(parts@);
    while i < n
        invariant
            n == cs@.len(),
            0 <= i <= n,
            vviews(parts@) + normal_parts(cs@.skip(i as int)) == start + normal_parts(cs@),
        decreases n - i,
    {
        let mut j: usize = i;
        while j < n && cs[j] != '/'
            invariant
                n == cs@.len(),
                i <= j <= n,
                forall|m: int| i <= m < j ==> cs@[m] != '/',
            decreases n - j,
        {
            j += 1;
        }
        let ghost t = cs@.skip(i as int);
        proof {
            assert forall|m: int| 0 <= m < j - i implies t[m] != '/' by {
                assert(t[m] == cs@[i + m]);
            }
            if j < n {
                assert(t[j - i] == cs@[j as int]);
            }
            lemma_first_slash(t, j - i);
            assert(t.take(j - i) == cs@.subrange(i as int, j as int));
            if j < n {
                assert(t.skip(j - i + 1) == cs@.skip(j + 1));
            }
        }
        let seg = slice_chars(cs, i, j);
        let ghost before = vviews(parts@);
        let ghost rest = if j < n {
            normal_parts(cs@.skip(j + 1))
        } else {
            Seq::<Seq<char>>::empty()
        };
        if !(seg.len() == 0 || chars_eq_str(&seg, ".")) {
            parts.push(seg);
            proof {
                assert(vviews(parts@) == before.push(seg@));
                assert(before.push(seg@) + rest == before + (seq![seg@] + rest));
            }
        }
        if j < n {
            i = j + 1;
        } else {
            i = n;
            assert(cs@.skip(n as int).len() == 0);
        }
    }
    assert(normal_parts(cs@.skip(n as int)) == Seq::<Seq<char>>::empty()) by {
        assert(cs@.skip(n as int).len() == 0);
    }
    assert(vviews(parts@) + Seq::<Seq<char>>::empty() == vviews(parts@));
}

/// The components of a path (see `components`).
pub fn path_components(s: &str) -> (r: Vec<Vec<char>>)
    ensures
        vviews(r@) == components(s@),
{
    let cs = chars_of(s);
    let root = cs.len() > 0 && cs[0] == '/';
    let cur = !root && cs.len() > 0 && cs[0] == '.' && (cs.len() == 1 || cs[1] == '/');
    let mut r: Vec<Vec<char>> = Vec::new();
    if root {
        r.push(chars_of("/"));
    }
    if cur {
        r.push(chars_of("."));
    }
    let ghost head = vviews(r@);
    assert(head == (if has_root(s@) {
        seq!["/"@]
    } else {
        Seq::empty()
    }) + (if has_cur_dir(s@) {
        seq!["."@]
    } else {
        Seq::empty()
    }));
    push_normal_parts(&cs, &mut r);
    r
}

/// Whether two component lists are equal on their first `n` entries.
fn prefix_equal(a: &Vec<Vec<char>>, b: &Vec<Vec<char>>, n: usize) -> (r: bool)
    requires
        n <= a@.len(),
        n <= b@.len(),
    ensures
        r == (vviews(a@).take(n as int) == vviews(b@).take(n as int)),
{
    let mut i: usize = 0;
    while i < n
        invariant
            0 <= i <= n <= a@.len(),
            n <= b@.len(),
            forall|j: int| 0 <= j < i ==> a@[j]@ == b@[j]@,
        decreases n - i,
    {
        if !chars_eq(&a[i], &b[i]) {
            assert(vviews(a@).take(n as int)[i as int] != vviews(b@).take(n as int)[i as int]);
            return false;
        }
        i += 1;
    }
    assert(vviews(a@).take(n as int) =~= vviews(b@).take(n as int));
    true
}

/// `Path` equality of two paths given as text.
pub fn path_eq(a: &str, b: &str) -> (r: bool)
    ensures
        r == same_path(a@, b@),
{
    let ca = path_components(a);
    let cb = path_components(b);
    if ca.len() != cb.len() {
        return false;
    }
    let r = prefix_equal(&ca, &cb, ca.len());
    assert(vviews(ca@).take(ca@.len() as int) == vviews(ca@));
    assert(vviews(cb@).take(cb@.len() as int) == vviews(cb@));
    r
}

/// `Path::starts_with` on paths given as text: whether `base`'s components
/// begin `p`'s.
pub fn starts_with_path(p: &str, base: &str) -> (r: bool)
    ensures
        r == path_starts_with(p@, base@),
{
    let cp = path_components(p);
    let cb = path_components(base);
    if cb.len() > cp.len() {
        return false;
    }
    let r = prefix_equal(&cb, &cp, cb.len());
    assert(vviews(cb@).take(cb@.len() as int) == vviews(cb@));
    r
}

/// `PathBuf::push` on a path given as text.
pub fn push_path(p: &mut Vec<char>, c: &[char])
    ensures
        final(p)@ == pushed(old(p)@, c@),
{
    if c.len() > 0 && c[0] == '/' {
        p.clear();
    } else if p.len() > 0 && p[p.len() - 1] != '/' {
        p.push('/');
    }
    crate::text::push_chars(p, c);
    proof {
        if c@.len() > 0 && c@[0] == '/' {
            assert(Seq::<char>::empty() + c@ == c@);
        }
    }
}

/// Length of what precedes a path's body: its root `/`, or a leading `.` component.
pub open spec fn before_body(s: Seq<char>) -> int {
    if has_root(s) || has_cur_dir(s) {
        1
    } else {
        0
    }
}

/// Index of the last `'/'` in `s` at or after `b`, or -1.
pub open spec fn last_sep(s: Seq<char>, b: int) -> int
    decreases s.len(),
{
    if s.len() == 0 || s.len() <= b {
        -1
    } else if s.last() == '/' {
        s.len() - 1
    } else {
        last_sep(s.drop_last(), b)
    }
}

pub proof fn lemma_last_sep(s: Seq<char>, b: int)
    requires
        0 <= b,
    ensures
        last_sep(s, b) == -1 || (b <= last_sep(s, b) < s.len() && s[last_sep(s, b)] == '/'),
        forall|j: int| max(b, last_sep(s, b) + 1) <= j < s.len() ==> s[j] != '/',
    decreases s.len(),
{
    if s.len() > b && s.last() != '/' {
        lemma_last_sep(s.drop_last(), b);
        assert forall|j: int| max(b, last_sep(s, b) + 1) <= j < s.len() implies s[j] != '/' by {
            if j < s.len() - 1 {
                assert(s[j] == s.drop_last()[j]);
            }
        }
    }
}

pub open spec fn max(a: int, b: int) -> int {
    if a >= b {
        a
    } else {
        b
    }
}

/// The last piece of the body `s[b..]`: what follows its last separator.
pub open spec fn last_piece(s: Seq<char>, b: int) -> Seq<char> {
    let k = last_sep(s, b);
    if k < 0 {
        s.skip(b)
    } else {
        s.skip(k + 1)
    }
}

/// `s` without its last body piece and the separator before it.
pub open spec fn drop_last_piece(s: Seq<char>, b: int) -> Seq<char> {
    let k = last_sep(s, b);
    if k < 0 {
        s.take(b)
    } else {
        s.take(k)
    }
}

/// `s` without trailing empty and `.` pieces after position `b`.
pub open spec fn trim_back(s: Seq<char>, b: int) -> Seq<char>
    decreases s.len(),
{
    if 0 <= b < s.len() {
        let p = last_piece(s, b);
        proof {
            lemma_last_sep(s, b);
        }
        if p.len() == 0 || p == "."@ {
            trim_back(drop_last_piece(s, b), b)
        } else {
            s
        }
    } else {
        s
    }
}

/// `Path::parent`: the path without its final component (after dropping
/// trailing separators and `.` pieces); `None` for the root and the empty path.
pub open spec fn parent_of(s: Seq<char>) -> Option<Seq<char>> {
    let b = before_body(s);
    let t = trim_back(s, b);
    if t.len() > b {
        Some(trim_back(drop_last_piece(t, b), b))
    } else if has_root(s) {
        None
    } else if has_cur_dir(s) {
        Some(Seq::empty())
    } else {
        None
    }
}

/// Position of the last separator of `s` at or after `b` (see `last_sep`).
fn find_last_sep(s: &Vec<char>, b: usize) -> (k: Option<usize>)
    ensures
        match k {
            Some(i) => last_sep(s@, b as int) == i as int,
            None => last_sep(s@, b as int) == -1,
        },
{
    let mut i: usize = s.len();
    assert(s@.take(s@.len() as int) == s@);
    while i > b && s[i - 1] != '/'
        invariant
            0 <= i <= s@.len(),
            last_sep(s@, b as int) == last_sep(s@.take(i as int), b as int),
        decreases i,
    {
        assert(s@.take(i as int).drop_last() == s@.take(i - 1));
        i -= 1;
    }
    proof {
        assert(s@.take(s@.len() as int) == s@);
    }
    if i > b {
        assert(s@.take(i as int).last() == '/');
        Some(i - 1)
    } else {
        None
    }
}

/// `trim_back` on a path given as characters.
fn trim_back_chars(s: &Vec<char>, b: usize) -> (r: Vec<char>)
    ensures
        r@ == trim_back(s@, b as int),
    decreases s@.len(),
{
    if b < s.len() {
        let k = find_last_sep(s, b);
        proof {
            lemma_last_sep(s@, b as int);
        }
        let (start, keep) = match k {
            Some(i) => (i + 1, i),
            None => (b, b),
        };
        let piece = slice_chars(s, start, s.len());
        assert(piece@ == last_piece(s@, b as int));
        if piece.len() == 0 || chars_eq_str(&piece, ".") {
            let rest = slice_chars(s, 0, keep);
            assert(rest@ == drop_last_piece(s@, b as int));
            trim_back_chars(&rest, b)
        } else {
            slice_chars(s, 0, s.len())
        }
    } else {
        slice_chars(s, 0, s.len())
    }
}

/// `Path::parent` on a path given as text.
pub fn path_parent(s: &str) -> (r: Option<String>)
    ensures
        match r {
            Some(p) => parent_of(s@) == Some(p@),
            None => parent_of(s@) is None,
        },
{
    let cs = chars_of(s);
    let root = cs.len() > 0 && cs[0] == '/';
    let cur = !root && cs.len() > 0 && cs[0] == '.' && (cs.len() == 1 || cs[1] == '/');
    let b: usize = if root || cur {
        1
    } else {
        0
    };
    let t = trim_back_chars(&cs, b);
    if t.len() > b {
        let k = find_last_sep(&t, b);
        proof {
            lemma_last_sep(t@, b as int);
        }
        let keep = match k {
            Some(i) => i,
            None => b,
        };
        let rest = slice_chars(&t, 0, keep);
        assert(rest@ == drop_last_piece(t@, b as int));
        let p = trim_back_chars(&rest, b);
        Some(crate::text::string_from_chars(&p))
    } else if root {
        None
    } else if cur {
        Some(String::new())
    } else {
        None
    }
}

} // verus!
