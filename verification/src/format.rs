//! Human-readable sizes, times and labels, and safe local file names.

use vstd::prelude::*;

use crate::text::{
    chars_eq_str, chars_of, dec, dec_pad, lemma_dec_len, push_dec, push_dec2, push_str, slice_chars, str_eq,
    string_from_chars, trim, trim_chars,
};

verus! {

/// How a notice looks.
#[derive(Debug, Clone, Copy, PartialEq, Eq)]
pub enum NoticeKind {
    Done,
    Warn,
    Failed,
}

/// The characters of an ISO timestamp kept by `fmt_time`, from a point where
/// the `T` was (`t_seen`) or was not yet met, and one `:` of the time part
/// was (`colon_seen`) or was not yet met: the `T` becomes a space, and the
/// time part ends before its seconds (a second `:`) or before a fraction or
/// zone part (`.`, `+`, `Z`, a space).
pub open spec fn iso_cut(s: Seq<char>, t_seen: bool, colon_seen: bool) -> Seq<char>
    decreases s.len(),
{
    if s.len() == 0 {
        Seq::empty()
    } else {
        let c = s[0];
        if c == 'T' {
            seq![' '] + iso_cut(s.drop_first(), true, colon_seen)
        } else if t_seen && (c == '.' || c == '+' || c == 'Z' || c == ' ' || (c == ':' && colon_seen)) {
            Seq::empty()
        } else if t_seen && c == ':' {
            seq![c] + iso_cut(s.drop_first(), t_seen, true)
        } else {
            seq![c] + iso_cut(s.drop_first(), t_seen, colon_seen)
        }
    }
}

/// An ISO timestamp cut down to "YYYY-MM-DD HH:MM".
pub open spec fn iso_minutes(s: Seq<char>) -> Seq<char> {
    iso_cut(s, false, false)
}

/// Shortens an ISO time string to "YYYY-MM-DD HH:MM": `2024-01-01T08:30:00.000Z`
/// gives `2024-01-01 08:30`.
pub fn fmt_time(s: &str) -> (r: String)
    ensures
        r@ == iso_minutes(s@),
{
    let cs = chars_of(s);
    let mut out: Vec<char> = Vec::new();
    let mut t_seen = false;
    let mut colon_seen = false;
    let mut i: usize = 0;
    assert(cs@.skip(0) == cs@);
    while i < cs.len()
        invariant
            0 <= i <= cs@.len(),
            cs@ == s@,
            out@ + iso_cut(cs@.skip(i as int), t_seen, colon_seen) == iso_minutes(cs@),
        ensures
            out@ == iso_minutes(cs@),
        decreases cs@.len() - i,
    {
        let ch = cs[i];
        assert(cs@.skip(i as int).drop_first() == cs@.skip(i + 1));
        if ch == 'T' {
            out.push(' ');
            t_seen = true;
            i += 1;
            continue;
        }
        if t_seen && (ch == '.' || ch == '+' || ch == 'Z' || ch == ' ' || (ch == ':' && colon_seen)) {
            assert(out@ + Seq::<char>::empty() == out@);
            break;
        }
        if t_seen && ch == ':' {
            colon_seen = true;
        }
        out.push(ch);
        i += 1;
    }
    proof {
        if i >= cs.len() {
            assert(out@ + Seq::<char>::empty() == out@);
        }
    }
    string_from_chars(&out)
}

/// Display label of an offline-task phase.
pub open spec fn phase_text(phase: Seq<char>) -> Seq<char> {
    if phase == "PHASE_TYPE_PENDING"@ {
        "等待中"@
    } else if phase == "PHASE_TYPE_RUNNING"@ {
        "下载中"@
    } else if phase == "PHASE_TYPE_COMPLETE"@ {
        "已完成"@
    } else if phase == "PHASE_TYPE_ERROR"@ {
        "失败"@
    } else {
        "未知"@
    }
}

/// Human-readable task state label; unknown phases read "未知".
pub fn phase_label(phase: &str) -> (r: &'static str)
    ensures
        r@ == phase_text(phase@),
{
    if str_eq(phase, "PHASE_TYPE_PENDING") {
        "等待中"
    } else if str_eq(phase, "PHASE_TYPE_RUNNING") {
        "下载中"
    } else if str_eq(phase, "PHASE_TYPE_COMPLETE") {
        "已完成"
    } else if str_eq(phase, "PHASE_TYPE_ERROR") {
        "失败"
    } else {
        "未知"
    }
}

/// Index of the last `'/'` in `s`, or -1.
pub open spec fn last_slash(s: Seq<char>) -> int
    decreases s.len(),
{
    if s.len() == 0 {
        -1
    } else if s.last() == '/' {
        s.len() - 1
    } else {
        last_slash(s.drop_last())
    }
}

/// Final normal component of a Unix path (`Path::file_name`): empty and `.`
/// components are skipped, and a final `..` has no file name.
pub open spec fn path_file_name(s: Seq<char>) -> Option<Seq<char>>
    decreases s.len(),
{
    let k = last_slash(s);
    proof {
        lemma_last_slash_range(s);
    }
    let seg = s.subrange(k + 1, s.len() as int);
    if seg.len() == 0 || seg == "."@ {
        if k < 0 {
            None
        } else {
            path_file_name(s.subrange(0, k))
        }
    } else if seg == ".."@ {
        None
    } else {
        Some(seg)
    }
}

/// Name kept by `safe_file_name`: the trimmed file name unless it is empty, `.` or `..`.
pub open spec fn safe_name(name: Seq<char>) -> Option<Seq<char>> {
    let base = match path_file_name(name) {
        Some(b) => trim(b),
        None => Seq::empty(),
    };
    if base.len() == 0 || base == "."@ || base == ".."@ {
        None
    } else {
        Some(base)
    }
}

proof fn lemma_after_last_slash(s: Seq<char>)
    ensures
        forall|j: int| last_slash(s) < j < s.len() ==> s[j] != '/',
    decreases s.len(),
{
    lemma_last_slash_range(s);
    if s.len() > 0 && s.last() != '/' {
        lemma_after_last_slash(s.drop_last());
        assert forall|j: int| last_slash(s) < j < s.len() implies s[j] != '/' by {
            if j < s.len() - 1 {
                assert(s[j] == s.drop_last()[j]);
            }
        }
    }
}

proof fn lemma_file_name_plain(s: Seq<char>)
    ensures
        match path_file_name(s) {
            Some(x) => forall|i: int| 0 <= i < x.len() ==> x[i] != '/',
            None => true,
        },
    decreases s.len(),
{
    let k = last_slash(s);
    lemma_last_slash_range(s);
    lemma_after_last_slash(s);
    let seg = s.subrange(k + 1, s.len() as int);
    if seg.len() == 0 || seg == "."@ {
        if k >= 0 {
            lemma_file_name_plain(s.subrange(0, k));
        }
    } else if seg != ".."@ {
        assert forall|i: int| 0 <= i < seg.len() implies seg[i] != '/' by {
            assert(seg[i] == s[k + 1 + i]);
        }
    }
}

/// A name kept by `safe_file_name` is a single plain path component: not
/// empty, not `.` or `..`, and without a separator, so it cannot lead out of
/// the directory it is joined to.
pub proof fn lemma_safe_name_plain(name: Seq<char>)
    ensures
        match safe_name(name) {
            Some(b) => {
                &&& b.len() > 0
                &&& b != "."@
                &&& b != ".."@
                &&& forall|i: int| 0 <= i < b.len() ==> b[i] != '/'
            },
            None => true,
        },
{
    lemma_file_name_plain(name);
    match path_file_name(name) {
        Some(x) => {
            crate::text::lemma_trim_piece(x);
            let b = trim(x);
            assert forall|i: int| 0 <= i < b.len() implies b[i] != '/' by {
                assert(b[i] == x[crate::text::lead_ws(x) + i]);
            }
        },
        None => {},
    }
}

/// A name kept by `safe_file_name` is trimmed and is kept again unchanged:
/// applying `safe_file_name` twice changes nothing.
pub proof fn lemma_safe_name_stable(name: Seq<char>)
    ensures
        match safe_name(name) {
            Some(b) => trim(b) == b && safe_name(b) == Some(b),
            None => true,
        },
{
    lemma_safe_name_plain(name);
    match safe_name(name) {
        Some(b) => {
            match path_file_name(name) {
                Some(x) => crate::text::lemma_trim_idempotent(x),
                None => {},
            }
            lemma_no_slash(b);
            assert(last_slash(b) == -1);
            lemma_last_slash_range(b);
            assert(b.subrange(0, b.len() as int) == b);
            assert(path_file_name(b) == Some(b));
        },
        None => {},
    }
}

proof fn lemma_no_slash(s: Seq<char>)
    requires
        forall|i: int| 0 <= i < s.len() ==> s[i] != '/',
    ensures
        last_slash(s) == -1,
    decreases s.len(),
{
    if s.len() > 0 {
        assert(s.last() == s[s.len() - 1]);
        lemma_no_slash(s.drop_last());
    }
}

pub proof fn lemma_last_slash_range(s: Seq<char>)
    ensures
        -1 <= last_slash(s) < s.len(),
        last_slash(s) >= 0 ==> s[last_slash(s)] == '/',
    decreases s.len(),
{
    if s.len() > 0 && s.last() != '/' {
        lemma_last_slash_range(s.drop_last());
    }
}

proof fn lemma_last_slash(s: Seq<char>, k: int)
    requires
        -1 <= k < s.len(),
        k >= 0 ==> s[k] == '/',
        forall|j: int| k < j < s.len() ==> s[j] != '/',
    ensures
        last_slash(s) == k,
    decreases s.len(),
{
    if s.len() > 0 && s.last() != '/' {
        lemma_last_slash(s.drop_last(), k);
    }
}

pub fn file_name_chars(s: &[char]) -> (r: Option<Vec<char>>)
    ensures
        match r {
            Some(v) => path_file_name(s@) == Some(v@),
            None => path_file_name(s@) is None,
        },
    decreases s@.len(),
{
    let mut k: usize = s.len();
    while k > 0 && s[k - 1] != '/'
        invariant
            0 <= k <= s@.len(),
            forall|j: int| k <= j < s@.len() ==> s@[j] != '/',
        decreases k,
    {
        k -= 1;
    }
    proof {
        lemma_last_slash(s@, k - 1);
    }
    let seg = slice_chars(s, k, s.len());
    if seg.len() == 0 || chars_eq_str(&seg, ".") {
        if k == 0 {
            None
        } else {
            let head = slice_chars(s, 0, k - 1);
            file_name_chars(&head)
        }
    } else if chars_eq_str(&seg, "..") {
        None
    } else {
        Some(seg)
    }
}

/// Reduces a cloud file name to a safe local file name: only the last path
/// component is kept, trimmed; empty, `.` and `..` names give `None`.
pub fn safe_file_name(name: &str) -> (r: Option<String>)
    ensures
        match r {
            Some(v) => safe_name(name@) == Some(v@),
            None => safe_name(name@) is None,
        },
{
    let cs = chars_of(name);
    let base = match file_name_chars(&cs) {
        Some(b) => trim_chars(&b),
        None => Vec::new(),
    };
    if base.len() == 0 || chars_eq_str(&base, ".") || chars_eq_str(&base, "..") {
        None
    } else {
        Some(string_from_chars(&base))
    }
}

/// `fmt_duration`: `12s`, `3m20s`, `1h05m`.
pub open spec fn duration_text(secs: nat) -> Seq<char> {
    if secs < 60 {
        dec(secs) + "s"@
    } else if secs < 3600 {
        dec(secs / 60) + "m"@ + dec_pad(secs % 60, 2) + "s"@
    } else {
        dec(secs / 3600) + "h"@ + dec_pad((secs % 3600) / 60, 2) + "m"@
    }
}

/// Compact duration text.
pub fn fmt_duration(secs: u64) -> (r: String)
    ensures
        r@ == duration_text(secs as nat),
{
    let mut out: Vec<char> = Vec::new();
    if secs < 60 {
        push_dec(&mut out, secs);
        push_str(&mut out, "s");
    } else if secs < 3600 {
        push_dec(&mut out, secs / 60);
        push_str(&mut out, "m");
        push_dec2(&mut out, secs % 60);
        push_str(&mut out, "s");
    } else {
        push_dec(&mut out, secs / 3600);
        push_str(&mut out, "h");
        push_dec2(&mut out, (secs % 3600) / 60);
        push_str(&mut out, "m");
    }
    string_from_chars(&out)
}

/// Remaining time from remaining bytes and speed; empty while the speed is unknown (0).
pub fn fmt_eta(remaining: u64, speed: u64) -> (r: String)
    ensures
        speed == 0 ==> r@ == Seq::<char>::empty(),
        speed > 0 ==> r@ == duration_text((remaining / speed) as nat),
{
    if speed == 0 {
        return string_from_chars(&[]);
    }
    fmt_duration(remaining / speed)
}

/// Relative time text of `at` seen from `now` (unix seconds).
pub open spec fn rel_text(now: nat, at: nat) -> Seq<char> {
    if at == 0 || now < at {
        Seq::empty()
    } else {
        let d = (now - at) as nat;
        if d < 60 {
            "刚刚"@
        } else if d < 3600 {
            dec(d / 60) + " 分钟前"@
        } else if d < 86400 {
            dec(d / 3600) + " 小时前"@
        } else {
            dec(d / 86400) + " 天前"@
        }
    }
}

/// "刚刚" / "3 分钟前" / "2 小时前" / "3 天前"; empty when `at` is 0 or in the future.
pub fn fmt_rel(now: u64, at: u64) -> (r: String)
    ensures
        r@ == rel_text(now as nat, at as nat),
{
    let mut out: Vec<char> = Vec::new();
    if at == 0 || now < at {
        return string_from_chars(&out);
    }
    let d = now - at;
    if d < 60 {
        push_str(&mut out, "刚刚");
    } else if d < 3600 {
        push_dec(&mut out, d / 60);
        push_str(&mut out, " 分钟前");
    } else if d < 86400 {
        push_dec(&mut out, d / 3600);
        push_str(&mut out, " 小时前");
    } else {
        push_dec(&mut out, d / 86400);
        push_str(&mut out, " 天前");
    }
    string_from_chars(&out)
}

/// `2^k`.
pub open spec fn p2(k: nat) -> nat
    decreases k,
{
    if k == 0 {
        1
    } else {
        2 * p2((k - 1) as nat)
    }
}

/// Number of low bits an `f64` drops from `n` (it keeps 53 significant bits).
pub open spec fn sig_shift(n: nat) -> nat
    decreases n,
{
    if n < 0x20_0000_0000_0000 {
        0
    } else {
        1 + sig_shift(n / 2)
    }
}

/// `a / d` rounded to the nearest integer, ties to even.
pub open spec fn round_half_even(a: nat, d: nat) -> nat {
    let q = a / d;
    let r = a % d;
    if 2 * r > d || (2 * r == d && q % 2 == 1) {
        q + 1
    } else {
        q
    }
}

/// Value of `n as f64` (round to nearest, ties to even), which is an integer here.
pub open spec fn f64_value(n: nat) -> nat {
    let k = sig_shift(n);
    round_half_even(n, p2(k)) * p2(k)
}

/// Fixed-point text of `v / unit` with `prec` fraction digits (`{:.prec}` of an exact value).
pub open spec fn fixed_text(v: nat, unit: nat, prec: nat) -> Seq<char> {
    let scale = if prec == 1 { 10nat } else { 100nat };
    let x = round_half_even(v * scale, unit);
    dec(x / scale) + "."@ + dec_pad(x % scale, prec)
}

/// `fmt_bytes`: "-" for negative sizes, then B, KB, MB (one decimal), GB, TB (two decimals).
pub open spec fn size_text(bytes: int) -> Seq<char> {
    if bytes < 0 {
        "-"@
    } else {
        let v = f64_value(bytes as nat);
        if v < 0x400 {
            dec(bytes as nat) + " B"@
        } else if v < 0x10_0000 {
            fixed_text(v, 0x400, 1) + " KB"@
        } else if v < 0x4000_0000 {
            fixed_text(v, 0x10_0000, 1) + " MB"@
        } else if v < 0x100_0000_0000 {
            fixed_text(v, 0x4000_0000, 2) + " GB"@
        } else {
            fixed_text(v, 0x100_0000_0000, 2) + " TB"@
        }
    }
}

proof fn lemma_half_div(n: nat, a: nat)
    requires
        a > 0,
    ensures
        (n / a) / 2 == n / (2 * a),
{
    let q = n / a;
    let r = n % a;
    assert(n == a * q + r && 0 <= r < a) by {
        vstd::arithmetic::div_mod::lemma_fundamental_div_mod(n as int, a as int);
    }
    let q2 = q / 2;
    let r2 = q % 2;
    assert(q == 2 * q2 + r2 && 0 <= r2 < 2);
    assert(n == (2 * a) * q2 + (a * r2 + r)) by (nonlinear_arith)
        requires
            n == a * q + r,
            q == 2 * q2 + r2,
    ;
    assert(0 <= a * r2 + r < 2 * a) by (nonlinear_arith)
        requires
            0 <= r2 < 2,
            0 <= r < a,
    ;
    vstd::arithmetic::div_mod::lemma_fundamental_div_mod_converse_div(
        n as int,
        (2 * a) as int,
        q2 as int,
        (a * r2 + r) as int,
    );
}

proof fn lemma_sig_shift_small(n: nat)
    requires
        n < 0x20_0000_0000_0000,
    ensures
        f64_value(n) == n,
{
    assert(sig_shift(n) == 0);
    assert(p2(0) == 1);
    assert(n / 1 == n);
    assert(n % 1 == 0);
    assert(round_half_even(n, 1) == n);
}

/// `n as f64`, as an integer.
fn f64_round(n: u64) -> (v: u128)
    ensures
        v == f64_value(n as nat),
        n < 0x20_0000_0000_0000 ==> v == n,
        v <= 0x4_0000_0000_0000_0000,
        n >= 0x400 ==> v >= 0x400,
        n >= 0x10_0000 ==> v >= 0x10_0000,
        n >= 0x4000_0000 ==> v >= 0x4000_0000,
        n >= 0x100_0000_0000 ==> v >= 0x100_0000_0000,
        n < 0x400 ==> v < 0x400,
        n < 0x10_0000 ==> v < 0x10_0000,
        n < 0x4000_0000 ==> v < 0x4000_0000,
        n < 0x100_0000_0000 ==> v < 0x100_0000_0000,
{
    if n < 0x20_0000_0000_0000 {
        proof {
            lemma_sig_shift_small(n as nat);
        }
        return n as u128;
    }
    let mut m: u64 = n;
    let mut p: u128 = 1;
    let ghost mut k: nat = 0;
    while m >= 0x20_0000_0000_0000
        invariant
            p == p2(k),
            m as nat == (n as nat) / p2(k),
            sig_shift(n as nat) == k + sig_shift(m as nat),
            1 <= p <= 0x1000,
            m * p <= n,
            m >= 0x10_0000_0000_0000,
        decreases m,
    {
        proof {
            lemma_half_div(n as nat, p2(k));
            assert(p2(k + 1) == 2 * p2(k));
            assert(p <= 0x800) by (nonlinear_arith)
                requires
                    m * p <= n,
                    n < 0x1_0000_0000_0000_0000,
                    m >= 0x20_0000_0000_0000,
                    p >= 1,
            ;
            assert((m / 2) * (2 * p) <= n) by (nonlinear_arith)
                requires
                    m * p <= n,
                    p >= 1,
            ;
        }
        m = m / 2;
        p = p * 2;
        proof {
            k = k + 1;
        }
    }
    proof {
        assert(sig_shift(m as nat) == 0);
        assert(m * p <= n);
        assert(p <= 0x1000);
        assert(m * p <= 0x20_0000_0000_0000 * 0x1000) by (nonlinear_arith)
            requires
                m < 0x20_0000_0000_0000,
                p <= 0x1000,
        ;
    }
    let r: u128 = (n as u128) - (m as u128) * p;
    proof {
        vstd::arithmetic::div_mod::lemma_fundamental_div_mod(n as int, p as int);
        assert((n as nat) % p2(k) == r);
    }
    let q: u128 = if 2 * r > p || (2 * r == p && m % 2 == 1) {
        (m as u128) + 1
    } else {
        m as u128
    };
    proof {
        assert(q * p <= 0x20_0000_0000_0000 * 0x1000) by (nonlinear_arith)
            requires
                q <= 0x20_0000_0000_0000,
                p <= 0x1000,
        ;
    }
    let v = q * p;
    proof {
        assert(v >= m * p) by (nonlinear_arith)
            requires
                v == q * p,
                q >= m,
                p >= 1,
        ;
        assert(m * p >= 0x10_0000_0000_0000) by (nonlinear_arith)
            requires
                m >= 0x10_0000_0000_0000,
                p >= 1,
        ;
    }
    v
}

/// Appends `v / unit` with one or two fraction digits, rounded like `{:.1}` / `{:.2}`.
fn push_fixed(out: &mut Vec<char>, v: u128, unit: u128, prec: u64)
    requires
        0x400 <= unit <= 0x100_0000_0000,
        v <= 0x4_0000_0000_0000_0000,
        prec == 1 || prec == 2,
    ensures
        final(out)@ == old(out)@ + fixed_text(v as nat, unit as nat, prec as nat),
{
    let scale: u128 = if prec == 1 { 10 } else { 100 };
    let a = v * scale;
    let q = a / unit;
    let r = a % unit;
    let x: u128 = if 2 * r > unit || (2 * r == unit && q % 2 == 1) {
        q + 1
    } else {
        q
    };
    proof {
        assert(q <= a / 0x400) by {
            vstd::arithmetic::div_mod::lemma_div_is_ordered_by_denominator(a as int, 0x400, unit as int);
        }
        assert(x <= q + 1);
    }
    let ip = (x / scale) as u64;
    let fp = (x % scale) as u64;
    push_dec(out, ip);
    push_str(out, ".");
    if prec == 1 {
        push_dec(out, fp);
        proof {
            lemma_dec_len(fp as nat);
            assert(dec_pad(fp as nat, 1) == dec(fp as nat));
        }
    } else {
        push_dec2(out, fp);
    }
}

/// Human-readable size with binary units (`1.5 KB`, `2.00 GB`); negative sizes give "-".
pub fn fmt_bytes(bytes: i64) -> (r: String)
    ensures
        r@ == size_text(bytes as int),
{
    let mut out: Vec<char> = Vec::new();
    if bytes < 0 {
        push_str(&mut out, "-");
        return string_from_chars(&out);
    }
    let v = f64_round(bytes as u64);
    if v < 0x400 {
        push_dec(&mut out, bytes as u64);
        push_str(&mut out, " B");
    } else if v < 0x10_0000 {
        push_fixed(&mut out, v, 0x400, 1);
        push_str(&mut out, " KB");
    } else if v < 0x4000_0000 {
        push_fixed(&mut out, v, 0x10_0000, 1);
        push_str(&mut out, " MB");
    } else if v < 0x100_0000_0000 {
        push_fixed(&mut out, v, 0x4000_0000, 2);
        push_str(&mut out, " GB");
    } else {
        push_fixed(&mut out, v, 0x100_0000_0000, 2);
        push_str(&mut out, " TB");
    }
    string_from_chars(&out)
}

} // verus!
