//! Upload sizing, the gcid content hash, and Aliyun OSS multipart helpers.

use vstd::prelude::*;
use vstd::std_specs::iter::IteratorSpec;

use crate::json::{nonempty_str, nonempty_str_member, Json};
use crate::text::{
    chars_of, contains, dec, find_chars, find_from, occurs_at, push_chars, push_dec, push_str, slice_chars, str_eq,
    string_from_chars,
};

verus! {

broadcast use vstd::std_specs::hash::group_hash_axioms;

/// Initial gcid block size (256 KiB).
pub const MIN_BLOCK: u64 = 0x40000;
/// Largest gcid block size (2 MiB).
pub const MAX_BLOCK: u64 = 0x200000;
/// Smallest OSS part (5 MiB).
pub const MIN_CHUNK: u64 = 5 * 1024 * 1024;
/// Most parts an OSS multipart upload may have.
pub const MAX_PARTS: u64 = 10_000;

/// Block size reached from `p` by doubling while it is under 2 MiB and the
/// file still spans more than 512 blocks.
pub open spec fn block_from(size: nat, p: nat) -> nat
    decreases (if p < MAX_BLOCK { MAX_BLOCK - p } else { 0 }),
{
    if 0 < p < MAX_BLOCK && size / p > 0x200 {
        block_from(size, 2 * p)
    } else {
        p
    }
}

/// gcid block size for a file of `size` bytes: 256 KiB, doubled while the file
/// spans more than 512 blocks, at most 2 MiB.
pub fn gcid_block_size(size: u64) -> (b: u64)
    ensures
        b == block_from(size as nat, MIN_BLOCK as nat),
        MIN_BLOCK <= b <= MAX_BLOCK,
        b == 262144 || b == 524288 || b == 1048576 || b == 2097152,
        b < 2097152 ==> size / b <= 512,
        b > 262144 ==> size / (b / 2) > 512,
{
    let mut psize: u64 = MIN_BLOCK;
    while psize < MAX_BLOCK && size / psize > 0x200
        invariant
            psize == MIN_BLOCK || psize == 2 * MIN_BLOCK || psize == 4 * MIN_BLOCK || psize == 8
                * MIN_BLOCK,
            psize > 262144 ==> size / (psize / 2) > 512,
            block_from(size as nat, MIN_BLOCK as nat) == block_from(size as nat, psize as nat),
        decreases MAX_BLOCK - psize,
    {
        psize = psize * 2;
    }
    psize
}

/// OSS part size: at least 5 MiB and large enough for at most 10000 parts.
pub open spec fn chunk_size(size: nat) -> nat {
    let per = if size % (MAX_PARTS as nat) == 0 {
        size / (MAX_PARTS as nat)
    } else {
        size / (MAX_PARTS as nat) + 1
    };
    if per > MIN_CHUNK {
        per
    } else {
        MIN_CHUNK as nat
    }
}

/// OSS part size for a file of `size` bytes.
pub fn upload_chunk_size(size: u64) -> (c: u64)
    ensures
        c == chunk_size(size as nat),
{
    let per = size / MAX_PARTS + if size % MAX_PARTS == 0 {
        0
    } else {
        1
    };
    if per > MIN_CHUNK {
        per
    } else {
        MIN_CHUNK
    }
}

/// Bytes covered by part `part` (1-based) of a `size`-byte file cut in `chunk`-byte parts.
pub open spec fn part_bytes(part: nat, chunk: nat, size: nat) -> nat {
    let offset = (part - 1) * chunk;
    let rest = if size >= offset {
        (size - offset) as nat
    } else {
        0
    };
    if rest < chunk {
        rest
    } else {
        chunk
    }
}

/// Bytes of part `part`; the last part may be short, parts past the end are empty.
pub fn part_len(part: u64, chunk: u64, size: u64) -> (n: u64)
    requires
        part >= 1,
        (part - 1) * chunk <= u64::MAX,
    ensures
        n == part_bytes(part as nat, chunk as nat, size as nat),
{
    let offset = (part - 1) * chunk;
    let rest = if size >= offset {
        size - offset
    } else {
        0
    };
    if rest < chunk {
        rest
    } else {
        chunk
    }
}

/// Total bytes of the listed parts.
pub open spec fn parts_bytes(ps: Seq<u64>, chunk: nat, size: nat) -> nat
    decreases ps.len(),
{
    if ps.len() == 0 {
        0
    } else {
        parts_bytes(ps.drop_last(), chunk, size) + part_bytes(ps.last() as nat, chunk, size)
    }
}

proof fn lemma_parts_bytes_remove(ps: Seq<u64>, i: int, chunk: nat, size: nat)
    requires
        0 <= i < ps.len(),
    ensures
        parts_bytes(ps, chunk, size) == part_bytes(ps[i] as nat, chunk, size) + parts_bytes(
            ps.remove(i),
            chunk,
            size,
        ),
    decreases ps.len(),
{
    if i < ps.len() - 1 {
        lemma_parts_bytes_remove(ps.drop_last(), i, chunk, size);
        assert(ps.remove(i).drop_last() == ps.drop_last().remove(i));
        assert(ps.remove(i).last() == ps.last());
    } else {
        assert(ps.remove(i) == ps.drop_last());
    }
}

/// Distinct parts numbered 1..=n cover at most the first `n` chunks of the file.
proof fn lemma_parts_bytes_bound(ps: Seq<u64>, n: nat, chunk: nat, size: nat)
    requires
        ps.no_duplicates(),
        forall|i: int| 0 <= i < ps.len() ==> 1 <= #[trigger] ps[i] <= n,
    ensures
        parts_bytes(ps, chunk, size) <= (if size < n * chunk {
            size
        } else {
            n * chunk
        }),
    decreases n, ps.len(),
{
    if ps.len() == 0 {
        assert(0 <= n * chunk) by (nonlinear_arith);
        return;
    }
    assert(1 <= ps[0] <= n);
    let m = (n - 1) as nat;
    if exists|i: int| 0 <= i < ps.len() && ps[i] == n {
        let i = choose|i: int| 0 <= i < ps.len() && ps[i] == n;
        let rest = ps.remove(i);
        lemma_parts_bytes_remove(ps, i, chunk, size);
        assert forall|j: int| 0 <= j < rest.len() implies 1 <= #[trigger] rest[j] <= m by {
            if j < i {
                assert(rest[j] == ps[j]);
                assert(ps[j] != ps[i]);
            } else {
                assert(rest[j] == ps[j + 1]);
                assert(ps[j + 1] != ps[i]);
            }
        }
        assert(rest.no_duplicates()) by {
            assert forall|a: int, b: int| 0 <= a < b < rest.len() implies rest[a] != rest[b] by {
                let a2 = if a < i { a } else { a + 1 };
                let b2 = if b < i { b } else { b + 1 };
                assert(rest[a] == ps[a2]);
                assert(rest[b] == ps[b2]);
            }
        }
        lemma_parts_bytes_bound(rest, m, chunk, size);
        assert(n * chunk == m * chunk + chunk) by (nonlinear_arith)
            requires
                n == m + 1,
        ;
    } else {
        assert forall|j: int| 0 <= j < ps.len() implies 1 <= #[trigger] ps[j] <= m by {
            assert(ps[j] != n);
        }
        lemma_parts_bytes_bound(ps, m, chunk, size);
        assert(m * chunk <= n * chunk) by (nonlinear_arith)
            requires
                m <= n,
        ;
    }
}

/// Bytes covered by parts 1..=k.
pub open spec fn covered(k: nat, chunk: nat, size: nat) -> nat
    decreases k,
{
    if k == 0 {
        0
    } else {
        covered((k - 1) as nat, chunk, size) + part_bytes(k, chunk, size)
    }
}

/// Parts 1..=k cover the file's first `k` chunks: `min(size, k * chunk)` bytes.
pub proof fn lemma_covered(k: nat, chunk: nat, size: nat)
    ensures
        covered(k, chunk, size) == (if size < k * chunk {
            size
        } else {
            k * chunk
        }),
    decreases k,
{
    if k > 0 {
        let m = (k - 1) as nat;
        lemma_covered(m, chunk, size);
        assert(k * chunk == m * chunk + chunk) by (nonlinear_arith)
            requires
                k == m + 1,
        ;
        assert(m * chunk <= k * chunk);
    } else {
        assert(0 * chunk == 0) by (nonlinear_arith);
    }
}

/// Cutting `size` bytes into `chunk`-byte parts gives `n = ceil(size / chunk)`
/// parts: each before the last is a full chunk, the last holds between one
/// byte and a chunk, the part after it is empty, and together they hold the
/// whole file.
pub proof fn lemma_part_sizes(chunk: nat, size: nat, n: nat)
    requires
        chunk > 0,
        n == (size + chunk - 1) / (chunk as int),
    ensures
        forall|p: nat| 1 <= p < n ==> #[trigger] part_bytes(p, chunk, size) == chunk,
        n >= 1 ==> 0 < part_bytes(n, chunk, size) <= chunk,
        part_bytes(n + 1, chunk, size) == 0,
        covered(n, chunk, size) == size,
{
    let r = (size + chunk - 1) % (chunk as int);
    assert(size + chunk - 1 == n * chunk + r && 0 <= r < chunk) by (nonlinear_arith)
        requires
            chunk > 0,
            n == (size + chunk - 1) / (chunk as int),
            r == (size + chunk - 1) % (chunk as int),
    ;
    assert(n * chunk >= size);
    assert forall|p: nat| 1 <= p < n implies #[trigger] part_bytes(p, chunk, size) == chunk by {
        assert(p * chunk <= (n - 1) * chunk) by (nonlinear_arith)
            requires
                p <= n - 1,
        ;
        assert((n - 1) * chunk == n * chunk - chunk) by (nonlinear_arith);
        assert((p - 1) * chunk == p * chunk - chunk) by (nonlinear_arith);
    }
    if n >= 1 {
        assert((n - 1) * chunk == n * chunk - chunk) by (nonlinear_arith);
    }
    assert(((n + 1) - 1) * chunk == n * chunk);
    lemma_covered(n, chunk, size);
}

/// The part size is at least 5 MiB, and 10000 parts of it cover any file:
/// cutting a file of `size` bytes into parts of `upload_chunk_size(size)`
/// bytes needs at most `MAX_PARTS` parts, and those parts cover every byte
/// exactly once.
pub proof fn lemma_chunk_bounds(size: nat)
    ensures
        chunk_size(size) >= MIN_CHUNK,
        size <= MAX_PARTS * chunk_size(size),
        covered(MAX_PARTS as nat, chunk_size(size), size) == size,
{
    let n = MAX_PARTS as nat;
    let q = size / n;
    let r = size % n;
    assert(size == q * n + r && r < n) by (nonlinear_arith)
        requires
            n == 10000,
            q == size / n,
            r == size % n,
    ;
    let per = if r == 0 {
        q
    } else {
        q + 1
    };
    assert(size <= n * per) by (nonlinear_arith)
        requires
            size == q * n + r,
            r < n,
            per == (if r == 0 {
                q
            } else {
                q + 1
            }),
    ;
    let c = chunk_size(size);
    assert(n * per <= n * c) by (nonlinear_arith)
        requires
            per <= c,
    ;
    lemma_covered(n, c, size);
}

proof fn lemma_keys_step(keys: Seq<u64>, dom: Set<u64>, idx: int, chunk: u64, size: u64)
    requires
        0 <= idx < keys.len(),
        keys.no_duplicates(),
        keys.to_set() == dom,
        forall|p: u64| #[trigger] dom.contains(p) ==> p >= 1 && (p - 1) * chunk <= u64::MAX,
    ensures
        keys[idx] >= 1,
        (keys[idx] - 1) * chunk <= u64::MAX,
        keys.take(idx + 1) == keys.take(idx).push(keys[idx]),
        keys.take(idx + 1).no_duplicates(),
        idx + 1 == keys.len() ==> keys.take(idx + 1) == keys,
        parts_bytes(keys.take(idx + 1), chunk as nat, size as nat) <= size,
        parts_bytes(keys.take(idx + 1), chunk as nat, size as nat) == parts_bytes(keys.take(idx), chunk as nat, size as nat) + part_bytes(keys[idx] as nat, chunk as nat, size as nat),
{
    let pre = keys.take(idx + 1);
    assert(pre == keys.take(idx).push(keys[idx]));
    assert(pre.drop_last() == keys.take(idx));
    assert(pre.no_duplicates()) by {
        assert forall|a: int, b: int| 0 <= a < b < pre.len() implies pre[a] != pre[b] by {
            assert(pre[a] == keys[a]);
            assert(pre[b] == keys[b]);
        }
    }
    let mx = u64::MAX as nat;
    assert forall|i: int| 0 <= i < pre.len() implies 1 <= #[trigger] pre[i] <= mx by {
        assert(pre[i] == keys[i]);
        assert(keys.to_set().contains(keys[i]));
    }
    assert(keys.to_set().contains(keys[idx]));
    lemma_parts_bytes_bound(pre, mx, chunk as nat, size as nat);
    if idx + 1 == keys.len() {
        assert(pre == keys);
    }
}

/// Retry state of an OSS multipart upload: the ETag of each part already
/// uploaded (part number -> ETag), so that a retry within the same upload id
/// skips them.
#[derive(Debug, Default)]
pub struct OssUploadState {
    pub etags: std::collections::HashMap<u64, String>,
}

impl OssUploadState {
    /// Bytes covered by the parts already uploaded.
    pub fn uploaded_bytes(&self, chunk: u64, size: u64) -> (n: u64)
        requires
            forall|p: u64| #[trigger] self.etags@.contains_key(p) ==> p >= 1 && (p - 1) * chunk
                <= u64::MAX,
        ensures
            exists|ps: Seq<u64>|
                ps.no_duplicates() && ps.to_set() == self.etags@.dom() && n == #[trigger] parts_bytes(
                    ps,
                    chunk as nat,
                    size as nat,
                ),
    {
        let mut total: u64 = 0;
        proof {
            vstd::std_specs::hash::axiom_spec_keys_iter(&self.etags);
        }
        let ghost mut seen: Seq<u64> = Seq::empty();
        for p in it: self.etags.keys()
            invariant
                seen == it.seq().unref().take(it.index() as int),
                seen.no_duplicates(),
                it.index() == it.seq().len() ==> seen.to_set() == self.etags@.dom(),
                total == parts_bytes(seen, chunk as nat, size as nat),
                it.seq().unref().no_duplicates(),
                it.seq().unref().to_set() == self.etags@.dom(),
                forall|p: u64| #[trigger] self.etags@.contains_key(p) ==> p >= 1 && (p - 1) * chunk
                    <= u64::MAX,
        {
            proof {
                lemma_keys_step(it.seq().unref(), self.etags@.dom(), it.index() as int, chunk, size);
            }
            total = total + part_len(*p, chunk, size);
            proof {
                seen = seen.push(*p);
            }
        }
        total
    }
}

/// One `<Part>` element of the completion body.
pub open spec fn part_xml(n: nat, etag: Seq<char>) -> Seq<char> {
    "<Part><PartNumber>"@ + dec(n) + "</PartNumber><ETag>"@ + etag + "</ETag></Part>"@
}

/// `<Part>` elements for ETags numbered from 1.
pub open spec fn parts_xml(etags: Seq<String>) -> Seq<char>
    decreases etags.len(),
{
    if etags.len() == 0 {
        Seq::empty()
    } else {
        parts_xml(etags.drop_last()) + part_xml(etags.len(), etags.last()@)
    }
}

/// Body of the OSS "complete multipart upload" request.
pub fn complete_multipart_body(etags: &[String]) -> (r: String)
    ensures
        r@ == "<CompleteMultipartUpload>"@ + parts_xml(etags@) + "</CompleteMultipartUpload>"@,
{
    let mut xml: Vec<char> = Vec::new();
    push_str(&mut xml, "<CompleteMultipartUpload>");
    let mut i: usize = 0;
    while i < etags.len()
        invariant
            0 <= i <= etags@.len(),
            xml@ == "<CompleteMultipartUpload>"@ + parts_xml(etags@.take(i as int)),
        decreases etags@.len() - i,
    {
        push_str(&mut xml, "<Part><PartNumber>");
        push_dec(&mut xml, (i as u64) + 1);
        push_str(&mut xml, "</PartNumber><ETag>");
        push_str(&mut xml, etags[i].as_str());
        push_str(&mut xml, "</ETag></Part>");
        proof {
            let t = etags@.take(i + 1);
            assert(t.drop_last() == etags@.take(i as int));
            assert(t.last() == etags@[i as int]);
        }
        i += 1;
    }
    assert(etags@.take(etags@.len() as int) == etags@);
    push_str(&mut xml, "</CompleteMultipartUpload>");
    string_from_chars(&xml)
}

/// Text between the first `<tag>` and the first `</tag>` after it.
pub open spec fn xml_tag_text(xml: Seq<char>, tag: Seq<char>) -> Option<Seq<char>> {
    let open = "<"@ + tag + ">"@;
    let close = "</"@ + tag + ">"@;
    match find_from(xml, open, 0) {
        Some(a) => {
            let start = a + open.len();
            match find_from(xml, close, start) {
                Some(b) => Some(xml.subrange(start, b)),
                None => None,
            }
        },
        None => None,
    }
}

/// Value of a simple `<tag>value</tag>` element (not a general XML parser).
pub fn extract_xml_tag(xml: &str, tag: &str) -> (r: Option<String>)
    ensures
        match r {
            Some(v) => xml_tag_text(xml@, tag@) == Some(v@),
            None => xml_tag_text(xml@, tag@) is None,
        },
{
    let x = chars_of(xml);
    let t = chars_of(tag);
    let mut open: Vec<char> = Vec::new();
    push_str(&mut open, "<");
    push_chars(&mut open, &t);
    push_str(&mut open, ">");
    let mut close: Vec<char> = Vec::new();
    push_str(&mut close, "</");
    push_chars(&mut close, &t);
    push_str(&mut close, ">");
    let a = match find_chars(&x, &open, 0) {
        Some(a) => a,
        None => return None,
    };
    assert(crate::text::occurs_at(x@, open@, a as int));
    assert(a + open@.len() <= x@.len());
    assert(x@.len() == x.len());
    assert(open@.len() == open.len());
    let start = a + open.len();
    let b = match find_chars(&x, &close, start) {
        Some(b) => b,
        None => return None,
    };
    Some(string_from_chars(&slice_chars(&x, start, b)))
}

proof fn lemma_parts_xml_first(es: Seq<String>)
    requires
        es.len() > 0,
    ensures
        parts_xml(es).len() >= part_xml(1, es[0]@).len(),
        parts_xml(es).take(part_xml(1, es[0]@).len() as int) == part_xml(1, es[0]@),
    decreases es.len(),
{
    let p = part_xml(1, es[0]@);
    if es.len() == 1 {
        assert(es.drop_last().len() == 0);
        assert(parts_xml(es) == parts_xml(es.drop_last()) + part_xml(1, es.last()@));
        assert(parts_xml(es) == p);
    } else {
        lemma_parts_xml_first(es.drop_last());
        assert(es.drop_last()[0] == es[0]);
        let a = parts_xml(es.drop_last());
        assert(parts_xml(es) == a + part_xml(es.len(), es.last()@));
        assert((a + part_xml(es.len(), es.last()@)).take(p.len() as int) == a.take(p.len() as int));
    }
}

/// The head of a completion body, up to the first ETag.
pub open spec fn body_head() -> Seq<char> {
    "<CompleteMultipartUpload>"@ + "<Part><PartNumber>"@ + seq!['1'] + "</PartNumber><ETag>"@
}

proof fn lemma_body_head()
    ensures
        body_head().len() == 63,
        body_head().subrange(57, 63) == seq!['<', 'E', 'T', 'a', 'g', '>'],
        forall|j: int| 0 <= j < 57 ==> !(body_head()[j] == '<' && #[trigger] body_head()[j + 1] == 'E'),
{
    reveal_strlit("<CompleteMultipartUpload>");
    reveal_strlit("<Part><PartNumber>");
    reveal_strlit("</PartNumber><ETag>");
    let h = body_head();
    assert(h =~= seq![
        '<', 'C', 'o', 'm', 'p', 'l', 'e', 't', 'e', 'M', 'u', 'l', 't', 'i', 'p', 'a', 'r', 't', 'U', 'p', 'l', 'o',
        'a', 'd', '>', '<', 'P', 'a', 'r', 't', '>', '<', 'P', 'a', 'r', 't', 'N', 'u', 'm', 'b', 'e', 'r', '>', '1',
        '<', '/', 'P', 'a', 'r', 't', 'N', 'u', 'm', 'b', 'e', 'r', '>', '<', 'E', 'T', 'a', 'g', '>'
    ]);
    assert(h.subrange(57, 63) =~= seq!['<', 'E', 'T', 'a', 'g', '>']);
}

proof fn lemma_body_layout(es: Seq<String>)
    requires
        es.len() > 0,
    ensures
        ({
            let body = "<CompleteMultipartUpload>"@ + parts_xml(es) + "</CompleteMultipartUpload>"@;
            let e = es[0]@;
            &&& body.len() >= 63 + e.len() + 7
            &&& forall|k: int| 0 <= k < 63 ==> body[k] == #[trigger] body_head()[k]
            &&& forall|k: int| 0 <= k < e.len() ==> #[trigger] body[63 + k] == e[k]
            &&& body.subrange(63 + e.len() as int, 63 + e.len() as int + 7) == seq!['<', '/', 'E', 'T', 'a', 'g', '>']
        }),
{
    reveal_strlit("<CompleteMultipartUpload>");
    reveal_strlit("</ETag></Part>");
    lemma_body_head();
    let e = es[0]@;
    let body = "<CompleteMultipartUpload>"@ + parts_xml(es) + "</CompleteMultipartUpload>"@;
    lemma_parts_xml_first(es);
    assert(dec(1) == seq!['1']);
    let p1 = part_xml(1, e);
    let px = parts_xml(es);
    assert(p1 == "<Part><PartNumber>"@ + seq!['1'] + "</PartNumber><ETag>"@ + e + "</ETag></Part>"@);
    assert(body_head() + e + "</ETag></Part>"@ =~= "<CompleteMultipartUpload>"@ + p1);
    let pre = "<CompleteMultipartUpload>"@ + p1;
    assert forall|k: int| 0 <= k < pre.len() implies body[k] == pre[k] by {
        if k >= 25 {
            assert(body[k] == px[k - 25]);
            assert(px.take(p1.len() as int)[k - 25] == p1[k - 25]);
        }
    }
    assert forall|k: int| 0 <= k < 63 implies body[k] == #[trigger] body_head()[k] by {
        assert(pre[k] == body_head()[k]);
    }
    assert forall|k: int| 0 <= k < e.len() implies #[trigger] body[63 + k] == e[k] by {
        assert(pre[63 + k] == e[k]);
    }
    assert(body.subrange(63 + e.len() as int, 63 + e.len() as int + 7) =~= seq!['<', '/', 'E', 'T', 'a', 'g', '>']) by {
        let b0 = 63 + e.len() as int;
        assert forall|k: int| 0 <= k < 7 implies #[trigger] body.subrange(b0, b0 + 7)[k] == pre[b0 + k] by {
            assert(body[b0 + k] == pre[b0 + k]);
        }
        assert(pre.subrange(b0, b0 + 7) =~= seq!['<', '/', 'E', 'T', 'a', 'g', '>']);
    }
}

proof fn lemma_find_open(body: Seq<char>)
    requires
        body.len() >= 63,
        forall|k: int| 0 <= k < 63 ==> body[k] == #[trigger] body_head()[k],
    ensures
        find_from(body, seq!['<', 'E', 'T', 'a', 'g', '>'], 0) == Some(57int),
{
    let open = seq!['<', 'E', 'T', 'a', 'g', '>'];
    lemma_body_head();
    assert(occurs_at(body, open, 57)) by {
        assert forall|k: int| 0 <= k < 6 implies #[trigger] body.subrange(57, 63)[k] == open[k] by {
            assert(body[57 + k] == body_head()[57 + k]);
            assert(body_head().subrange(57, 63)[k] == body_head()[57 + k]);
        }
        assert(body.subrange(57, 63) =~= open);
    }
    assert forall|j: int| 0 <= j < 57 implies !occurs_at(body, open, j) by {
        if occurs_at(body, open, j) {
            assert(body.subrange(j, j + 6)[0] == body[j]);
            assert(body.subrange(j, j + 6)[1] == body[j + 1]);
            assert(body[j] == body_head()[j]);
            assert(body[j + 1] == body_head()[j + 1]);
        }
    }
}

proof fn lemma_no_close_at(body: Seq<char>, e: Seq<char>, j: int)
    requires
        63 <= j < 63 + e.len(),
        body.len() >= 63 + e.len() + 7,
        forall|k: int| 0 <= k < e.len() ==> #[trigger] body[63 + k] == e[k],
        body[63 + e.len() as int] == '<',
        !occurs_at(e, seq!['<', '/', 'E', 'T', 'a', 'g', '>'], j - 63),
    ensures
        !occurs_at(body, seq!['<', '/', 'E', 'T', 'a', 'g', '>'], j),
{
    let close = seq!['<', '/', 'E', 'T', 'a', 'g', '>'];
    let el = e.len() as int;
    if occurs_at(body, close, j) {
        if j + 7 <= 63 + el {
            assert forall|k: int| 0 <= k < 7 implies #[trigger] e.subrange(j - 63, j - 63 + 7)[k] == close[k] by {
                assert(body[63 + (j - 63 + k)] == e[j - 63 + k]);
                assert(body.subrange(j, j + 7)[k] == body[j + k]);
            }
            assert(e.subrange(j - 63, j - 63 + 7) =~= close);
        } else {
            let t = 63 + el - j;
            assert(body.subrange(j, j + 7)[t] == body[63 + el]);
        }
    }
}

#[verifier::rlimit(40)]
proof fn lemma_find_close(body: Seq<char>, e: Seq<char>)
    requires
        body.len() >= 63 + e.len() + 7,
        forall|k: int| 0 <= k < e.len() ==> #[trigger] body[63 + k] == e[k],
        body.subrange(63 + e.len() as int, 63 + e.len() as int + 7) == seq!['<', '/', 'E', 'T', 'a', 'g', '>'],
        !contains(e, seq!['<', '/', 'E', 'T', 'a', 'g', '>']),
    ensures
        find_from(body, seq!['<', '/', 'E', 'T', 'a', 'g', '>'], 63) == Some(63 + e.len() as int),
        body.subrange(63, 63 + e.len() as int) == e,
{
    let close = seq!['<', '/', 'E', 'T', 'a', 'g', '>'];
    let el = e.len() as int;
    assert(body.subrange(63 + el, 63 + el + 7)[0] == body[63 + el]);
    assert(occurs_at(body, close, 63 + el));
    assert forall|j: int| 63 <= j < 63 + el implies !occurs_at(body, close, j) by {
        lemma_no_close_at(body, e, j);
    }
    assert forall|k: int| 0 <= k < el implies #[trigger] body.subrange(63, 63 + el)[k] == e[k] by {
        assert(body[63 + k] == e[k]);
    }
    assert(body.subrange(63, 63 + el) =~= e);
}

/// The first ETag of a completion body reads back: the text between the
/// body's first `<ETag>` and the first `</ETag>` after it is the first part's
/// ETag, as long as that ETag does not itself hold `</ETag>`.
pub proof fn lemma_first_etag_round_trip(es: Seq<String>)
    requires
        es.len() > 0,
        !contains(es[0]@, "</ETag>"@),
    ensures
        xml_tag_text("<CompleteMultipartUpload>"@ + parts_xml(es) + "</CompleteMultipartUpload>"@, "ETag"@) == Some(
            es[0]@,
        ),
{
    reveal_strlit("ETag");
    reveal_strlit("<");
    reveal_strlit(">");
    reveal_strlit("</");
    reveal_strlit("</ETag>");
    let e = es[0]@;
    let body = "<CompleteMultipartUpload>"@ + parts_xml(es) + "</CompleteMultipartUpload>"@;
    assert("<"@ + "ETag"@ + ">"@ =~= seq!['<', 'E', 'T', 'a', 'g', '>']);
    assert("</"@ + "ETag"@ + ">"@ =~= seq!['<', '/', 'E', 'T', 'a', 'g', '>']);
    assert("</ETag>"@ =~= seq!['<', '/', 'E', 'T', 'a', 'g', '>']);
    lemma_body_layout(es);
    lemma_find_open(body);
    lemma_find_close(body, e);
}

/// Lower-case hexadecimal digit.
pub open spec fn hex_digit(v: nat) -> char {
    if v < 10 {
        (48 + v) as char
    } else {
        (87 + v) as char
    }
}

/// Lower-case hex text of bytes, two digits per byte.
pub open spec fn hex_text(bytes: Seq<u8>) -> Seq<char>
    decreases bytes.len(),
{
    if bytes.len() == 0 {
        Seq::empty()
    } else {
        hex_text(bytes.drop_last()) + seq![
            hex_digit((bytes.last() / 16) as nat),
            hex_digit((bytes.last() % 16) as nat),
        ]
    }
}

fn hex_char(v: u8) -> (c: char)
    requires
        v < 16,
    ensures
        c == hex_digit(v as nat),
{
    match v {
        0 => '0',
        1 => '1',
        2 => '2',
        3 => '3',
        4 => '4',
        5 => '5',
        6 => '6',
        7 => '7',
        8 => '8',
        9 => '9',
        10 => 'a',
        11 => 'b',
        12 => 'c',
        13 => 'd',
        14 => 'e',
        _ => 'f',
    }
}

/// Lower-case hex encoding.
pub fn hex_lower(bytes: &[u8]) -> (r: String)
    ensures
        r@ == hex_text(bytes@),
{
    let mut out: Vec<char> = Vec::new();
    let mut i: usize = 0;
    while i < bytes.len()
        invariant
            0 <= i <= bytes@.len(),
            out@ == hex_text(bytes@.take(i as int)),
        decreases bytes@.len() - i,
    {
        let b = bytes[i];
        out.push(hex_char(b / 16));
        out.push(hex_char(b % 16));
        proof {
            let t = bytes@.take(i + 1);
            assert(t.drop_last() == bytes@.take(i as int));
            assert(t.last() == b);
        }
        i += 1;
    }
    assert(bytes@.take(bytes@.len() as int) == bytes@);
    string_from_chars(&out)
}

/// SHA-1 digest of `data` (20 bytes).
pub uninterp spec fn sha1_digest(data: Seq<u8>) -> Seq<u8>;

/// SHA-1 of `data` by the `sha1` crate (`Sha1::digest`); its output is always 20 bytes.
#[verifier::external_body]
fn sha1(data: &[u8]) -> (d: Vec<u8>)
    ensures
        d@ == sha1_digest(data@),
        d@.len() == 20,
{
    <sha1::Sha1 as sha1::Digest>::digest(data).to_vec()
}

/// Concatenated SHA-1 digests of the consecutive `block`-byte blocks of `data`
/// (the last block may be shorter).
pub open spec fn block_digests(data: Seq<u8>, block: nat) -> Seq<u8>
    decreases data.len(),
{
    if data.len() == 0 || block == 0 {
        Seq::empty()
    } else if data.len() <= block {
        sha1_digest(data)
    } else {
        sha1_digest(data.take(block as int)) + block_digests(data.skip(block as int), block)
    }
}

/// gcid of a file's contents: lower-case hex SHA-1 of the concatenated
/// block digests, blocks sized by `gcid_block_size`.
pub open spec fn gcid_text(data: Seq<u8>) -> Seq<char> {
    hex_text(sha1_digest(block_digests(data, block_from(data.len(), MIN_BLOCK as nat))))
}

/// Incremental gcid: feed the file's blocks in order, then finish.
pub struct GcidHasher {
    digests: Vec<u8>,
}

impl GcidHasher {
    /// Concatenated digests of the blocks fed so far.
    pub closed spec fn fed(&self) -> Seq<u8> {
        self.digests@
    }

    pub fn new() -> (h: GcidHasher)
        ensures
            h.fed() == Seq::<u8>::empty(),
    {
        GcidHasher { digests: Vec::new() }
    }

    /// Adds the digest of the next block.
    pub fn update_block(&mut self, block: &[u8])
        ensures
            final(self).fed() == old(self).fed() + sha1_digest(block@),
    {
        let d = sha1(block);
        let mut i: usize = 0;
        let ghost start = self.digests@;
        while i < d.len()
            invariant
                0 <= i <= d@.len(),
                self.digests@ == start + d@.take(i as int),
            decreases d@.len() - i,
        {
            self.digests.push(d[i]);
            i += 1;
            assert(d@.take(i as int) == d@.take(i - 1).push(d@[i - 1]));
        }
        assert(d@.take(d@.len() as int) == d@);
    }

    /// Lower-case hex SHA-1 of the block digests.
    pub fn finish(&self) -> (r: String)
        ensures
            r@ == hex_text(sha1_digest(self.fed())),
    {
        let d = sha1(&self.digests);
        hex_lower(&d)
    }
}

/// The gcid (content hash used for instant upload) of a file's bytes.
pub fn gcid(data: &[u8]) -> (r: String)
    ensures
        r@ == gcid_text(data@),
{
    let block = gcid_block_size(data.len() as u64);
    let mut h = GcidHasher::new();
    let mut pos: usize = 0;
    proof {
        assert(data@.skip(0) == data@);
    }
    while pos < data.len()
        invariant
            0 <= pos <= data@.len(),
            block >= MIN_BLOCK,
            h.fed() + block_digests(data@.skip(pos as int), block as nat) == block_digests(
                data@,
                block as nat,
            ),
        decreases data@.len() - pos,
    {
        let rest = data.len() - pos;
        let n: usize = if (rest as u64) < block {
            rest
        } else {
            block as usize
        };
        let piece = slice_chars(data, pos, pos + n);
        proof {
            let s = data@.skip(pos as int);
            if s.len() <= block {
                assert(piece@ == s);
            } else {
                assert(piece@ == s.take(block as int));
                assert(s.skip(block as int) == data@.skip(pos + n));
            }
        }
        h.update_block(&piece);
        pos = pos + n;
        proof {
            if pos == data@.len() {
                assert(data@.skip(pos as int).len() == 0);
            }
        }
    }
    proof {
        assert(data@.skip(pos as int).len() == 0);
        assert(h.fed() + Seq::<u8>::empty() == h.fed());
    }
    h.finish()
}

/// Aliyun OSS temporary credentials and target object.
#[derive(Debug)]
pub struct OssContext {
    pub endpoint: String,
    pub access_key_id: String,
    pub access_key_secret: String,
    pub security_token: String,
    pub bucket: String,
    pub key: String,
}

/// Character of a 6-bit value in the standard base64 alphabet.
pub open spec fn b64_char(v: nat) -> char {
    if v < 26 {
        (65 + v) as char
    } else if v < 52 {
        (71 + v) as char
    } else if v < 62 {
        (v - 4) as char
    } else if v == 62 {
        '+'
    } else {
        '/'
    }
}

/// Standard base64 with `=` padding (RFC 4648).
pub open spec fn base64_text(d: Seq<u8>) -> Seq<char>
    decreases d.len(),
{
    if d.len() == 0 {
        Seq::empty()
    } else if d.len() == 1 {
        seq![b64_char((d[0] / 4) as nat), b64_char(((d[0] % 4) * 16) as nat), '=', '=']
    } else if d.len() == 2 {
        seq![
            b64_char((d[0] / 4) as nat),
            b64_char(((d[0] % 4) * 16 + d[1] / 16) as nat),
            b64_char(((d[1] % 16) * 4) as nat),
            '=',
        ]
    } else {
        seq![
            b64_char((d[0] / 4) as nat),
            b64_char(((d[0] % 4) * 16 + d[1] / 16) as nat),
            b64_char(((d[1] % 16) * 4 + d[2] / 64) as nat),
            b64_char((d[2] % 64) as nat),
        ] + base64_text(d.skip(3))
    }
}

/// Standard base64 encoding by the `base64` crate (`STANDARD` engine: the
/// RFC 4648 alphabet with padding). It panics only when the output length
/// overflows `usize`, which the size bound rules out.
#[verifier::external_body]
fn base64_encode(data: &[u8]) -> (s: String)
    requires
        data@.len() <= usize::MAX / 2,
    ensures
        s@ == base64_text(data@),
{
    base64::Engine::encode(&base64::engine::general_purpose::STANDARD, data)
}

/// HMAC-SHA1 of `msg` under `key`.
pub uninterp spec fn hmac_sha1_mac(key: Seq<u8>, msg: Seq<u8>) -> Seq<u8>;

/// HMAC-SHA1 by the `hmac` and `sha1` crates (`Hmac<Sha1>`: a key of any length
/// is accepted, the tag is 20 bytes).
#[verifier::external_body]
fn hmac_sha1(key: &[u8], msg: &[u8]) -> (mac: Vec<u8>)
    ensures
        mac@ == hmac_sha1_mac(key@, msg@),
        mac@.len() == 20,
{
    let mut m = <hmac::Hmac<sha1::Sha1> as hmac::Mac>::new_from_slice(key).unwrap();
    hmac::Mac::update(&mut m, msg);
    hmac::Mac::finalize(m).into_bytes().to_vec()
}

/// The canonical string an OSS request signs.
pub open spec fn oss_string_to_sign(
    method: Seq<char>,
    date: Seq<char>,
    token: Seq<char>,
    bucket: Seq<char>,
    key: Seq<char>,
    query: Seq<char>,
) -> Seq<char> {
    let resource = if query.len() == 0 {
        "/"@ + bucket + "/"@ + key
    } else {
        "/"@ + bucket + "/"@ + key + "?"@ + query
    };
    method + "\n\napplication/octet-stream\n"@ + date + "\n"@ + "x-oss-security-token:"@ + token
        + "\n"@ + resource
}

/// `Authorization` header of an OSS request: `OSS <key id>:<base64 HMAC-SHA1 signature>`.
pub open spec fn oss_authorization_text(
    method: Seq<char>,
    date: Seq<char>,
    id: Seq<char>,
    secret: Seq<char>,
    token: Seq<char>,
    bucket: Seq<char>,
    key: Seq<char>,
    query: Seq<char>,
) -> Seq<char> {
    "OSS "@ + id + ":"@ + base64_text(
        hmac_sha1_mac(
            vstd::utf8::encode_utf8(secret),
            vstd::utf8::encode_utf8(oss_string_to_sign(method, date, token, bucket, key, query)),
        ),
    )
}

/// Builds the `Authorization` header of an OSS request. `query` is the raw
/// text after `?` in the request URL; `date` the RFC 1123 GMT date header.
pub fn oss_authorization(method: &str, date: &str, oss: &OssContext, query: &str) -> (r: String)
    ensures
        r@ == oss_authorization_text(
            method@,
            date@,
            oss.access_key_id@,
            oss.access_key_secret@,
            oss.security_token@,
            oss.bucket@,
            oss.key@,
            query@,
        ),
{
    let mut sts: Vec<char> = chars_of(method);
    push_str(&mut sts, "\n\napplication/octet-stream\n");
    push_str(&mut sts, date);
    push_str(&mut sts, "\n");
    push_str(&mut sts, "x-oss-security-token:");
    push_str(&mut sts, oss.security_token.as_str());
    push_str(&mut sts, "\n");
    push_str(&mut sts, "/");
    push_str(&mut sts, oss.bucket.as_str());
    push_str(&mut sts, "/");
    push_str(&mut sts, oss.key.as_str());
    if !query.is_empty() {
        push_str(&mut sts, "?");
        push_str(&mut sts, query);
    }
    let sts_string = string_from_chars(&sts);
    proof {
        let resource = if query@.len() == 0 {
            "/"@ + oss.bucket@ + "/"@ + oss.key@
        } else {
            "/"@ + oss.bucket@ + "/"@ + oss.key@ + "?"@ + query@
        };
        assert(sts@ == oss_string_to_sign(
            method@,
            date@,
            oss.security_token@,
            oss.bucket@,
            oss.key@,
            query@,
        ));
    }
    let mac = hmac_sha1(oss.access_key_secret.as_str().as_bytes(), sts_string.as_str().as_bytes());
    let sig = base64_encode(&mac);
    let mut out: Vec<char> = Vec::new();
    push_str(&mut out, "OSS ");
    push_str(&mut out, oss.access_key_id.as_str());
    push_str(&mut out, ":");
    push_str(&mut out, sig.as_str());
    string_from_chars(&out)
}

/// Upload information read from the response of `POST /drive/v1/files`.
#[derive(Debug)]
pub struct UploadTicket {
    /// Instant upload: the server already has the same content.
    pub completed: bool,
    /// OSS target when the bytes must actually be uploaded.
    pub oss: Option<OssContext>,
}

/// Plain view of an `OssContext`.
pub struct OssView {
    pub endpoint: Seq<char>,
    pub access_key_id: Seq<char>,
    pub access_key_secret: Seq<char>,
    pub security_token: Seq<char>,
    pub bucket: Seq<char>,
    pub key: Seq<char>,
}

impl View for OssContext {
    type V = OssView;

    open spec fn view(&self) -> OssView {
        OssView {
            endpoint: self.endpoint@,
            access_key_id: self.access_key_id@,
            access_key_secret: self.access_key_secret@,
            security_token: self.security_token@,
            bucket: self.bucket@,
            key: self.key@,
        }
    }
}

/// A non-empty string parameter, or empty text when missing.
pub open spec fn param_or_empty(p: Json, k: Seq<char>) -> Seq<char> {
    match nonempty_str(p.spec_get(k)) {
        Some(s) => s,
        None => Seq::empty(),
    }
}

/// OSS context of `resumable.params`; endpoint, bucket and key must be non-empty.
pub open spec fn oss_params(v: Json) -> Option<OssView> {
    match v.spec_get("resumable"@) {
        Some(r) => match r.spec_get("params"@) {
            Some(p) => {
                let e = nonempty_str(p.spec_get("endpoint"@));
                let b = nonempty_str(p.spec_get("bucket"@));
                let k = nonempty_str(p.spec_get("key"@));
                if e is Some && b is Some && k is Some {
                    Some(
                        OssView {
                            endpoint: e->0,
                            access_key_id: param_or_empty(p, "access_key_id"@),
                            access_key_secret: param_or_empty(p, "access_key_secret"@),
                            security_token: param_or_empty(p, "security_token"@),
                            bucket: b->0,
                            key: k->0,
                        },
                    )
                } else {
                    None
                }
            },
            None => None,
        },
        None => None,
    }
}

fn param(p: &Json, k: &str) -> (r: String)
    ensures
        r@ == param_or_empty(*p, k@),
{
    match nonempty_str_member(p, k) {
        Some(s) => s.clone(),
        None => String::new(),
    }
}

fn parse_oss(v: &Json) -> (r: Option<OssContext>)
    ensures
        match r {
            Some(o) => oss_params(*v) == Some(o@),
            None => oss_params(*v) is None,
        },
{
    let r = v.get("resumable")?;
    let p = r.get("params")?;
    let endpoint = nonempty_str_member(p, "endpoint")?.clone();
    let access_key_id = param(p, "access_key_id");
    let access_key_secret = param(p, "access_key_secret");
    let security_token = param(p, "security_token");
    let bucket = nonempty_str_member(p, "bucket")?.clone();
    let key = nonempty_str_member(p, "key")?.clone();
    Some(OssContext { endpoint, access_key_id, access_key_secret, security_token, bucket, key })
}

/// Phase of the created file (`file.phase`), empty when absent.
pub open spec fn ticket_phase(v: Json) -> Seq<char> {
    match v.spec_get("file"@) {
        Some(f) => match f.spec_get("phase"@) {
            Some(p) => match p.spec_str() {
                Some(s) => s,
                None => Seq::empty(),
            },
            None => Seq::empty(),
        },
        None => Seq::empty(),
    }
}

impl UploadTicket {
    /// Reads an upload ticket: completed exactly when `file.phase` is
    /// `PHASE_TYPE_COMPLETE`; otherwise the OSS context of `resumable.params`.
    pub fn from_response(v: &Json) -> (t: UploadTicket)
        ensures
            t.completed == (ticket_phase(*v) == "PHASE_TYPE_COMPLETE"@),
            t.completed ==> t.oss is None,
            !t.completed ==> match t.oss {
                Some(o) => oss_params(*v) == Some(o@),
                None => oss_params(*v) is None,
            },
    {
        let phase: Option<&String> = match v.get("file") {
            Some(f) => match f.get("phase") {
                Some(p) => p.as_str(),
                None => None,
            },
            None => None,
        };
        assert(match phase {
            Some(p) => p@ == ticket_phase(*v),
            None => ticket_phase(*v) == Seq::<char>::empty(),
        });
        let completed = match phase {
            Some(p) => str_eq(p.as_str(), "PHASE_TYPE_COMPLETE"),
            None => {
                proof {
                    reveal_strlit("PHASE_TYPE_COMPLETE");
                }
                false
            },
        };
        UploadTicket {
            completed,
            oss: if completed {
                None
            } else {
                parse_oss(v)
            },
        }
    }
}

/// Number of parts of a `size`-byte upload: at least one, even for an empty file.
pub open spec fn part_count(size: nat) -> nat {
    let c = chunk_size(size);
    if size == 0 {
        1
    } else if size % c == 0 {
        size / c
    } else {
        size / c + 1
    }
}

/// The part numbers of a `size`-byte upload not yet in `done`, in increasing order.
pub open spec fn missing_from(done: Map<u64, String>, size: nat) -> Seq<u64> {
    Seq::new(part_count(size), |i: int| (i + 1) as u64).filter(|p: u64| !done.contains_key(p))
}

impl OssUploadState {
    /// The parts of a `size`-byte file that still have to be uploaded (those
    /// without an ETag), in increasing order.
    pub fn missing_parts(&self, size: u64) -> (r: Vec<u64>)
        ensures
            r@ == missing_from(self.etags@, size as nat),
    {
        let chunk = upload_chunk_size(size);
        proof {
            lemma_chunk_bounds(size as nat);
            assert(size / chunk <= 0xffff_ffff_ffff) by (nonlinear_arith)
                requires
                    chunk >= 5242880,
            ;
            if size > 0 {
                assert(size / chunk + (if size % chunk == 0 {
                    0int
                } else {
                    1int
                }) <= 10000) by (nonlinear_arith)
                    requires
                        chunk > 0,
                        size <= 10000 * chunk,
                ;
            }
        }
        let total: u64 = if size == 0 {
            1
        } else {
            size / chunk + if size % chunk == 0 {
                0
            } else {
                1
            }
        };
        assert(total == part_count(size as nat));
        let ghost all = Seq::new(part_count(size as nat), |i: int| (i + 1) as u64);
        let ghost keep = |p: u64| !self.etags@.contains_key(p);
        let mut r: Vec<u64> = Vec::new();
        let mut p: u64 = 1;
        while p <= total
            invariant
                1 <= p <= total + 1,
                total == part_count(size as nat),
                total <= MAX_PARTS,
                all == Seq::new(part_count(size as nat), |i: int| (i + 1) as u64),
                keep == (|q: u64| !self.etags@.contains_key(q)),
                r@ == all.take(p - 1).filter(keep),
            decreases total + 1 - p,
        {
            proof {
                assert(all.take(p as int) == all.take(p - 1).push(p));
                all.take(p - 1).lemma_filter_push(p, keep);
            }
            if !self.etags.contains_key(&p) {
                r.push(p);
            }
            p = p + 1;
        }
        assert(all.take(total as int) == all);
        r
    }

    /// The ETags in part order, as the completion request lists them.
    pub fn ordered_etags(&self) -> (r: Vec<String>)
        ensures
            exists|ks: Seq<u64>|
                #![trigger ks.len()]
                {
                    &&& ks.len() == r@.len()
                    &&& forall|a: int, b: int| 0 <= a < b < ks.len() ==> ks[a] < ks[b]
                    &&& forall|k: u64| self.etags@.contains_key(k) <==> ks.contains(k)
                    &&& forall|i: int| 0 <= i < ks.len() ==> r@[i] == self.etags@[#[trigger] ks[i]]
                },
    {
        let keys = self.keys();
        let mut sorted: Vec<u64> = Vec::new();
        let mut i: usize = 0;
        while i < keys.len()
            invariant
                0 <= i <= keys@.len(),
                keys@.no_duplicates(),
                forall|a: int, b: int| 0 <= a < b < sorted@.len() ==> sorted@[a] < sorted@[b],
                forall|x: u64| sorted@.contains(x) <==> keys@.take(i as int).contains(x),
            decreases keys@.len() - i,
        {
            let k = keys[i];
            proof {
                if keys@.take(i as int).contains(k) {
                    let j = choose|j: int| 0 <= j < i && keys@.take(i as int)[j] == k;
                    assert(keys@[j] == keys@[i as int]);
                }
            }
            let mut pos: usize = 0;
            while pos < sorted.len() && sorted[pos] < k
                invariant
                    0 <= pos <= sorted@.len(),
                    forall|a: int| 0 <= a < pos ==> sorted@[a] < k,
                decreases sorted@.len() - pos,
            {
                pos += 1;
            }
            let ghost old_sorted = sorted@;
            proof {
                if pos < old_sorted.len() {
                    assert(old_sorted[pos as int] != k) by {
                        assert(old_sorted.contains(old_sorted[pos as int]));
                    }
                }
            }
            sorted.insert(pos, k);
            proof {
                assert(sorted@ == old_sorted.insert(pos as int, k));
                assert forall|a: int, b: int| 0 <= a < b < sorted@.len() implies sorted@[a] < sorted@[b] by {
                    if b < pos {
                    } else if b == pos {
                    } else if a < pos {
                        assert(sorted@[b] == old_sorted[b - 1]);
                        if pos < old_sorted.len() {
                            assert(old_sorted[pos as int] > k);
                        }
                    } else if a == pos {
                        assert(sorted@[b] == old_sorted[b - 1]);
                        assert(old_sorted[pos as int] > k);
                        if b - 1 > pos {
                            assert(old_sorted[pos as int] < old_sorted[b - 1]);
                        }
                    } else {
                        assert(sorted@[a] == old_sorted[a - 1]);
                        assert(sorted@[b] == old_sorted[b - 1]);
                    }
                }
                let t0 = keys@.take(i as int);
                let t1 = keys@.take(i + 1);
                assert(t1 == t0.push(k));
                assert forall|x: u64| sorted@.contains(x) implies t1.contains(x) by {
                    let j = choose|j: int| 0 <= j < sorted@.len() && sorted@[j] == x;
                    if j == pos {
                        assert(t1[i as int] == k);
                    } else {
                        let jo = if j < pos {
                            j
                        } else {
                            j - 1
                        };
                        assert(old_sorted[jo] == x);
                        assert(old_sorted.contains(x));
                        assert(t0.contains(x));
                        let m = choose|m: int| 0 <= m < t0.len() && t0[m] == x;
                        assert(t1[m] == x);
                    }
                }
                assert forall|x: u64| t1.contains(x) implies sorted@.contains(x) by {
                    let j = choose|j: int| 0 <= j < t1.len() && t1[j] == x;
                    if j == i {
                        assert(sorted@[pos as int] == k);
                    } else {
                        assert(t0[j] == x);
                        assert(t0.contains(x));
                        assert(old_sorted.contains(x));
                        let m = choose|m: int| 0 <= m < old_sorted.len() && old_sorted[m] == x;
                        if m < pos {
                            assert(sorted@[m] == x);
                        } else {
                            assert(sorted@[m + 1] == x);
                        }
                    }
                }
            }
            i += 1;
        }
        assert(keys@.take(keys@.len() as int) == keys@);
        let mut out: Vec<String> = Vec::new();
        let mut j: usize = 0;
        while j < sorted.len()
            invariant
                0 <= j <= sorted@.len(),
                out@.len() == j,
                forall|x: u64| sorted@.contains(x) <==> self.etags@.contains_key(x),
                forall|t: int| 0 <= t < j ==> out@[t] == self.etags@[sorted@[t]],
            decreases sorted@.len() - j,
        {
            let k = sorted[j];
            assert(sorted@.contains(k));
            match self.etags.get(&k) {
                Some(v) => {
                    out.push(v.clone());
                },
                None => {
                    assert(false);
                },
            }
            j += 1;
        }
        assert(sorted@.len() == out@.len());
        out
    }

    /// The part numbers that have an ETag, in some order, each once.
    fn keys(&self) -> (ks: Vec<u64>)
        ensures
            ks@.no_duplicates(),
            forall|x: u64| ks@.contains(x) <==> self.etags@.contains_key(x),
    {
        proof {
            vstd::std_specs::hash::axiom_spec_keys_iter(&self.etags);
        }
        let mut ks: Vec<u64> = Vec::new();
        for p in it: self.etags.keys()
            invariant
                ks@ == it.seq().unref().take(it.index() as int),
                ks@.no_duplicates(),
                it.index() == it.seq().len() ==> ks@.to_set() == self.etags@.dom(),
                it.seq().unref().no_duplicates(),
                it.seq().unref().to_set() == self.etags@.dom(),
        {
            proof {
                lemma_prefix_step(it.seq().unref(), it.index() as int);
            }
            ks.push(*p);
        }
        proof {
            let s = ks@;
            assert forall|x: u64| s.contains(x) <==> self.etags@.contains_key(x) by {
                assert(s.to_set().contains(x) == s.contains(x));
                assert(self.etags@.dom().contains(x) == self.etags@.contains_key(x));
            }
        }
        ks
    }
}

proof fn lemma_prefix_step(keys: Seq<u64>, idx: int)
    requires
        0 <= idx < keys.len(),
        keys.no_duplicates(),
    ensures
        keys.take(idx + 1) == keys.take(idx).push(keys[idx]),
        keys.take(idx + 1).no_duplicates(),
        idx + 1 == keys.len() ==> keys.take(idx + 1) == keys,
{
    let pre = keys.take(idx + 1);
    assert(pre == keys.take(idx).push(keys[idx]));
    assert(pre.no_duplicates()) by {
        assert forall|a: int, b: int| 0 <= a < b < pre.len() implies pre[a] != pre[b] by {
            assert(pre[a] == keys[a]);
            assert(pre[b] == keys[b]);
        }
    }
}

/// `s` without its trailing `c` characters (`str::trim_end_matches`).
pub open spec fn strip_back(s: Seq<char>, c: char) -> Seq<char>
    decreases s.len(),
{
    if s.len() > 0 && s.last() == c {
        strip_back(s.drop_last(), c)
    } else {
        s
    }
}

/// `s` without its leading `c` characters (`str::trim_start_matches`).
pub open spec fn strip_front(s: Seq<char>, c: char) -> Seq<char>
    decreases s.len(),
{
    if s.len() > 0 && s[0] == c {
        strip_front(s.drop_first(), c)
    } else {
        s
    }
}

fn strip_back_chars(s: &Vec<char>, c: char) -> (r: Vec<char>)
    ensures
        r@ == strip_back(s@, c),
{
    let mut n: usize = s.len();
    assert(s@.take(s@.len() as int) == s@);
    while n > 0 && s[n - 1] == c
        invariant
            0 <= n <= s@.len(),
            strip_back(s@, c) == strip_back(s@.take(n as int), c),
        decreases n,
    {
        assert(s@.take(n as int).drop_last() == s@.take(n - 1));
        n -= 1;
    }
    slice_chars(s, 0, n)
}

fn strip_front_chars(s: &Vec<char>, c: char) -> (r: Vec<char>)
    ensures
        r@ == strip_front(s@, c),
{
    let mut n: usize = 0;
    assert(s@.skip(0) == s@);
    while n < s.len() && s[n] == c
        invariant
            0 <= n <= s@.len(),
            strip_front(s@, c) == strip_front(s@.skip(n as int), c),
        decreases s@.len() - n,
    {
        assert(s@.skip(n as int).drop_first() == s@.skip(n + 1));
        n += 1;
    }
    let r = slice_chars(s, n, s.len());
    assert(r@ == s@.skip(n as int));
    r
}

/// The URL of an OSS request: `https://<endpoint>/<key>?<query>`, the
/// endpoint's trailing slashes dropped.
pub fn oss_url(endpoint: &str, key: &str, query: &str) -> (u: String)
    ensures
        u@ == "https://"@ + strip_back(endpoint@, '/') + seq!['/'] + key@ + seq!['?'] + query@,
{
    let mut out = chars_of("https://");
    push_chars(&mut out, &strip_back_chars(&chars_of(endpoint), '/'));
    out.push('/');
    push_str(&mut out, key);
    out.push('?');
    push_str(&mut out, query);
    string_from_chars(&out)
}

/// The query of a part upload: `partNumber=<n>&uploadId=<id>`.
pub fn part_query(part: u64, upload_id: &str) -> (q: String)
    ensures
        q@ == "partNumber="@ + dec(part as nat) + "&uploadId="@ + upload_id@,
{
    let mut out = chars_of("partNumber=");
    push_dec(&mut out, part);
    push_str(&mut out, "&uploadId=");
    push_str(&mut out, upload_id);
    string_from_chars(&out)
}

/// The ETag of an uploaded part from its response header: the value without
/// surrounding quotes; `None` when nothing is left.
pub fn clean_etag(header: &str) -> (r: Option<String>)
    ensures
        match r {
            Some(e) => e@ == strip_front(strip_back(header@, '"'), '"') && e@.len() > 0,
            None => strip_front(strip_back(header@, '"'), '"').len() == 0,
        },
{
    let e = strip_front_chars(&strip_back_chars(&chars_of(header), '"'), '"');
    if e.len() == 0 {
        None
    } else {
        Some(string_from_chars(&e))
    }
}

/// Whether the answer to a completion request reports a failure although its
/// status was a success: it holds `<Error>` and neither an `<ETag>` nor a
/// `<CompleteMultipartUploadResult`.
pub fn completion_failed(text: &str) -> (b: bool)
    ensures
        b == (crate::text::contains(text@, "<Error>"@) && !crate::text::contains(text@, "<ETag>"@)
            && !crate::text::contains(text@, "<CompleteMultipartUploadResult"@)),
{
    let t = chars_of(text);
    crate::text::contains_chars(&t, &chars_of("<Error>")) && !crate::text::contains_chars(
        &t,
        &chars_of("<ETag>"),
    ) && !crate::text::contains_chars(&t, &chars_of("<CompleteMultipartUploadResult"))
}

/// The upload id in the answer to an initiation request; an error when it
/// is missing or empty.
pub fn upload_id_of(xml: &str) -> (r: Result<String, crate::error::Error>)
    ensures
        match r {
            Ok(id) => xml_tag_text(xml@, "UploadId"@) == Some(id@) && id@.len() > 0,
            Err(_) => match xml_tag_text(xml@, "UploadId"@) {
                Some(t) => t.len() == 0,
                None => true,
            },
        },
{
    match extract_xml_tag(xml, "UploadId") {
        Some(id) => if id.as_str().is_empty() {
            Err(crate::error::Error::Msg("OSS 初始化响应缺少 UploadId".to_owned()))
        } else {
            Ok(id)
        },
        None => Err(crate::error::Error::Msg("OSS 初始化响应缺少 UploadId".to_owned())),
    }
}

} // verus!
