//! A buffered byte source read chunk by chunk, and a scanner that streams everything before the
//! first occurrence of a delimiter to a sink.

use vstd::prelude::*;

verus! {

/// `s[p..p+len] == t[q..q+len]`, element by element.
pub open spec fn match_at(s: Seq<u8>, p: int, t: Seq<u8>, q: int, len: int) -> bool {
    forall|k: int| 0 <= k < len ==> #[trigger] s[p + k] == t[q + k]
}

/// The delimiter `t` occurs in `s` starting at index `i`.
pub open spec fn occurs_at(s: Seq<u8>, t: Seq<u8>, i: int) -> bool {
    0 <= i && i + t.len() <= s.len() && match_at(s, i, t, 0, t.len() as int)
}

/// No occurrence of `t` in `s` starts before index `k`.
pub open spec fn no_match_before(s: Seq<u8>, t: Seq<u8>, k: int) -> bool {
    forall|j: int| 0 <= j < k ==> !occurs_at(s, t, j)
}

/// `i` is where the first occurrence of `t` in `s` starts.
pub open spec fn is_first_match(s: Seq<u8>, t: Seq<u8>, i: int) -> bool {
    occurs_at(s, t, i) && no_match_before(s, t, i)
}

/// What scanning `s` for `t` writes to the sink: every byte before the first occurrence of `t`,
/// or all of `s` when `t` does not occur.
pub open spec fn scan_sink(s: Seq<u8>, t: Seq<u8>) -> Seq<u8> {
    if exists|i: int| is_first_match(s, t, i) {
        s.subrange(0, choose|i: int| is_first_match(s, t, i))
    } else {
        s
    }
}

/// Whether scanning `s` for `t` finds it.
pub open spec fn scan_found(s: Seq<u8>, t: Seq<u8>) -> bool {
    exists|i: int| is_first_match(s, t, i)
}

/// How many bytes scanning `s` for `t` consumes: up to and including the first occurrence of
/// `t`, or all of `s` when `t` does not occur.
pub open spec fn scan_len(s: Seq<u8>, t: Seq<u8>) -> int {
    if exists|i: int| is_first_match(s, t, i) {
        (choose|i: int| is_first_match(s, t, i)) + t.len()
    } else {
        s.len() as int
    }
}

/// Scanning does not depend on how the source is chunked: two readers whose remaining bytes
/// agree, whatever their chunk sizes, stream the same bytes to the sink and consume the same
/// number of bytes, as a single chunk holding all those bytes would.
pub proof fn lemma_scan_chunking_invariant(a: ChunkReader, b: ChunkReader, t: Seq<u8>)
    requires
        a.wf(),
        b.wf(),
        a.rest() == b.rest(),
    ensures
        scan_sink(a.rest(), t) == scan_sink(b.rest(), t),
        scan_len(a.rest(), t) == scan_len(b.rest(), t),
        scan_found(a.rest(), t) == scan_found(b.rest(), t),
{
}

/// What a scan streams to the sink, followed by the delimiter where it was found, is exactly
/// what the scan consumed: output mirrors input minus the matched delimiter.
pub proof fn lemma_scan_mirrors_input(s: Seq<u8>, t: Seq<u8>)
    ensures
        0 <= scan_len(s, t) <= s.len(),
        scan_sink(s, t) + (if scan_found(s, t) { t } else { Seq::empty() }) == s.subrange(0, scan_len(s, t)),
        !scan_found(s, t) ==> scan_sink(s, t) == s && scan_len(s, t) == s.len(),
{
    if scan_found(s, t) {
        let i = choose|i: int| is_first_match(s, t, i);
        assert(is_first_match(s, t, i));
        assert forall|k: int| 0 <= k < i + t.len() implies #[trigger] (s.subrange(0, i) + t)[k] == s.subrange(0, i + t.len())[k] by {
            if k >= i {
                assert(s[i + (k - i)] == t[0 + (k - i)]);
            }
        }
        assert(s.subrange(0, i) + t =~= s.subrange(0, i + t.len()));
    } else {
        assert(s + Seq::<u8>::empty() =~= s.subrange(0, s.len() as int));
    }
}

/// A byte source held in memory and handed out in chunks of at most `cap` bytes, the way a
/// buffered reader refills its buffer from an underlying stream.
pub struct ChunkReader {
    data: Vec<u8>,
    pos: usize,
    end: usize,
    cap: usize,
}

impl ChunkReader {
    /// The reader's internal invariant.
    pub closed spec fn wf(&self) -> bool {
        self.pos <= self.end <= self.data@.len() && self.cap > 0 && self.end - self.pos <= self.cap
    }

    /// The bytes not yet consumed.
    pub closed spec fn rest(&self) -> Seq<u8> {
        self.data@.subrange(self.pos as int, self.data@.len() as int)
    }

    /// The largest number of bytes handed out in one chunk.
    pub closed spec fn capacity(&self) -> nat {
        self.cap as nat
    }

    /// A reader over `data` that hands it out in chunks of at most `cap` bytes.
    pub fn with_capacity(cap: usize, data: Vec<u8>) -> (r: ChunkReader)
        requires
            cap > 0,
        ensures
            r.wf(),
            r.rest() == data@,
            r.capacity() == cap,
    {
        let r = ChunkReader { data, pos: 0, end: 0, cap };
        assert(r.rest() =~= r.data@);
        r
    }

    /// A reader over `data` with a chunk size of 8 KiB.
    pub fn new(data: Vec<u8>) -> (r: ChunkReader)
        ensures
            r.wf(),
            r.rest() == data@,
            r.capacity() == 8192,
    {
        ChunkReader::with_capacity(8192, data)
    }

    /// Refills the buffer when it has been used up; afterwards the current chunk is empty only
    /// when the source is exhausted.
    fn fill_buf(&mut self)
        requires
            old(self).wf(),
        ensures
            final(self).wf(),
            final(self).data == old(self).data,
            final(self).cap == old(self).cap,
            final(self).pos == old(self).pos,
            final(self).pos == final(self).end ==> final(self).pos == final(self).data@.len(),
            final(self).end - final(self).pos <= final(self).cap,
            old(self).pos < old(self).end ==> final(self).end == old(self).end,
    {
        if self.pos == self.end {
            let left = self.data.len() - self.pos;
            if left < self.cap {
                self.end = self.data.len();
            } else {
                self.end = self.pos + self.cap;
            }
        }
    }
}

/// `a[ai..ai+len] == b[bi..bi+len]`.
fn bytes_eq(a: &Vec<u8>, ai: usize, b: &[u8], bi: usize, len: usize) -> (r: bool)
    requires
        ai + len <= a@.len(),
        bi + len <= b@.len(),
    ensures
        r == match_at(a@, ai as int, b@, bi as int, len as int),
{
    let alen = a.len();
    let blen = b.len();
    let mut k: usize = 0;
    while k < len
        invariant
            k <= len,
            alen == a@.len(),
            blen == b@.len(),
            ai + len <= alen,
            bi + len <= blen,
            match_at(a@, ai as int, b@, bi as int, k as int),
        decreases len - k,
    {
        if a[ai + k] != b[bi + k] {
            assert(!(a@[ai + k as int] == b@[bi + k as int]));
            return false;
        }
        k = k + 1;
    }
    true
}

/// Appends `src[from..to]` to `out`.
fn extend_range(out: &mut Vec<u8>, src: &Vec<u8>, from: usize, to: usize)
    requires
        from <= to <= src@.len(),
    ensures
        final(out)@ == old(out)@ + src@.subrange(from as int, to as int),
{
    let mut i: usize = from;
    while i < to
        invariant
            from <= i <= to <= src@.len(),
            out@ == old(out)@ + src@.subrange(from as int, i as int),
        decreases to - i,
    {
        out.push(src[i]);
        i = i + 1;
        assert(out@ =~= old(out)@ + src@.subrange(from as int, i as int));
    }
}


/// The `len` bytes of `s` just before index `p` are the first `len` bytes of `t`.
pub open spec fn ends_with_prefix(s: Seq<u8>, p: int, t: Seq<u8>, len: int) -> bool {
    match_at(s, p - len, t, 0, len)
}

/// Each element is larger than the next.
pub open spec fn strictly_decreasing(v: Seq<usize>) -> bool {
    forall|i: int, j: int| 0 <= i < j < v.len() ==> v[i] > v[j]
}

/// The candidate prefix lengths at position `p` of a scan that began at `start`: exactly the
/// lengths `l`, shorter than `t` and no longer than what was consumed, for which the consumed
/// bytes end with the first `l` bytes of `t`, longest first.
pub open spec fn candidates_ok(s: Seq<u8>, t: Seq<u8>, start: int, p: int, c: Seq<usize>) -> bool {
    &&& strictly_decreasing(c)
    &&& forall|i: int| 0 <= i < c.len() ==> 1 <= #[trigger] c[i] < t.len() && c[i] <= p - start
    &&& forall|l: int|
        1 <= l < t.len() && l <= p - start ==> (ends_with_prefix(s, p, t, l) <==> has(c, l))
}

/// The number of bytes held back from the sink: the longest candidate, or none.
pub open spec fn held_back(c: Seq<usize>) -> int {
    if c.len() > 0 {
        c[0] as int
    } else {
        0
    }
}

proof fn lemma_match_sub(s: Seq<u8>, p: int, t: Seq<u8>, q: int, len: int, a: int, len2: int)
    requires
        match_at(s, p, t, q, len),
        0 <= a,
        0 <= len2,
        a + len2 <= len,
    ensures
        match_at(s, p + a, t, q + a, len2),
{
    assert forall|k: int| 0 <= k < len2 implies #[trigger] s[p + a + k] == t[q + a + k] by {
        assert(s[p + (a + k)] == t[q + (a + k)]);
    }
}

proof fn lemma_match_concat(s: Seq<u8>, p: int, t: Seq<u8>, q: int, l1: int, l2: int)
    requires
        match_at(s, p, t, q, l1),
        match_at(s, p + l1, t, q + l1, l2),
        0 <= l1,
        0 <= l2,
    ensures
        match_at(s, p, t, q, l1 + l2),
{
    assert forall|k: int| 0 <= k < l1 + l2 implies #[trigger] s[p + k] == t[q + k] by {
        if k >= l1 {
            assert(s[p + l1 + (k - l1)] == t[q + l1 + (k - l1)]);
        }
    }
}

proof fn lemma_subrange_concat(s: Seq<u8>, a: int, b: int, c: int)
    requires
        0 <= a <= b <= c <= s.len(),
    ensures
        s.subrange(a, b) + s.subrange(b, c) == s.subrange(a, c),
{
    assert(s.subrange(a, b) + s.subrange(b, c) =~= s.subrange(a, c));
}

/// The first candidate whose remaining delimiter bytes fit in the chunk `data[pos..end]` and
/// are found at its start.
fn find_candidate_match(data: &Vec<u8>, pos: usize, end: usize, token: &[u8], cands: &Vec<usize>)
    -> (r: Option<usize>)
    requires
        pos <= end <= data@.len(),
        forall|i: int| 0 <= i < cands@.len() ==> 1 <= #[trigger] cands@[i] < token@.len(),
    ensures
        match r {
            Some(k) => {
                &&& k < cands@.len()
                &&& token@.len() - cands@[k as int] <= end - pos
                &&& match_at(data@, pos as int, token@, cands@[k as int] as int, token@.len() - cands@[k as int])
                &&& forall|k2: int| 0 <= k2 < k ==> !(token@.len() - #[trigger] cands@[k2] <= end - pos
                    && match_at(data@, pos as int, token@, cands@[k2] as int, token@.len() - cands@[k2]))
            },
            None => forall|k2: int| 0 <= k2 < cands@.len() ==> !(token@.len() - #[trigger] cands@[k2] <= end - pos
                && match_at(data@, pos as int, token@, cands@[k2] as int, token@.len() - cands@[k2])),
        },
{
    let n = token.len();
    let b = end - pos;
    let mut k: usize = 0;
    while k < cands.len()
        invariant
            k <= cands@.len(),
            n == token@.len(),
            b == end - pos,
            pos <= end <= data@.len(),
            forall|i: int| 0 <= i < cands@.len() ==> 1 <= #[trigger] cands@[i] < token@.len(),
            forall|k2: int| 0 <= k2 < k ==> !(token@.len() - #[trigger] cands@[k2] <= end - pos
                && match_at(data@, pos as int, token@, cands@[k2] as int, token@.len() - cands@[k2])),
        decreases cands@.len() - k,
    {
        let l = cands[k];
        if n - l <= b {
            if bytes_eq(data, pos, token, l, n - l) {
                return Some(k);
            }
        }
        k = k + 1;
    }
    None
}


/// `x` is an element of `v`.
pub open spec fn has(v: Seq<usize>, x: int) -> bool {
    exists|w: int| 0 <= w < v.len() && v[w] == x
}

/// Candidate `l` is carried over the chunk `data[pos..end]`: the rest of the delimiter is
/// longer than the chunk and the chunk continues it.
pub open spec fn extends(data: Seq<u8>, pos: int, end: int, t: Seq<u8>, l: int) -> bool {
    t.len() - l > end - pos && match_at(data, pos, t, l, end - pos)
}

/// The candidates that the chunk `data[pos..end]` extends without completing the delimiter,
/// each grown by the chunk's length, longest first.
fn extend_candidates(data: &Vec<u8>, pos: usize, end: usize, token: &[u8], cands: &Vec<usize>)
    -> (ext: Vec<usize>)
    requires
        pos <= end <= data@.len(),
        strictly_decreasing(cands@),
        forall|i: int| 0 <= i < cands@.len() ==> 1 <= #[trigger] cands@[i] < token@.len(),
    ensures
        strictly_decreasing(ext@),
        forall|i: int| 0 <= i < ext@.len() ==> #[trigger] ext@[i] > end - pos
            && has(cands@, ext@[i] - (end - pos))
            && extends(data@, pos as int, end as int, token@, ext@[i] - (end - pos)),
        forall|k2: int| 0 <= k2 < cands@.len() ==> (extends(data@, pos as int, end as int, token@, #[trigger] cands@[k2] as int)
            <==> has(ext@, cands@[k2] + (end - pos))),
{
    let n = token.len();
    let b = end - pos;
    let mut ext: Vec<usize> = Vec::new();
    let ghost mut origin: Seq<int> = Seq::empty();
    let mut k: usize = 0;
    while k < cands.len()
        invariant
            k <= cands@.len(),
            n == token@.len(),
            b == end - pos,
            pos <= end <= data@.len(),
            strictly_decreasing(cands@),
            forall|i: int| 0 <= i < cands@.len() ==> 1 <= #[trigger] cands@[i] < token@.len(),
            origin.len() == ext@.len(),
            forall|i: int| 0 <= i < origin.len() ==> 0 <= #[trigger] origin[i] < k
                && ext@[i] == cands@[origin[i]] + b
                && extends(data@, pos as int, end as int, token@, cands@[origin[i]] as int),
            forall|i: int, j: int| 0 <= i < j < origin.len() ==> origin[i] < origin[j],
            forall|k2: int| 0 <= k2 < k ==> (extends(data@, pos as int, end as int, token@, #[trigger] cands@[k2] as int)
                <==> has(ext@, cands@[k2] + b)),
        decreases cands@.len() - k,
    {
        let l = cands[k];
        let mut grow = false;
        if b < n - l {
            grow = bytes_eq(data, pos, token, l, b);
        }
        if grow {
            let ghost old_ext = ext@;
            ext.push(l + b);
            proof {
                origin = origin.push(k as int);
                assert(ext@[ext@.len() - 1] == l + b);
                assert forall|k2: int| 0 <= k2 < k implies (extends(data@, pos as int, end as int, token@, #[trigger] cands@[k2] as int)
                    <==> has(ext@, cands@[k2] + b)) by {
                    assert(cands@[k2] > cands@[k as int]);
                    if has(old_ext, cands@[k2] + b) {
                        let w = choose|w: int| 0 <= w < old_ext.len() && old_ext[w] == cands@[k2] + b;
                        assert(ext@[w] == old_ext[w]);
                    }
                    if has(ext@, cands@[k2] + b) {
                        let w = choose|w: int| 0 <= w < ext@.len() && ext@[w] == cands@[k2] + b;
                        assert(w < old_ext.len());
                        assert(old_ext[w] == ext@[w]);
                    }
                }
                assert(has(ext@, cands@[k as int] + b));
            }
        } else {
            proof {
                if has(ext@, cands@[k as int] + b) {
                    let w = choose|w: int| 0 <= w < ext@.len() && ext@[w] == cands@[k as int] + b;
                    assert(origin[w] < k);
                    assert(cands@[origin[w]] > cands@[k as int]);
                }
            }
        }
        k = k + 1;
    }
    proof {
        assert forall|i: int, j: int| 0 <= i < j < ext@.len() implies ext@[i] > ext@[j] by {
            assert(origin[i] < origin[j]);
        }
        assert forall|i: int| 0 <= i < ext@.len() implies #[trigger] ext@[i] > end - pos
            && has(cands@, ext@[i] - (end - pos))
            && extends(data@, pos as int, end as int, token@, ext@[i] - (end - pos)) by {
            let k2 = origin[i];
            assert(0 <= k2 < cands@.len() && ext@[i] == cands@[k2] + (end - pos));
            assert(cands@[k2] >= 1);
        }
    }
    ext
}


/// Where the first occurrence of the delimiter that lies wholly inside `data[pos..end]` starts.
fn find_in_chunk(data: &Vec<u8>, pos: usize, end: usize, token: &[u8]) -> (r: Option<usize>)
    requires
        pos <= end <= data@.len(),
        token@.len() > 0,
    ensures
        match r {
            Some(i) => pos <= i && i + token@.len() <= end && occurs_at(data@, token@, i as int)
                && forall|j: int| pos <= j < i ==> !occurs_at(data@, token@, j),
            None => forall|j: int| pos <= j && j + token@.len() <= end ==> !occurs_at(data@, token@, j),
        },
{
    let n = token.len();
    if end - pos < n {
        return None;
    }
    let mut i: usize = pos;
    while i <= end - n
        invariant
            n == token@.len(),
            n > 0,
            pos <= i,
            pos <= end <= data@.len(),
            n <= end - pos,
            forall|j: int| pos <= j < i ==> !occurs_at(data@, token@, j),
        decreases end - i,
    {
        if bytes_eq(data, i, token, 0, n) {
            return Some(i);
        }
        i = i + 1;
    }
    None
}

/// Appends to `cands`, longest first, every length `l` with `1 <= l <= min(t.len() - 1, end -
/// pos)` for which `data[end-l..end]` is the first `l` bytes of the delimiter.
fn push_suffix_candidates(data: &Vec<u8>, pos: usize, end: usize, token: &[u8], cands: &mut Vec<usize>)
    requires
        pos <= end <= data@.len(),
        token@.len() > 0,
        strictly_decreasing(old(cands)@),
        forall|i: int| 0 <= i < old(cands)@.len() ==> #[trigger] old(cands)@[i] > end - pos,
    ensures
        strictly_decreasing(final(cands)@),
        final(cands)@.len() >= old(cands)@.len(),
        final(cands)@.subrange(0, old(cands)@.len() as int) == old(cands)@,
        forall|i: int| old(cands)@.len() <= i < final(cands)@.len() ==> 1 <= #[trigger] final(cands)@[i] <= end - pos
            && final(cands)@[i] < token@.len(),
        forall|l: int| 1 <= l < token@.len() && l <= end - pos ==> (ends_with_prefix(data@, end as int, token@, l)
            <==> has(final(cands)@, l)),
{
    let n = token.len();
    let b = end - pos;
    let mut l: usize = if n - 1 < b { n - 1 } else { b };
    let ghost w = l as int;
    let ghost base = old(cands)@.len() as int;
    while l >= 1
        invariant
            n == token@.len(),
            n > 0,
            b == end - pos,
            pos <= end <= data@.len(),
            l <= w,
            w == if n - 1 < b { n - 1 } else { b as int },
            base == old(cands)@.len(),
            strictly_decreasing(cands@),
            cands@.len() >= base,
            cands@.subrange(0, base) == old(cands)@,
            forall|i: int| 0 <= i < base ==> #[trigger] cands@[i] > b,
            forall|i: int| base <= i < cands@.len() ==> l < #[trigger] cands@[i] <= w,
            forall|m: int| l < m <= w ==> (ends_with_prefix(data@, end as int, token@, m) <==> has(cands@, m)),
        decreases l,
    {
        if bytes_eq(data, end - l, token, 0, l) {
            let ghost prev = cands@;
            cands.push(l);
            proof {
                assert forall|i: int| 0 <= i < base implies #[trigger] cands@[i] > b by {
                    assert(cands@[i] == prev.subrange(0, base)[i]);
                }
                assert(cands@.subrange(0, base) =~= old(cands)@);
                assert forall|i: int, j: int| 0 <= i < j < cands@.len() implies cands@[i] > cands@[j] by {
                    if j < prev.len() {
                        assert(cands@[i] == prev[i] && cands@[j] == prev[j]);
                    } else {
                        assert(cands@[i] == prev[i]);
                        if i < base {
                            assert(prev[i] == prev.subrange(0, base)[i]);
                        }
                    }
                }
                assert forall|m: int| l <= m <= w implies (ends_with_prefix(data@, end as int, token@, m) <==> has(cands@, m)) by {
                    if m == l {
                        assert(cands@[cands@.len() - 1] == l);
                    } else {
                        if has(prev, m) {
                            let x = choose|x: int| 0 <= x < prev.len() && prev[x] == m;
                            assert(cands@[x] == prev[x]);
                        }
                        if has(cands@, m) {
                            let x = choose|x: int| 0 <= x < cands@.len() && cands@[x] == m;
                            assert(x < prev.len());
                            assert(prev[x] == cands@[x]);
                        }
                    }
                }
            }
        } else {
            proof {
                if has(cands@, l as int) {
                    let x = choose|x: int| 0 <= x < cands@.len() && cands@[x] == l;
                    if x < base {
                        assert(cands@[x] == old(cands)@[x]);
                    }
                }
            }
        }
        l = l - 1;
    }
    proof {
        assert forall|i: int| old(cands)@.len() <= i < cands@.len() implies 1 <= #[trigger] cands@[i] <= end - pos
            && cands@[i] < token@.len() by {}
    }
}


proof fn lemma_occurs_shift(s: Seq<u8>, start: int, t: Seq<u8>, i: int)
    requires
        0 <= start <= s.len(),
        0 <= i,
    ensures
        occurs_at(s.subrange(start, s.len() as int), t, i) == occurs_at(s, t, start + i),
{
    let r = s.subrange(start, s.len() as int);
    if occurs_at(r, t, i) {
        assert forall|k: int| 0 <= k < t.len() implies #[trigger] s[start + i + k] == t[0 + k] by {
            assert(r[i + k] == t[0 + k]);
        }
    }
    if occurs_at(s, t, start + i) {
        assert forall|k: int| 0 <= k < t.len() implies #[trigger] r[i + k] == t[0 + k] by {
            assert(s[start + i + k] == t[0 + k]);
        }
    }
}

proof fn lemma_first_unique(s: Seq<u8>, t: Seq<u8>, i: int, j: int)
    requires
        is_first_match(s, t, i),
        is_first_match(s, t, j),
    ensures
        i == j,
{
}

/// An occurrence of `t` that begins in the consumed bytes `s[start..p]` and ends at or after `p`
/// makes the consumed bytes end with a prefix of `t`.
proof fn lemma_straddle(s: Seq<u8>, t: Seq<u8>, j: int, p: int)
    requires
        occurs_at(s, t, j),
        j < p < j + t.len(),
    ensures
        ends_with_prefix(s, p, t, p - j),
        match_at(s, p, t, p - j, t.len() - (p - j)),
{
    lemma_match_sub(s, j, t, 0, t.len() as int, 0, p - j);
    lemma_match_sub(s, j, t, 0, t.len() as int, p - j, t.len() - (p - j));
}

/// After a chunk `s[pos..end]` that neither completes the delimiter nor holds it, the carried
/// candidates followed by the chunk's own suffix candidates are the candidates at `end`, and no
/// occurrence ends within the consumed bytes.
proof fn lemma_next_candidates(
    s: Seq<u8>,
    t: Seq<u8>,
    start: int,
    pos: int,
    end: int,
    cands: Seq<usize>,
    ext0: Seq<usize>,
    ext: Seq<usize>,
)
    requires
        0 <= start <= pos < end <= s.len(),
        t.len() > 0,
        forall|j: int| start <= j && j + t.len() <= pos ==> !occurs_at(s, t, j),
        candidates_ok(s, t, start, pos, cands),
        forall|k2: int| 0 <= k2 < cands.len() ==> !(t.len() - #[trigger] cands[k2] <= end - pos
            && match_at(s, pos, t, cands[k2] as int, t.len() - cands[k2])),
        forall|i: int| 0 <= i < ext0.len() ==> #[trigger] ext0[i] > end - pos
            && has(cands, ext0[i] - (end - pos))
            && extends(s, pos, end, t, ext0[i] - (end - pos)),
        forall|k2: int| 0 <= k2 < cands.len() ==> (extends(s, pos, end, t, #[trigger] cands[k2] as int)
            <==> has(ext0, cands[k2] + (end - pos))),
        ext0.len() == 0 ==> forall|j: int| pos <= j && j + t.len() <= end ==> !occurs_at(s, t, j),
        strictly_decreasing(ext),
        ext.len() >= ext0.len(),
        ext.subrange(0, ext0.len() as int) == ext0,
        forall|i: int| ext0.len() <= i < ext.len() ==> 1 <= #[trigger] ext[i] <= end - pos
            && ext[i] < t.len(),
        forall|l: int| 1 <= l < t.len() && l <= end - pos ==> (ends_with_prefix(s, end, t, l)
            <==> has(ext, l)),
    ensures
        candidates_ok(s, t, start, end, ext),
        forall|j: int| start <= j && j + t.len() <= end ==> !occurs_at(s, t, j),
{
    let n = t.len();
    let b = end - pos;
    assert forall|i: int| 0 <= i < ext.len() implies 1 <= #[trigger] ext[i] < t.len()
        && ext[i] <= end - start by {
        if i < ext0.len() {
            assert(ext[i] == ext.subrange(0, ext0.len() as int)[i]);
            let w = choose|w: int| 0 <= w < cands.len() && cands[w] == ext0[i] - b;
            assert(cands[w] <= pos - start);
        }
    }
    assert forall|l: int| 1 <= l < t.len() && l <= end - start implies
        (ends_with_prefix(s, end, t, l) <==> has(ext, l as int)) by {
        if l > b {
            let l1 = l - b;
            if ends_with_prefix(s, end, t, l) {
                lemma_match_sub(s, end - l, t, 0, l, 0, l1);
                lemma_match_sub(s, end - l, t, 0, l, l1, b);
                assert(has(cands, l1 as int));
                let k2 = choose|k2: int| 0 <= k2 < cands.len() && cands[k2] == l1;
                assert(extends(s, pos, end, t, cands[k2] as int));
                assert(has(ext, l)) by {
                    let x = choose|x: int| 0 <= x < ext0.len() && ext0[x] == cands[k2] + b;
                    assert(ext[x] == ext.subrange(0, ext0.len() as int)[x]);
                }
            }
            if has(ext, l) {
                let x = choose|x: int| 0 <= x < ext.len() && ext[x] == l;
                assert(x < ext0.len());
                assert(ext[x] == ext.subrange(0, ext0.len() as int)[x]);
                let w = choose|w: int| 0 <= w < cands.len() && cands[w] == ext0[x] - b;
                assert(cands[w] == l1);
                assert(has(cands, l1 as int));
                assert(ends_with_prefix(s, pos, t, l1));
                lemma_match_concat(s, end - l, t, 0, l1, b);
            }
        }
    }
    assert forall|j: int| start <= j && j + n <= end implies !occurs_at(s, t, j) by {
        if j + n > pos && occurs_at(s, t, j) {
            if j < pos {
                lemma_straddle(s, t, j, pos);
                let l2 = pos - j;
                assert(has(cands, l2 as int));
            } else {
                if ext0.len() > 0 {
                    assert(has(cands, ext0[0] - b));
                }
            }
        }
    }
}

/// One round of a scan that began at `start` and has consumed `data[start..pos]`, over the
/// chunk `data[pos..end]`: the first occurrence of the delimiter, where one ends in the chunk,
/// with the held-back bytes before it streamed to `out`; or else the candidates at `end`, with
/// the bytes that can no longer be part of the delimiter streamed to `out`.
fn scan_chunk(
    data: &Vec<u8>,
    start: usize,
    pos: usize,
    end: usize,
    token: &[u8],
    cands: &Vec<usize>,
    out: &mut Vec<u8>,
) -> (r: (Option<usize>, Vec<usize>))
    requires
        start <= pos < end <= data@.len(),
        token@.len() > 0,
        forall|j: int| start <= j && j + token@.len() <= pos ==> !occurs_at(data@, token@, j),
        candidates_ok(data@, token@, start as int, pos as int, cands@),
    ensures
        match r.0 {
            Some(m) => {
                &&& start <= m
                &&& m + token@.len() <= end
                &&& occurs_at(data@, token@, m as int)
                &&& forall|j: int| start <= j < m ==> !occurs_at(data@, token@, j)
                &&& pos - held_back(cands@) <= m
                &&& final(out)@ == old(out)@ + data@.subrange(pos - held_back(cands@), m as int)
            },
            None => {
                &&& candidates_ok(data@, token@, start as int, end as int, r.1@)
                &&& forall|j: int| start <= j && j + token@.len() <= end ==> !occurs_at(data@, token@, j)
                &&& pos - held_back(cands@) <= end - held_back(r.1@)
                &&& final(out)@ == old(out)@ + data@.subrange(pos - held_back(cands@), end - held_back(r.1@))
            },
        },
{
    let n = token.len();
    let ghost s = data@;
    let ghost t = token@;
    let held: usize = if cands.len() > 0 { cands[0] } else { 0 };
    proof {
        if cands@.len() > 0 {
            assert(1 <= cands@[0] <= pos - start);
        }
    }
    let b = end - pos;
    match find_candidate_match(data, pos, end, token, &cands) {
        Some(k) => {
            let l = cands[k];
            proof {
                assert(ends_with_prefix(s, pos as int, t, l as int)) by {
                    assert(has(cands@, cands@[k as int] as int));
                }
                lemma_match_concat(s, pos - l, t, 0, l as int, n - l);
                assert forall|j: int| start <= j < pos - l implies !occurs_at(s, t, j) by {
                    if j + n > pos && occurs_at(s, t, j) {
                        lemma_straddle(s, t, j, pos as int);
                        let l2 = pos - j;
                        assert(has(cands@, l2 as int));
                        let k2 = choose|k2: int| 0 <= k2 < cands@.len() && cands@[k2] == l2;
                        if k2 >= k {
                            if k2 > k {
                                assert(cands@[k as int] > cands@[k2]);
                            }
                        }
                    }
                }
                if k > 0 {
                    assert(cands@[0] > cands@[k as int]);
                }
            }
            extend_range(out, data, pos - held, pos - l);
            return (Some(pos - l), cands.clone());
        },
        None => {},
    }
    let mut ext = extend_candidates(data, pos, end, token, &cands);
    if ext.len() == 0 {
        match find_in_chunk(data, pos, end, token) {
            Some(i) => {
                proof {
                    assert forall|j: int| start <= j < i implies !occurs_at(s, t, j) by {
                        if j < pos && j + n > pos && occurs_at(s, t, j) {
                            lemma_straddle(s, t, j, pos as int);
                            let l2 = pos - j;
                            assert(has(cands@, l2 as int));
                            let k2 = choose|k2: int| 0 <= k2 < cands@.len() && cands@[k2] == l2;
                            if n - l2 > b {
                                lemma_match_sub(s, pos as int, t, l2, n - l2, 0, b as int);
                                assert(has(ext@, cands@[k2] + b));
                            }
                        }
                    }
                }
                extend_range(out, data, pos - held, i);
                return (Some(i), ext);
            },
            None => {},
        }
    }
    let ghost ext0 = ext@;
    push_suffix_candidates(data, pos, end, token, &mut ext);
    let new_held: usize = if ext.len() > 0 { ext[0] } else { 0 };
    proof {
        if ext0.len() > 0 {
            assert(ext@[0] == ext0[0]) by {
                assert(ext@.subrange(0, ext0.len() as int)[0] == ext@[0]);
            }
            assert(has(cands@, ext0[0] - b));
            let w = choose|w: int| 0 <= w < cands@.len() && cands@[w] == ext0[0] - b;
            if w > 0 {
                assert(cands@[0] > cands@[w]);
            }
        }
    }
    extend_range(out, data, pos - held, end - new_held);
    proof {
        lemma_next_candidates(s, t, start as int, pos as int, end as int, cands@, ext0, ext@);
    }
    (None, ext)
}


/// A scan whose outcome is settled by what it has seen is settled whatever follows: the first
/// occurrence of the delimiter ends the bytes seen, so more input leaves the outcome unchanged.
pub proof fn lemma_scan_settled(s: Seq<u8>, t: Seq<u8>, f: Seq<u8>)
    requires
        scan_found(s, t),
        scan_len(s, t) == s.len(),
    ensures
        scan_found(s + f, t),
        scan_len(s + f, t) == s.len(),
        scan_sink(s + f, t) == scan_sink(s, t),
{
    let i = choose|i: int| is_first_match(s, t, i);
    assert(is_first_match(s, t, i));
    let sf = s + f;
    assert(match_at(sf, i, t, 0, t.len() as int)) by {
        assert forall|k: int| 0 <= k < t.len() implies #[trigger] sf[i + k] == t[0 + k] by {
            assert(s[i + k] == t[0 + k]);
        }
    }
    assert forall|j: int| 0 <= j < i implies !occurs_at(sf, t, j) by {
        if occurs_at(sf, t, j) {
            assert(match_at(s, j, t, 0, t.len() as int)) by {
                assert forall|k: int| 0 <= k < t.len() implies #[trigger] s[j + k] == t[0 + k] by {
                    assert(sf[j + k] == t[0 + k]);
                }
            }
            assert(occurs_at(s, t, j));
        }
    }
    assert(is_first_match(sf, t, i));
    let c = choose|c: int| is_first_match(sf, t, c);
    lemma_first_unique(sf, t, i, c);
    assert(sf.subrange(0, i) =~= s.subrange(0, i));
}

/// `q` is `s` from `a` on: occurrences and prefixes ending at a position agree.
proof fn lemma_window(s: Seq<u8>, a: int, q: Seq<u8>, t: Seq<u8>)
    requires
        0 <= a <= s.len(),
        q == s.subrange(a, s.len() as int),
    ensures
        forall|i: int| 0 <= i ==> #[trigger] occurs_at(q, t, i) == occurs_at(s, t, a + i),
        forall|p: int, l: int| 0 <= l <= p <= q.len() ==> #[trigger] ends_with_prefix(q, p, t, l)
            == ends_with_prefix(s, a + p, t, l),
{
    assert forall|i: int| 0 <= i implies #[trigger] occurs_at(q, t, i) == occurs_at(s, t, a + i) by {
        lemma_occurs_shift(s, a, t, i);
    }
    assert forall|p: int, l: int| 0 <= l <= p <= q.len() implies #[trigger] ends_with_prefix(q, p, t, l)
        == ends_with_prefix(s, a + p, t, l) by {
        if ends_with_prefix(q, p, t, l) {
            assert forall|k: int| 0 <= k < l implies #[trigger] s[a + p - l + k] == t[0 + k] by {
                assert(q[p - l + k] == t[0 + k]);
            }
        }
        if ends_with_prefix(s, a + p, t, l) {
            assert forall|k: int| 0 <= k < l implies #[trigger] q[p - l + k] == t[0 + k] by {
                assert(s[a + p - l + k] == t[0 + k]);
            }
        }
    }
}

/// `s` is a prefix of `u`: prefixes and occurrences that end within `s` agree.
proof fn lemma_extended(s: Seq<u8>, u: Seq<u8>, t: Seq<u8>)
    requires
        s.len() <= u.len(),
        s == u.subrange(0, s.len() as int),
    ensures
        forall|j: int| 0 <= j && j + t.len() <= s.len() ==> #[trigger] occurs_at(u, t, j) == occurs_at(s, t, j),
        forall|l: int| 0 <= l <= s.len() ==> #[trigger] ends_with_prefix(u, s.len() as int, t, l)
            == ends_with_prefix(s, s.len() as int, t, l),
{
    assert forall|j: int| 0 <= j && j + t.len() <= s.len() implies #[trigger] occurs_at(u, t, j) == occurs_at(s, t, j) by {
        if occurs_at(u, t, j) {
            assert forall|k: int| 0 <= k < t.len() implies #[trigger] s[j + k] == t[0 + k] by {
                assert(u[j + k] == t[0 + k]);
            }
        }
        if occurs_at(s, t, j) {
            assert forall|k: int| 0 <= k < t.len() implies #[trigger] u[j + k] == t[0 + k] by {
                assert(s[j + k] == t[0 + k]);
            }
        }
    }
    assert forall|l: int| 0 <= l <= s.len() implies #[trigger] ends_with_prefix(u, s.len() as int, t, l)
        == ends_with_prefix(s, s.len() as int, t, l) by {
        let p = s.len() as int;
        if ends_with_prefix(u, p, t, l) {
            assert forall|k: int| 0 <= k < l implies #[trigger] s[p - l + k] == t[0 + k] by {
                assert(u[p - l + k] == t[0 + k]);
            }
        }
        if ends_with_prefix(s, p, t, l) {
            assert forall|k: int| 0 <= k < l implies #[trigger] u[p - l + k] == t[0 + k] by {
                assert(s[p - l + k] == t[0 + k]);
            }
        }
    }
}

/// A scan fed chunk by chunk, for input that arrives from a stream: it keeps only the candidate
/// prefix lengths, never the bytes seen, and streams each byte to the sink as soon as it is known
/// not to begin the delimiter.
pub struct Scanner {
    token: Vec<u8>,
    cands: Vec<usize>,
    done: bool,
    seen: Ghost<Seq<u8>>,
    emitted: Ghost<Seq<u8>>,
}

impl Scanner {
    /// The scanner's invariant: until the delimiter is found, the candidates are those of the
    /// bytes seen, no occurrence lies within them, and all but the held-back bytes were emitted;
    /// once it is found, the scan of the bytes seen is settled and was emitted.
    pub closed spec fn wf(&self) -> bool {
        let s = self.seen@;
        let t = self.token@;
        &&& t.len() > 0
        &&& !self.done ==> {
            &&& candidates_ok(s, t, 0, s.len() as int, self.cands@)
            &&& forall|j: int| 0 <= j && j + t.len() <= s.len() ==> !occurs_at(s, t, j)
            &&& self.emitted@ == s.subrange(0, s.len() - held_back(self.cands@))
        }
        &&& self.done ==> scan_found(s, t) && scan_len(s, t) == s.len() && self.emitted@ == scan_sink(s, t)
    }

    /// The delimiter.
    pub closed spec fn token(&self) -> Seq<u8> {
        self.token@
    }

    /// The bytes consumed so far, in order.
    pub closed spec fn seen(&self) -> Seq<u8> {
        self.seen@
    }

    /// The bytes streamed to the sink so far, in order.
    pub closed spec fn emitted(&self) -> Seq<u8> {
        self.emitted@
    }

    /// Whether the delimiter was found; then the bytes seen end with it.
    pub closed spec fn found(&self) -> bool {
        self.done
    }

    /// A scan for `token` that has seen nothing yet.
    pub fn new(token: Vec<u8>) -> (r: Scanner)
        requires
            token@.len() > 0,
        ensures
            r.wf(),
            r.token() == token@,
            r.seen() == Seq::<u8>::empty(),
            r.emitted() == Seq::<u8>::empty(),
            !r.found(),
    {
        let r = Scanner {
            token,
            cands: Vec::new(),
            done: false,
            seen: Ghost(Seq::empty()),
            emitted: Ghost(Seq::empty()),
        };
        assert(Seq::<u8>::empty().subrange(0, 0) =~= Seq::<u8>::empty());
        r
    }

    /// Whether the delimiter was found.
    pub fn is_found(&self) -> (r: bool)
        ensures
            r == self.found(),
    {
        self.done
    }

    /// Feeds the next chunk of input: consumes it up to and including the first occurrence of the
    /// delimiter, or all of it, and streams to `out` the bytes now known to come before that
    /// occurrence. Returns how many bytes of the chunk were consumed. Once found, the scan's
    /// outcome over the bytes seen is settled (see `lemma_scan_settled`).
    pub fn feed(&mut self, chunk: &[u8], out: &mut Vec<u8>) -> (used: usize)
        requires
            old(self).wf(),
            !old(self).found(),
            chunk@.len() > 0,
        ensures
            final(self).wf(),
            final(self).token() == old(self).token(),
            used <= chunk@.len(),
            final(self).seen() == old(self).seen() + chunk@.subrange(0, used as int),
            final(self).emitted() == old(self).emitted() + final(out)@.subrange(old(out)@.len() as int, final(out)@.len() as int),
            final(out)@.subrange(0, old(out)@.len() as int) == old(out)@,
            final(out)@.len() >= old(out)@.len(),
            !final(self).found() ==> used == chunk@.len(),
            final(self).found() ==> scan_found(final(self).seen(), final(self).token())
                && scan_len(final(self).seen(), final(self).token()) == final(self).seen().len()
                && final(self).emitted() == scan_sink(final(self).seen(), final(self).token()),
            !final(self).found() ==> final(self).emitted().len() + final(self).token().len() > final(self).seen().len(),
    {
        let n = self.token.len();
        let ghost t = self.token@;
        let ghost seen = self.seen@;
        let ghost big = seen + chunk@;
        let ghost p = seen.len() as int;
        let ghost out0 = out@;
        let held: usize = if self.cands.len() > 0 { self.cands[0] } else { 0 };
        proof {
            if self.cands@.len() > 0 {
                assert(1 <= self.cands@[0] <= p);
                assert(has(self.cands@, self.cands@[0] as int));
                assert forall|i: int| 0 <= i < self.cands@.len() implies self.cands@[i] <= held by {
                    if i > 0 {
                        assert(self.cands@[0] > self.cands@[i]);
                    }
                }
            }
        }
        let ghost a = p - held;
        let mut q: Vec<u8> = Vec::new();
        let mut k: usize = 0;
        while k < held
            invariant
                k <= held,
                held < n,
                n == self.token@.len(),
                q@ == self.token@.subrange(0, k as int),
            decreases held - k,
        {
            q.push(self.token[k]);
            k = k + 1;
            assert(q@ =~= self.token@.subrange(0, k as int));
        }
        let mut k: usize = 0;
        while k < chunk.len()
            invariant
                k <= chunk@.len(),
                q@ == self.token@.subrange(0, held as int) + chunk@.subrange(0, k as int),
            decreases chunk@.len() - k,
        {
            q.push(chunk[k]);
            k = k + 1;
            assert(q@ =~= self.token@.subrange(0, held as int) + chunk@.subrange(0, k as int));
        }
        proof {
            assert(chunk@.subrange(0, chunk@.len() as int) =~= chunk@);
            assert(seen =~= big.subrange(0, p));
            lemma_extended(seen, big, t);
            if held > 0 {
                assert(ends_with_prefix(seen, p, t, held as int));
            }
            assert forall|x: int| 0 <= x < q@.len() implies #[trigger] q@[x] == big[a + x] by {
                if x < held {
                    assert(seen[p - held + x] == t[0 + x]);
                }
            }
            assert(q@ =~= big.subrange(a, big.len() as int));
            lemma_window(big, a, q@, t);
            assert forall|l: int| 1 <= l < t.len() && l <= held implies (ends_with_prefix(q@, held as int, t, l)
                <==> has(self.cands@, l)) by {}
        }
        match scan_chunk(&q, 0, held, q.len(), self.token.as_slice(), &self.cands, out) {
            (Some(m), _) => {
                let used = m + n - held;
                proof {
                    let s2 = big.subrange(0, a + m + n);
                    assert(occurs_at(big, t, a + m));
                    assert forall|j: int| 0 <= j < a + m implies !occurs_at(big, t, j) by {
                        if occurs_at(big, t, j) {
                            if j + n <= p {
                                assert(occurs_at(seen, t, j));
                            } else if j < a {
                                lemma_straddle(big, t, j, p);
                                assert(ends_with_prefix(seen, p, t, p - j));
                                assert(has(self.cands@, p - j));
                                let w = choose|w: int| 0 <= w < self.cands@.len() && self.cands@[w] == p - j;
                            } else {
                                assert(occurs_at(q@, t, j - a));
                            }
                        }
                    }
                    assert(s2 =~= big.subrange(0, s2.len() as int));
                    lemma_extended(s2, big, t);
                    assert(occurs_at(s2, t, a + m));
                    assert forall|j: int| 0 <= j < a + m implies !occurs_at(s2, t, j) by {
                        assert(!occurs_at(big, t, j));
                    }
                    assert(is_first_match(s2, t, a + m));
                    let c = choose|c: int| is_first_match(s2, t, c);
                    lemma_first_unique(s2, t, a + m, c);
                    assert(s2 =~= seen + chunk@.subrange(0, used as int));
                    assert(self.emitted@ + q@.subrange(0, m as int) =~= s2.subrange(0, a + m));
                    assert(out@.subrange(0, out0.len() as int) =~= out0);
                    assert(out@.subrange(out0.len() as int, out@.len() as int) =~= q@.subrange(0, m as int));
                }
                self.seen = Ghost(self.seen@ + chunk@.subrange(0, used as int));
                self.emitted = Ghost(self.emitted@ + q@.subrange(0, m as int));
                self.done = true;
                used
            },
            (None, ext) => {
                let ghost h2 = held_back(ext@);
                proof {
                    assert(candidates_ok(big, t, 0, big.len() as int, ext@)) by {
                        assert forall|l: int| 1 <= l < t.len() && l <= big.len() implies
                            (ends_with_prefix(big, big.len() as int, t, l) <==> has(ext@, l)) by {
                            if l <= q@.len() {
                                assert(ends_with_prefix(q@, q@.len() as int, t, l) == ends_with_prefix(big, a + q@.len(), t, l));
                            } else {
                                if ends_with_prefix(big, big.len() as int, t, l) {
                                    let l1 = l - chunk@.len();
                                    lemma_match_sub(big, big.len() - l, t, 0, l, 0, l1);
                                    assert(ends_with_prefix(seen, p, t, l1));
                                    assert(has(self.cands@, l1));
                                    let w = choose|w: int| 0 <= w < self.cands@.len() && self.cands@[w] == l1;
                                }
                                if has(ext@, l) {
                                    let w = choose|w: int| 0 <= w < ext@.len() && ext@[w] == l;
                                }
                            }
                        }
                    }
                    assert forall|j: int| 0 <= j && j + t.len() <= big.len() implies !occurs_at(big, t, j) by {
                        if occurs_at(big, t, j) {
                            if j + n <= p {
                                assert(occurs_at(seen, t, j));
                            } else if j < a {
                                lemma_straddle(big, t, j, p);
                                assert(ends_with_prefix(seen, p, t, p - j));
                                assert(has(self.cands@, p - j));
                                let w = choose|w: int| 0 <= w < self.cands@.len() && self.cands@[w] == p - j;
                            } else {
                                assert(occurs_at(q@, t, j - a));
                            }
                        }
                    }
                    assert(self.emitted@ + q@.subrange(0, q@.len() - h2) =~= big.subrange(0, big.len() - h2));
                    assert(out@.subrange(0, out0.len() as int) =~= out0);
                    assert(out@.subrange(out0.len() as int, out@.len() as int) =~= q@.subrange(0, q@.len() - h2));
                    assert(big =~= seen + chunk@.subrange(0, chunk@.len() as int));
                    if ext@.len() > 0 {
                        assert(ext@[0] < t.len());
                    }
                }
                self.seen = Ghost(big);
                self.emitted = Ghost(self.emitted@ + q@.subrange(0, q@.len() - h2));
                self.cands = ext;
                chunk.len()
            },
        }
    }

    /// Ends the scan at the end of the input, the delimiter not found: streams the held-back
    /// bytes to `out`, so that all that was seen has been emitted, as the scan of the bytes seen
    /// requires.
    pub fn finish(self, out: &mut Vec<u8>)
        requires
            self.wf(),
            !self.found(),
        ensures
            self.emitted() + final(out)@.subrange(old(out)@.len() as int, final(out)@.len() as int)
                == scan_sink(self.seen(), self.token()),
            final(out)@.subrange(0, old(out)@.len() as int) == old(out)@,
            final(out)@.len() >= old(out)@.len(),
            !scan_found(self.seen(), self.token()),
            scan_len(self.seen(), self.token()) == self.seen().len(),
    {
        let ghost s = self.seen@;
        let ghost t = self.token@;
        let ghost out0 = out@;
        let held: usize = if self.cands.len() > 0 { self.cands[0] } else { 0 };
        proof {
            if self.cands@.len() > 0 {
                assert(has(self.cands@, self.cands@[0] as int));
                assert(ends_with_prefix(s, s.len() as int, t, held as int));
            }
        }
        let mut k: usize = 0;
        while k < held
            invariant
                k <= held,
                held < self.token@.len(),
                out@ == out0 + self.token@.subrange(0, k as int),
            decreases held - k,
        {
            out.push(self.token[k]);
            k = k + 1;
            assert(out@ =~= out0 + self.token@.subrange(0, k as int));
        }
        proof {
            assert forall|i: int| !is_first_match(s, t, i) by {}
            assert forall|x: int| 0 <= x < held implies #[trigger] t.subrange(0, held as int)[x] == s[s.len() - held + x] by {
                assert(s[s.len() - held + x] == t[0 + x]);
            }
            assert(self.emitted@ + t.subrange(0, held as int) =~= s);
            assert(out@.subrange(0, out0.len() as int) =~= out0);
            assert(out@.subrange(out0.len() as int, out@.len() as int) =~= t.subrange(0, held as int));
        }
    }
}


impl ChunkReader {
    /// Runs a `Scanner` over the reader chunk by chunk, the way a stream is scanned: it streams
    /// and consumes exactly what `scan_token` does.
    pub fn scan_by_steps(&mut self, token: &[u8], out: &mut Vec<u8>) -> (r: (usize, bool))
        requires
            old(self).wf(),
            token@.len() > 0,
        ensures
            final(self).wf(),
            r.0 == scan_len(old(self).rest(), token@),
            r.1 == scan_found(old(self).rest(), token@),
            final(out)@ == old(out)@ + scan_sink(old(self).rest(), token@),
            final(self).rest() == old(self).rest().subrange(r.0 as int, old(self).rest().len() as int),
    {
        let ghost rest0 = self.rest();
        let ghost out0 = out@;
        let start = self.pos;
        let mut tok: Vec<u8> = Vec::new();
        let mut k: usize = 0;
        while k < token.len()
            invariant
                k <= token@.len(),
                tok@ == token@.subrange(0, k as int),
            decreases token@.len() - k,
        {
            tok.push(token[k]);
            k = k + 1;
            assert(tok@ =~= token@.subrange(0, k as int));
        }
        assert(token@.subrange(0, token@.len() as int) =~= token@);
        let mut scanner = Scanner::new(tok);
        loop
            invariant_except_break
                self.wf(),
                scanner.wf(),
                !scanner.found(),
                scanner.token() == token@,
                start == old(self).pos,
                start <= self.pos,
                self.data@ == old(self).data@,
                rest0 == old(self).rest(),
                scanner.seen() == rest0.subrange(0, self.pos - start),
                out@ == out0 + scanner.emitted(),
            ensures
                self.wf(),
                self.data@ == old(self).data@,
                start <= self.pos,
                scanner.found() ==> scanner.seen() == rest0.subrange(0, self.pos - start)
                    && scan_found(scanner.seen(), token@) && scan_len(scanner.seen(), token@) == scanner.seen().len()
                    && out@ == out0 + scan_sink(scanner.seen(), token@),
                !scanner.found() ==> scanner.wf() && scanner.seen() == rest0 && self.pos == self.data@.len()
                    && out@ == out0 + scanner.emitted() && scanner.token() == token@,
            decreases self.data@.len() - self.pos,
        {
            self.fill_buf();
            if self.pos == self.end {
                assert(rest0.subrange(0, self.pos - start) =~= rest0);
                break;
            }
            let chunk = copy_bytes(&self.data, self.pos, self.end);
            let ghost before = out@;
            let ghost em0 = scanner.emitted();
            let used = scanner.feed(chunk.as_slice(), out);
            proof {
                let tail = out@.subrange(before.len() as int, out@.len() as int);
                assert forall|i: int| 0 <= i < before.len() implies out@[i] == before[i] by {
                    assert(out@.subrange(0, before.len() as int)[i] == out@[i]);
                }
                assert(out@ =~= before + tail);
                assert(out@ =~= out0 + scanner.emitted());
                assert(rest0.subrange(0, self.pos + used - start) =~= rest0.subrange(0, self.pos - start) + chunk@.subrange(0, used as int));
            }
            self.pos = self.pos + used;
            if scanner.is_found() {
                break;
            }
        }
        if scanner.is_found() {
            proof {
                let seen = scanner.seen();
                let f = rest0.subrange(seen.len() as int, rest0.len() as int);
                assert(seen + f =~= rest0);
                lemma_scan_settled(seen, token@, f);
                assert(self.rest() =~= rest0.subrange(seen.len() as int, rest0.len() as int));
            }
            (self.pos - start, true)
        } else {
            let ghost seen = scanner.seen();
            let ghost before = out@;
            let ghost em0 = scanner.emitted();
            scanner.finish(out);
            proof {
                let tail = out@.subrange(before.len() as int, out@.len() as int);
                assert forall|i: int| 0 <= i < before.len() implies out@[i] == before[i] by {
                    assert(out@.subrange(0, before.len() as int)[i] == out@[i]);
                }
                assert(out@ =~= before + tail);
                assert(out@ =~= out0 + scan_sink(seen, token@));
                assert(self.rest() =~= rest0.subrange(rest0.len() as int, rest0.len() as int));
            }
            (self.pos - start, false)
        }
    }
}

/// `data[from..to]`, copied.
fn copy_bytes(data: &Vec<u8>, from: usize, to: usize) -> (r: Vec<u8>)
    requires
        from <= to <= data@.len(),
    ensures
        r@ == data@.subrange(from as int, to as int),
{
    let mut r: Vec<u8> = Vec::new();
    extend_range(&mut r, data, from, to);
    assert(r@ =~= data@.subrange(from as int, to as int));
    r
}

/// A buffered byte source that can stream its bytes up to a delimiter.
pub trait BufReadExt {
    /// The source's internal invariant.
    spec fn source_ok(&self) -> bool;

    /// The bytes not yet consumed.
    spec fn remaining(&self) -> Seq<u8>;

    /// Streams to `out` every byte before the first occurrence of `token`, and consumes the
    /// source up to and including that occurrence; where `token` does not occur, streams and
    /// consumes all that is left. Returns the number of bytes consumed. The outcome depends on
    /// the remaining bytes and the delimiter alone, not on how the source is chunked.
    fn stream_until_token(&mut self, token: &[u8], out: &mut Vec<u8>) -> (r: usize)
        requires
            old(self).source_ok(),
            token@.len() > 0,
        ensures
            final(self).source_ok(),
            r == scan_len(old(self).remaining(), token@),
            final(out)@ == old(out)@ + scan_sink(old(self).remaining(), token@),
            final(self).remaining() == old(self).remaining().subrange(
                r as int,
                old(self).remaining().len() as int,
            ),
    ;
}

impl BufReadExt for ChunkReader {
    open spec fn source_ok(&self) -> bool {
        self.wf()
    }

    open spec fn remaining(&self) -> Seq<u8> {
        self.rest()
    }

    fn stream_until_token(&mut self, token: &[u8], out: &mut Vec<u8>) -> (r: usize) {
        stream_until_token(self, token, out)
    }
}

/// Streams to `out` every byte of `stream` before the first occurrence of `token`, consuming
/// through it, or streams and consumes all that is left where `token` does not occur; returns
/// the number of bytes consumed.
pub fn stream_until_token(stream: &mut ChunkReader, token: &[u8], out: &mut Vec<u8>) -> (r: usize)
    requires
        old(stream).wf(),
        token@.len() > 0,
    ensures
        final(stream).wf(),
        final(stream).capacity() == old(stream).capacity(),
        r == scan_len(old(stream).rest(), token@),
        final(out)@ == old(out)@ + scan_sink(old(stream).rest(), token@),
        final(stream).rest() == old(stream).rest().subrange(r as int, old(stream).rest().len() as int),
{
    let (n, _) = stream.scan_token(token, out);
    n
}

impl ChunkReader {
    /// Streams to `out` every byte before the first occurrence of `token` and consumes through
    /// it, or streams and consumes everything left where `token` does not occur.
    /// Also tells whether `token` was found.
    pub fn scan_token(&mut self, token: &[u8], out: &mut Vec<u8>) -> (r: (usize, bool))
        requires
            old(self).wf(),
            token@.len() > 0,
        ensures
            final(self).wf(),
            final(self).capacity() == old(self).capacity(),
            r.0 == scan_len(old(self).rest(), token@),
            r.1 == scan_found(old(self).rest(), token@),
            final(out)@ == old(out)@ + scan_sink(old(self).rest(), token@),
            final(self).rest() == old(self).rest().subrange(r.0 as int, old(self).rest().len() as int),
    {
        let n = token.len();
        let start = self.pos;
        let ghost s = self.data@;
        let ghost t = token@;
        let ghost out0 = out@;
        let mut cands: Vec<usize> = Vec::new();
        let mut found = false;
        let ghost mut found_at: int = 0;
        loop
            invariant_except_break
                self.wf(),
                self.data@ == s,
                self.cap == old(self).cap,
                start == old(self).pos,
                start <= self.pos,
                n == t.len(),
                t == token@,
                n > 0,
                !found,
                forall|j: int| start <= j && j + n <= self.pos ==> !occurs_at(s, t, j),
                candidates_ok(s, t, start as int, self.pos as int, cands@),
                out@ == out0 + s.subrange(start as int, self.pos - held_back(cands@)),
            ensures
                self.wf(),
                self.data@ == s,
                self.cap == old(self).cap,
                start <= self.pos,
                found ==> start <= found_at && self.pos == found_at + n && occurs_at(s, t, found_at)
                    && (forall|j: int| start <= j < found_at ==> !occurs_at(s, t, j))
                    && out@ == out0 + s.subrange(start as int, found_at),
                !found ==> self.pos == s.len() && (forall|j: int| start <= j ==> !occurs_at(s, t, j))
                    && out@ == out0 + s.subrange(start as int, s.len() as int),
            decreases s.len() - self.pos,
        {
            self.fill_buf();
            let pos = self.pos;
            let end = self.end;
            let held: usize = if cands.len() > 0 { cands[0] } else { 0 };
            proof {
                if cands@.len() > 0 {
                    assert(1 <= cands@[0] <= pos - start);
                }
            }
            if pos == end {
                // The source is exhausted: what was held back was no delimiter.
                extend_range(out, &self.data, pos - held, pos);
                proof {
                    lemma_subrange_concat(s, start as int, pos - held, pos as int);
                    assert(out@ =~= out0 + s.subrange(start as int, s.len() as int));
                }
                break;
            }
            match scan_chunk(&self.data, start, pos, end, token, &cands, out) {
                (Some(m), _) => {
                    proof {
                        lemma_subrange_concat(s, start as int, pos - held, m as int);
                        found_at = m as int;
                    }
                    self.pos = m + n;
                    self.end = if self.pos > end { self.pos } else { end };
                    found = true;
                    break;
                },
                (None, ext) => {
                    let new_held: usize = if ext.len() > 0 { ext[0] } else { 0 };
                    proof {
                        if ext@.len() > 0 {
                            assert(1 <= ext@[0] <= end - start);
                        }
                        lemma_subrange_concat(s, start as int, pos - held, end - new_held);
                    }
                    self.pos = end;
                    cands = ext;
                },
            }
        }
        proof {
            let rest = s.subrange(start as int, s.len() as int);
            assert(old(self).rest() == rest);
            if found {
                let i = found_at - start;
                lemma_occurs_shift(s, start as int, t, i);
                assert forall|j: int| 0 <= j < i implies !occurs_at(rest, t, j) by {
                    lemma_occurs_shift(s, start as int, t, j);
                }
                assert(is_first_match(rest, t, i));
                let c = choose|c: int| is_first_match(rest, t, c);
                lemma_first_unique(rest, t, i, c);
                assert(rest.subrange(0, i) =~= s.subrange(start as int, found_at));
                assert(self.rest() =~= rest.subrange(i + n, rest.len() as int));
                assert(scan_found(rest, t));
            } else {
                assert forall|i: int| !is_first_match(rest, t, i) by {
                    if 0 <= i {
                        lemma_occurs_shift(s, start as int, t, i);
                    }
                }
                assert(self.rest() =~= rest.subrange(rest.len() as int, rest.len() as int));
            }
        }
        (self.pos - start, found)
    }

    /// Whether the bytes not yet consumed begin with `pat`.
    pub fn starts_with(&self, pat: &[u8]) -> (r: bool)
        requires
            self.wf(),
        ensures
            r == (pat@.len() <= self.rest().len() && self.rest().subrange(0, pat@.len() as int) == pat@),
    {
        let n = pat.len();
        if self.data.len() - self.pos < n {
            return false;
        }
        let r = bytes_eq(&self.data, self.pos, pat, 0, n);
        proof {
            let rest = self.rest();
            if r {
                assert forall|k: int| 0 <= k < n implies #[trigger] rest.subrange(0, n as int)[k] == pat@[k] by {
                    assert(self.data@[self.pos + k] == pat@[0 + k]);
                }
                assert(rest.subrange(0, n as int) =~= pat@);
            } else {
                if rest.subrange(0, n as int) == pat@ {
                    assert forall|k: int| 0 <= k < n implies #[trigger] self.data@[self.pos + k] == pat@[0 + k] by {
                        assert(rest.subrange(0, n as int)[k] == pat@[k]);
                    }
                }
            }
        }
        r
    }

    /// Whether every byte has been consumed.
    pub fn is_exhausted(&self) -> (r: bool)
        requires
            self.wf(),
        ensures
            r == (self.rest().len() == 0),
    {
        self.pos == self.data.len()
    }
}

} // verus!
