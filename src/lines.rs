//! Lines of a text as byte ranges: line counts, distinct lines, the overlap
//! of two texts' line sets, and a content hash.
use std::collections::HashMap;
use vstd::prelude::*;

verus! {

broadcast use vstd::std_specs::hash::group_hash_axioms;

/// The UTF-8 encoding of a text.
pub open spec fn text_bytes(c: Seq<char>) -> Seq<u8> {
    vstd::utf8::encode_utf8(c)
}

/// Ranges of the lines of `b` after a line that began at `start`, with the
/// scan at `i`. A line ends at `'\n'`, which it does not hold, nor a `'\r'`
/// right before it; a last line without `'\n'` counts unless it is empty.
pub open spec fn ranges_from(b: Seq<u8>, start: int, i: int) -> Seq<(int, int)>
    decreases b.len() - i,
{
    if i >= b.len() {
        if start < b.len() {
            seq![(start, b.len() as int)]
        } else {
            seq![]
        }
    } else if b[i] == 10u8 {
        let e = if i > start && b[i - 1] == 13u8 { i - 1 } else { i };
        seq![(start, e)] + ranges_from(b, i + 1, i + 1)
    } else {
        ranges_from(b, start, i + 1)
    }
}

pub open spec fn line_ranges(b: Seq<u8>) -> Seq<(int, int)> {
    ranges_from(b, 0, 0)
}

/// The lines of a text, as `str::lines` yields them.
pub open spec fn text_lines(b: Seq<u8>) -> Seq<Seq<u8>> {
    line_ranges(b).map_values(|r: (int, int)| b.subrange(r.0, r.1))
}

/// How many lines a text has.
pub open spec fn line_count(c: Seq<char>) -> nat {
    text_lines(text_bytes(c)).len()
}

pub open spec fn ranges_view(v: Seq<(usize, usize)>) -> Seq<(int, int)> {
    v.map_values(|r: (usize, usize)| (r.0 as int, r.1 as int))
}

pub open spec fn ranges_ok(b: Seq<u8>, v: Seq<(int, int)>) -> bool {
    forall|k: int| 0 <= k < v.len() ==> 0 <= (#[trigger] v[k]).0 <= v[k].1 <= b.len()
}

proof fn lemma_ranges_from_ok(b: Seq<u8>, start: int, i: int)
    requires
        0 <= start <= i,
    ensures
        ranges_ok(b, ranges_from(b, start, i)),
    decreases b.len() - i,
{
    if i >= b.len() {
    } else if b[i] == 10u8 {
        lemma_ranges_from_ok(b, i + 1, i + 1);
        let e = if i > start && b[i - 1] == 13u8 { i - 1 } else { i };
        let rest = ranges_from(b, i + 1, i + 1);
        assert forall|k: int| 0 <= k < 1 + rest.len() implies 0 <= (#[trigger] (seq![(start, e)] + rest)[k]).0
            <= (seq![(start, e)] + rest)[k].1 <= b.len() by {
            if k > 0 {
                assert((seq![(start, e)] + rest)[k] == rest[k - 1]);
            }
        }
    } else {
        lemma_ranges_from_ok(b, start, i + 1);
    }
}

/// Cuts `b` into lines, as ranges of positions.
pub fn split_lines(b: &[u8]) -> (r: Vec<(usize, usize)>)
    ensures
        ranges_view(r@) == line_ranges(b@),
        ranges_ok(b@, ranges_view(r@)),
{
    let n = b.len();
    let mut r: Vec<(usize, usize)> = Vec::new();
    let mut start: usize = 0;
    let mut i: usize = 0;
    proof {
        assert(ranges_view(r@) + ranges_from(b@, 0, 0) =~= line_ranges(b@));
    }
    while i < n
        invariant
            n == b@.len(),
            start <= i <= n,
            ranges_view(r@) + ranges_from(b@, start as int, i as int) == line_ranges(b@),
        decreases n - i,
    {
        if b[i] == 10u8 {
            let e = if i > start && b[i - 1] == 13u8 { i - 1 } else { i };
            let ghost old_r = r@;
            r.push((start, e));
            proof {
                assert(ranges_view(r@) =~= ranges_view(old_r).push((start as int, e as int)));
                assert(ranges_view(r@) + ranges_from(b@, i + 1, i + 1) =~= ranges_view(old_r) + (seq![
                    (start as int, e as int),
                ] + ranges_from(b@, i + 1, i + 1)));
            }
            start = i + 1;
        }
        i = i + 1;
    }
    if start < n {
        let ghost old_r = r@;
        r.push((start, n));
        proof {
            assert(ranges_view(r@) =~= ranges_view(old_r) + ranges_from(b@, start as int, i as int));
        }
    } else {
        proof {
            assert(ranges_view(r@) =~= ranges_view(r@) + ranges_from(b@, start as int, i as int));
        }
    }
    proof {
        lemma_ranges_from_ok(b@, 0, 0);
    }
    r
}

/// Number of lines of `s`, as `str::lines` counts them.
pub fn count_lines(s: &str) -> (r: usize)
    ensures
        r == line_count(s@),
{
    let b = s.as_bytes();
    let v = split_lines(b);
    v.len()
}

/// Whether two ranges of two byte strings hold the same bytes.
fn same_bytes(a: &[u8], ra: (usize, usize), b: &[u8], rb: (usize, usize)) -> (r: bool)
    requires
        ra.0 <= ra.1 <= a@.len(),
        rb.0 <= rb.1 <= b@.len(),
    ensures
        r == (a@.subrange(ra.0 as int, ra.1 as int) == b@.subrange(rb.0 as int, rb.1 as int)),
{
    if ra.1 - ra.0 != rb.1 - rb.0 {
        proof {
            if a@.subrange(ra.0 as int, ra.1 as int) == b@.subrange(rb.0 as int, rb.1 as int) {
                assert(a@.subrange(ra.0 as int, ra.1 as int).len() == b@.subrange(rb.0 as int, rb.1 as int).len());
            }
        }
        return false;
    }
    let len = ra.1 - ra.0;
    let mut k: usize = 0;
    while k < len
        invariant
            len == ra.1 - ra.0,
            len == rb.1 - rb.0,
            ra.0 <= ra.1 <= a@.len(),
            rb.0 <= rb.1 <= b@.len(),
            k <= len,
            forall|j: int| 0 <= j < k ==> #[trigger] a@[ra.0 + j] == b@[rb.0 + j],
        decreases len - k,
    {
        if a[ra.0 + k] != b[rb.0 + k] {
            proof {
                let x = a@.subrange(ra.0 as int, ra.1 as int);
                let y = b@.subrange(rb.0 as int, rb.1 as int);
                if x == y {
                    assert(x[k as int] == y[k as int]);
                }
            }
            return false;
        }
        k = k + 1;
    }
    proof {
        let x = a@.subrange(ra.0 as int, ra.1 as int);
        let y = b@.subrange(rb.0 as int, rb.1 as int);
        assert forall|j: int| 0 <= j < len implies x[j] == y[j] by {
            assert(a@[ra.0 + j] == b@[rb.0 + j]);
        }
        assert(x =~= y);
    }
    true
}

/// The lines of `ls` without repeats, each where it first occurs.
pub open spec fn dedup(ls: Seq<Seq<u8>>) -> Seq<Seq<u8>>
    decreases ls.len(),
{
    if ls.len() == 0 {
        seq![]
    } else {
        let d = dedup(ls.drop_last());
        if d.contains(ls.last()) {
            d
        } else {
            d.push(ls.last())
        }
    }
}

/// How many lines of `a` also occur in `d`.
pub open spec fn count_common(a: Seq<Seq<u8>>, d: Seq<Seq<u8>>) -> nat
    decreases a.len(),
{
    if a.len() == 0 {
        0
    } else {
        count_common(a.drop_last(), d) + if d.contains(a.last()) { 1nat } else { 0nat }
    }
}

pub proof fn lemma_count_common_bound(a: Seq<Seq<u8>>, d: Seq<Seq<u8>>)
    ensures
        count_common(a, d) <= a.len(),
    decreases a.len(),
{
    if a.len() > 0 {
        lemma_count_common_bound(a.drop_last(), d);
    }
}

/// The distinct lines of a text.
pub open spec fn distinct_lines(c: Seq<char>) -> Seq<Seq<u8>> {
    dedup(text_lines(text_bytes(c)))
}

pub open spec fn slices_of(b: Seq<u8>, v: Seq<(usize, usize)>) -> Seq<Seq<u8>> {
    v.map_values(|r: (usize, usize)| b.subrange(r.0 as int, r.1 as int))
}

pub open spec fn line_at(b: Seq<u8>, v: Seq<(usize, usize)>, k: int) -> Seq<u8> {
    b.subrange(v[k].0 as int, v[k].1 as int)
}

/// The distinct lines of a text, as ranges of its bytes, with the positions of
/// the lines under each line hash.
pub struct LineSet {
    pub ranges: Vec<(usize, usize)>,
    pub index: HashMap<u64, Vec<usize>>,
}

impl LineSet {
    pub open spec fn wf_for(&self, b: Seq<u8>) -> bool {
        &&& forall|k: int| 0 <= k < self.ranges@.len() ==> (#[trigger] self.ranges@[k]).0 <= self.ranges@[k].1 <= b.len()
        &&& forall|k: int| 0 <= k < self.ranges@.len() ==> {
            let h = hash_bytes(#[trigger] line_at(b, self.ranges@, k));
            &&& self.index@.contains_key(h)
            &&& self.index@[h]@.contains(k as usize)
        }
        &&& forall|h: u64, j: int| #![trigger self.index@[h]@[j]]
            self.index@.contains_key(h) && 0 <= j < self.index@[h]@.len() ==> self.index@[h]@[j] < self.ranges@.len()
    }

    pub open spec fn lines(&self, b: Seq<u8>) -> Seq<Seq<u8>> {
        slices_of(b, self.ranges@)
    }

    /// Whether the range `r` of `a` is one of the lines of this set over `b`.
    fn holds(&self, b: &[u8], a: &[u8], r: (usize, usize)) -> (res: bool)
        requires
            self.wf_for(b@),
            r.0 <= r.1 <= a@.len(),
        ensures
            res == self.lines(b@).contains(a@.subrange(r.0 as int, r.1 as int)),
    {
        let ghost x = a@.subrange(r.0 as int, r.1 as int);
        let nranges = self.ranges.len();
        let h = hash_slice(a, r);
        match self.index.get(&h) {
            None => {
                proof {
                    if self.lines(b@).contains(x) {
                        let k = self.lines(b@).index_of(x);
                        assert(line_at(b@, self.ranges@, k) == x);
                    }
                }
                false
            },
            Some(bucket) => {
                let mut j: usize = 0;
                while j < bucket.len()
                    invariant
                        self.wf_for(b@),
                        r.0 <= r.1 <= a@.len(),
                        x == a@.subrange(r.0 as int, r.1 as int),
                        h == hash_bytes(x),
                        self.index@.contains_key(h),
                        *bucket == self.index@[h],
                        j <= bucket@.len(),
                        nranges == self.ranges@.len(),
                        forall|i: int| 0 <= i < j ==> line_at(b@, self.ranges@, #[trigger] bucket@[i] as int) != x,
                    decreases bucket@.len() - j,
                {
                    let k = bucket[j];
                    assert(self.index@[h]@[j as int] < self.ranges@.len());
                    if same_bytes(b, self.ranges[k], a, r) {
                        proof {
                            assert(self.lines(b@)[k as int] == x);
                        }
                        return true;
                    }
                    j = j + 1;
                }
                proof {
                    if self.lines(b@).contains(x) {
                        let k = self.lines(b@).index_of(x);
                        assert(line_at(b@, self.ranges@, k) == x);
                        assert(bucket@.contains(k as usize));
                        let i = bucket@.index_of(k as usize);
                        assert(bucket@[i] == k as usize);
                        assert(0 <= k < self.ranges@.len());
                        assert(bucket@[i] as int == k);
                        assert(line_at(b@, self.ranges@, bucket@[i] as int) == x);
                    }
                }
                false
            },
        }
    }

    /// The distinct lines of a text's bytes.
    pub fn of_text(b: &[u8]) -> (r: LineSet)
        ensures
            r.wf_for(b@),
            r.lines(b@) == dedup(text_lines(b@)),
    {
        let all = split_lines(b);
        let mut set = LineSet { ranges: Vec::new(), index: HashMap::new() };
        let mut i: usize = 0;
        let ghost tl = text_lines(b@);
        proof {
            assert(tl.len() == all@.len());
            assert(tl.subrange(0, 0) =~= Seq::<Seq<u8>>::empty());
            assert(set.lines(b@) =~= Seq::<Seq<u8>>::empty());
        }
        while i < all.len()
            invariant
                tl == text_lines(b@),
                ranges_view(all@) == line_ranges(b@),
                ranges_ok(b@, ranges_view(all@)),
                tl.len() == all@.len(),
                i <= all@.len(),
                set.wf_for(b@),
                set.lines(b@) == dedup(tl.subrange(0, i as int)),
            decreases all@.len() - i,
        {
            let ri = all[i];
            proof {
                assert(ranges_view(all@)[i as int] == (ri.0 as int, ri.1 as int));
                assert(tl[i as int] == b@.subrange(ri.0 as int, ri.1 as int));
                assert(tl.subrange(0, i + 1).drop_last() =~= tl.subrange(0, i as int));
            }
            if !set.holds(b, b, ri) {
                let ghost old_lines = set.lines(b@);
                let ghost old_index = set.index@;
                let ghost old_ranges = set.ranges@;
                let h = hash_slice(b, ri);
                let n = set.ranges.len();
                let mut bucket = match set.index.remove(&h) {
                    Some(v) => v,
                    None => Vec::new(),
                };
                let ghost old_bucket = bucket@;
                bucket.push(n);
                set.index.insert(h, bucket);
                set.ranges.push(ri);
                proof {
                    assert(set.lines(b@) =~= old_lines.push(b@.subrange(ri.0 as int, ri.1 as int)));
                    assert(set.index@ == old_index.insert(h, bucket));
                    assert forall|k: int| 0 <= k < set.ranges@.len() implies {
                        let hk = hash_bytes(#[trigger] line_at(b@, set.ranges@, k));
                        &&& set.index@.contains_key(hk)
                        &&& set.index@[hk]@.contains(k as usize)
                    } by {
                        let hk = hash_bytes(line_at(b@, set.ranges@, k));
                        if k < n {
                            assert(line_at(b@, set.ranges@, k) == line_at(b@, old_ranges, k));
                            if hk == h {
                                assert(old_index.contains_key(h));
                                let p = old_index[h]@.index_of(k as usize);
                                assert(bucket@[p] == k as usize);
                            }
                        } else {
                            assert(bucket@[bucket@.len() - 1] == k as usize);
                        }
                    }
                    assert forall|hh: u64, j: int| #![trigger set.index@[hh]@[j]]
                        set.index@.contains_key(hh) && 0 <= j < set.index@[hh]@.len() implies set.index@[hh]@[j] < set.ranges@.len() by {
                        if hh == h {
                            if j < old_bucket.len() {
                                assert(old_index.contains_key(h));
                                assert(old_index[h]@[j] < n);
                            }
                        } else {
                            assert(old_index[hh]@[j] < n);
                        }
                    }
                }
            }
            i = i + 1;
        }
        proof {
            assert(tl.subrange(0, i as int) =~= tl);
        }
        set
    }
    /// How many of this set's lines over `b` are also lines of `other` over `ob`.
    pub fn common_with(&self, b: &[u8], other: &LineSet, ob: &[u8]) -> (r: usize)
        requires
            self.wf_for(b@),
            other.wf_for(ob@),
        ensures
            r == count_common(self.lines(b@), other.lines(ob@)),
    {
        let ghost ls = self.lines(b@);
        let ghost os = other.lines(ob@);
        let mut n: usize = 0;
        let mut k: usize = 0;
        proof {
            assert(ls.subrange(0, 0) =~= Seq::<Seq<u8>>::empty());
        }
        while k < self.ranges.len()
            invariant
                self.wf_for(b@),
                other.wf_for(ob@),
                ls == self.lines(b@),
                os == other.lines(ob@),
                k <= self.ranges@.len(),
                n == count_common(ls.subrange(0, k as int), os),
            decreases self.ranges@.len() - k,
        {
            proof {
                assert(ls.subrange(0, k + 1).drop_last() =~= ls.subrange(0, k as int));
                lemma_count_common_bound(ls.subrange(0, k as int), os);
            }
            if other.holds(ob, b, self.ranges[k]) {
                n = n + 1;
            }
            k = k + 1;
        }
        proof {
            assert(ls.subrange(0, k as int) =~= ls);
        }
        n
    }
}

pub const FNV_OFFSET: u64 = 0xcbf29ce484222325;

pub const FNV_PRIME: u64 = 0x100000001b3;

/// FNV-1a over the bytes of a text.
pub open spec fn hash_bytes(b: Seq<u8>) -> u64
    decreases b.len(),
{
    if b.len() == 0 {
        FNV_OFFSET
    } else {
        (hash_bytes(b.drop_last()) ^ (b.last() as u64)).wrapping_mul(FNV_PRIME)
    }
}

/// The hash of the bytes of `b` in range `r`.
pub fn hash_slice(b: &[u8], r: (usize, usize)) -> (h: u64)
    requires
        r.0 <= r.1 <= b@.len(),
    ensures
        h == hash_bytes(b@.subrange(r.0 as int, r.1 as int)),
{
    let mut h: u64 = FNV_OFFSET;
    let mut i: usize = r.0;
    proof {
        assert(b@.subrange(r.0 as int, r.0 as int) =~= Seq::<u8>::empty());
    }
    while i < r.1
        invariant
            r.0 <= i <= r.1 <= b@.len(),
            h == hash_bytes(b@.subrange(r.0 as int, i as int)),
        decreases r.1 - i,
    {
        proof {
            assert(b@.subrange(r.0 as int, i + 1).drop_last() =~= b@.subrange(r.0 as int, i as int));
        }
        h = (h ^ (b[i] as u64)).wrapping_mul(FNV_PRIME);
        i = i + 1;
    }
    h
}

/// A 64-bit hash of a text's bytes; equal texts hash alike.
pub fn hash_content(s: &str) -> (r: u64)
    ensures
        r == hash_bytes(text_bytes(s@)),
{
    let b = s.as_bytes();
    proof {
        assert(b@.subrange(0, b@.len() as int) =~= b@);
    }
    hash_slice(b, (0, b.len()))
}

} // verus!
