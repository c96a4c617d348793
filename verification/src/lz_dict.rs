//! The bounded, strictly ascending sketch of hash values and its construction.

use vstd::prelude::*;

use crate::codec::b64_decode;
use crate::codec::b64_decode_of;
use crate::codec::b64_encode;
use crate::codec::b64_encode_of;
use crate::codec::bytes_of_entries;
use crate::codec::entries_of_bytes;
use crate::codec::push_le_bytes;
use crate::codec::read_le_i64;
use crate::hasher::BuildSketchHasher;
use crate::hasher::SketchHasher;
use crate::LZJDError;
use crate::lz78::lemma_path_bytes_len;
use crate::lz78::lz78_parse;
use crate::lz78::lz78_state;
use crate::lz78::path_bytes;
use crate::lz78::phrase_table_wf;

verus! {

/// Upper bound on the number of entries a sketch may hold.
pub const MAX_ENTRIES: usize = 1024;

/// A sorted list of at most [`MAX_ENTRIES`] distinct LZ-phrase hashes.
pub struct LZDict {
    entries: Vec<i64>,
}

/// The entries are in strictly ascending order (hence distinct).
pub open spec fn strictly_sorted(s: Seq<i64>) -> bool {
    forall|i: int, j: int| 0 <= i < j < s.len() ==> s[i] < s[j]
}

impl View for LZDict {
    type V = Seq<i64>;

    closed spec fn view(&self) -> Seq<i64> {
        self.entries@
    }
}

impl LZDict {
    /// Sketch invariant: bounded size and strictly ascending entries.
    pub open spec fn wf(&self) -> bool {
        self@.len() <= MAX_ENTRIES && strictly_sorted(self@)
    }

    /// How many entries the sketch holds.
    pub fn len(&self) -> (n: usize)
        ensures
            n == self@.len(),
    {
        self.entries.len()
    }

    /// Decide the sketch invariant at run time, for callers that obtained
    /// entries from an untrusted producer.
    pub fn is_wf(&self) -> (b: bool)
        ensures
            b == self.wf(),
    {
        if self.entries.len() > MAX_ENTRIES {
            return false;
        }
        let mut k: usize = 1;
        while k < self.entries.len()
            invariant
                1 <= k,
                k <= self@.len() || self@.len() <= 1,
                forall|m: int| 0 <= m && m + 1 < k ==> self@[m] < #[trigger] self@[m + 1],
            decreases self@.len() - k,
        {
            if self.entries[k - 1] >= self.entries[k] {
                return false;
            }
            k = k + 1;
        }
        proof {
            lemma_adjacent_implies_sorted(self@);
        }
        true
    }

    /// Read-only access to the sorted entries.
    pub fn entries(&self) -> (r: &Vec<i64>)
        ensures
            r@ == self@,
    {
        &self.entries
    }

    /// Build a sketch from a byte stream with the streaming-approximate
    /// strategy: one live hasher accumulates bytes; a hash value already in
    /// the sketch extends the current phrase, a new one ends it (the hasher
    /// is rebuilt) and is offered to the bounded sketch.
    pub fn from_bytes_stream<H: BuildSketchHasher>(seq: &Vec<u8>, build_hasher: &H) -> (r: LZDict)
        requires
            seq@.len() <= <H::Hasher as SketchHasher>::max_input_len(),
        ensures
            r.wf(),
            r@ == stream_state::<H::Hasher>(seq@).0,
            seq@.len() == 0 ==> r@ == Seq::<i64>::empty(),
            seq@.len() > 0 ==> r@.len() > 0,
    {
        let mut entries: Vec<i64> = Vec::new();
        let mut hasher = build_hasher.build_hasher();
        let mut i: usize = 0;
        proof {
            assert(seq@.subrange(0, 0) =~= Seq::<u8>::empty());
        }
        while i < seq.len()
            invariant
                i <= seq@.len(),
                seq@.len() <= <H::Hasher as SketchHasher>::max_input_len(),
                strictly_sorted(entries@),
                entries@.len() <= MAX_ENTRIES,
                entries@ == stream_state::<H::Hasher>(seq@.subrange(0, i as int)).0,
                hasher.buffered() == stream_state::<H::Hasher>(seq@.subrange(0, i as int)).1,
                i > 0 ==> entries@.len() > 0,
            decreases seq@.len() - i,
        {
            proof {
                lemma_stream_buf_len::<H::Hasher>(seq@.subrange(0, i as int));
            }
            hasher.write_u8(seq[i]);
            let h = hasher.finish();
            let c: i64 = #[verifier::truncate] (h as i64);
            proof {
                assert(seq@.subrange(0, i + 1).drop_last() =~= seq@.subrange(0, i as int));
                assert(seq@.subrange(0, i + 1).last() == seq@[i as int]);
            }
            let is_new = insert_candidate(&mut entries, c);
            if is_new {
                hasher = build_hasher.build_hasher();
            }
            i = i + 1;
        }
        proof {
            assert(seq@.subrange(0, seq@.len() as int) =~= seq@);
        }
        LZDict { entries }
    }

    /// Feed the byte path of the phrase at `index` into `hasher`, walking the
    /// parent chain from the root down to the phrase.
    pub fn hash_entry<H: SketchHasher>(index: usize, dict: &Vec<(usize, u8)>, hasher: &mut H)
        requires
            phrase_table_wf(dict@),
            index < dict@.len(),
            old(hasher).buffered().len() + path_bytes(dict@, index as int).len()
                <= H::max_input_len(),
        ensures
            final(hasher).buffered() == old(hasher).buffered() + path_bytes(dict@, index as int),
        decreases index,
    {
        if index == 0 {
            proof {
                assert(old(hasher).buffered() + path_bytes(dict@, 0) =~= old(hasher).buffered());
            }
            return ;
        }
        let entry = dict[index];
        Self::hash_entry(entry.0, dict, hasher);
        hasher.write_u8(entry.1);
        proof {
            assert(hasher.buffered() =~= old(hasher).buffered() + path_bytes(
                dict@,
                index as int,
            ));
        }
    }

    /// Build a sketch from a byte stream with the exact LZ78 strategy: parse
    /// the stream into its phrase table, hash every phrase's byte path with a
    /// fresh hasher, and keep the bounded sketch of the hash values.
    pub fn from_bytes_stream_lz78<H: BuildSketchHasher>(
        seq: &Vec<u8>,
        build_hasher: &H,
    ) -> (r: LZDict)
        requires
            seq@.len() <= <H::Hasher as SketchHasher>::max_input_len(),
        ensures
            r.wf(),
            r@ == phrase_sketch::<H::Hasher>(lz78_state(seq@).0, lz78_state(seq@).0.len() as int),
            seq@.len() == 0 ==> r@ == Seq::<i64>::empty(),
    {
        let dict = lz78_parse(seq);
        let mut entries: Vec<i64> = Vec::new();
        let mut k: usize = 1;
        proof {
            if seq@.len() == 0 {
                assert(dict@ == lz78_state(seq@).0);
            }
        }
        while k < dict.len()
            invariant
                1 <= k,
                k <= dict@.len() || k == 1,
                strictly_sorted(entries@),
                entries@.len() <= MAX_ENTRIES,
                phrase_table_wf(dict@),
                dict@.len() <= <H::Hasher as SketchHasher>::max_input_len() + 1,
                entries@ == phrase_sketch::<H::Hasher>(dict@, k as int),
            decreases dict@.len() - k,
        {
            let mut hasher = build_hasher.build_hasher();
            proof {
                lemma_path_bytes_len(dict@, k as int);
            }
            Self::hash_entry(k, &dict, &mut hasher);
            let h = hasher.finish();
            let c: i64 = #[verifier::truncate] (h as i64);
            proof {
                assert(hasher.buffered() =~= path_bytes(dict@, k as int));
            }
            insert_candidate(&mut entries, c);
            k = k + 1;
        }
        LZDict { entries }
    }
}

/// Index of the first entry that is not below `c`, and whether `c` is present,
/// found by binary search over the strictly ascending entries.
fn find_slot(entries: &Vec<i64>, c: i64) -> (r: (bool, usize))
    requires
        strictly_sorted(entries@),
    ensures
        r.1 <= entries@.len(),
        forall|k: int| 0 <= k < r.1 ==> entries@[k] < c,
        forall|k: int| r.1 <= k < entries@.len() ==> entries@[k] >= c,
        r.0 == entries@.contains(c),
        r.0 ==> r.1 < entries@.len() && entries@[r.1 as int] == c,
{
    let mut lo: usize = 0;
    let mut hi: usize = entries.len();
    while lo < hi
        invariant
            lo <= hi <= entries@.len(),
            strictly_sorted(entries@),
            forall|k: int| 0 <= k < lo ==> entries@[k] < c,
            forall|k: int| hi <= k < entries@.len() ==> entries@[k] >= c,
        decreases hi - lo,
    {
        let mid = lo + (hi - lo) / 2;
        if entries[mid] < c {
            lo = mid + 1;
        } else {
            hi = mid;
        }
    }
    let found = lo < entries.len() && entries[lo] == c;
    proof {
        if entries@.contains(c) {
            let k = choose|k: int| 0 <= k < entries@.len() && entries@[k] == c;
            assert(entries@[k] == c);
            assert(k >= lo);
            assert(lo < entries@.len());
            if k > lo {
                assert(entries@[lo as int] < entries@[k]);
            }
        }
    }
    (found, lo)
}

/// The set of hash values two sketches have in common.
pub open spec fn inter_set(a: Seq<i64>, b: Seq<i64>) -> Set<i64> {
    a.to_set().intersect(b.to_set())
}

impl LZDict {
    /// How many hash values this sketch shares with `other`, counted by a
    /// linear merge over the two ascending entry lists.
    pub fn intersection_len(&self, other: &Self) -> (r: usize)
        requires
            self.wf(),
            other.wf(),
        ensures
            r == inter_set(self@, other@).len(),
            r <= self@.len(),
            r <= other@.len(),
    {
        broadcast use vstd::seq_lib::seq_to_set_is_finite;
        broadcast use vstd::prelude::Seq::lemma_to_set_insert_commutes;

        let ghost a = self@;
        let ghost b = other@;
        let mut i: usize = 0;
        let mut j: usize = 0;
        let mut len: usize = 0;
        proof {
            assert(a.subrange(0, 0).to_set().intersect(b.subrange(0, 0).to_set())
                =~= Set::<i64>::empty());
        }
        while i < self.entries.len() && j < other.entries.len()
            invariant
                self.wf(),
                other.wf(),
                a == self@,
                b == other@,
                i <= a.len(),
                j <= b.len(),
                len <= i,
                len <= j,
                len == a.subrange(0, i as int).to_set().intersect(
                    b.subrange(0, j as int).to_set(),
                ).len(),
                j < b.len() ==> forall|k: int| 0 <= k < i ==> a[k] < b[j as int],
                i < a.len() ==> forall|k: int| 0 <= k < j ==> b[k] < a[i as int],
            decreases a.len() - i + b.len() - j,
        {
            let x = self.entries[i];
            let y = other.entries[j];
            let ghost ia = a.subrange(0, i as int).to_set();
            let ghost jb = b.subrange(0, j as int).to_set();
            let ghost i0 = i as int;
            let ghost j0 = j as int;
            if x <= y {
                i = i + 1;
                proof {
                    assert(a.subrange(0, i as int) =~= a.subrange(0, i0) + seq![x]);
                    Seq::lemma_to_set_insert_commutes(a.subrange(0, i0), x);
                }
            }
            if x >= y {
                j = j + 1;
                proof {
                    assert(b.subrange(0, j as int) =~= b.subrange(0, j0) + seq![y]);
                    Seq::lemma_to_set_insert_commutes(b.subrange(0, j0), y);
                }
            }
            proof {
                let ia1 = a.subrange(0, i as int).to_set();
                let jb1 = b.subrange(0, j as int).to_set();
                if x == y {
                    assert(ia1.intersect(jb1) =~= ia.intersect(jb).insert(x)) by {
                        assert(forall|k: int| 0 <= k < i0 ==> a[k] < x);
                        assert(forall|k: int| 0 <= k < j0 ==> b[k] < x);
                    }
                    assert(!ia.intersect(jb).contains(x)) by {
                        assert(forall|k: int| 0 <= k < i0 ==> a[k] < x);
                    }
                } else if x < y {
                    assert(ia1.intersect(jb1) =~= ia.intersect(jb)) by {
                        assert(forall|k: int| 0 <= k < j0 ==> b[k] < x);
                    }
                } else {
                    assert(ia1.intersect(jb1) =~= ia.intersect(jb)) by {
                        assert(forall|k: int| 0 <= k < i0 ==> a[k] < y);
                    }
                }
            }
            if x == y {
                len = len + 1;
            }
        }
        proof {
            let ia = a.subrange(0, i as int).to_set();
            let jb = b.subrange(0, j as int).to_set();
            if i == a.len() {
                assert(a.subrange(0, i as int) =~= a);
                assert forall|x: i64| inter_set(a, b).contains(x) implies a.to_set().intersect(
                    jb,
                ).contains(x) by {
                    let m = choose|m: int| 0 <= m < b.len() && b[m] == x;
                    let k = choose|k: int| 0 <= k < a.len() && a[k] == x;
                    if m >= j {
                        assert(j < b.len());
                        assert(a[k] < b[j as int]);
                        assert(b[j as int] <= b[m]);
                    }
                    assert(b.subrange(0, j as int)[m] == x);
                }
                assert(a.to_set().intersect(jb) =~= inter_set(a, b));
            } else {
                assert(j == b.len());
                assert(b.subrange(0, j as int) =~= b);
                assert forall|x: i64| inter_set(a, b).contains(x) implies ia.intersect(
                    b.to_set(),
                ).contains(x) by {
                    let k = choose|k: int| 0 <= k < a.len() && a[k] == x;
                    let m = choose|m: int| 0 <= m < b.len() && b[m] == x;
                    if k >= i {
                        assert(i < a.len());
                        assert(b[m] < a[i as int]);
                        assert(a[i as int] <= a[k]);
                    }
                    assert(a.subrange(0, i as int)[k] == x);
                }
                assert(ia.intersect(b.to_set()) =~= inter_set(a, b));
            }
            lemma_strictly_sorted_no_dup(a);
            lemma_strictly_sorted_no_dup(b);
            a.unique_seq_to_set();
            b.unique_seq_to_set();
            vstd::set_lib::lemma_len_intersect(a.to_set(), b.to_set());
            vstd::set_lib::lemma_len_intersect(b.to_set(), a.to_set());
            assert(b.to_set().intersect(a.to_set()) =~= inter_set(a, b));
        }
        len
    }
}

impl LZDict {
    /// Encode the entries as consecutive eight-byte little-endian chunks,
    /// in ascending order, and return the base64 text of the concatenation.
    pub fn to_string(&self) -> (r: String)
        ensures
            r@ == b64_encode_of(bytes_of_entries(self@)),
            b64_decode_of(r@) == Some(bytes_of_entries(self@)),
    {
        let mut bytes: Vec<u8> = Vec::new();
        let mut k: usize = 0;
        proof {
            assert(bytes@ =~= bytes_of_entries(self@.subrange(0, 0)));
        }
        while k < self.entries.len()
            invariant
                k <= self@.len(),
                bytes@ == bytes_of_entries(self@.subrange(0, k as int)),
            decreases self@.len() - k,
        {
            push_le_bytes(&mut bytes, self.entries[k]);
            proof {
                assert(self@.subrange(0, k + 1).drop_last() =~= self@.subrange(0, k as int));
                assert(self@.subrange(0, k + 1).last() == self@[k as int]);
            }
            k = k + 1;
        }
        proof {
            assert(self@.subrange(0, self@.len() as int) =~= self@);
        }
        b64_encode(&bytes)
    }

    /// Decode a base64 string into a sketch: the decoded buffer is split
    /// into consecutive eight-byte chunks, each decoding to one entry. The
    /// entries are taken as they come, without re-validating sortedness
    /// (the producer is trusted). Fails with a base64 error on malformed
    /// text, and with a decode error when the buffer length is not a
    /// multiple of eight.
    pub fn from_base64_string(b64: &str) -> (r: Result<LZDict, LZJDError>)
        ensures
            match r {
                Ok(d) => {
                    &&& b64_decode_of(b64@) is Some
                    &&& b64_decode_of(b64@).unwrap().len() % 8 == 0
                    &&& d@ == entries_of_bytes(b64_decode_of(b64@).unwrap())
                },
                Err(e) => match b64_decode_of(b64@) {
                    Option::None => e is Base64,
                    Option::Some(bytes) => bytes.len() % 8 != 0 && e is Decode,
                },
            },
    {
        let bytes = match b64_decode(b64) {
            Ok(bytes) => bytes,
            Err(err) => {
                return Err(LZJDError::Base64 { err });
            },
        };
        if bytes.len() % 8 != 0 {
            return Err(LZJDError::Decode);
        }
        let n = bytes.len() / 8;
        let mut entries: Vec<i64> = Vec::new();
        let mut k: usize = 0;
        proof {
            assert(entries@ =~= entries_of_bytes(bytes@.subrange(0, 0)));
        }
        while k < n
            invariant
                k <= n,
                n == bytes@.len() / 8,
                bytes@.len() % 8 == 0,
                bytes@.len() <= usize::MAX,
                entries@ == entries_of_bytes(bytes@.subrange(0, 8 * k as int)),
            decreases n - k,
        {
            let v = read_le_i64(&bytes, 8 * k);
            entries.push(v);
            proof {
                let hi = 8 * (k + 1) as int;
                assert(bytes@.subrange(0, hi).subrange(0, hi - 8) =~= bytes@.subrange(
                    0,
                    8 * k as int,
                ));
                assert(bytes@.subrange(0, hi).subrange(hi - 8, hi) =~= bytes@.subrange(
                    8 * k as int,
                    8 * k + 8,
                ));
                assert(bytes@.subrange(0, hi).len() % 8 == 0);
            }
            k = k + 1;
        }
        proof {
            assert(bytes@.subrange(0, 8 * (bytes@.len() as int / 8)) =~= bytes@);
        }
        Ok(LZDict { entries })
    }

    /// Build a sketch from arbitrary hash values by offering each in turn to
    /// the bounded sketch. When the distinct values fit the bound, the
    /// sketch holds exactly them; otherwise it holds a bounded selection.
    pub fn from_vec(values: Vec<i64>) -> (r: LZDict)
        ensures
            r.wf(),
            r@ == sketch_of_values(values@),
            r@.to_set().subset_of(values@.to_set()),
            values@.to_set().len() <= MAX_ENTRIES ==> r@.to_set() == values@.to_set(),
    {
        broadcast use vstd::seq_lib::seq_to_set_is_finite;

        let ghost vs = values@;
        let mut entries: Vec<i64> = Vec::new();
        let mut k: usize = 0;
        proof {
            assert(vs.subrange(0, 0).to_set() =~= Set::<i64>::empty());
            assert(entries@.to_set() =~= Set::<i64>::empty());
        }
        while k < values.len()
            invariant
                k <= vs.len(),
                vs == values@,
                strictly_sorted(entries@),
                entries@.len() <= MAX_ENTRIES,
                entries@ == sketch_of_values(vs.subrange(0, k as int)),
                entries@.to_set().subset_of(vs.subrange(0, k as int).to_set()),
                vs.to_set().len() <= MAX_ENTRIES ==> entries@.to_set() == vs.subrange(
                    0,
                    k as int,
                ).to_set(),
            decreases vs.len() - k,
        {
            let c = values[k];
            let ghost pre = vs.subrange(0, k as int).to_set();
            let ghost es = entries@;
            proof {
                assert(vs.subrange(0, k + 1) =~= vs.subrange(0, k as int) + seq![c]);
                assert(vs.subrange(0, k + 1).drop_last() =~= vs.subrange(0, k as int));
                assert(vs.subrange(0, k + 1).last() == c);
                Seq::lemma_to_set_insert_commutes(vs.subrange(0, k as int), c);
                assert(vs.subrange(0, k + 1).to_set().subset_of(vs.to_set())) by {
                    assert(forall|x: i64|
                        #[trigger] vs.subrange(0, k + 1).contains(x) ==> vs.contains(x));
                }
                lemma_strictly_sorted_no_dup(es);
                es.unique_seq_to_set();
                if vs.to_set().len() <= MAX_ENTRIES && !es.contains(c) && es.len() == MAX_ENTRIES {
                    vstd::set_lib::lemma_len_subset(pre.insert(c), vs.to_set());
                    assert(es.to_set().insert(c).len() == MAX_ENTRIES + 1);
                    assert(false);
                }
            }
            let _ = insert_candidate(&mut entries, c);
            proof {
                if es.contains(c) {
                    assert(es.to_set().contains(c));
                    assert(entries@.to_set() =~= es.to_set().insert(c));
                } else if es.len() < MAX_ENTRIES {
                } else if c < es.last() {
                    assert(es.to_set().contains(es.last()));
                    assert(entries@.to_set().subset_of(es.to_set().insert(c)));
                } else {
                    assert(entries@.to_set().subset_of(es.to_set().insert(c)));
                }
                assert(entries@.to_set().subset_of(pre.insert(c)));
            }
            k = k + 1;
        }
        proof {
            assert(vs.subrange(0, vs.len() as int) =~= vs);
        }
        LZDict { entries }
    }
}

/// The Jaccard similarity of two sketches as a rounded integer percentage:
/// `round(100 * |a ∩ b| / |a ∪ b|)`, computed exactly over the integers as
/// `(200*i + u) / (2*u)` (round half up). Two empty sketches score 0, the
/// convention this library fixes for the degenerate 0/0 case.
pub open spec fn sim_percent_spec(a: Seq<i64>, b: Seq<i64>) -> int {
    let i = inter_set(a, b).len() as int;
    let u = a.len() + b.len() - i;
    if u <= 0 {
        0
    } else {
        (200 * i + u) / (2 * u)
    }
}

impl LZDict {
    /// The rounded percentage similarity of two sketches, an integer in
    /// `[0, 100]`.
    pub fn similarity_percent(&self, other: &Self) -> (r: u32)
        requires
            self.wf(),
            other.wf(),
        ensures
            r == sim_percent_spec(self@, other@),
            r <= 100,
    {
        let inter = self.intersection_len(other);
        let union = self.len() + other.len() - inter;
        if union == 0 {
            0
        } else {
            proof {
                lemma_sim_percent_bounds(self@, other@);
            }
            ((200 * inter + union) / (2 * union)) as u32
        }
    }
}

/// The rounded percentage similarity always lies in `[0, 100]`.
pub proof fn lemma_sim_percent_bounds(a: Seq<i64>, b: Seq<i64>)
    ensures
        0 <= sim_percent_spec(a, b) <= 100,
{
    broadcast use vstd::seq_lib::seq_to_set_is_finite;

    let i = inter_set(a, b).len() as int;
    let u = a.len() + b.len() - i;
    vstd::set_lib::lemma_len_intersect(a.to_set(), b.to_set());
    vstd::set_lib::lemma_len_intersect(b.to_set(), a.to_set());
    assert(b.to_set().intersect(a.to_set()) =~= inter_set(a, b));
    a.lemma_cardinality_of_set();
    b.lemma_cardinality_of_set();
    if u > 0 {
        assert(i <= u);
        assert(0 <= (200 * i + u) / (2 * u) <= 100) by (nonlinear_arith)
            requires
                0 < u,
                0 <= i <= u,
        ;
    }
}

/// A non-empty sketch is maximally similar to itself: the percentage is 100,
/// so the LZ distance of a sketch to itself is zero.
pub proof fn lemma_self_similarity(d: Seq<i64>)
    requires
        strictly_sorted(d),
        d.len() > 0,
    ensures
        sim_percent_spec(d, d) == 100,
{
    broadcast use vstd::seq_lib::seq_to_set_is_finite;

    lemma_strictly_sorted_no_dup(d);
    d.unique_seq_to_set();
    assert(inter_set(d, d) =~= d.to_set());
    let n = d.len() as int;
    assert((200 * n + n) / (2 * n) == 100) by (nonlinear_arith)
        requires
            n >= 1,
    ;
}

/// Similarity is symmetric in its two sketches.
pub proof fn lemma_similarity_symmetric(a: Seq<i64>, b: Seq<i64>)
    ensures
        sim_percent_spec(a, b) == sim_percent_spec(b, a),
{
    assert(inter_set(a, b) =~= inter_set(b, a));
}

/// Sketches with no common value score 0, so their LZ distance is 1.
pub proof fn lemma_disjoint_similarity(a: Seq<i64>, b: Seq<i64>)
    requires
        inter_set(a, b) =~= Set::<i64>::empty(),
    ensures
        sim_percent_spec(a, b) == 0,
{
    let u = a.len() + b.len() as int;
    if u > 0 {
        assert(u / (2 * u) == 0) by (nonlinear_arith)
            requires
                u >= 1,
        ;
    }
}

/// Entries that ascend between neighbours ascend everywhere.
proof fn lemma_chain_lt(s: Seq<i64>, i: int, j: int)
    requires
        forall|m: int| 0 <= m && m + 1 < s.len() ==> s[m] < #[trigger] s[m + 1],
        0 <= i < j < s.len(),
    ensures
        s[i] < s[j],
    decreases j - i,
{
    assert(s[i] < s[i + 1]);
    if i + 1 < j {
        lemma_chain_lt(s, i + 1, j);
    }
}

/// Strict ascent between neighbours gives the full sketch order.
pub proof fn lemma_adjacent_implies_sorted(s: Seq<i64>)
    requires
        forall|m: int| 0 <= m && m + 1 < s.len() ==> s[m] < #[trigger] s[m + 1],
    ensures
        strictly_sorted(s),
{
    assert forall|i: int, j: int| 0 <= i < j < s.len() implies s[i] < s[j] by {
        lemma_chain_lt(s, i, j);
    }
}

/// Strictly ascending entries never repeat.
pub proof fn lemma_strictly_sorted_no_dup(s: Seq<i64>)
    requires
        strictly_sorted(s),
    ensures
        s.no_duplicates(),
{
}

/// `s` with `c` inserted at its sorted position.
pub open spec fn insert_sorted(s: Seq<i64>, c: i64) -> Seq<i64>
    decreases s.len(),
{
    if s.len() == 0 {
        seq![c]
    } else if c <= s[0] {
        seq![c] + s
    } else {
        seq![s[0]] + insert_sorted(s.drop_first(), c)
    }
}

/// What one offer to the bounded sketch yields: a value already present
/// changes nothing; a new value is inserted while there is room; once full,
/// a new value below the maximum evicts the maximum, any other is discarded.
pub open spec fn sketch_insert(s: Seq<i64>, c: i64) -> Seq<i64> {
    if s.contains(c) {
        s
    } else if s.len() < MAX_ENTRIES {
        insert_sorted(s, c)
    } else if c < s.last() {
        insert_sorted(s.drop_last(), c)
    } else {
        s
    }
}

/// The streaming builder's state after consuming `seq`, hashing with `HH`:
/// the bounded sketch so far, and the bytes accumulated in the live hasher
/// since the last phrase end. A candidate hash already in the sketch leaves
/// the phrase open; a new one closes it and is offered to the bounded
/// sketch.
pub open spec fn stream_state<HH: SketchHasher>(seq: Seq<u8>) -> (Seq<i64>, Seq<u8>)
    decreases seq.len(),
{
    if seq.len() == 0 {
        (Seq::empty(), Seq::empty())
    } else {
        let prev = stream_state::<HH>(seq.drop_last());
        let buf = prev.1.push(seq.last());
        let c = HH::hash_spec(buf) as i64;
        if prev.0.contains(c) {
            (prev.0, buf)
        } else {
            (sketch_insert(prev.0, c), Seq::empty())
        }
    }
}

/// The live hasher never holds more bytes than the stream consumed so far.
pub proof fn lemma_stream_buf_len<HH: SketchHasher>(seq: Seq<u8>)
    ensures
        stream_state::<HH>(seq).1.len() <= seq.len(),
    decreases seq.len(),
{
    if seq.len() > 0 {
        lemma_stream_buf_len::<HH>(seq.drop_last());
    }
}

/// The bounded sketch of the hashes of phrases `1 .. k` of an LZ78 phrase
/// table, hashing each phrase's byte path with `HH` and offering the values
/// to the bounded sketch in phrase order.
pub open spec fn phrase_sketch<HH: SketchHasher>(table: Seq<(usize, u8)>, k: int) -> Seq<i64>
    decreases k,
{
    if k <= 1 {
        Seq::empty()
    } else {
        sketch_insert(
            phrase_sketch::<HH>(table, k - 1),
            HH::hash_spec(path_bytes(table, k - 1)) as i64,
        )
    }
}

/// The bounded sketch that a sequence of offered values folds to, offered
/// left to right.
pub open spec fn sketch_of_values(vs: Seq<i64>) -> Seq<i64>
    decreases vs.len(),
{
    if vs.len() == 0 {
        Seq::empty()
    } else {
        sketch_insert(sketch_of_values(vs.drop_last()), vs.last())
    }
}

/// Inserting into a sorted sequence at the position found by search splits
/// it around the new value.
proof fn lemma_insert_sorted_at(s: Seq<i64>, c: i64, idx: int)
    requires
        0 <= idx <= s.len(),
        forall|k: int| 0 <= k < idx ==> s[k] < c,
        forall|k: int| idx <= k < s.len() ==> s[k] > c,
    ensures
        insert_sorted(s, c) == s.subrange(0, idx) + seq![c] + s.subrange(idx, s.len() as int),
    decreases idx,
{
    if s.len() == 0 || c <= s[0] {
        assert(idx == 0);
        if s.len() == 0 {
            assert(insert_sorted(s, c) =~= s.subrange(0, 0) + seq![c] + s.subrange(0, 0));
        } else {
            assert(insert_sorted(s, c) =~= s.subrange(0, 0) + seq![c] + s.subrange(
                0,
                s.len() as int,
            ));
        }
    } else {
        assert(idx > 0);
        lemma_insert_sorted_at(s.drop_first(), c, idx - 1);
        assert(insert_sorted(s, c) =~= s.subrange(0, idx) + seq![c] + s.subrange(
            idx,
            s.len() as int,
        )) by {
            assert(s.drop_first().subrange(0, idx - 1) =~= s.subrange(1, idx));
            assert(s.drop_first().subrange(idx - 1, s.drop_first().len() as int) =~= s.subrange(
                idx,
                s.len() as int,
            ));
        }
    }
}

/// Offer `c` to the bounded sketch: keep it if it is new and either there is
/// room or it is smaller than the current maximum, which it then evicts.
/// Returns whether `c` was new (a phrase boundary for the builders).
pub fn insert_candidate(entries: &mut Vec<i64>, c: i64) -> (is_new: bool)
    requires
        strictly_sorted(old(entries)@),
        old(entries)@.len() <= MAX_ENTRIES,
    ensures
        final(entries)@ == sketch_insert(old(entries)@, c),
        strictly_sorted(final(entries)@),
        final(entries)@.len() <= MAX_ENTRIES,
        is_new == !old(entries)@.contains(c),
        old(entries)@.contains(c) ==> final(entries)@ == old(entries)@,
        !old(entries)@.contains(c) && old(entries)@.len() < MAX_ENTRIES ==> {
            &&& final(entries)@.to_set() == old(entries)@.to_set().insert(c)
            &&& final(entries)@.len() == old(entries)@.len() + 1
        },
        !old(entries)@.contains(c) && old(entries)@.len() == MAX_ENTRIES && c
            < old(entries)@.last() ==> {
            &&& final(entries)@.to_set() == old(entries)@.to_set().remove(
                old(entries)@.last(),
            ).insert(c)
            &&& final(entries)@.len() == old(entries)@.len()
        },
        !old(entries)@.contains(c) && old(entries)@.len() == MAX_ENTRIES && c
            >= old(entries)@.last() ==> final(entries)@ == old(entries)@,
{
    let ghost s0 = entries@;
    let (found, idx) = find_slot(entries, c);
    if found {
        return false;
    }
    proof {
        assert(forall|k: int| idx <= k < s0.len() ==> s0[k] > c) by {
            assert(forall|k: int| 0 <= k < s0.len() && s0[k] == c ==> s0.contains(c));
        }
    }
    if entries.len() < MAX_ENTRIES {
        entries.insert(idx, c);
        proof {
            assert(strictly_sorted(entries@)) by {
                assert(forall|i: int, j: int|
                    0 <= i < j < entries@.len() ==> entries@[i] < entries@[j]) by {
                    assert(forall|k: int| 0 <= k < entries@.len() ==> entries@[k] == if k < idx {
                        s0[k]
                    } else if k == idx {
                        c
                    } else {
                        s0[k - 1]
                    });
                }
            }
            assert(entries@.to_set() =~= s0.to_set().insert(c)) by {
                assert(forall|x: i64| #[trigger] entries@.contains(x) <==> (s0.contains(x) || x
                    == c)) by {
                    assert(forall|k: int|
                        0 <= k < s0.len() ==> entries@[if k < idx {
                            k
                        } else {
                            k + 1
                        }] == s0[k]);
                    assert(entries@[idx as int] == c);
                }
            }
            lemma_insert_sorted_at(s0, c, idx as int);
            assert(entries@ =~= s0.subrange(0, idx as int) + seq![c] + s0.subrange(
                idx as int,
                s0.len() as int,
            ));
        }
        true
    } else if c < entries[entries.len() - 1] {
        let ghost m = s0.last();
        entries.pop();
        let ghost s1 = entries@;
        proof {
            assert(s1 == s0.drop_last());
            assert(strictly_sorted(s1));
            assert(idx < s0.len() - 1 || idx == s0.len() - 1);
            assert(idx <= s1.len()) by {
                assert(s0[s0.len() - 1] == m);
            }
        }
        entries.insert(idx, c);
        proof {
            assert(strictly_sorted(entries@)) by {
                assert(forall|k: int| 0 <= k < entries@.len() ==> entries@[k] == if k < idx {
                    s1[k]
                } else if k == idx {
                    c
                } else {
                    s1[k - 1]
                });
            }
            assert(entries@.to_set() =~= s0.to_set().remove(m).insert(c)) by {
                assert(forall|x: i64| #[trigger] s1.contains(x) <==> (s0.contains(x) && x != m))
                    by {
                    assert(forall|k: int| 0 <= k < s1.len() ==> s1[k] == s0[k] && s0[k] < m);
                    assert(forall|k: int|
                        0 <= k < s0.len() && s0[k] != m ==> k < s0.len() - 1 && s1[k] == s0[k]);
                }
                assert(forall|x: i64| #[trigger] entries@.contains(x) <==> (s1.contains(x) || x
                    == c)) by {
                    assert(forall|k: int|
                        0 <= k < s1.len() ==> entries@[if k < idx {
                            k
                        } else {
                            k + 1
                        }] == s1[k]);
                    assert(entries@[idx as int] == c);
                }
            }
            lemma_insert_sorted_at(s1, c, idx as int);
            assert(entries@ =~= s1.subrange(0, idx as int) + seq![c] + s1.subrange(
                idx as int,
                s1.len() as int,
            ));
        }
        true
    } else {
        true
    }
}

} // verus!


