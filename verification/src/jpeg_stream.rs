use vstd::prelude::*;
use std::collections::HashSet;
use crate::codec::{image_to_jpeg, jpeg_encoding, jpeg_of_image, jpeg_to_image, lemma_jpeg_encodes_the_pixels};
use crate::compression_step::CompressionStep;
use crate::error::StreamError;
use crate::raster::{image_ok, ImageView, PixelImage};
use crate::stream_strategy::Strategy;
use crate::order::{iota, is_order_of, seeded_shuffle, shuffled_order};
use crate::patch::{apply_writes, writes_in_bounds, writes_to};
use crate::restore::{range_writes, merge_steps, lemma_all_steps_restore, lemma_range_writes_agree, lemma_step_writes_disjoint, lemma_steps_cover};
use crate::schedule::{step_start, step_end, step_bounds, step_bounds_fit, schedule_is_complete, lemma_steps_start_nonneg, lemma_steps_partition};

verus! {

broadcast use vstd::std_specs::hash::group_hash_axioms;

/// The 16-bit code of the byte pair `(a, b)`: `a` is the high byte.
pub open spec fn marker_code(a: u8, b: u8) -> u16 {
    (a as int * 256 + b as int) as u16
}

/// The second byte of a marker that the stream keeps in place: SOI, SOF0, SOF2, DHT,
/// DQT, DRI, SOS, RST0-RST7, APP0-APP7, COM and EOI.
pub open spec fn is_kept_marker_byte(b: u8) -> bool {
    ||| b == 0xD8
    ||| b == 0xC0
    ||| b == 0xC2
    ||| b == 0xC4
    ||| b == 0xDB
    ||| b == 0xDD
    ||| b == 0xDA
    ||| (0xD0 <= b <= 0xD7)
    ||| (0xE0 <= b <= 0xE7)
    ||| b == 0xFE
    ||| b == 0xD9
}

/// The codes of the JPEG markers that the stream keeps in place: `0xFF` followed by a
/// byte of `is_kept_marker_byte`.
pub open spec fn jpeg_marker_codes() -> Set<u16> {
    Set::new(|c: u16| c / 256 == 0xFF && is_kept_marker_byte((c % 256) as u8))
}

/// The pair of bytes ending at position `i` (`s[i - 1]`, `s[i]`) is a marker of `markers`.
pub open spec fn marker_at(s: Seq<u8>, markers: Set<u16>, i: int) -> bool {
    1 <= i < s.len() && markers.contains(marker_code(s[i - 1], s[i]))
}

/// Position `k` is one of the two bytes of a marker of `markers`.
pub open spec fn in_marker(s: Seq<u8>, markers: Set<u16>, k: int) -> bool {
    marker_at(s, markers, k) || marker_at(s, markers, k + 1)
}

/// The index pairs `(i - 1, i)` of the markers that end before position `n`, in
/// increasing order.
pub open spec fn marker_pairs(s: Seq<u8>, markers: Set<u16>, n: int) -> Seq<(usize, usize)>
    decreases n,
{
    if n <= 1 {
        seq![]
    } else {
        let prev = marker_pairs(s, markers, n - 1);
        if marker_at(s, markers, n - 1) {
            prev.push(((n - 2) as usize, (n - 1) as usize))
        } else {
            prev
        }
    }
}

/// An SOS marker (`0xFF 0xDA`) ends at position `i`.
pub open spec fn is_sos_at(s: Seq<u8>, i: int) -> bool {
    1 <= i < s.len() && s[i - 1] == 0xFF && s[i] == 0xDA
}

/// The first position at or after `i` at which an SOS marker ends.
pub open spec fn sos_from(s: Seq<u8>, i: int) -> Option<int>
    decreases s.len() - i,
{
    if i >= s.len() {
        None
    } else if is_sos_at(s, i) {
        Some(i)
    } else {
        sos_from(s, i + 1)
    }
}

/// The position of the `0xDA` byte of the first SOS marker of `s`.
pub open spec fn first_sos(s: Seq<u8>) -> Option<int> {
    sos_from(s, 1)
}

/// The index that the stream takes for the end of the headers: the SOS marker's `0xDA`
/// byte, plus the segment length that the two bytes after it give (big-endian).
pub open spec fn entropy_index(s: Seq<u8>) -> int {
    let i = first_sos(s).unwrap();
    i + 1 + (s[i + 1] as int * 256 + s[i + 2] as int)
}

/// `s` has an SOS marker followed by its two length bytes, and the index it gives fits
/// in a `usize`.
pub open spec fn has_entropy_index(s: Seq<u8>) -> bool {
    &&& first_sos(s) is Some
    &&& first_sos(s).unwrap() + 2 < s.len()
    &&& entropy_index(s) <= usize::MAX
}

/// `sos_from` finds the first SOS marker at or after `i`, and only it.
pub proof fn lemma_sos_from(s: Seq<u8>, i: int)
    requires
        1 <= i,
    ensures
        match sos_from(s, i) {
            Some(j) => i <= j && is_sos_at(s, j) && forall|k: int| i <= k < j ==> !is_sos_at(s, k),
            None => forall|k: int| i <= k ==> !is_sos_at(s, k),
        },
    decreases s.len() - i,
{
    if i < s.len() && !is_sos_at(s, i) {
        lemma_sos_from(s, i + 1);
    }
}

/// Some pair of `pairs` has `k` as one of its two indices.
pub open spec fn pairs_cover(pairs: Seq<(usize, usize)>, k: int) -> bool {
    exists|t: int| 0 <= t < pairs.len() && ((#[trigger] pairs[t]).0 == k || pairs[t].1 == k)
}

/// Some pair of `pairs` ends at `i`.
pub open spec fn pairs_end_at(pairs: Seq<(usize, usize)>, i: int) -> bool {
    exists|t: int| 0 <= t < pairs.len() && (#[trigger] pairs[t]).1 == i
}

/// `marker_pairs` lists the pairs `(i - 1, i)` of exactly the markers that end below `n`.
pub proof fn lemma_marker_pairs(s: Seq<u8>, markers: Set<u16>, n: int)
    requires
        s.len() <= usize::MAX,
    ensures
        forall|t: int|
            0 <= t < marker_pairs(s, markers, n).len() ==> {
                let p = #[trigger] marker_pairs(s, markers, n)[t];
                &&& p.1 == p.0 + 1
                &&& p.1 < n
                &&& marker_at(s, markers, p.1 as int)
            },
        forall|i: int|
            1 <= i < n && marker_at(s, markers, i) ==> #[trigger] pairs_end_at(
                marker_pairs(s, markers, n),
                i,
            ),
    decreases n,
{
    if n > 1 {
        lemma_marker_pairs(s, markers, n - 1);
        let prev = marker_pairs(s, markers, n - 1);
        let cur = marker_pairs(s, markers, n);
        assert forall|t: int| 0 <= t < prev.len() implies cur[t] == #[trigger] prev[t] by {}
        assert forall|i: int| 1 <= i < n && marker_at(s, markers, i) implies #[trigger] pairs_end_at(cur, i) by {
            if i < n - 1 {
                assert(pairs_end_at(prev, i));
                let t = choose|t: int| 0 <= t < prev.len() && (#[trigger] prev[t]).1 == i;
                assert(cur[t] == prev[t]);
            } else {
                assert(cur[cur.len() - 1].1 == i);
            }
        }
    }
}

/// The data that a client starts from: the bytes of the headers (up to and including
/// `entropy_index`) and of every marker as in `s`, all others zero.
pub open spec fn jpeg_empty(s: Seq<u8>, markers: Set<u16>) -> Seq<u8> {
    Seq::new(
        s.len(),
        |k: int|
            if k <= entropy_index(s) || in_marker(s, markers, k) {
                s[k]
            } else {
                0
            },
    )
}

/// The writes that a step sends for the positions `order[start .. end]` of the part of
/// `data` after `entropy_index(data)`: each goes to its place in `data` and carries the
/// byte that `data` holds there.
pub open spec fn jpeg_payload(data: Seq<u8>, order: Seq<usize>, start: int, end: int) -> Seq<(usize, u8)> {
    range_writes(data, order, entropy_index(data) + 1, start, end)
}

/// `data` has its headers and at least one byte after them.
pub open spec fn jpeg_data_ok(data: Seq<u8>) -> bool {
    &&& has_entropy_index(data)
    &&& entropy_index(data) + 1 <= data.len()
    &&& data.len() <= usize::MAX
}

/// The number of bytes that the steps send: those after `entropy_index`.
pub open spec fn sent_len(data: Seq<u8>) -> int {
    data.len() - (entropy_index(data) + 1)
}

/// `cur` after the payloads of the steps `0 .. n`, in that order.
pub open spec fn jpeg_merge_steps(
    cur: Seq<u8>,
    data: Seq<u8>,
    order: Seq<usize>,
    total_steps: int,
    min_per_step: int,
    n: int,
) -> Seq<u8> {
    merge_steps(cur, data, order, entropy_index(data) + 1, sent_len(data), total_steps, min_per_step, n)
}

/// Reconstruction: a client that starts from `jpeg_empty` and merges the payloads of
/// all steps `0 .. total_steps` in order ends up with exactly the full data, for
/// any order of the sent positions, whenever the schedule leaves no gap (every step
/// sends at least the `sent_len % total_steps` bytes the division leaves over, and
/// the last step starts inside the data).
pub proof fn lemma_jpeg_all_steps_restore(
    data: Seq<u8>,
    markers: Set<u16>,
    order: Seq<usize>,
    total_steps: int,
    min_per_step: int,
)
    requires
        jpeg_data_ok(data),
        schedule_is_complete(sent_len(data), total_steps, min_per_step),
        is_order_of(order, sent_len(data) as nat),
    ensures
        jpeg_merge_steps(jpeg_empty(data, markers), data, order, total_steps, min_per_step, total_steps)
            == data,
{
    lemma_sos_from(data, 1);
    let cur = jpeg_empty(data, markers);
    let base = entropy_index(data) + 1;
    lemma_all_steps_restore(cur, data, order, base, sent_len(data), total_steps, min_per_step);
    let res = jpeg_merge_steps(cur, data, order, total_steps, min_per_step, total_steps);
    assert(res =~= data);
}

/// What the marker report says of one marker.
#[derive(Clone, Copy, Debug, PartialEq, Eq, Structural)]
pub struct MarkerReport {
    /// Index of the marker's first byte.
    pub first: usize,
    /// Index of the marker's second byte.
    pub second: usize,
    /// The marker's first byte.
    pub high: u8,
    /// The marker's second byte.
    pub low: u8,
    /// The byte after the marker, or 0 past the end.
    pub next: u8,
    /// The byte after that, or 0 past the end.
    pub next_2: u8,
    /// The number of bytes between the previous marker and this one.
    pub previous_segment_length: usize,
}

/// The byte at `i`, or 0 past the end.
pub open spec fn byte_or_zero(s: Seq<u8>, i: int) -> u8 {
    if 0 <= i < s.len() { s[i] } else { 0 }
}

/// One past the second byte of the last marker that ends before `i`, or 0.
pub open spec fn after_last_marker(s: Seq<u8>, markers: Set<u16>, i: int) -> int
    decreases i,
{
    if i <= 1 {
        0
    } else if marker_at(s, markers, i - 1) {
        i
    } else {
        after_last_marker(s, markers, i - 1)
    }
}

/// The reports on the markers that end before `n`, in increasing order.
pub open spec fn marker_reports(s: Seq<u8>, markers: Set<u16>, n: int) -> Seq<MarkerReport>
    decreases n,
{
    if n <= 1 {
        seq![]
    } else {
        let prev = marker_reports(s, markers, n - 1);
        let i = n - 1;
        if marker_at(s, markers, i) {
            prev.push(
                MarkerReport {
                    first: (i - 1) as usize,
                    second: i as usize,
                    high: s[i - 1],
                    low: s[i],
                    next: byte_or_zero(s, i + 1),
                    next_2: byte_or_zero(s, i + 2),
                    previous_segment_length: (i - 1 - after_last_marker(s, markers, i)) as usize,
                },
            )
        } else {
            prev
        }
    }
}

/// With the standard markers, a marker ends at least two bytes after the previous one
/// (every marker starts with `0xFF` and none ends with it).
proof fn lemma_markers_apart(s: Seq<u8>, i: int)
    requires
        marker_at(s, jpeg_marker_codes(), i),
    ensures
        0 <= after_last_marker(s, jpeg_marker_codes(), i) <= i - 1,
    decreases i,
{
    let m = jpeg_marker_codes();
    let a = s[i - 1];
    let b = s[i];
    assert(marker_code(a, b) / 256 == a as int);
    if i > 1 {
        assert(!marker_at(s, m, i - 1)) by {
            let c = marker_code(s[i - 2], s[i - 1]);
            assert(c % 256 == s[i - 1] as int);
        }
        lemma_after_last_marker_below(s, m, i - 1);
    }
}

proof fn lemma_after_last_marker_below(s: Seq<u8>, markers: Set<u16>, i: int)
    ensures
        0 <= after_last_marker(s, markers, i) <= if i <= 1 { 0 } else { i },
    decreases i,
{
    if i > 1 && !marker_at(s, markers, i - 1) {
        lemma_after_last_marker_below(s, markers, i - 1);
    }
}

pub struct JpegStream {
    total_number_of_steps: usize,
    markers: HashSet<u16>,
    seed: u64,
    min_num_data: usize,
}

impl JpegStream {
    /// The number of steps the data is spread over.
    pub closed spec fn spec_total_steps(&self) -> usize {
        self.total_number_of_steps
    }

    /// The seed of the shuffle that decides which bytes go in which step.
    pub closed spec fn spec_seed(&self) -> u64 {
        self.seed
    }

    /// How many bytes every step carries on top of its share.
    pub closed spec fn spec_min_num_data(&self) -> usize {
        self.min_num_data
    }

    /// The codes of the markers that stay in place.
    pub closed spec fn marker_set(&self) -> Set<u16> {
        self.markers@
    }

    /// The arguments on which `step` is defined: steps exist, `data` has its headers, and
    /// the step's range is well formed.
    pub open spec fn step_allowed(&self, data: Seq<u8>, current_step: usize) -> bool {
        let l = sent_len(data);
        let n = self.spec_total_steps() as int;
        let m = self.spec_min_num_data() as int;
        &&& n > 0
        &&& jpeg_data_ok(data)
        &&& step_bounds_fit(l, n, m, current_step as int)
        &&& step_start(l, n, m, current_step as int) <= step_end(l, n, m, current_step as int)
    }

    /// The order in which the bytes after the headers of `data` are sent.
    pub open spec fn send_order(&self, data: Seq<u8>) -> Seq<usize> {
        seeded_shuffle(iota(sent_len(data) as nat), self.spec_seed())
    }

    /// What step `current_step` sends for `data`.
    pub open spec fn step_payload(&self, data: Seq<u8>, current_step: usize) -> Seq<(usize, u8)> {
        let l = sent_len(data);
        let n = self.spec_total_steps() as int;
        let m = self.spec_min_num_data() as int;
        jpeg_payload(
            data,
            self.send_order(data),
            step_start(l, n, m, current_step as int),
            step_end(l, n, m, current_step as int),
        )
    }

    pub fn new(seed: u64, total_number_of_steps: usize, min_num_data: usize) -> (r: Self)
        ensures
            r.spec_seed() == seed,
            r.spec_total_steps() == total_number_of_steps,
            r.spec_min_num_data() == min_num_data,
            r.marker_set() == jpeg_marker_codes(),
    {
        let markers = Self::init_markers();
        JpegStream { seed, total_number_of_steps, markers, min_num_data }
    }

    /// The set of the codes of the markers that stay in place.
    pub fn init_markers() -> (r: HashSet<u16>)
        ensures
            r@ == jpeg_marker_codes(),
    {
        let mut markers: HashSet<u16> = HashSet::new();
        markers.insert(pair_code(0xFF, 0xD8));
        markers.insert(pair_code(0xFF, 0xC0));
        markers.insert(pair_code(0xFF, 0xC2));
        markers.insert(pair_code(0xFF, 0xC4));
        markers.insert(pair_code(0xFF, 0xDB));
        markers.insert(pair_code(0xFF, 0xDD));
        markers.insert(pair_code(0xFF, 0xDA));
        let ghost base = markers@;
        let mut i: u8 = 0xD0;
        while i < 0xD8
            invariant
                0xD0 <= i <= 0xD8,
                markers@ == base.union(Set::new(|c: u16| 0xFFD0 <= c < 0xFF00 + i)),
            decreases 0xD8 - i,
        {
            markers.insert(pair_code(0xFF, i));
            i = i + 1;
            assert(markers@ =~= base.union(Set::new(|c: u16| 0xFFD0 <= c < 0xFF00 + i)));
        }
        let ghost base = markers@;
        let mut i: u8 = 0xE0;
        while i < 0xE8
            invariant
                0xE0 <= i <= 0xE8,
                markers@ == base.union(Set::new(|c: u16| 0xFFE0 <= c < 0xFF00 + i)),
            decreases 0xE8 - i,
        {
            markers.insert(pair_code(0xFF, i));
            i = i + 1;
            assert(markers@ =~= base.union(Set::new(|c: u16| 0xFFE0 <= c < 0xFF00 + i)));
        }
        markers.insert(pair_code(0xFF, 0xFE));
        markers.insert(pair_code(0xFF, 0xD9));
        assert(markers@ =~= jpeg_marker_codes());
        markers
    }

    /// The first SOS marker of `byte_stream`, as the indices of its two bytes.
    pub fn find_sos_marker_index(byte_stream: &[u8]) -> (r: Option<(usize, usize)>)
        ensures
            r == match first_sos(byte_stream@) {
                Some(i) => Some(((i - 1) as usize, i as usize)),
                None => None::<(usize, usize)>,
            },
            match r {
                Some((a, b)) => b == a + 1 && is_sos_at(byte_stream@, b as int) && forall|k: int|
                    1 <= k < b ==> !is_sos_at(byte_stream@, k),
                None => forall|k: int| !is_sos_at(byte_stream@, k),
            },
    {
        let mut idx: usize = 1;
        while idx < byte_stream.len()
            invariant
                1 <= idx,
                sos_from(byte_stream@, 1) == sos_from(byte_stream@, idx as int),
            decreases byte_stream.len() - idx,
        {
            if byte_stream[idx - 1] == 0xFF && byte_stream[idx] == 0xDA {
                proof {
                    lemma_sos_from(byte_stream@, 1);
                }
                return Some((idx - 1, idx));
            }
            idx = idx + 1;
        }
        proof {
            lemma_sos_from(byte_stream@, 1);
        }
        None
    }

    /// The index that ends the headers: the SOS marker plus the length of its segment.
    pub fn get_index_until_entropy(byte_stream: &[u8]) -> (r: Option<usize>)
        requires
            has_entropy_index(byte_stream@),
        ensures
            r == Some(entropy_index(byte_stream@) as usize),
    {
        proof {
            lemma_sos_from(byte_stream@, 1);
        }
        let found = Self::find_sos_marker_index(byte_stream);
        let sos_idx = found.unwrap();
        let sos_marker_end = sos_idx.1 + 1;
        let hi = byte_stream[sos_marker_end];
        let lo = byte_stream[sos_marker_end + 1];
        assert(((hi as usize) << 8usize) | (lo as usize) == hi as usize * 256 + lo as usize)
            by (bit_vector);
        let sos_len = ((hi as usize) << 8) | lo as usize;
        Some(sos_marker_end + sos_len)
    }

    /// Whether `byte_stream` has its headers (an SOS marker with its two length bytes)
    /// and the index that ends them lies inside it, as `generate_empty` needs.
    pub fn has_headers(byte_stream: &[u8]) -> (r: bool)
        ensures
            r == (has_entropy_index(byte_stream@) && entropy_index(byte_stream@) + 1 <= byte_stream@.len()),
    {
        proof {
            lemma_sos_from(byte_stream@, 1);
        }
        match Self::find_sos_marker_index(byte_stream) {
            None => false,
            Some((_, i)) => {
                if byte_stream.len() - i <= 2 {
                    return false;
                }
                let hi = byte_stream[i + 1];
                let lo = byte_stream[i + 2];
                let segment: usize = (hi as usize) * 256 + (lo as usize);
                match (i + 1).checked_add(segment) {
                    None => false,
                    Some(end) => end < byte_stream.len(),
                }
            },
        }
    }

    /// Whether `step` is defined for `data` and `current_step`.
    pub fn can_step(&self, data: &Vec<u8>, current_step: usize) -> (r: bool)
        ensures
            r == self.step_allowed(data@, current_step),
    {
        if self.total_number_of_steps == 0 || !Self::has_headers(data.as_slice()) {
            return false;
        }
        proof {
            lemma_sos_from(data@, 1);
        }
        let until_entropy = Self::get_index_until_entropy(data.as_slice()).unwrap();
        let send_len = data.len() - (until_entropy + 1);
        let per = send_len / self.total_number_of_steps;
        let next = match current_step.checked_add(1) {
            None => return false,
            Some(v) => v,
        };
        let want = match per.checked_mul(next) {
            None => return false,
            Some(v) => v,
        };
        if want.checked_add(self.min_num_data).is_none() {
            return false;
        }
        let bounds = step_bounds(send_len, self.total_number_of_steps, self.min_num_data, current_step);
        bounds.0 <= bounds.1
    }

    /// The bytes of step `current_step` when the part after the headers is sent in
    /// `order`: the positions `order[start .. end]`, each with the byte `data` holds
    /// there.
    pub fn step_for_order(&self, data: &Vec<u8>, order: &Vec<usize>, current_step: usize) -> (r: CompressionStep<Vec<(usize, u8)>>)
        requires
            self.step_allowed(data@, current_step),
            order.len() == sent_len(data@),
            forall|i: int| 0 <= i < order.len() ==> #[trigger] order@[i] < sent_len(data@),
        ensures
            r.data@ == jpeg_payload(
                data@,
                order@,
                step_start(sent_len(data@), self.spec_total_steps() as int, self.spec_min_num_data() as int, current_step as int),
                step_end(sent_len(data@), self.spec_total_steps() as int, self.spec_min_num_data() as int, current_step as int),
            ),
    {
        proof {
            lemma_sos_from(data@, 1);
        }
        let until_entropy = Self::get_index_until_entropy(data.as_slice()).unwrap();
        let base = until_entropy + 1;
        let send_len = data.len() - base;
        let bounds = step_bounds(send_len, self.total_number_of_steps, self.min_num_data, current_step);
        let start_idx = bounds.0;
        let end_idx = bounds.1;
        proof {
            lemma_steps_start_nonneg(send_len as int, self.total_number_of_steps as int, self.min_num_data as int, current_step as int);
        }
        let ghost want = jpeg_payload(data@, order@, start_idx as int, end_idx as int);
        let mut new_data: Vec<(usize, u8)> = Vec::new();
        let mut k: usize = start_idx;
        while k < end_idx
            invariant
                start_idx <= k <= end_idx <= send_len,
                base + send_len == data.len(),
                base == entropy_index(data@) + 1,
                order.len() == send_len,
                forall|i: int| 0 <= i < order.len() ==> #[trigger] order@[i] < send_len,
                want == jpeg_payload(data@, order@, start_idx as int, end_idx as int),
                new_data@ == want.take(k - start_idx),
            decreases end_idx - k,
        {
            let idx = order[k];
            assert(idx < send_len);
            let item = (idx + base, data[idx + base]);
            new_data.push(item);
            k = k + 1;
            assert(new_data@ =~= want.take(k - start_idx));
        }
        assert(new_data@ =~= want);
        CompressionStep { data: new_data }
    }

    /// For each marker of `byte_stream`, in increasing order: its indices and bytes, the
    /// two bytes after it, and the length of the segment since the previous marker.
    pub fn marker_report(&self, byte_stream: &[u8]) -> (r: Vec<MarkerReport>)
        requires
            self.marker_set() == jpeg_marker_codes(),
        ensures
            r@ == marker_reports(byte_stream@, self.marker_set(), byte_stream.len() as int),
    {
        let mut reports: Vec<MarkerReport> = Vec::new();
        if byte_stream.len() == 0 {
            return reports;
        }
        let mut segment_length: usize = 0;
        let mut previous_segment_idx: usize = 0;
        let mut i: usize = 1;
        while i < byte_stream.len()
            invariant
                1 <= i <= byte_stream.len(),
                self.marker_set() == jpeg_marker_codes(),
                segment_length == i - 1,
                previous_segment_idx == after_last_marker(byte_stream@, self.marker_set(), i as int),
                reports@ == marker_reports(byte_stream@, self.marker_set(), i as int),
            decreases byte_stream.len() - i,
        {
            let high = byte_stream[i - 1];
            let low = byte_stream[i];
            let contains = self.markers.contains(&pair_code(high, low));
            if contains {
                let next: u8 = if byte_stream.len() - i > 1 { byte_stream[i + 1] } else { 0 };
                let next_2: u8 = if byte_stream.len() - i > 2 { byte_stream[i + 2] } else { 0 };
                proof {
                    lemma_markers_apart(byte_stream@, i as int);
                }
                reports.push(MarkerReport {
                    first: i - 1,
                    second: i,
                    high,
                    low,
                    next,
                    next_2,
                    previous_segment_length: segment_length - previous_segment_idx,
                });
                previous_segment_idx = i + 1;
            }
            segment_length = segment_length + 1;
            i = i + 1;
        }
        reports
    }

    /// The index pairs of the markers of `byte_stream`, in increasing order.
    pub fn list_marker_idxs(&self, byte_stream: &[u8]) -> (r: Vec<(usize, usize)>)
        ensures
            r@ == marker_pairs(byte_stream@, self.marker_set(), byte_stream.len() as int),
    {
        let mut idxs: Vec<(usize, usize)> = Vec::new();
        let mut i: usize = 1;
        if byte_stream.len() == 0 {
            return idxs;
        }
        while i < byte_stream.len()
            invariant
                1 <= i <= byte_stream.len(),
                idxs@ == marker_pairs(byte_stream@, self.marker_set(), i as int),
            decreases byte_stream.len() - i,
        {
            let contains = self.markers.contains(&pair_code(byte_stream[i - 1], byte_stream[i]));
            if contains {
                idxs.push((i - 1, i));
            }
            i = i + 1;
        }
        idxs
    }
}

impl Strategy<Vec<(usize, u8)>, Vec<u8>> for JpegStream {
    open spec fn total_steps_spec(&self) -> usize {
        self.spec_total_steps()
    }

    open spec fn step_ok(&self, data: Seq<u8>, current_step: usize) -> bool {
        self.step_allowed(data, current_step)
    }

    open spec fn step_spec(&self, data: Seq<u8>, current_step: usize) -> Seq<(usize, u8)> {
        self.step_payload(data, current_step)
    }

    open spec fn merge_ok(&self, current: Seq<u8>, step: Seq<(usize, u8)>) -> bool {
        writes_in_bounds(step, current.len())
    }

    open spec fn merge_spec(&self, current: Seq<u8>, step: Seq<(usize, u8)>) -> Seq<u8> {
        apply_writes(current, step)
    }

    open spec fn data_of(&self, image: ImageView) -> Option<Seq<u8>> {
        jpeg_of_image(image)
    }

    /// Any well-formed image: which one the JPEG decoder gives for `data` is not stated
    /// (it picks vector or scalar paths by the machine).
    open spec fn shows(&self, data: Seq<u8>, image: ImageView) -> bool {
        image_ok(image)
    }

    open spec fn empty_ok(&self, source: Seq<u8>) -> bool {
        has_entropy_index(source) && entropy_index(source) + 1 <= source.len()
    }

    open spec fn empty_spec(&self, source: Seq<u8>) -> Seq<u8> {
        jpeg_empty(source, self.marker_set())
    }

    /// The bytes of step `current_step`: the positions `order[start .. end]` of the part
    /// after the headers, in the order a shuffle seeded with the stream's seed gives,
    /// each with the byte `data` holds there.
    fn step(&self, data: &Vec<u8>, current_step: usize) -> (r: CompressionStep<Vec<(usize, u8)>>)
        ensures
            is_order_of(self.send_order(data@), sent_len(data@) as nat),
    {
        proof {
            lemma_sos_from(data@, 1);
        }
        let until_entropy = Self::get_index_until_entropy(data.as_slice()).unwrap();
        let send_len = data.len() - (until_entropy + 1);
        let data_idxs = shuffled_order(send_len, self.seed);
        self.step_for_order(data, &data_idxs, current_step)
    }

    /// Writes the bytes of a step into the client's data.
    fn merge(&self, current_data: &mut Vec<u8>, compression_step: &CompressionStep<Vec<(usize, u8)>>) {
        let writes = &compression_step.data;
        let mut t: usize = 0;
        while t < writes.len()
            invariant
                t <= writes.len(),
                writes_in_bounds(writes@, old(current_data)@.len()),
                current_data@ == apply_writes(old(current_data)@, writes@.take(t as int)),
                current_data@.len() == old(current_data)@.len(),
            decreases writes.len() - t,
        {
            let (idx, byte) = writes[t];
            assert(writes@[t as int] == (idx, byte));
            current_data.set(idx, byte);
            t = t + 1;
            assert(writes@.take(t as int).drop_last() =~= writes@.take(t - 1));
        }
        assert(writes@.take(t as int) =~= writes@);
    }

    fn get_total_number_of_steps(&self) -> (r: usize) {
        self.total_number_of_steps
    }

    /// The data that a client starts from: the headers and the markers of
    /// `original_data`, zeros elsewhere.
    fn generate_empty(&self, original_data: &Vec<u8>) -> (r: Vec<u8>) {
        proof {
            lemma_sos_from(original_data@, 1);
        }
        let len = original_data.len();
        let mut empty: Vec<u8> = vec![0; len];
        let marker_idxs = self.list_marker_idxs(original_data.as_slice());
        let until_entropy = Self::get_index_until_entropy(original_data.as_slice()).unwrap();
        let ghost orig = original_data@;
        let ghost markers = self.marker_set();
        let mut i: usize = 0;
        while i < until_entropy + 1
            invariant
                i <= until_entropy + 1 <= len,
                orig == original_data@,
                len == orig.len(),
                empty@.len() == len,
                forall|k: int| 0 <= k < len ==> #[trigger] empty@[k] == if k < i { orig[k] } else { 0 },
            decreases until_entropy + 1 - i,
        {
            empty.set(i, original_data[i]);
            i = i + 1;
        }
        proof {
            lemma_marker_pairs(orig, markers, len as int);
        }
        let mut t: usize = 0;
        while t < marker_idxs.len()
            invariant
                t <= marker_idxs.len(),
                orig == original_data@,
                len == orig.len(),
                until_entropy == entropy_index(orig),
                marker_idxs@ == marker_pairs(orig, markers, len as int),
                forall|q: int|
                    0 <= q < marker_idxs@.len() ==> {
                        let p = #[trigger] marker_idxs@[q];
                        &&& p.1 == p.0 + 1
                        &&& p.1 < len
                    },
                empty@.len() == len,
                forall|k: int|
                    0 <= k < len ==> #[trigger] empty@[k] == if k <= until_entropy || pairs_cover(
                        marker_idxs@.take(t as int),
                        k,
                    ) {
                        orig[k]
                    } else {
                        0
                    },
            decreases marker_idxs.len() - t,
        {
            let idx = marker_idxs[t];
            assert(marker_idxs@[t as int] == idx);
            empty.set(idx.0, original_data[idx.0]);
            empty.set(idx.1, original_data[idx.1]);
            let ghost before = marker_idxs@.take(t as int);
            t = t + 1;
            let ghost after = marker_idxs@.take(t as int);
            assert forall|k: int| 0 <= k < len implies pairs_cover(after, k) == (pairs_cover(before, k)
                || k == idx.0 || k == idx.1) by {
                if pairs_cover(before, k) {
                    let q = choose|q: int| 0 <= q < before.len() && ((#[trigger] before[q]).0 == k || before[q].1 == k);
                    assert(after[q] == before[q]);
                }
                if k == idx.0 || k == idx.1 {
                    assert(after[t - 1] == idx);
                }
                if pairs_cover(after, k) {
                    let q = choose|q: int| 0 <= q < after.len() && ((#[trigger] after[q]).0 == k || after[q].1 == k);
                    if q < t - 1 {
                        assert(after[q] == before[q]);
                    }
                }
            }
        }
        assert(marker_idxs@.take(t as int) == marker_idxs@);
        assert forall|k: int| 0 <= k < len implies pairs_cover(marker_idxs@, k) == in_marker(orig, markers, k) by {
            let pairs = marker_idxs@;
            if pairs_cover(pairs, k) {
                let q = choose|q: int| 0 <= q < pairs.len() && ((#[trigger] pairs[q]).0 == k || pairs[q].1 == k);
                assert(marker_at(orig, markers, pairs[q].1 as int));
            }
            if marker_at(orig, markers, k) {
                assert(pairs_end_at(pairs, k));
                let q = choose|q: int| 0 <= q < pairs.len() && (#[trigger] pairs[q]).1 == k;
                assert(pairs[q].1 == k);
            }
            if marker_at(orig, markers, k + 1) {
                assert(pairs_end_at(pairs, k + 1));
                let q = choose|q: int| 0 <= q < pairs.len() && (#[trigger] pairs[q]).1 == k + 1;
                assert(pairs[q].0 == k);
            }
        }
        assert(empty@ =~= jpeg_empty(orig, markers));
        empty
    }

    /// The image as JPEG bytes.
    fn to_data(&self, image: &PixelImage) -> (r: Result<Vec<u8>, StreamError>) {
        image_to_jpeg(image)
    }

    /// The image that JPEG bytes show.
    fn to_image(&self, data: &Vec<u8>) -> (r: Result<PixelImage, StreamError>) {
        jpeg_to_image(data.as_slice())
    }
}

/// Different steps send different bytes: for steps `k1 < k2` that `step` accepts, no
/// position occurs in both payloads (the order is the one `step` ensures to be an
/// order of the sent positions).
pub proof fn lemma_jpeg_steps_disjoint(stream: JpegStream, data: Seq<u8>, k1: usize, k2: usize)
    requires
        stream.step_allowed(data, k1),
        stream.step_allowed(data, k2),
        k1 < k2,
        is_order_of(stream.send_order(data), sent_len(data) as nat),
    ensures
        forall|i: int, j: int|
            0 <= i < stream.step_payload(data, k1).len() && 0 <= j < stream.step_payload(data, k2).len()
                ==> (#[trigger] stream.step_payload(data, k1)[i]).0
                != (#[trigger] stream.step_payload(data, k2)[j]).0,
{
    lemma_sos_from(data, 1);
    lemma_step_writes_disjoint(
        data,
        stream.send_order(data),
        entropy_index(data) + 1,
        sent_len(data),
        stream.spec_total_steps() as int,
        stream.spec_min_num_data() as int,
        k1 as int,
        k2 as int,
    );
}

/// Coverage: when the schedule leaves no gap, every byte after the headers is sent by
/// one of the steps `0 .. total_steps` (this returns it; by `lemma_jpeg_steps_disjoint`
/// no other step sends it), and every step sends only bytes after the headers.
pub proof fn lemma_jpeg_steps_cover(stream: JpegStream, data: Seq<u8>, k: int) -> (s: usize)
    requires
        jpeg_data_ok(data),
        schedule_is_complete(
            sent_len(data),
            stream.spec_total_steps() as int,
            stream.spec_min_num_data() as int,
        ),
        is_order_of(stream.send_order(data), sent_len(data) as nat),
        entropy_index(data) < k < data.len(),
    ensures
        s < stream.spec_total_steps(),
        writes_to(stream.step_payload(data, s), k),
        forall|t: usize, i: int|
            t < stream.spec_total_steps() && 0 <= i < stream.step_payload(data, t).len()
                ==> entropy_index(data) < (#[trigger] stream.step_payload(data, t)[i]).0 < data.len(),
{
    lemma_sos_from(data, 1);
    let l = sent_len(data);
    let n = stream.spec_total_steps() as int;
    let m = stream.spec_min_num_data() as int;
    let order = stream.send_order(data);
    let base = entropy_index(data) + 1;
    let s = lemma_steps_cover(data, order, base, l, n, m, k);
    lemma_steps_partition(l, n, m);
    assert forall|t: usize, i: int|
        t < stream.spec_total_steps() && 0 <= i < stream.step_payload(data, t).len() implies entropy_index(data)
        < (#[trigger] stream.step_payload(data, t)[i]).0 < data.len() by {
        let st = step_start(l, n, m, t as int);
        let en = step_end(l, n, m, t as int);
        lemma_steps_start_nonneg(l, n, m, t as int);
        lemma_range_writes_agree(data, order, base, l, st, en);
        assert(order[st + i] < l);
    }
    s as usize
}

/// Two streams made with the same arguments send the same bytes, in the same order, for
/// every step of every data.
pub proof fn lemma_jpeg_step_deterministic(s1: JpegStream, s2: JpegStream, data: Seq<u8>, current_step: usize)
    requires
        s1.spec_seed() == s2.spec_seed(),
        s1.spec_total_steps() == s2.spec_total_steps(),
        s1.spec_min_num_data() == s2.spec_min_num_data(),
    ensures
        s1.step_payload(data, current_step) == s2.step_payload(data, current_step),
{
}

/// The data a client starts from keeps, in place, every byte of the headers and both
/// bytes of every pair `(s[i - 1], s[i])` whose code is one of the stream's markers, and
/// is zero at every other position; it has the length of the full data.
pub proof fn lemma_empty_keeps_headers_and_markers(stream: JpegStream, s: Seq<u8>)
    ensures
        stream.empty_spec(s).len() == s.len(),
        forall|k: int|
            0 <= k < s.len() ==> #[trigger] stream.empty_spec(s)[k] == if k <= entropy_index(s) || (1 <= k
                && stream.marker_set().contains(((s[k - 1] as int) * 256 + s[k] as int) as u16)) || (k + 1
                < s.len() && stream.marker_set().contains(((s[k] as int) * 256 + s[k + 1] as int) as u16)) {
                s[k]
            } else {
                0u8
            },
{
}

/// A step sends the bytes after the headers in the order of a shuffle seeded with the
/// seed the stream was made with: step `current_step` carries, for each position
/// `start <= j < end` of its range, the position `entropy_index + 1 + order[j]` and the
/// byte there, where `order` is the seeded shuffle of `0 .. sent_len`.
pub proof fn lemma_step_follows_the_seed(stream: JpegStream, data: Seq<u8>, current_step: usize)
    requires
        stream.step_allowed(data, current_step),
    ensures
        ({
            let order = seeded_shuffle(iota(sent_len(data) as nat), stream.spec_seed());
            let l = sent_len(data);
            let st = step_start(l, stream.spec_total_steps() as int, stream.spec_min_num_data() as int, current_step as int);
            let en = step_end(l, stream.spec_total_steps() as int, stream.spec_min_num_data() as int, current_step as int);
            let base = entropy_index(data) + 1;
            &&& stream.step_payload(data, current_step).len() == en - st
            &&& forall|j: int|
                0 <= j < en - st ==> #[trigger] stream.step_payload(data, current_step)[j] == (
                    (base + order[st + j]) as usize,
                    data[base + order[st + j]],
                )
        }),
{
}

/// The data of an image is the JPEG encoder's output on the image's size and its own
/// pixels, laid out as RGBA bytes (red, green, blue, alpha of pixel `i` at `4i .. 4i + 4`).
pub proof fn lemma_data_encodes_the_pixels(stream: JpegStream, image: ImageView, rgba: Seq<u8>)
    requires
        rgba.len() == 4 * image.2.len(),
        forall|i: int|
            0 <= i < image.2.len() ==> rgba[4 * i] == (#[trigger] image.2[i]).r && rgba[4 * i + 1]
                == image.2[i].g && rgba[4 * i + 2] == image.2[i].b && rgba[4 * i + 3] == image.2[i].a,
    ensures
        stream.data_of(image) == jpeg_encoding(image.0, image.1, rgba),
{
    lemma_jpeg_encodes_the_pixels(image, rgba, image);
}

/// The 16-bit code of the byte pair `(a, b)`.
pub fn pair_code(a: u8, b: u8) -> (r: u16)
    ensures
        r == marker_code(a, b),
{
    (a as u16) * 256 + (b as u16)
}

} // verus!
