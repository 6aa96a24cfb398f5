//! Segments of a file: how a file is cut, how a segment is split while it is
//! being fetched, and how progress is estimated from a partial file.
use vstd::arithmetic::div_mod;
use vstd::prelude::*;

verus! {

/// One segment of a file: the bytes from `start` to `end`, both included, of
/// which the first `downloaded` have been written.
#[derive(Clone, Copy, Debug, PartialEq, Eq, Structural)]
pub struct Segment {
    pub index: u32,
    pub start: u64,
    pub end: u64,
    pub downloaded: u64,
}

impl Segment {
    /// The bounds are in order and the length fits in 64 bits.
    pub open spec fn wf(self) -> bool {
        self.start <= self.end && self.end - self.start < u64::MAX
    }

    /// The number of bytes in the segment.
    pub open spec fn size(self) -> int {
        self.end - self.start + 1
    }

    /// Whether the segment holds the byte at `offset`.
    pub open spec fn contains(self, offset: int) -> bool {
        self.start <= offset <= self.end
    }

    /// Whether the byte at `offset` lies in the part already written.
    pub open spec fn has_written(self, offset: int) -> bool {
        self.contains(offset) && offset < self.start + self.downloaded
    }

    /// Whether every byte of the segment has been written.
    pub open spec fn is_finished(self) -> bool {
        self.downloaded >= self.size()
    }

    /// The bytes still to come.
    pub open spec fn missing(self) -> int {
        if self.downloaded >= self.size() {
            0
        } else {
            self.size() - self.downloaded
        }
    }

    /// The segment with its progress read off a partial file of `part_size` bytes.
    pub open spec fn aligned(self, part_size: u64) -> Segment {
        Segment {
            downloaded: if part_size <= self.start {
                0
            } else if part_size - self.start >= self.size() {
                self.size() as u64
            } else {
                (part_size - self.start) as u64
            },
            ..self
        }
    }

    /// The segment after a piece of `n` bytes has been written, or nothing where the piece
    /// holds more than is missing.
    pub open spec fn with_piece(self, n: u64) -> Option<Segment> {
        if n <= self.missing() {
            Some(Segment { downloaded: (self.downloaded + n) as u64, ..self })
        } else {
            None
        }
    }

    /// The segment after pieces of these sizes, or nothing where one holds more than is
    /// missing.
    pub open spec fn with_pieces(self, pieces: Seq<u64>) -> Option<Segment>
        decreases pieces.len(),
    {
        if pieces.len() == 0 {
            Some(self)
        } else {
            match self.with_pieces(pieces.drop_last()) {
                Some(g) => g.with_piece(pieces.last()),
                None => None,
            }
        }
    }

    /// The segment with nothing counted as written.
    pub open spec fn rewound(self) -> Segment {
        Segment { downloaded: 0, ..self }
    }

    /// The lower half of the segment, which keeps the index.
    pub open spec fn lower_half(self) -> Segment {
        let half = self.size() / 2;
        Segment {
            index: self.index,
            start: self.start,
            end: (self.start + half - 1) as u64,
            downloaded: if self.downloaded < half {
                self.downloaded
            } else {
                half as u64
            },
        }
    }

    /// The upper half of the segment, under the index `next_index`.
    pub open spec fn upper_half(self, next_index: u32) -> Segment {
        let half = self.size() / 2;
        Segment {
            index: next_index,
            start: (self.start + half) as u64,
            end: self.end,
            downloaded: if self.downloaded < half {
                0
            } else {
                (self.downloaded - half) as u64
            },
        }
    }

    /// A segment of which nothing has been written.
    pub fn new(index: u32, start: u64, end: u64) -> (s: Self)
        ensures
            s == (Segment { index, start, end, downloaded: 0 }),
    {
        Segment { index, start, end, downloaded: 0 }
    }

    /// The number of bytes in the segment.
    pub fn len(&self) -> (n: u64)
        requires
            self.wf(),
        ensures
            n == self.size(),
    {
        self.end - self.start + 1
    }

    /// Whether every byte of the segment has been written.
    pub fn finished(&self) -> (b: bool)
        requires
            self.wf(),
        ensures
            b == self.is_finished(),
    {
        self.downloaded >= self.len()
    }

    /// The number of bytes still to come.
    pub fn remaining(&self) -> (n: u64)
        requires
            self.wf(),
        ensures
            n == self.missing(),
    {
        self.len().saturating_sub(self.downloaded)
    }

    /// Reads the progress off the first `part_size` bytes of a partial file: what lies
    /// below that size counts as written.
    pub fn align_to_part(&mut self, part_size: u64)
        requires
            old(self).wf(),
        ensures
            *final(self) == old(self).aligned(part_size),
    {
        let ahead: u64 = part_size.saturating_sub(self.start);
        let len: u64 = self.len();
        self.downloaded = if ahead < len {
            ahead
        } else {
            len
        };
    }

    /// Counts `n` more bytes as written. The counter is one of 64 bits and wraps.
    pub fn record(&mut self, n: u64)
        ensures
            *final(self) == (Segment {
                downloaded: old(self).downloaded.wrapping_add(n),
                ..*old(self)
            }),
    {
        self.downloaded = self.downloaded.wrapping_add(n);
    }

    /// Whether a piece of `n` bytes belongs to the segment as a whole, so that nothing of
    /// it would be written behind the end.
    pub fn fits(&self, n: u64) -> (b: bool)
        requires
            self.wf(),
        ensures
            b == (self.with_piece(n) is Some),
            b ==> forall|o: int|
                self.start + self.downloaded <= o < self.start + self.downloaded + n
                    ==> #[trigger] self.contains(o),
    {
        n <= self.remaining()
    }

    /// Forgets what has been written, so that all of it is fetched again.
    pub fn rewind(&mut self)
        ensures
            *final(self) == old(self).rewound(),
    {
        self.downloaded = 0;
    }

    /// How far what has been written reaches: one past the last byte of it, or zero.
    pub fn reach(&self) -> (n: u64)
        requires
            self.wf(),
            self.end < u64::MAX,
        ensures
            n <= self.end + 1,
            forall|o: int| #[trigger] self.has_written(o) ==> o < n,
            n > 0 ==> self.has_written(n - 1),
    {
        if self.downloaded == 0 {
            0
        } else if self.finished() {
            self.end + 1
        } else {
            self.start + self.downloaded
        }
    }

    /// Cuts the segment in the middle. The lower half keeps the index; what was
    /// written goes to the lower half first and overflows into the upper one.
    pub fn split(&self, next_index: u32) -> (r: (Segment, Segment))
        requires
            self.wf(),
            self.size() >= 2,
        ensures
            r.0 == self.lower_half(),
            r.1 == self.upper_half(next_index),
    {
        let half: u64 = self.len() / 2;
        let dl: u64 = self.downloaded;
        let a = Segment {
            index: self.index,
            start: self.start,
            end: self.start + half - 1,
            downloaded: if dl < half {
                dl
            } else {
                half
            },
        };
        let b = Segment {
            index: next_index,
            start: self.start + half,
            end: self.end,
            downloaded: dl.saturating_sub(half),
        };
        (a, b)
    }
}

/// A segment is the bytes from its start to its end, and the first `downloaded` of them have
/// been written: it is finished exactly when each of its bytes has been, and else as many are
/// missing as have not been.
pub proof fn law_what_a_segment_holds(s: Segment, offset: int)
    requires
        s.wf(),
    ensures
        s.contains(offset) <==> s.start <= offset && offset <= s.end,
        s.has_written(offset) <==> s.start <= offset && offset <= s.end && offset - s.start
            < s.downloaded,
        s.size() == s.end - s.start + 1,
        s.is_finished() <==> (forall|o: int| s.start <= o <= s.end ==> #[trigger] s.has_written(o)),
        s.is_finished() <==> s.missing() == 0,
        s.missing() >= 0,
        s.downloaded <= s.end - s.start + 1 ==> s.missing() + s.downloaded == s.end - s.start + 1,
{
    if !s.is_finished() {
        assert(!s.has_written(s.end as int));
    }
}

/// Splitting cuts in the middle: neither half is longer than the other by more than a byte.
/// The lower half keeps the index, the upper one gets the new one.
pub proof fn law_halves_are_even(s: Segment, next_index: u32)
    requires
        s.wf(),
        s.size() >= 2,
    ensures
        ({
            let a = s.lower_half();
            let b = s.upper_half(next_index);
            &&& a.index == s.index
            &&& b.index == next_index
            &&& a.start == s.start
            &&& a.end + 1 == b.start
            &&& b.end == s.end
            &&& a.end - a.start <= b.end - b.start <= a.end - a.start + 1
            &&& a.downloaded <= a.end - a.start + 1
            &&& a.downloaded + b.downloaded == s.downloaded
            &&& b.downloaded > 0 ==> a.downloaded == a.end - a.start + 1
        }),
{
}

/// Splitting loses nothing: the halves are adjacent, tile the segment, hold
/// between them exactly what was written, and are both finished just when the
/// segment was.
pub proof fn law_split_preserves(s: Segment, next_index: u32)
    requires
        s.wf(),
        s.size() >= 2,
    ensures
        s.lower_half().wf(),
        s.upper_half(next_index).wf(),
        s.lower_half().start == s.start,
        s.lower_half().end + 1 == s.upper_half(next_index).start,
        s.upper_half(next_index).end == s.end,
        s.lower_half().size() + s.upper_half(next_index).size() == s.size(),
        s.lower_half().downloaded + s.upper_half(next_index).downloaded == s.downloaded,
        forall|o: int|
            s.contains(o) <==> #[trigger] s.lower_half().contains(o) || s.upper_half(
                next_index,
            ).contains(o),
        forall|o: int|
            !(#[trigger] s.lower_half().contains(o) && s.upper_half(next_index).contains(o)),
        forall|o: int|
            #[trigger] s.has_written(o) <==> s.lower_half().has_written(o) || s.upper_half(
                next_index,
            ).has_written(o),
        s.is_finished() <==> s.lower_half().is_finished() && s.upper_half(
            next_index,
        ).is_finished(),
{
}

/// A partial file never makes a segment more than full, and a file that reaches
/// past the segment makes it finished.
pub proof fn law_align_clamps(s: Segment, part_size: u64)
    requires
        s.wf(),
    ensures
        s.aligned(part_size).downloaded <= s.size(),
        part_size > s.end ==> s.aligned(part_size).is_finished(),
        forall|o: int|
            #[trigger] s.aligned(part_size).has_written(o) <==> s.contains(o) && o < part_size,
{
}

/// The bytes of `pieces` together.
pub open spec fn sum_of(pieces: Seq<u64>) -> nat
    decreases pieces.len(),
{
    if pieces.len() == 0 {
        0
    } else {
        sum_of(pieces.drop_last()) + pieces.last() as nat
    }
}

/// Pieces complete a segment exactly when they hold together as many bytes as were
/// missing: with fewer it stays unfinished, and more are not taken.
pub proof fn law_pieces_fit_exactly(s: Segment, pieces: Seq<u64>)
    requires
        s.wf(),
        s.downloaded <= s.size(),
    ensures
        s.with_pieces(pieces) is Some <==> sum_of(pieces) <= s.missing(),
        s.with_pieces(pieces) matches Some(g) ==> g == (Segment {
            downloaded: (s.downloaded + sum_of(pieces)) as u64,
            ..s
        }),
        (s.with_pieces(pieces) matches Some(g) && g.is_finished()) <==> sum_of(pieces)
            == s.missing(),
    decreases pieces.len(),
{
    if pieces.len() > 0 {
        law_pieces_fit_exactly(s, pieces.drop_last());
    }
}

/// Reading the progress off a partial file moves no bound of a segment, and counts what lies
/// below the size of that file: nothing where it ends before the segment, all of it where it
/// ends behind it, and else what is between.
pub proof fn law_align_reads_the_file(s: Segment, part_size: u64)
    requires
        s.wf(),
    ensures
        s.aligned(part_size).index == s.index,
        s.aligned(part_size).start == s.start,
        s.aligned(part_size).end == s.end,
        part_size <= s.start ==> s.aligned(part_size).downloaded == 0,
        s.start <= part_size <= s.end ==> s.aligned(part_size).downloaded == part_size - s.start,
        part_size > s.end ==> s.aligned(part_size).downloaded == s.end - s.start + 1,
{
}

/// How many segments a file of `total` bytes is cut into.
pub open spec fn segment_count(
    total: u64,
    segment_size: u64,
    max_segments: u32,
    split_threshold: u64,
) -> int {
    if total <= split_threshold || total == 0 {
        1
    } else {
        let wanted = (total + segment_size - 1) / segment_size as int;
        if max_segments == 0 {
            1
        } else if wanted < max_segments {
            wanted
        } else {
            max_segments as int
        }
    }
}

/// The offset at which segment `i` of `n` begins in a file of `total` bytes: the
/// first `total % n` segments are one byte longer than the others.
pub open spec fn segment_start(total: u64, n: int, i: int) -> int {
    let extra = total as int % n;
    i * (total as int / n) + (if i < extra {
        i
    } else {
        extra
    })
}

/// The segments that a file of `total` bytes is cut into.
pub open spec fn planned_segments(
    total: u64,
    segment_size: u64,
    max_segments: u32,
    split_threshold: u64,
) -> Seq<Segment> {
    let n = segment_count(total, segment_size, max_segments, split_threshold);
    if total == 0 {
        seq![Segment { index: 0, start: 0, end: 0, downloaded: 0 }]
    } else {
        Seq::new(
            n as nat,
            |i: int|
                Segment {
                    index: i as u32,
                    start: segment_start(total, n, i) as u64,
                    end: (segment_start(total, n, i + 1) - 1) as u64,
                    downloaded: 0,
                },
        )
    }
}

/// Rounding a quotient up adds one where the division leaves a remainder.
proof fn lemma_ceil(a: int, b: int)
    requires
        a >= 0,
        b > 0,
    ensures
        (a + b - 1) / b == a / b + (if a % b == 0 {
            0int
        } else {
            1int
        }),
{
    div_mod::lemma_fundamental_div_mod(a, b);
    let q = a / b;
    let r = a % b;
    if r == 0 {
        assert(a + b - 1 == q * b + (b - 1)) by (nonlinear_arith)
            requires
                a == b * q + r,
                r == 0,
        ;
        div_mod::lemma_fundamental_div_mod_converse(a + b - 1, b, q, b - 1);
    } else {
        assert(a + b - 1 == (q + 1) * b + (r - 1)) by (nonlinear_arith)
            requires
                a == b * q + r,
        ;
        div_mod::lemma_fundamental_div_mod_converse(a + b - 1, b, q + 1, r - 1);
    }
}

/// A file is cut into at least one segment and into no more than it has bytes.
proof fn lemma_count_bounds(
    total: u64,
    segment_size: u64,
    max_segments: u32,
    split_threshold: u64,
)
    requires
        total > 0,
        total > split_threshold ==> segment_size > 0,
    ensures
        1 <= segment_count(total, segment_size, max_segments, split_threshold) <= total,
{
    if total > split_threshold {
        let b = segment_size as int;
        let wanted = (total + b - 1) / b;
        assert(1 <= wanted <= total) by {
            div_mod::lemma_fundamental_div_mod(total + b - 1, b);
            let r = (total + b - 1) % b;
            assert(0 <= r < b);
            assert(wanted >= 1) by (nonlinear_arith)
                requires
                    total + b - 1 == b * wanted + r,
                    r < b,
                    total >= 1,
                    b > 0,
            ;
            assert(wanted <= total) by (nonlinear_arith)
                requires
                    total + b - 1 == b * wanted + r,
                    0 <= r,
                    total >= 1,
                    b > 0,
            ;
        }
    }
}

/// Where the segments begin: the first at zero, one past the last at the end of
/// the file, and each a whole segment after the one before it.
proof fn lemma_segment_start(total: u64, n: int, i: int)
    requires
        1 <= n <= total,
        0 <= i < n,
    ensures
        segment_start(total, n, 0) == 0,
        segment_start(total, n, n) == total,
        segment_start(total, n, i + 1) == segment_start(total, n, i) + total as int / n + (if i
            < total as int % n {
            1int
        } else {
            0int
        }),
        total as int / n >= 1,
        0 <= total as int % n < n,
        0 <= segment_start(total, n, i) < segment_start(total, n, i + 1) <= total,
{
    let base = total as int / n;
    let extra = total as int % n;
    div_mod::lemma_fundamental_div_mod(total as int, n);
    assert(base >= 1) by (nonlinear_arith)
        requires
            total as int == n * base + extra,
            extra < n,
            1 <= n <= total,
    ;
    assert(0 * base == 0);
    assert((i + 1) * base == i * base + base) by (nonlinear_arith);
    assert(i * base >= 0) by (nonlinear_arith)
        requires
            i >= 0,
            base >= 1,
    ;
    assert((i + 1) * base <= n * base) by (nonlinear_arith)
        requires
            i + 1 <= n,
            base >= 1,
    ;
}

/// Cuts a file of `total` bytes. Up to `split_threshold` bytes it stays whole;
/// above that it is cut evenly into pieces of about `segment_size`, at most
/// `max_segments` of them.
pub fn build_segments(
    total: u64,
    segment_size: u64,
    max_segments: u32,
    split_threshold: u64,
) -> (r: Vec<Segment>)
    requires
        total > split_threshold ==> segment_size > 0,
    ensures
        r@ == planned_segments(total, segment_size, max_segments, split_threshold),
        total > 0 ==> tiles(r@, total as int),
{
    proof {
        if total > 0 {
            law_segments_tile(total, segment_size, max_segments, split_threshold);
        }
    }
    let ghost plan = planned_segments(total, segment_size, max_segments, split_threshold);
    let mut out: Vec<Segment> = Vec::new();
    if total == 0 {
        out.push(Segment::new(0, 0, 0));
        assert(out@ =~= plan);
        return out;
    }
    if total <= split_threshold {
        out.push(Segment::new(0, 0, total - 1));
        proof {
            lemma_segment_start(total, 1, 0);
            assert(out@ =~= plan);
        }
        return out;
    }
    proof {
        lemma_ceil(total as int, segment_size as int);
        lemma_count_bounds(total, segment_size, max_segments, split_threshold);
    }
    let quotient: u64 = total / segment_size;
    let mut n: u64 = quotient;
    if total % segment_size != 0 {
        proof {
            div_mod::lemma_fundamental_div_mod(total as int, segment_size as int);
            assert(quotient < u64::MAX) by (nonlinear_arith)
                requires
                    total == segment_size * quotient + total % segment_size,
                    total % segment_size > 0,
                    segment_size > 0,
                    total <= u64::MAX,
            ;
        }
        n = quotient + 1;
    }
    if n > max_segments as u64 {
        n = max_segments as u64;
    }
    if n < 1 {
        n = 1;
    }
    assert(n == segment_count(total, segment_size, max_segments, split_threshold));
    let base: u64 = total / n;
    let extra: u64 = total % n;
    let mut i: u64 = 0;
    let mut start: u64 = 0;
    proof {
        lemma_segment_start(total, n as int, 0);
    }
    while i < n
        invariant
            0 <= i <= n,
            1 <= n <= total,
            n <= u32::MAX,
            base == total / n,
            extra == total % n,
            start == segment_start(total, n as int, i as int),
            n == segment_count(total, segment_size, max_segments, split_threshold),
            plan == planned_segments(total, segment_size, max_segments, split_threshold),
            total > 0,
            out@ == plan.take(i as int),
        decreases n - i,
    {
        proof {
            lemma_segment_start(total, n as int, i as int);
        }
        let len: u64 = base + (if i < extra {
            1u64
        } else {
            0u64
        });
        out.push(Segment::new(i as u32, start, start + (len - 1)));
        start = start + len;
        i = i + 1;
        assert(out@ =~= plan.take(i as int));
    }
    assert(out@ =~= plan);
    out
}

/// The segments of `s` lie end to end and fill exactly the first `total` bytes.
pub open spec fn tiles(s: Seq<Segment>, total: int) -> bool {
    &&& s.len() > 0
    &&& s[0].start == 0
    &&& s.last().end + 1 == total
    &&& forall|i: int| 0 <= i < s.len() ==> #[trigger] s[i].wf()
    &&& forall|i: int, j: int|
        #![trigger s[i], s[j]]
        0 <= i && j == i + 1 && j < s.len() ==> s[i].end + 1 == s[j].start
}

/// The bytes of the segments of `s` together.
pub open spec fn total_size(s: Seq<Segment>) -> int
    decreases s.len(),
{
    if s.len() == 0 {
        0
    } else {
        total_size(s.drop_last()) + s.last().size()
    }
}

/// The bytes written in the segments of `s` together.
pub open spec fn total_downloaded(s: Seq<Segment>) -> int
    decreases s.len(),
{
    if s.len() == 0 {
        0
    } else {
        total_downloaded(s.drop_last()) + s.last().downloaded
    }
}

/// Cutting a file leaves no gap and no overlap, numbers the segments in order,
/// starts with nothing written, makes the sizes differ by at most one byte, and
/// keeps to the limit on their number, with the longer ones first; no segment exceeds
/// `segment_size` unless that limit or the threshold forces it.
pub proof fn law_segments_tile(
    total: u64,
    segment_size: u64,
    max_segments: u32,
    split_threshold: u64,
)
    requires
        total > 0,
        total > split_threshold ==> segment_size > 0,
    ensures
        ({
            let s = planned_segments(total, segment_size, max_segments, split_threshold);
            &&& tiles(s, total as int)
            &&& s.len() == segment_count(total, segment_size, max_segments, split_threshold)
            &&& s.len() <= max_segments || s.len() == 1
            &&& forall|i: int|
                0 <= i < s.len() ==> (#[trigger] s[i]).index == i && s[i].downloaded == 0
            &&& forall|i: int, j: int|
                0 <= i < s.len() && 0 <= j < s.len() ==> (#[trigger] s[i]).size() <= (
                #[trigger] s[j]).size() + 1
            &&& forall|i: int, j: int|
                0 <= i <= j < s.len() ==> (#[trigger] s[i]).size() >= (#[trigger] s[j]).size()
            &&& total > split_threshold && (total + segment_size - 1) / segment_size as int
                <= max_segments ==> forall|i: int|
                0 <= i < s.len() ==> (#[trigger] s[i]).size() <= segment_size
        }),
{
    let s = planned_segments(total, segment_size, max_segments, split_threshold);
    let n = segment_count(total, segment_size, max_segments, split_threshold);
    lemma_count_bounds(total, segment_size, max_segments, split_threshold);
    assert(n <= u32::MAX);
    lemma_segment_start(total, n, 0);
    assert forall|i: int| 0 <= i < s.len() implies ({
        &&& (#[trigger] s[i]).wf()
        &&& s[i].start == segment_start(total, n, i)
        &&& s[i].end == segment_start(total, n, i + 1) - 1
        &&& s[i].index == i
        &&& total as int / n <= s[i].size() <= total as int / n + 1
        &&& i >= total as int % n ==> s[i].size() == total as int / n
        &&& i < total as int % n ==> s[i].size() == total as int / n + 1
    }) by {
        lemma_segment_start(total, n, i);
    }
    if total > split_threshold && (total + segment_size - 1) / segment_size as int
        <= max_segments {
        assert forall|i: int| 0 <= i < s.len() implies (#[trigger] s[i]).size()
            <= segment_size by {
            let b = segment_size as int;
            let base = total as int / n;
            let extra = total as int % n;
            div_mod::lemma_fundamental_div_mod(total as int, n);
            div_mod::lemma_fundamental_div_mod(total + b - 1, b);
            let r = (total + b - 1) % b;
            assert(n == (total + b - 1) / b);
            assert(n * b >= total) by (nonlinear_arith)
                requires
                    total + b - 1 == b * n + r,
                    r <= b - 1,
            ;
            if extra == 0 {
                assert(base <= b) by (nonlinear_arith)
                    requires
                        total == n * base,
                        n * b >= total,
                        n >= 1,
                ;
            } else {
                assert(base + 1 <= b) by (nonlinear_arith)
                    requires
                        total == n * base + extra,
                        extra >= 1,
                        n * b >= total,
                        n >= 1,
                ;
            }
        }
    }
}

/// A file is cut into as many segments as it takes for none to exceed `segment_size`, but no
/// more than may be: the limit is used in full before a segment gets longer than that. Up to
/// the threshold, and where no segment may run, it stays whole.
pub proof fn law_number_of_segments(
    total: u64,
    segment_size: u64,
    max_segments: u32,
    split_threshold: u64,
)
    requires
        total > split_threshold ==> segment_size > 0,
    ensures
        ({
            let n = planned_segments(total, segment_size, max_segments, split_threshold).len()
                as int;
            &&& total <= split_threshold || max_segments == 0 || total == 0 ==> n == 1
            &&& total == 0 ==> planned_segments(
                total,
                segment_size,
                max_segments,
                split_threshold,
            )[0] == (Segment { index: 0, start: 0, end: 0, downloaded: 0 })
            &&& total > split_threshold && max_segments >= 1 ==> {
                &&& 1 <= n <= max_segments
                &&& n < max_segments ==> n * segment_size >= total
                &&& n > 1 ==> (n - 1) * segment_size < total
                &&& max_segments * segment_size <= total ==> n == max_segments
            }
        }),
{
    if total > split_threshold && max_segments >= 1 {
        let b = segment_size as int;
        let wanted = (total + b - 1) / b;
        let r = (total + b - 1) % b;
        let m = max_segments as int;
        div_mod::lemma_fundamental_div_mod(total + b - 1, b);
        lemma_count_bounds(total, segment_size, max_segments, split_threshold);
        assert(wanted * b >= total && (wanted - 1) * b < total) by (nonlinear_arith)
            requires
                total + b - 1 == b * wanted + r,
                0 <= r < b,
        ;
        let n = planned_segments(total, segment_size, max_segments, split_threshold).len() as int;
        if n < wanted {
            assert((n - 1) * b < total) by (nonlinear_arith)
                requires
                    n < wanted,
                    (wanted - 1) * b < total,
                    b > 0,
            ;
        }
        if m * b <= total && wanted < m {
            assert(wanted * b < m * b) by (nonlinear_arith)
                requires
                    wanted < m,
                    b > 0,
            ;
        }
    }
}

/// The segments of a file, in order: each begins where the one before ends, they are numbered
/// from zero, and nothing of them has been written.
pub proof fn law_segments_in_order(
    total: u64,
    segment_size: u64,
    max_segments: u32,
    split_threshold: u64,
    i: int,
)
    requires
        total > 0,
        total > split_threshold ==> segment_size > 0,
        0 <= i < planned_segments(total, segment_size, max_segments, split_threshold).len(),
    ensures
        ({
            let s = planned_segments(total, segment_size, max_segments, split_threshold);
            &&& s[i].index == i
            &&& s[i].downloaded == 0
            &&& s[i].start <= s[i].end < total
            &&& s[i].start == (if i == 0 {
                0
            } else {
                s[i - 1].end + 1
            })
            &&& i == s.len() - 1 ==> s[i].end == total - 1
            &&& total / (s.len() as u64) <= s[i].end - s[i].start + 1 <= total / (s.len() as u64)
                + 1
        }),
{
    let s = planned_segments(total, segment_size, max_segments, split_threshold);
    let n = s.len() as int;
    law_segments_tile(total, segment_size, max_segments, split_threshold);
    lemma_count_bounds(total, segment_size, max_segments, split_threshold);
    assert(s[i].wf());
    lemma_tiles_prefix(s, total as int, i + 1);
    lemma_segment_start(total, n, i);
    if i > 0 {
        assert(s[i - 1].end + 1 == s[i].start);
    }
}

/// A prefix of a tiling fills the bytes up to where it ends.
pub proof fn lemma_tiles_prefix(s: Seq<Segment>, total: int, k: int)
    requires
        tiles(s, total),
        1 <= k <= s.len(),
    ensures
        tiles(s.take(k), s[k - 1].end + 1),
        s[k - 1].end + 1 <= total,
    decreases s.len() - k,
{
    let t = s.take(k);
    assert(t.last() == s[k - 1]);
    assert(t[0] == s[0]);
    assert forall|i: int, j: int|
        #![trigger t[i], t[j]]
        0 <= i && j == i + 1 && j < t.len() implies t[i].end + 1 == t[j].start by {
        assert(t[i] == s[i] && t[j] == s[j]);
    }
    if k < s.len() {
        lemma_tiles_prefix(s, total, k + 1);
        assert(s[k - 1].end + 1 == s[k].start);
        assert(s[k].wf());
    }
}

/// The sizes of a tiling add up to the size of the file.
pub proof fn law_tiles_add_up(s: Seq<Segment>, total: int)
    requires
        tiles(s, total),
    ensures
        total_size(s) == total,
    decreases s.len(),
{
    if s.len() == 1 {
        assert(s.drop_last() =~= Seq::<Segment>::empty());
        assert(total_size(s.drop_last()) == 0);
        assert(s.last() == s[0]);
    } else {
        let k = s.len() - 1;
        lemma_tiles_prefix(s, total, k as int);
        assert(s.take(k as int) =~= s.drop_last());
        law_tiles_add_up(s.drop_last(), s[k - 1].end + 1);
        assert(s[k - 1].end + 1 == s[k as int].start);
    }
}

/// Every byte of a tiled file lies in one segment, and in no other.
pub proof fn law_tiles_cover(s: Seq<Segment>, total: int, offset: int)
    requires
        tiles(s, total),
        0 <= offset < total,
    ensures
        exists|i: int| 0 <= i < s.len() && (#[trigger] s[i]).contains(offset),
        forall|i: int, j: int|
            0 <= i < s.len() && 0 <= j < s.len() && (#[trigger] s[i]).contains(offset) && (
            #[trigger] s[j]).contains(offset) ==> i == j,
    decreases s.len(),
{
    let k = s.len() - 1;
    if s.len() == 1 {
        assert(s[0].contains(offset));
    } else {
        lemma_tiles_prefix(s, total, k as int);
        let t = s.take(k as int);
        assert(s[k - 1].end + 1 == s[k as int].start);
        if offset < s[k as int].start {
            law_tiles_cover(t, s[k - 1].end + 1, offset);
            let i = choose|i: int| 0 <= i < t.len() && (#[trigger] t[i]).contains(offset);
            assert(s[i].contains(offset));
            assert forall|i: int, j: int|
                0 <= i < s.len() && 0 <= j < s.len() && (#[trigger] s[i]).contains(offset) && (
                #[trigger] s[j]).contains(offset) implies i == j by {
                assert(t[i] == s[i] && t[j] == s[j]);
            }
        } else {
            assert(s[k as int].contains(offset));
            assert forall|i: int| 0 <= i < k implies !(#[trigger] s[i]).contains(offset) by {
                lemma_tiles_prefix(s, total, i + 1);
                lemma_tiles_ordered(s, total, i, k as int);
            }
        }
    }
}

/// Earlier segments of a tiling end before later ones begin.
proof fn lemma_tiles_ordered(s: Seq<Segment>, total: int, i: int, j: int)
    requires
        tiles(s, total),
        0 <= i < j < s.len(),
    ensures
        s[i].end < s[j].start,
    decreases j - i,
{
    assert(s[j - 1].end + 1 == s[j].start);
    if i < j - 1 {
        lemma_tiles_ordered(s, total, i, j - 1);
        assert(s[j - 1].wf());
    }
}

/// The segments of `s` with their progress read off a partial file.
pub open spec fn all_aligned(s: Seq<Segment>, part_size: u64) -> Seq<Segment> {
    s.map_values(|g: Segment| g.aligned(part_size))
}

/// Counting the first `part_size` bytes of a file as written counts exactly those, up to
/// the size of the whole file.
pub proof fn law_align_counts_length(s: Seq<Segment>, total: int, part_size: u64)
    requires
        tiles(s, total),
    ensures
        tiles(all_aligned(s, part_size), total),
        total_downloaded(all_aligned(s, part_size)) == (if part_size < total {
            part_size as int
        } else {
            total
        }),
    decreases s.len(),
{
    let a = all_aligned(s, part_size);
    assert forall|i: int, j: int|
        #![trigger a[i], a[j]]
        0 <= i && j == i + 1 && j < a.len() implies a[i].end + 1 == a[j].start by {
        assert(s[i].end + 1 == s[j].start);
    }
    assert forall|i: int| 0 <= i < a.len() implies (#[trigger] a[i]).wf() by {
        assert(s[i].wf());
    }
    let k = s.len() - 1;
    assert(a.last() == s.last().aligned(part_size));
    assert(s.last().wf());
    assert(a.drop_last() =~= all_aligned(s.drop_last(), part_size));
    if s.len() == 1 {
        assert(a.drop_last() =~= Seq::<Segment>::empty());
        assert(total_downloaded(a.drop_last()) == 0);
    } else {
        lemma_tiles_prefix(s, total, k as int);
        assert(s.take(k as int) =~= s.drop_last());
        law_align_counts_length(s.drop_last(), s[k - 1].end + 1, part_size);
        assert(s[k - 1].end + 1 == s[k as int].start);
    }
}

} // verus!
