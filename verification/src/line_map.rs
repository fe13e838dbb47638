use crate::location::Location;
use crate::span::SpanIndex;
use vstd::prelude::*;
use vstd::string::StringSliceAdditionalSpecFns;

verus! {

/// Whether a line begins at offset `i` of `text`: at the start of the text,
/// behind a line feed, and behind a carriage return that no line feed
/// follows. A carriage return and the line feed behind it end one line
/// together. No line begins at the end of the text.
pub open spec fn is_line_start(text: Seq<u8>, i: int) -> bool {
    i == 0 || (0 < i < text.len() && (text[i - 1] == 10u8 || (text[i - 1] == 13u8 && text[i]
        != 10u8)))
}

/// The offsets below `n` at which a line of `text` begins, in rising order.
pub open spec fn spec_line_starts_upto(text: Seq<u8>, n: int) -> Seq<usize>
    decreases n,
{
    if n <= 0 {
        Seq::empty()
    } else if is_line_start(text, n - 1) {
        spec_line_starts_upto(text, n - 1).push((n - 1) as usize)
    } else {
        spec_line_starts_upto(text, n - 1)
    }
}

/// The offsets at which the lines of `text` begin. The first line begins at
/// 0, also in an empty text.
pub open spec fn spec_line_starts(text: Seq<u8>) -> Seq<usize> {
    if text.len() == 0 {
        seq![0usize]
    } else {
        spec_line_starts_upto(text, text.len() as int)
    }
}

/// How many of `starts` lie at or before `offset`.
pub open spec fn count_at_or_before(starts: Seq<usize>, offset: int) -> nat
    decreases starts.len(),
{
    if starts.len() == 0 {
        0
    } else {
        count_at_or_before(starts.drop_last(), offset) + if starts.last() <= offset {
            1nat
        } else {
            0nat
        }
    }
}

/// Line starts as a line map holds them: the first is 0 and each lies behind
/// the one before it.
pub open spec fn starts_wf(starts: Seq<usize>) -> bool {
    &&& starts.len() >= 1
    &&& starts[0] == 0
    &&& forall|i: int, j: int| 0 <= i < j < starts.len() ==> starts[i] < starts[j]
}

/// The mathematical value of a line map.
pub struct LineMapView {
    /// The offsets at which the lines begin.
    pub starts: Seq<usize>,
    /// The length of the text in bytes.
    pub len: nat,
}

impl LineMapView {
    /// The line and the column of `offset`; nothing for an offset that
    /// exceeds the length of the text. The offset at the end of the text,
    /// where a span that reaches the end of the text ends, lies in the last
    /// line. The line is the number of line starts at or before the offset,
    /// less one; the column is the distance from the start of that line.
    pub open spec fn locate(self, offset: int) -> Option<(int, int)> {
        if 0 <= offset <= self.len {
            Some((self.line_of(offset), offset - self.starts[self.line_of(offset)]))
        } else {
            None
        }
    }

    /// The line that holds `offset`.
    pub open spec fn line_of(self, offset: int) -> int {
        count_at_or_before(self.starts, offset) - 1
    }
}

/// The offsets below `n` at which lines begin rise strictly and lie below
/// `n`, and they are the offsets at which a line begins, all of them.
pub proof fn lemma_line_starts_upto(text: Seq<u8>, n: int)
    requires
        1 <= n <= usize::MAX,
    ensures
        starts_wf(spec_line_starts_upto(text, n)),
        forall|i: int|
            0 <= i < spec_line_starts_upto(text, n).len() ==> (#[trigger] spec_line_starts_upto(
                text,
                n,
            )[i]) < n,
        forall|at: usize|
            spec_line_starts_upto(text, n).contains(at) <==> at < n && is_line_start(text, at as int),
    decreases n,
{
    let here = spec_line_starts_upto(text, n);
    if n == 1 {
        assert(spec_line_starts_upto(text, 0) =~= Seq::<usize>::empty());
        assert(here =~= seq![0usize]);
        assert(here[0] == 0usize);
    } else {
        let before = spec_line_starts_upto(text, n - 1);
        lemma_line_starts_upto(text, n - 1);
        assert forall|at: usize| here.contains(at) <==> at < n && is_line_start(text, at as int) by {
            if is_line_start(text, n - 1) {
                assert(here[before.len() as int] == (n - 1) as usize);
                if before.contains(at) {
                    let k = choose|k: int| 0 <= k < before.len() && before[k] == at;
                    assert(here[k] == at);
                }
            }
        }
    }
}

/// The line starts of a text are well formed, and an offset is among them
/// just when a line begins there.
pub proof fn lemma_line_starts(text: Seq<u8>)
    requires
        text.len() <= usize::MAX,
    ensures
        starts_wf(spec_line_starts(text)),
        forall|at: usize|
            spec_line_starts(text).contains(at) <==> is_line_start(text, at as int) && (at == 0
                || at < text.len()),
{
    if text.len() == 0 {
        assert(seq![0usize][0] == 0usize);
    } else {
        lemma_line_starts_upto(text, text.len() as int);
    }
}

/// In well-formed line starts, the `k`th lies at or behind offset `k`.
pub proof fn lemma_start_at_least_index(starts: Seq<usize>, k: int)
    requires
        starts_wf(starts),
        0 <= k < starts.len(),
    ensures
        starts[k] >= k,
    decreases k,
{
    if k > 0 {
        lemma_start_at_least_index(starts, k - 1);
        assert(starts[k - 1] < starts[k]);
    }
}

/// Where the `k`th start is the last one at or before `offset`, `k + 1`
/// starts lie at or before it.
pub proof fn lemma_count_at_line(starts: Seq<usize>, offset: int, k: int)
    requires
        starts_wf(starts),
        0 <= k < starts.len(),
        starts[k] <= offset,
        k + 1 < starts.len() ==> offset < starts[k + 1],
    ensures
        count_at_or_before(starts, offset) == k + 1,
    decreases starts.len(),
{
    let front = starts.drop_last();
    if k == starts.len() - 1 {
        if k == 0 {
            assert(front =~= Seq::<usize>::empty());
        } else {
            assert(starts[k - 1] < starts[k]);
            lemma_count_at_line(front, starts[k - 1] as int, k - 1);
            lemma_count_monotone(front, starts[k - 1] as int, offset);
            lemma_count_at_most_len(front, offset);
        }
    } else {
        assert(starts[k + 1] <= starts.last()) by {
            if k + 1 < starts.len() - 1 {
                assert(starts[k + 1] < starts[starts.len() - 1]);
            }
        }
        lemma_count_at_line(front, offset, k);
    }
}

/// No more starts lie at or before an offset than there are starts.
pub proof fn lemma_count_at_most_len(starts: Seq<usize>, offset: int)
    ensures
        count_at_or_before(starts, offset) <= starts.len(),
    decreases starts.len(),
{
    if starts.len() > 0 {
        lemma_count_at_most_len(starts.drop_last(), offset);
    }
}

/// A later offset has at least as many line starts at or before it.
pub proof fn lemma_count_monotone(starts: Seq<usize>, a: int, b: int)
    requires
        a <= b,
    ensures
        count_at_or_before(starts, a) <= count_at_or_before(starts, b),
    decreases starts.len(),
{
    if starts.len() > 0 {
        lemma_count_monotone(starts.drop_last(), a, b);
    }
}

/// As the offset grows, the line that `locate` gives never falls.
pub proof fn lemma_locate_line_monotone(map: LineMapView, a: int, b: int)
    requires
        0 <= a <= b <= map.len,
    ensures
        map.locate(a) matches Some(first) && map.locate(b) matches Some(second) && first.0
            <= second.0,
        map.line_of(a) <= map.line_of(b),
{
    lemma_count_monotone(map.starts, a, b);
}

/// The starts of the lines of one text, for turning byte offsets into
/// lines and columns.
#[derive(Debug)]
pub struct LineMap {
    line_starts: Vec<usize>,
    len: usize,
}

impl View for LineMap {
    type V = LineMapView;

    closed spec fn view(&self) -> LineMapView {
        LineMapView { starts: self.line_starts@, len: self.len as nat }
    }
}

impl LineMap {
    #[verifier::type_invariant]
    spec fn sorted(self) -> bool {
        starts_wf(self.line_starts@)
    }

    /// Scans `source` for line terminators and records where its lines begin.
    pub fn new(source: &str) -> (r: Self)
        ensures
            r@.starts == spec_line_starts(source.spec_bytes()),
            r@.len == source.spec_bytes().len(),
            starts_wf(r@.starts),
            forall|at: usize|
                r@.starts.contains(at) <==> is_line_start(source.spec_bytes(), at as int) && (at
                    == 0 || at < source.spec_bytes().len()),
    {
        let bytes = source.as_bytes();
        let len = bytes.len();
        let ghost text = source.spec_bytes();
        proof {
            lemma_line_starts(text);
        }
        let mut line_starts: Vec<usize> = Vec::new();
        line_starts.push(0);
        if len == 0 {
            assert(line_starts@ =~= seq![0usize]);
            return Self { line_starts, len };
        }
        proof {
            assert(spec_line_starts_upto(text, 0) =~= Seq::<usize>::empty());
            assert(line_starts@ =~= spec_line_starts_upto(text, 1));
        }
        let mut i: usize = 1;
        while i < len
            invariant
                1 <= i <= len,
                len == bytes.len(),
                bytes@ == text,
                line_starts@ == spec_line_starts_upto(text, i as int),
            decreases len - i,
        {
            let before = bytes[i - 1];
            if before == 10u8 || (before == 13u8 && bytes[i] != 10u8) {
                line_starts.push(i);
            }
            i += 1;
        }
        proof {
            lemma_line_starts_upto(text, len as int);
        }
        Self { line_starts, len }
    }

    /// The line and column of offset `idx`, or nothing when `idx` exceeds
    /// the length of the text.
    pub fn index_to_location(&self, idx: SpanIndex) -> (r: Option<Location>)
        ensures
            r is Some <==> self@.locate(idx as int) is Some,
            r matches Some(loc) ==> self@.locate(idx as int) == Some(
                (loc.spec_line() as int, loc.spec_column() as int),
            ),
    {
        proof {
            use_type_invariant(self);
        }
        let idx = idx as usize;
        if idx > self.len {
            return None;
        }
        let mut lo: usize = 0;
        let mut hi: usize = self.line_starts.len();
        while hi - lo > 1
            invariant
                0 <= lo < hi <= self.line_starts.len(),
                starts_wf(self.line_starts@),
                self.line_starts@[lo as int] <= idx,
                hi < self.line_starts.len() ==> idx < self.line_starts@[hi as int],
            decreases hi - lo,
        {
            let mid = lo + (hi - lo) / 2;
            if self.line_starts[mid] <= idx {
                lo = mid;
            } else {
                hi = mid;
            }
        }
        proof {
            lemma_count_at_line(self.line_starts@, idx as int, lo as int);
            lemma_start_at_least_index(self.line_starts@, lo as int);
        }
        let column = idx - self.line_starts[lo];
        Some(Location::new(lo as u32, column as u32))
    }

    /// The length of the text in bytes.
    pub fn len(&self) -> (r: usize)
        ensures
            r == self@.len,
    {
        self.len
    }
}

} // verus!
