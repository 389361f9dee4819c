//! Cutting a buffer into chunks that end at row boundaries.
//!
//! The input is walked in windows of a fixed size. A chunk never ends inside
//! a row as long as its window holds a row terminator: the chunk stops in
//! front of the window's last newline, the newline itself is dropped, and the
//! rest of the window is carried into the next chunk.

use vstd::prelude::*;
use vstd::string::StringSliceAdditionalSpecFns;

use crate::rows::{lemma_split_joined, split};

verus! {

/// The byte that ends a row.
pub const NEWLINE: u8 = 10;

/// Number of windows of `size` bytes needed to cover `len` bytes.
pub open spec fn window_count(len: int, size: int) -> int
    recommends
        0 <= len,
        0 < size,
{
    (len + size - 1) / size
}

/// Index of the last newline of `content` in `[lo, hi)`, or `lo - 1` if
/// that range holds none.
pub open spec fn last_newline(content: Seq<u8>, lo: int, hi: int) -> int
    decreases hi - lo,
{
    if hi <= lo {
        lo - 1
    } else if content[hi - 1] == NEWLINE {
        hi - 1
    } else {
        last_newline(content, lo, hi - 1)
    }
}

/// Whether window `k` of `content` holds a newline.
pub open spec fn window_has_newline(content: Seq<u8>, size: int, k: int) -> bool {
    last_newline(content, k * size, (k + 1) * size) >= k * size
}

/// Where chunk `k` starts: right behind the last newline of the window
/// before it, or at the window's own start if that window held none.
pub open spec fn chunk_start(content: Seq<u8>, size: int, k: int) -> int {
    if k <= 0 {
        0
    } else if window_has_newline(content, size, k - 1) {
        last_newline(content, (k - 1) * size, k * size) + 1
    } else {
        k * size
    }
}

/// Where chunk `k` ends (exclusive): at the end of the input for the last
/// window, else in front of the window's last newline, or at the window's
/// end if it holds none.
pub open spec fn chunk_end(content: Seq<u8>, size: int, k: int) -> int {
    if k + 1 >= window_count(content.len() as int, size) {
        content.len() as int
    } else if window_has_newline(content, size, k) {
        last_newline(content, k * size, (k + 1) * size)
    } else {
        (k + 1) * size
    }
}

/// The bytes of chunk `k`.
pub open spec fn chunk(content: Seq<u8>, size: int, k: int) -> Seq<u8> {
    content.subrange(chunk_start(content, size, k), chunk_end(content, size, k))
}

/// What a list of buffers holds, buffer by buffer.
pub open spec fn contents(buffers: Seq<Vec<u8>>) -> Seq<Seq<u8>> {
    Seq::new(buffers.len(), |k: int| buffers[k]@)
}

/// All chunks of `content` for windows of `size` bytes, in input order.
pub open spec fn chunks_of(content: Seq<u8>, size: int) -> Seq<Seq<u8>> {
    Seq::new(window_count(content.len() as int, size) as nat, |k: int| chunk(content, size, k))
}

/// A range without a newline in front of a range: the last newline of the
/// two together is that of the second, if it has one, else that of the first.
pub proof fn lemma_last_newline_split(content: Seq<u8>, lo: int, mid: int, hi: int)
    requires
        lo <= mid <= hi,
    ensures
        last_newline(content, lo, hi) == if last_newline(content, mid, hi) >= mid {
            last_newline(content, mid, hi)
        } else {
            last_newline(content, lo, mid)
        },
    decreases hi - mid,
{
    if hi > mid && content[hi - 1] != NEWLINE {
        lemma_last_newline_split(content, lo, mid, hi - 1);
    }
}

/// What `last_newline` returns: a newline inside the range with none behind
/// it, or `lo - 1` and a range free of newlines.
pub proof fn lemma_last_newline_is_last(content: Seq<u8>, lo: int, hi: int)
    requires
        lo <= hi,
    ensures
        lo - 1 <= last_newline(content, lo, hi) < hi,
        last_newline(content, lo, hi) >= lo ==> content[last_newline(content, lo, hi)] == NEWLINE,
        forall|i: int| last_newline(content, lo, hi) < i < hi && lo <= i ==> content[i] != NEWLINE,
    decreases hi - lo,
{
    if hi > lo && content[hi - 1] != NEWLINE {
        lemma_last_newline_is_last(content, lo, hi - 1);
    }
}

/// `window_count(len, size)` is the least number of windows that reach `len`.
pub proof fn lemma_window_count(len: int, size: int, m: int)
    requires
        0 <= len,
        0 < size,
        0 <= m,
    ensures
        window_count(len, size) <= m <==> len <= m * size,
        window_count(len, size) >= 0,
{
    let q = (len + size - 1) / size;
    assert(q * size <= len + size - 1 < q * size + size && q >= 0) by (nonlinear_arith)
        requires
            q == (len + size - 1) / size,
            0 <= len,
            0 < size,
    ;
    if q <= m {
        assert(q * size <= m * size) by (nonlinear_arith)
            requires
                q <= m,
                0 < size,
        ;
    } else {
        assert((m + 1) * size <= q * size) by (nonlinear_arith)
            requires
                m + 1 <= q,
                0 < size,
        ;
        assert((m + 1) * size == m * size + size) by (nonlinear_arith);
    }
}

/// Searches `content[lo..hi)` from the back for a newline.
fn find_last_newline(content: &[u8], lo: usize, hi: usize) -> (found: Option<usize>)
    requires
        lo <= hi <= content.len(),
    ensures
        match found {
            Some(j) => lo <= j < hi && j == last_newline(content@, lo as int, hi as int),
            None => last_newline(content@, lo as int, hi as int) == lo - 1,
        },
{
    let mut i: usize = hi;
    while i > lo
        invariant
            lo <= i <= hi <= content.len(),
            last_newline(content@, lo as int, hi as int) == last_newline(
                content@,
                lo as int,
                i as int,
            ),
        decreases i,
    {
        if content[i - 1] == NEWLINE {
            return Some(i - 1);
        }
        i = i - 1;
    }
    None
}

/// Copies `content[lo..hi)` into a buffer of its own.
fn copy_range(content: &[u8], lo: usize, hi: usize) -> (out: Vec<u8>)
    requires
        lo <= hi <= content.len(),
    ensures
        out@ == content@.subrange(lo as int, hi as int),
{
    let mut out: Vec<u8> = Vec::with_capacity(hi - lo);
    let mut i: usize = lo;
    while i < hi
        invariant
            lo <= i <= hi <= content.len(),
            out@ == content@.subrange(lo as int, i as int),
        decreases hi - i,
    {
        out.push(content[i]);
        i = i + 1;
    }
    out
}

/// Cuts `content` into chunks that end at row boundaries, walking it in
/// windows of `chunk_size` bytes.
///
/// Chunk `k` belongs to window `k`. It starts where the chunk before it
/// stopped, skipping the newline in front of which that chunk stopped, and
/// runs up to the last newline of its own window. A window without a newline
/// gives its whole buffer as a chunk; the last window gives everything that
/// is left.
pub fn split_at_row_ends(content: &[u8], chunk_size: usize) -> (chunks: Vec<Vec<u8>>)
    requires
        chunk_size > 0,
    ensures
        contents(chunks@) == chunks_of(content@, chunk_size as int),
{
    let len = content.len();
    let ghost size = chunk_size as int;
    let mut chunks: Vec<Vec<u8>> = Vec::new();
    // `start` is where the bytes carried over from the window before begin,
    // `pos` is where the window itself begins.
    let mut start: usize = 0;
    let mut pos: usize = 0;
    let ghost mut k: int = 0;
    proof {
        lemma_window_count(len as int, size, 0);
    }
    while pos < len
        invariant
            chunk_size > 0,
            size == chunk_size as int,
            len == content@.len(),
            0 <= k,
            start <= pos <= len,
            pos < len ==> pos == k * size,
            pos == len ==> k == window_count(len as int, size),
            pos < len ==> start == chunk_start(content@, size, k),
            last_newline(content@, start as int, pos as int) == start - 1,
            chunks@.len() == k,
            forall|j: int| 0 <= j < k ==> (#[trigger] chunks@[j])@ == chunk(content@, size, j),
        decreases len - pos,
    {
        let is_last = len - pos <= chunk_size;
        let end = if is_last {
            len
        } else {
            pos + chunk_size
        };
        proof {
            assert((k + 1) * size == k * size + size) by (nonlinear_arith);
            lemma_window_count(len as int, size, k + 1);
            lemma_window_count(len as int, size, k);
            lemma_last_newline_split(content@, start as int, pos as int, end as int);
            lemma_last_newline_is_last(content@, pos as int, end as int);
        }
        let found = find_last_newline(content, start, end);
        let ghost old_chunks = chunks@;
        if is_last {
            chunks.push(copy_range(content, start, len));
            start = len;
        } else {
            match found {
                Some(newline_index) => {
                    chunks.push(copy_range(content, start, newline_index));
                    start = newline_index + 1;
                },
                None => {
                    chunks.push(copy_range(content, start, end));
                    start = end;
                },
            }
        }
        proof {
            assert(chunks@[k]@ == chunk(content@, size, k));
            assert forall|j: int| 0 <= j < k + 1 implies (#[trigger] chunks@[j])@ == chunk(
                content@,
                size,
                j,
            ) by {
                if j < k {
                    assert(chunks@[j] == old_chunks[j]);
                }
            }
            lemma_last_newline_is_last(content@, start as int, end as int);
            if start < end {
                lemma_last_newline_split(content@, pos as int, start as int, end as int);
            }
            k = k + 1;
        }
        pos = end;
    }
    chunks
}

/// Cuts the bytes of `content` into chunks that end at row boundaries; see
/// [`split_at_row_ends`].
pub fn create_newline_separated_chunks(content: &str, chunk_size: usize) -> (chunks: Vec<Vec<u8>>)
    requires
        chunk_size > 0,
    ensures
        contents(chunks@) == chunks_of(content.spec_bytes(), chunk_size as int),
{
    split_at_row_ends(content.as_bytes(), chunk_size)
}

/// Whether the chunk of window `k` stopped in front of a newline, which was
/// then dropped. Otherwise the next chunk continues right where it stopped.
pub open spec fn newline_dropped_after(content: Seq<u8>, size: int, k: int) -> bool {
    k + 1 < window_count(content.len() as int, size) && window_has_newline(content, size, k)
}

/// The chunks put back together: a newline goes back in behind every chunk
/// for which `dropped` says that one was taken out.
pub open spec fn rejoin(chunks: Seq<Seq<u8>>, dropped: spec_fn(int) -> bool) -> Seq<u8>
    decreases chunks.len(),
{
    if chunks.len() == 0 {
        Seq::empty()
    } else if chunks.len() == 1 {
        chunks[0]
    } else {
        let gap = if dropped(chunks.len() - 2) {
            seq![NEWLINE]
        } else {
            Seq::empty()
        };
        rejoin(chunks.drop_last(), dropped) + gap + chunks.last()
    }
}

/// The rows of all chunks, chunk after chunk.
pub open spec fn rows_of_chunks(chunks: Seq<Seq<u8>>) -> Seq<Seq<u8>>
    decreases chunks.len(),
{
    if chunks.len() == 0 {
        Seq::empty()
    } else {
        rows_of_chunks(chunks.drop_last()) + split(chunks.last(), NEWLINE)
    }
}

/// Where the chunks lie in the input. Chunk `k` covers a range that holds
/// the start of window `k`; the first chunk starts at the start of the input
/// and the last ends at its end; a chunk starts where the one before it
/// ended, or one byte further where a newline was dropped.
pub proof fn lemma_chunk_layout(content: Seq<u8>, size: int, k: int)
    requires
        0 < size,
        0 <= k < window_count(content.len() as int, size),
    ensures
        0 <= chunk_start(content, size, k) <= k * size <= chunk_end(content, size, k)
            <= content.len(),
        k * size < content.len(),
        k == 0 ==> chunk_start(content, size, k) == 0,
        k + 1 == window_count(content.len() as int, size) ==> chunk_end(content, size, k)
            == content.len(),
        k + 1 < window_count(content.len() as int, size) ==> (k + 1) * size < content.len(),
        newline_dropped_after(content, size, k) ==> chunk_start(content, size, k + 1)
            == chunk_end(content, size, k) + 1 && content[chunk_end(content, size, k)] == NEWLINE,
        k + 1 < window_count(content.len() as int, size) && !newline_dropped_after(
            content,
            size,
            k,
        ) ==> chunk_start(content, size, k + 1) == chunk_end(content, size, k),
{
    let len = content.len() as int;
    lemma_window_count(len, size, k);
    lemma_window_count(len, size, k + 1);
    assert((k + 1) * size == k * size + size) by (nonlinear_arith);
    assert(0 <= k * size) by (nonlinear_arith)
        requires
            0 <= k,
            0 < size,
    ;
    lemma_last_newline_is_last(content, k * size, (k + 1) * size);
    if k > 0 {
        assert((k - 1) * size == k * size - size) by (nonlinear_arith);
        lemma_last_newline_is_last(content, (k - 1) * size, k * size);
    }
}

/// No bytes are lost and none are added: putting the chunks back together,
/// with a newline behind every chunk that stopped in front of one, gives the
/// input.
pub proof fn lemma_chunks_rejoin_to_input(content: Seq<u8>, size: int)
    requires
        0 < size,
    ensures
        rejoin(chunks_of(content, size), |k: int| newline_dropped_after(content, size, k))
            == content,
{
    let count = window_count(content.len() as int, size);
    lemma_window_count(content.len() as int, size, 0);
    let all = chunks_of(content, size);
    let dropped = |k: int| newline_dropped_after(content, size, k);
    if count == 0 {
        assert(content == Seq::<u8>::empty());
    } else {
        lemma_rejoin_prefix(content, size, count);
        lemma_chunk_layout(content, size, count - 1);
        assert(all.take(count) == all);
        assert(content.subrange(0, content.len() as int) == content);
    }
}

/// The first `m` chunks rejoin to the input up to the end of chunk `m - 1`.
proof fn lemma_rejoin_prefix(content: Seq<u8>, size: int, m: int)
    requires
        0 < size,
        1 <= m <= window_count(content.len() as int, size),
    ensures
        rejoin(
            chunks_of(content, size).take(m),
            |k: int| newline_dropped_after(content, size, k),
        ) == content.subrange(0, chunk_end(content, size, m - 1)),
    decreases m,
{
    let all = chunks_of(content, size);
    let dropped = |k: int| newline_dropped_after(content, size, k);
    let head = all.take(m);
    lemma_chunk_layout(content, size, m - 1);
    assert(head.last() == chunk(content, size, m - 1));
    if m == 1 {
        assert(head[0] == content.subrange(0, chunk_end(content, size, 0)));
    } else {
        lemma_rejoin_prefix(content, size, m - 1);
        lemma_chunk_layout(content, size, m - 2);
        assert(head.drop_last() == all.take(m - 1));
        let cut = chunk_end(content, size, m - 2);
        let gap = if dropped(m - 2) {
            seq![NEWLINE]
        } else {
            Seq::<u8>::empty()
        };
        assert(content.subrange(0, cut) + gap + chunk(content, size, m - 1) == content.subrange(
            0,
            chunk_end(content, size, m - 1),
        ));
    }
}

/// No row is cut in two: if the input is not empty and every window but the
/// last holds a newline, the rows of the chunks, taken chunk after chunk,
/// are the rows of the input.
pub proof fn lemma_chunks_keep_rows(content: Seq<u8>, size: int)
    requires
        0 < size,
        content.len() > 0,
        forall|k: int|
            0 <= k < window_count(content.len() as int, size) - 1 ==> #[trigger] window_has_newline(
                content,
                size,
                k,
            ),
    ensures
        rows_of_chunks(chunks_of(content, size)) == split(content, NEWLINE),
{
    let count = window_count(content.len() as int, size);
    lemma_window_count(content.len() as int, size, 0);
    lemma_rows_prefix(content, size, count);
    lemma_chunk_layout(content, size, count - 1);
    let all = chunks_of(content, size);
    assert(all.take(count) == all);
    assert(content.subrange(0, content.len() as int) == content);
}

/// The rows of the first `m` chunks are the rows of the input up to the end
/// of chunk `m - 1`.
proof fn lemma_rows_prefix(content: Seq<u8>, size: int, m: int)
    requires
        0 < size,
        1 <= m <= window_count(content.len() as int, size),
        forall|k: int|
            0 <= k < window_count(content.len() as int, size) - 1 ==> #[trigger] window_has_newline(
                content,
                size,
                k,
            ),
    ensures
        rows_of_chunks(chunks_of(content, size).take(m)) == split(
            content.subrange(0, chunk_end(content, size, m - 1)),
            NEWLINE,
        ),
    decreases m,
{
    let all = chunks_of(content, size);
    let head = all.take(m);
    lemma_chunk_layout(content, size, m - 1);
    assert(head.last() == chunk(content, size, m - 1));
    if m == 1 {
        assert(head.drop_last() == Seq::<Seq<u8>>::empty());
        assert(rows_of_chunks(head.drop_last()) == Seq::<Seq<u8>>::empty());
        assert(rows_of_chunks(head) == split(head.last(), NEWLINE));
    } else {
        lemma_rows_prefix(content, size, m - 1);
        lemma_chunk_layout(content, size, m - 2);
        assert(window_has_newline(content, size, m - 2));
        assert(head.drop_last() == all.take(m - 1));
        let cut = chunk_end(content, size, m - 2);
        let before = content.subrange(0, cut);
        let last = chunk(content, size, m - 1);
        assert(before + seq![NEWLINE] + last == content.subrange(
            0,
            chunk_end(content, size, m - 1),
        ));
        lemma_split_joined(before, last, NEWLINE);
    }
}

/// Chunking the same input with the same window size twice gives the same
/// chunks.
pub proof fn lemma_chunking_repeats(
    first: Seq<Vec<u8>>,
    second: Seq<Vec<u8>>,
    content: Seq<u8>,
    size: int,
)
    requires
        contents(first) == chunks_of(content, size),
        contents(second) == chunks_of(content, size),
    ensures
        contents(first) == contents(second),
        first.len() == second.len(),
        forall|k: int| 0 <= k < first.len() ==> (#[trigger] first[k])@ == second[k]@,
{
    assert(contents(first).len() == first.len());
    assert(contents(second).len() == second.len());
    assert forall|k: int| 0 <= k < first.len() implies (#[trigger] first[k])@ == second[k]@ by {
        assert(contents(first)[k] == first[k]@);
        assert(contents(second)[k] == second[k]@);
    }
}

} // verus!
