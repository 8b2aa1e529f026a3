//! Block boundary scanning.
//!
//! The scanner walks a byte buffer line by line from a starting offset. Any
//! offset is treated as a line start, so a scan may resume anywhere: it skips
//! lines until one opens with the time-header marker byte `t`, and a block
//! runs from that marker line to the next line that opens with `t` (which is
//! not consumed) or to the end of the buffer. Offsets are byte positions in
//! the buffer.

use vstd::prelude::*;

verus! {

/// The position just past the line that starts at `i`: one past the next
/// line-feed byte, or the end of the buffer.
pub open spec fn line_end(data: Seq<u8>, i: int) -> int
    decreases data.len() - i,
{
    if 0 <= i < data.len() {
        if data[i] == 10 {
            i + 1
        } else {
            line_end(data, i + 1)
        }
    } else {
        data.len() as int
    }
}

pub proof fn lemma_line_end(data: Seq<u8>, i: int)
    requires
        0 <= i <= data.len(),
    ensures
        i <= line_end(data, i) <= data.len(),
        i < data.len() ==> i < line_end(data, i),
    decreases data.len() - i,
{
    if i < data.len() && data[i] != 10 {
        lemma_line_end(data, i + 1);
    }
}

/// `line_end` is pinned down by its characterization.
pub proof fn lemma_line_end_is(data: Seq<u8>, i: int, e: int)
    requires
        0 <= i < e <= data.len(),
        forall|q: int| i <= q < e - 1 ==> data[q] != 10,
        data[e - 1] == 10 || e == data.len(),
    ensures
        line_end(data, i) == e,
    decreases data.len() - i,
{
    if data[i] == 10 {
        assert(e == i + 1);
    } else {
        if e == i + 1 {
            assert(e == data.len());
            assert(line_end(data, i + 1) == data.len());
        } else {
            lemma_line_end_is(data, i + 1, e);
        }
    }
}

/// The start of the first line at or after line start `i` whose first byte is
/// the marker `t`, or the end of the buffer if there is none.
pub open spec fn next_marker(data: Seq<u8>, i: int) -> int
    decreases data.len() - i,
    via next_marker_decreases
{
    if 0 <= i < data.len() {
        if data[i] == 116 {
            i
        } else {
            next_marker(data, line_end(data, i))
        }
    } else {
        data.len() as int
    }
}

#[via_fn]
proof fn next_marker_decreases(data: Seq<u8>, i: int) {
    if 0 <= i < data.len() && data[i] != 116 {
        lemma_line_end(data, i);
    }
}

pub proof fn lemma_next_marker(data: Seq<u8>, i: int)
    requires
        0 <= i <= data.len(),
    ensures
        i <= next_marker(data, i) <= data.len(),
        next_marker(data, i) < data.len() ==> data[next_marker(data, i)] == 116,
    decreases data.len() - i,
{
    if 0 <= i < data.len() && data[i] != 116 {
        lemma_line_end(data, i);
        lemma_next_marker(data, line_end(data, i));
    }
}

/// Scanning for a marker from a marker line stays put.
pub proof fn lemma_next_marker_idem(data: Seq<u8>, i: int)
    requires
        0 <= i <= data.len(),
    ensures
        next_marker(data, next_marker(data, i)) == next_marker(data, i),
{
    lemma_next_marker(data, i);
}

/// The lines of `data` from line start `i` up to the line boundary `e`.
pub open spec fn lines_between(data: Seq<u8>, i: int, e: int) -> Seq<Seq<u8>>
    decreases e - i,
    via lines_between_decreases
{
    if 0 <= i < e <= data.len() {
        let le = line_end(data, i);
        let stop = if le <= e {
            le
        } else {
            e
        };
        seq![data.subrange(i, stop)] + lines_between(data, stop, e)
    } else {
        Seq::empty()
    }
}

#[via_fn]
proof fn lines_between_decreases(data: Seq<u8>, i: int, e: int) {
    if 0 <= i < e <= data.len() {
        lemma_line_end(data, i);
    }
}

/// The block boundaries found by scanning from `off`, at most `limit` of
/// them: each item is a start offset (its marker line's first byte) and an
/// end offset (the next block's start, or the end of the buffer).
pub open spec fn scan_spec(data: Seq<u8>, off: int, limit: int) -> Seq<(int, int)>
    decreases limit,
{
    if limit <= 0 || off < 0 {
        Seq::empty()
    } else {
        let p = next_marker(data, off);
        if p == data.len() {
            Seq::empty()
        } else {
            let e = next_marker(data, line_end(data, p));
            seq![(p, e)] + scan_spec(data, e, limit - 1)
        }
    }
}

/// Finds the end of the line starting at `i`.
#[verifier::loop_isolation(false)]
pub fn find_line_end(data: &[u8], i: usize) -> (r: usize)
    requires
        i <= data@.len(),
    ensures
        r == line_end(data@, i as int),
        i <= r <= data@.len(),
{
    let n = data.len();
    let mut j = i;
    while j < n && data[j] != 10
        invariant
            i <= j <= n,
            line_end(data@, i as int) == line_end(data@, j as int),
        decreases n - j,
    {
        j += 1;
    }
    proof {
        lemma_line_end(data@, i as int);
    }
    if j < n {
        j + 1
    } else {
        j
    }
}

/// Finds the next marker line start at or after line start `i`.
#[verifier::loop_isolation(false)]
pub fn find_next_marker(data: &[u8], i: usize) -> (r: usize)
    requires
        i <= data@.len(),
    ensures
        r == next_marker(data@, i as int),
        i <= r <= data@.len(),
{
    let n = data.len();
    let mut j = i;
    while j < n && data[j] != 116
        invariant
            i <= j <= n,
            next_marker(data@, i as int) == next_marker(data@, j as int),
        decreases n - j,
    {
        j = find_line_end(data, j);
        proof {
            lemma_line_end(data@, j as int);
        }
    }
    proof {
        lemma_next_marker(data@, i as int);
    }
    j
}

/// Scans for up to `limit` blocks from `off`, returning each block's (start,
/// end) offsets and, when `save_lines` is set, each block's raw lines.
#[verifier::loop_isolation(false)]
pub fn scan_blocks(data: &[u8], off: usize, limit: usize, save_lines: bool) -> (r: (
    Vec<(usize, usize)>,
    Vec<Vec<Vec<u8>>>,
))
    requires
        off <= data@.len(),
    ensures
        ({
            let sc = scan_spec(data@, off as int, limit as int);
            &&& r.0@.len() == sc.len()
            &&& forall|q: int|
                0 <= q < sc.len() ==> (#[trigger] r.0@[q]).0 == sc[q].0 && r.0@[q].1 == sc[q].1
            &&& save_lines ==> r.1.deep_view().len() == sc.len() && forall|q: int|
                0 <= q < sc.len() ==> #[trigger] r.1.deep_view()[q] == lines_between(
                    data@,
                    sc[q].0,
                    sc[q].1,
                )
            &&& !save_lines ==> r.1@.len() == 0
        }),
{
    let ghost sc = scan_spec(data@, off as int, limit as int);
    let n = data.len();
    let mut bounds: Vec<(usize, usize)> = Vec::new();
    let mut blockss: Vec<Vec<Vec<u8>>> = Vec::new();
    let mut cur = off;
    let mut count: usize = 0;
    while count < limit
        invariant
            count <= limit,
            cur <= n,
            bounds@.len() == count,
            save_lines ==> blockss@.len() == count,
            !save_lines ==> blockss@.len() == 0,
            forall|q: int|
                0 <= q < count ==> 0 <= (#[trigger] bounds@[q]).0 && bounds@[q].1 <= n,
            sc =~= bounds@.map_values(|b: (usize, usize)| (b.0 as int, b.1 as int)) + scan_spec(
                data@,
                cur as int,
                (limit - count) as int,
            ),
            forall|q: int|
                0 <= q < count && save_lines ==> #[trigger] blockss.deep_view()[q] == lines_between(
                    data@,
                    bounds@[q].0 as int,
                    bounds@[q].1 as int,
                ),
        decreases limit - count,
    {
        let p = find_next_marker(data, cur);
        if p == n {
            break ;
        }
        let le = find_line_end(data, p);
        let e = find_next_marker(data, le);
        let mut lines: Vec<Vec<u8>> = Vec::new();
        if save_lines {
            let mut li = p;
            proof {
                lemma_next_marker_idem(data@, le as int);
                assert(lines.deep_view() + lines_between(data@, li as int, e as int)
                    =~= lines_between(data@, p as int, e as int));
            }
            while li < e
                invariant
                    p <= li <= e,
                    next_marker(data@, li as int) == e || li == p,
                    lines.deep_view() + lines_between(data@, li as int, e as int) =~= lines_between(
                        data@,
                        p as int,
                        e as int,
                    ),
                decreases e - li,
            {
                let le2 = find_line_end(data, li);
                proof {
                    lemma_line_end(data@, li as int);
                    if li != p {
                        assert(data@[li as int] != 116);
                        assert(next_marker(data@, li as int) == next_marker(
                            data@,
                            line_end(data@, li as int),
                        ));
                    }
                    lemma_next_marker(data@, le2 as int);
                    assert(le2 <= e);
                }
                let piece = vstd::slice::slice_to_vec(
                    vstd::slice::slice_subrange(data, li, le2),
                );
                let ghost lold = lines.deep_view();
                lines.push(piece);
                proof {
                    assert(lines.deep_view() =~~= lold.push(data@.subrange(li as int, le2 as int)));
                    assert(lines_between(data@, li as int, e as int) == seq![
                        data@.subrange(li as int, le2 as int),
                    ] + lines_between(data@, le2 as int, e as int));
                    assert(lines.deep_view() + lines_between(data@, le2 as int, e as int)
                        =~= lines_between(data@, p as int, e as int));
                    if le2 < e {
                        assert(next_marker(data@, le2 as int) == e);
                    }
                }
                li = le2;
            }
        }
        let ghost boldv = bounds@;
        let ghost bsold = blockss.deep_view();
        bounds.push((p, e));
        if save_lines {
            blockss.push(lines);
            proof {
                assert(blockss.deep_view() =~~= bsold.push(lines.deep_view()));
            }
        }
        proof {
            assert(scan_spec(data@, cur as int, (limit - count) as int) == seq![(p as int, e as int)]
                + scan_spec(data@, e as int, (limit - count - 1) as int));
            assert(bounds@.map_values(|b: (usize, usize)| (b.0 as int, b.1 as int))
                =~= boldv.map_values(|b: (usize, usize)| (b.0 as int, b.1 as int)).push(
                (p as int, e as int),
            ));
            assert(sc =~= bounds@.map_values(|b: (usize, usize)| (b.0 as int, b.1 as int))
                + scan_spec(data@, e as int, (limit - (count + 1)) as int));
        }
        cur = e;
        count += 1;
    }
    proof {
        if count == limit {
            assert(scan_spec(data@, cur as int, 0) =~= Seq::<(int, int)>::empty());
        }
        assert(sc =~= bounds@.map_values(|b: (usize, usize)| (b.0 as int, b.1 as int)));
        assert forall|q: int| 0 <= q < sc.len() implies (#[trigger] bounds@[q]).0 == sc[q].0
            && bounds@[q].1 == sc[q].1 by {
            assert(sc[q] == bounds@.map_values(|b: (usize, usize)| (b.0 as int, b.1 as int))[q]);
        }
    }
    (bounds, blockss)
}

} // verus!
