use crate::scan::{
    cells, lemma_stream_prefix, lemma_stream_push, occurs_in, reports, stream, windows_sized, sized,
};
use vstd::prelude::*;

verus! {

/// A scan's answer is determined by what it read: two answers to the same
/// stream are equal, however the windows were buffered.
pub proof fn lemma_reports_unique(
    s: Seq<Option<u8>>,
    lower: int,
    p: Seq<u8>,
    r1: Option<usize>,
    r2: Option<usize>,
)
    requires
        reports(s, lower, p, r1),
        reports(s, lower, p, r2),
    ensures
        r1 == r2,
{
    if let (Some(a), Some(b)) = (r1, r2) {
        assert(!(a < b) && !(b < a));
    }
}

/// A pattern lying at address `a` with no occurrence below it is found at `a`.
pub proof fn lemma_planted_found(s: Seq<Option<u8>>, lower: int, p: Seq<u8>, a: int, r: Option<usize>)
    requires
        lower <= a,
        occurs_in(s, p, a - lower),
        forall|o: int| 0 <= o < a - lower ==> !occurs_in(s, p, o),
        reports(s, lower, p, r),
    ensures
        r matches Some(x) && x == a,
{
    if let Some(x) = r {
        assert(!(x < a) && !(a < x));
    }
}

/// Where the pattern occurs at two places, the scan reports the lower one or
/// one lower still, never the higher.
pub proof fn lemma_lowest_reported(
    s: Seq<Option<u8>>,
    lower: int,
    p: Seq<u8>,
    o1: int,
    o2: int,
    r: Option<usize>,
)
    requires
        occurs_in(s, p, o1),
        occurs_in(s, p, o2),
        o1 < o2,
        reports(s, lower, p, r),
    ensures
        r matches Some(x) && x <= lower + o1,
{
}

/// Where the pattern occurs nowhere in the stream, the scan reports nothing.
pub proof fn lemma_absent_not_found(s: Seq<Option<u8>>, lower: int, p: Seq<u8>, r: Option<usize>)
    requires
        forall|o: int| !occurs_in(s, p, o),
        reports(s, lower, p, r),
    ensures
        r is None,
{
}

/// The stream of the windows up to and including `j + 1` ends with the cells
/// of windows `j` and `j + 1`, and is a prefix of the whole stream.
proof fn lemma_two_windows(ws: Seq<Option<Seq<u8>>>, chunk: nat, j: int)
    requires
        0 <= j,
        j + 1 < ws.len(),
    ensures
        stream(ws.take(j + 1), chunk) == stream(ws.take(j), chunk) + cells(ws[j], chunk),
        stream(ws.take(j + 2), chunk) == stream(ws.take(j + 1), chunk) + cells(ws[j + 1], chunk),
        stream(ws.take(j + 2), chunk).len() <= stream(ws, chunk).len(),
        forall|i: int|
            0 <= i < stream(ws.take(j + 2), chunk).len() ==> stream(ws.take(j + 2), chunk)[i]
                == stream(ws, chunk)[i],
{
    assert(ws.take(j).push(ws[j]) =~= ws.take(j + 1));
    assert(ws.take(j + 1).push(ws[j + 1]) =~= ws.take(j + 2));
    lemma_stream_push(ws.take(j), ws[j], chunk);
    lemma_stream_push(ws.take(j + 1), ws[j + 1], chunk);
    lemma_stream_prefix(ws, j + 2, chunk);
}

/// A pattern that starts in the last `d` bytes of readable window `j` and
/// ends in readable window `j + 1` is found at its start, where nothing
/// occurs below it.
pub proof fn lemma_boundary_match_found(
    ws: Seq<Option<Seq<u8>>>,
    chunk: nat,
    lower: int,
    p: Seq<u8>,
    j: int,
    d: int,
    r: Option<usize>,
)
    requires
        windows_sized(ws, chunk),
        0 <= j,
        j + 1 < ws.len(),
        0 < d < p.len(),
        p.len() <= chunk,
        ws[j] is Some,
        ws[j + 1] is Some,
        ws[j]->Some_0.subrange(chunk - d, chunk as int) == p.take(d),
        ws[j + 1]->Some_0.subrange(0, p.len() - d) == p.skip(d),
        forall|o: int|
            0 <= o < stream(ws.take(j + 1), chunk).len() - d ==> !occurs_in(stream(ws, chunk), p, o),
        reports(stream(ws, chunk), lower, p, r),
    ensures
        r matches Some(x) && x == lower + stream(ws.take(j + 1), chunk).len() - d,
{
    let s = stream(ws, chunk);
    let b0 = ws[j]->Some_0;
    let b1 = ws[j + 1]->Some_0;
    let k = p.len() as int;
    lemma_two_windows(ws, chunk, j);
    assert(sized(ws[j], chunk));
    assert(sized(ws[j + 1], chunk));
    let pre = stream(ws.take(j), chunk);
    let s2 = stream(ws.take(j + 2), chunk);
    let o = pre.len() + chunk - d;
    assert(stream(ws.take(j + 1), chunk).len() == pre.len() + chunk);
    assert forall|t: int| 0 <= t < k implies s[o + t] == Some(p[t]) by {
        assert(s2[o + t] == s[o + t]);
        if t < d {
            assert(s2[o + t] == Some(b0[chunk - d + t]));
            assert(b0.subrange(chunk - d, chunk as int)[t] == p.take(d)[t]);
        } else {
            assert(s2[o + t] == Some(b1[t - d]));
            assert(b1.subrange(0, k - d)[t - d] == p.skip(d)[t - d]);
        }
    }
    assert(occurs_in(s, p, o));
    lemma_planted_found(s, lower, p, lower + o, r);
}

/// A pattern lying wholly in readable window `j`, at offset `i` of it, is
/// found there where nothing occurs below it, whichever other windows could
/// not be read.
pub proof fn lemma_readable_window_match_found(
    ws: Seq<Option<Seq<u8>>>,
    chunk: nat,
    lower: int,
    p: Seq<u8>,
    j: int,
    i: int,
    r: Option<usize>,
)
    requires
        windows_sized(ws, chunk),
        0 <= j < ws.len(),
        0 <= i,
        i + p.len() <= chunk,
        i < chunk,
        ws[j] is Some,
        ws[j]->Some_0.subrange(i, i + p.len()) == p,
        forall|o: int|
            0 <= o < stream(ws.take(j), chunk).len() + i ==> !occurs_in(stream(ws, chunk), p, o),
        reports(stream(ws, chunk), lower, p, r),
    ensures
        r matches Some(x) && x == lower + stream(ws.take(j), chunk).len() + i,
{
    let s = stream(ws, chunk);
    let b = ws[j]->Some_0;
    assert(ws.take(j).push(ws[j]) =~= ws.take(j + 1));
    lemma_stream_push(ws.take(j), ws[j], chunk);
    lemma_stream_prefix(ws, j + 1, chunk);
    assert(sized(ws[j], chunk));
    let pre = stream(ws.take(j), chunk);
    let s1 = stream(ws.take(j + 1), chunk);
    let o = pre.len() + i;
    assert forall|t: int| 0 <= t < p.len() implies s[o + t] == Some(p[t]) by {
        assert(s1[o + t] == s[o + t]);
        assert(s1[o + t] == Some(b[i + t]));
        assert(b.subrange(i, i + p.len())[t] == p[t]);
    }
    assert(s1[o] == s[o]);
    assert(occurs_in(s, p, o));
    lemma_planted_found(s, lower, p, lower + o, r);
}

} // verus!
