use vstd::prelude::*;

verus! {

/// `pattern` occurs in `w` starting at offset `i`.
pub open spec fn matches_at(w: Seq<u8>, pattern: Seq<u8>, i: int) -> bool {
    0 <= i && i + pattern.len() <= w.len() && w.subrange(i, i + pattern.len()) == pattern
}

/// `i` is the lowest offset of `w` at which `pattern` occurs.
pub open spec fn is_first_match(w: Seq<u8>, pattern: Seq<u8>, i: int) -> bool {
    matches_at(w, pattern, i) && forall|j: int| 0 <= j < i ==> !matches_at(w, pattern, j)
}

fn matches_here(w: &Vec<u8>, pattern: &Vec<u8>, i: usize) -> (r: bool)
    requires
        i + pattern@.len() <= w@.len(),
    ensures
        r == matches_at(w@, pattern@, i as int),
{
    let k = pattern.len();
    let mut t: usize = 0;
    while t < k
        invariant
            i + k <= w@.len(),
            w@.len() == w.len(),
            k == pattern@.len(),
            t <= k,
            forall|u: int| 0 <= u < t ==> w@[i + u] == pattern@[u],
        decreases k - t,
    {
        if w[i + t] != pattern[t] {
            assert(w@.subrange(i as int, i + k)[t as int] != pattern@[t as int]);
            return false;
        }
        t = t + 1;
    }
    assert(w@.subrange(i as int, i + k) =~= pattern@);
    true
}

/// Offset of the first occurrence of `pattern` in `w`, searching every
/// offset at which the whole pattern fits.
pub fn first_match(w: &Vec<u8>, pattern: &Vec<u8>) -> (r: Option<usize>)
    ensures
        r matches Some(i) ==> is_first_match(w@, pattern@, i as int),
        r is None ==> forall|j: int| !matches_at(w@, pattern@, j),
{
    let k = pattern.len();
    if k > w.len() {
        return None;
    }
    let last = w.len() - k;
    let mut i: usize = 0;
    while i < last
        invariant
            k == pattern@.len(),
            last + k == w@.len(),
            i <= last,
            forall|j: int| 0 <= j < i ==> !matches_at(w@, pattern@, j),
        decreases last - i,
    {
        if matches_here(w, pattern, i) {
            return Some(i);
        }
        i = i + 1;
    }
    if matches_here(w, pattern, last) {
        Some(last)
    } else {
        None
    }
}

/// Absolute address of the first occurrence of `pattern` in a window read at
/// `base`.
pub fn find_in_window(window: &Vec<u8>, base: usize, pattern: &Vec<u8>) -> (r: Option<usize>)
    requires
        base + window@.len() <= usize::MAX,
    ensures
        r matches Some(a) ==> a >= base && is_first_match(window@, pattern@, a - base),
        r is None ==> forall|j: int| !matches_at(window@, pattern@, j),
{
    match first_match(window, pattern) {
        Some(i) => Some(base + i),
        None => None,
    }
}

} // verus!
