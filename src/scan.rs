use crate::remote::RemoteProcess;
use crate::window::{first_match, is_first_match, matches_at};
use vstd::prelude::*;

verus! {

/// What a scan sees of one window: its bytes, or `chunk` unreadable cells.
pub open spec fn cells(w: Option<Seq<u8>>, chunk: nat) -> Seq<Option<u8>> {
    match w {
        Some(b) => b.map_values(|x: u8| Some(x)),
        None => Seq::new(chunk, |i: int| None::<u8>),
    }
}

/// The address space from the lower bound on, as seen through the windows
/// read in order.
pub open spec fn stream(ws: Seq<Option<Seq<u8>>>, chunk: nat) -> Seq<Option<u8>>
    decreases ws.len(),
{
    if ws.len() == 0 {
        Seq::empty()
    } else {
        stream(ws.drop_last(), chunk) + cells(ws.last(), chunk)
    }
}

/// `pattern` lies at offset `o` of `s`, every byte of it readable.
pub open spec fn occurs_in(s: Seq<Option<u8>>, pattern: Seq<u8>, o: int) -> bool {
    0 <= o < s.len() && o + pattern.len() <= s.len() && s[o] is Some && forall|t: int|
        0 <= t < pattern.len() ==> s[o + t] == Some(pattern[t])
}

/// `o` is the lowest offset of `s` at which `pattern` lies.
pub open spec fn first_in(s: Seq<Option<u8>>, pattern: Seq<u8>, o: int) -> bool {
    occurs_in(s, pattern, o) && forall|j: int| 0 <= j < o ==> !occurs_in(s, pattern, j)
}

/// `r` is the answer of a scan of `s`, whose first cell is at address `lower`:
/// the lowest address of an occurrence, or `None` when there is none.
pub open spec fn reports(s: Seq<Option<u8>>, lower: int, pattern: Seq<u8>, r: Option<usize>) -> bool {
    match r {
        Some(a) => a >= lower && first_in(s, pattern, a - lower),
        None => forall|o: int| !occurs_in(s, pattern, o),
    }
}

/// A readable window holds exactly `chunk` bytes.
pub open spec fn sized(w: Option<Seq<u8>>, chunk: nat) -> bool {
    w matches Some(b) ==> b.len() == chunk
}

pub open spec fn windows_sized(ws: Seq<Option<Seq<u8>>>, chunk: nat) -> bool {
    forall|j: int| 0 <= j < ws.len() ==> sized(#[trigger] ws[j], chunk)
}

/// Number of windows of `chunk` bytes whose bases lie in `[lower, upper)`.
pub open spec fn steps(lower: int, upper: int, chunk: int) -> nat
    decreases (if upper > lower {
        upper - lower
    } else {
        0
    }),
{
    if lower >= upper || chunk <= 0 {
        0
    } else {
        1 + steps(lower + chunk, upper, chunk)
    }
}

pub open spec fn window_view(w: Option<Vec<u8>>) -> Option<Seq<u8>> {
    match w {
        Some(b) => Some(b@),
        None => None,
    }
}

/// The parameters of one scan.
pub struct ScanConfig {
    pub lower: usize,
    pub upper: usize,
    pub chunk_size: usize,
    pub pattern: Vec<u8>,
}

impl ScanConfig {
    /// Windows are non-empty, the pattern fits in one, and every window read
    /// from a base below `upper` ends within the address space.
    pub open spec fn valid(&self) -> bool {
        1 <= self.chunk_size && self.pattern@.len() <= self.chunk_size && self.lower
            <= self.upper && self.upper + self.chunk_size <= usize::MAX
    }
}

pub proof fn lemma_stream_push(ws: Seq<Option<Seq<u8>>>, w: Option<Seq<u8>>, chunk: nat)
    ensures
        stream(ws.push(w), chunk) == stream(ws, chunk) + cells(w, chunk),
{
    assert(ws.push(w).drop_last() =~= ws);
}

/// `carry` is the tail of `s` in which an occurrence of `pattern` that runs
/// past the end of `s` would have to start, and `s` holds no occurrence yet.
pub open spec fn carries_tail(s: Seq<Option<u8>>, carry: Seq<u8>, pattern: Seq<u8>) -> bool {
    let k = pattern.len();
    &&& carry.len() <= s.len()
    &&& (k == 0 ==> carry.len() == 0)
    &&& (k > 0 ==> carry.len() <= k - 1)
    &&& forall|t: int| 0 <= t < carry.len() ==> s[s.len() - carry.len() + t] == Some(carry[t])
    &&& (k > 0 && s.len() > 0 && s[s.len() - 1] is Some) ==> carry.len() == k - 1
    &&& forall|o: int| !occurs_in(s, pattern, o)
}

/// Appending a readable window to a stream that carries its tail: every
/// occurrence in the longer stream starts in the carried tail or the window,
/// and lies there as a match in the two joined.
proof fn lemma_joined_window(s: Seq<Option<u8>>, carry: Seq<u8>, bytes: Seq<u8>, p: Seq<u8>)
    requires
        carries_tail(s, carry, p),
    ensures
        ({
            let s2 = s + bytes.map_values(|x: u8| Some(x));
            let st = s.len() - carry.len();
            let buf = carry + bytes;
            &&& forall|o: int|
                occurs_in(s2, p, o) ==> o >= st && matches_at(buf, p, o - st)
            &&& forall|i: int|
                matches_at(buf, p, i) && i < buf.len() ==> occurs_in(s2, p, st + i)
        }),
{
    let s2 = s + bytes.map_values(|x: u8| Some(x));
    let st = s.len() - carry.len();
    let buf = carry + bytes;
    let k = p.len();
    assert forall|idx: int| 0 <= idx < buf.len() implies s2[st + idx] == Some(buf[idx]) by {
        if idx < carry.len() {
            assert(s2[st + idx] == s[st + idx]);
        }
    }
    assert forall|o: int| occurs_in(s2, p, o) implies o >= st && matches_at(buf, p, o - st) by {
        if o < st {
            if o + k <= s.len() {
                assert forall|t: int| 0 <= t < k implies s[o + t] == Some(p[t]) by {
                    assert(s2[o + t] == s[o + t]);
                }
                assert(s2[o] == s[o]);
                assert(occurs_in(s, p, o));
            } else {
                assert(s2[s.len() - 1] == Some(p[s.len() - 1 - o]));
                assert(s2[s.len() - 1] == s[s.len() - 1]);
            }
        }
        let i = o - st;
        assert forall|t: int| 0 <= t < k implies buf.subrange(i, i + k)[t] == p[t] by {
            assert(s2[st + (i + t)] == Some(buf[i + t]));
        }
        assert(buf.subrange(i, i + k) =~= p);
    }
    assert forall|i: int| matches_at(buf, p, i) && i < buf.len() implies occurs_in(
        s2,
        p,
        st + i,
    ) by {
        assert forall|t: int| 0 <= t < k implies s2[st + i + t] == Some(p[t]) by {
            assert(buf.subrange(i, i + k)[t] == p[t]);
            assert(s2[st + (i + t)] == Some(buf[i + t]));
        }
        assert(s2[st + i] == Some(buf[i]));
    }
}

/// The scan's progress: the next window base, the tail of the last window
/// that a match across the boundary may start in, and the windows read.
pub struct Scanner {
    config: ScanConfig,
    cursor: usize,
    carry: Vec<u8>,
    finished: bool,
    seen: Ghost<Seq<Option<Seq<u8>>>>,
}

impl Scanner {
    pub closed spec fn config(&self) -> ScanConfig {
        self.config
    }

    pub closed spec fn cursor(&self) -> int {
        self.cursor as int
    }

    pub closed spec fn finished(&self) -> bool {
        self.finished
    }

    /// The windows read so far, in order.
    pub closed spec fn history(&self) -> Seq<Option<Seq<u8>>> {
        self.seen@
    }

    pub open spec fn seen_stream(&self) -> Seq<Option<u8>> {
        stream(self.history(), self.config().chunk_size as nat)
    }

    /// There is a window left to read.
    pub open spec fn has_next(&self) -> bool {
        !self.finished() && self.cursor() < self.config().upper
    }

    pub closed spec fn wf(&self) -> bool {
        let c = self.config;
        let s = stream(self.seen@, c.chunk_size as nat);
        let k = c.pattern@.len();
        &&& c.valid()
        &&& c.lower <= self.cursor
        &&& self.cursor <= c.upper + c.chunk_size
        &&& self.cursor == c.lower + s.len()
        &&& steps(c.lower as int, c.upper as int, c.chunk_size as int) == self.seen@.len() + steps(
            self.cursor as int,
            c.upper as int,
            c.chunk_size as int,
        )
        &&& windows_sized(self.seen@, c.chunk_size as nat)
        &&& !self.finished ==> carries_tail(s, self.carry@, c.pattern@)
    }

    /// What a well-formed scanner guarantees of its progress.
    pub proof fn lemma_progress(&self)
        requires
            self.wf(),
        ensures
            self.config().valid(),
            windows_sized(self.history(), self.config().chunk_size as nat),
            self.cursor() == self.config().lower + self.seen_stream().len(),
            steps(
                self.config().lower as int,
                self.config().upper as int,
                self.config().chunk_size as int,
            ) == self.history().len() + steps(
                self.cursor(),
                self.config().upper as int,
                self.config().chunk_size as int,
            ),
            !self.finished() ==> forall|o: int|
                !occurs_in(self.seen_stream(), self.config().pattern@, o),
    {
    }

    /// A scanner that has read nothing, its cursor at the lower bound.
    pub fn new(config: ScanConfig) -> (r: Scanner)
        requires
            config.valid(),
        ensures
            r.wf(),
            r.config() == config,
            r.cursor() == config.lower,
            r.history() == Seq::<Option<Seq<u8>>>::empty(),
            !r.finished(),
    {
        let lower = config.lower;
        Scanner {
            config,
            cursor: lower,
            carry: Vec::new(),
            finished: false,
            seen: Ghost(Seq::empty()),
        }
    }

    /// Base of the next window to read, or `None` when the range is exhausted
    /// or a match was reported.
    pub fn next_base(&self) -> (r: Option<usize>)
        requires
            self.wf(),
        ensures
            self.has_next() ==> r == Some(self.cursor() as usize),
            !self.has_next() ==> r is None,
    {
        if !self.finished && self.cursor < self.config.upper {
            Some(self.cursor)
        } else {
            None
        }
    }

    /// A readable window holds exactly `chunk` bytes.
pub open spec fn sized(w: Option<Seq<u8>>, chunk: nat) -> bool {
    w matches Some(b) ==> b.len() == chunk
}

pub open spec fn windows_sized(ws: Seq<Option<Seq<u8>>>, chunk: nat) -> bool {
    forall|j: int| 0 <= j < ws.len() ==> sized(#[trigger] ws[j], chunk)
}

/// Number of windows read so far.
    pub fn visited(&self) -> (r: usize)
        requires
            self.wf(),
        ensures
            r == self.history().len(),
    {
        proof {
            self.lemma_history_bound();
        }
        ((self.cursor - self.config.lower) / self.config.chunk_size) as usize
    }

    proof fn lemma_history_bound(&self)
        requires
            self.wf(),
        ensures
            self.history().len() * self.config().chunk_size == self.cursor() - self.config().lower,
            (self.cursor() - self.config().lower) / (self.config().chunk_size as int)
                == self.history().len(),
    {
        let c = self.config.chunk_size as nat;
        lemma_stream_len(self.seen@, c);
        let n = self.seen@.len();
        assert((n * c) / c == n) by (nonlinear_arith)
            requires
                c > 0,
        ;
    }

    /// Takes the outcome of reading the window at the cursor (its bytes, or
    /// `None` when it was unreadable) and moves the cursor one window on.
    /// Returns the address of the first occurrence of the pattern in all that
    /// has been read, as soon as the whole of one has been read.
    pub fn feed(&mut self, window: Option<Vec<u8>>) -> (r: Option<usize>)
        requires
            old(self).wf(),
            old(self).has_next(),
            window matches Some(b) ==> b@.len() == old(self).config().chunk_size,
        ensures
            final(self).wf(),
            final(self).config() == old(self).config(),
            final(self).history() == old(self).history().push(window_view(window)),
            final(self).cursor() == old(self).cursor() + old(self).config().chunk_size,
            final(self).finished() == (r is Some),
            reports(
                final(self).seen_stream(),
                final(self).config().lower as int,
                final(self).config().pattern@,
                r,
            ),
    {
        let ghost c = self.config.chunk_size as nat;
        let ghost p = self.config.pattern@;
        let ghost k = p.len();
        let ghost s = stream(self.seen@, c);
        let ghost w = window_view(window);
        let ghost s2 = s + cells(w, c);
        proof {
            lemma_stream_push(self.seen@, w, c);
            self.seen@ = self.seen@.push(w);
            assert(self.seen@.len() == old(self).seen@.len() + 1);
            assert forall|j: int| 0 <= j < self.seen@.len() implies sized(
                #[trigger] self.seen@[j],
                c,
            ) by {
                if j < old(self).seen@.len() {
                    assert(self.seen@[j] == old(self).seen@[j]);
                }
            }
        }
        let chunk = self.config.chunk_size;
        let base = self.cursor;
        self.cursor = self.cursor + chunk;
        match window {
            None => {
                self.carry = Vec::new();
                proof {
                    lemma_steps_step(self.config.lower as int, self.config.upper as int, chunk as int, base as int);
                    lemma_unreadable_window(s, old(self).carry@, p, c);
                }
                None
            },
            Some(bytes) => {
                let k_len = self.config.pattern.len();
                let mut buf: Vec<u8> = Vec::new();
                let mut t: usize = 0;
                while t < self.carry.len()
                    invariant
                        t <= self.carry@.len(),
                        buf@ == self.carry@.subrange(0, t as int),
                    decreases self.carry@.len() - t,
                {
                    buf.push(self.carry[t]);
                    t = t + 1;
                }
                let start = base - self.carry.len();
                t = 0;
                while t < chunk
                    invariant
                        t <= chunk,
                        chunk == bytes@.len(),
                        buf@ == self.carry@ + bytes@.subrange(0, t as int),
                    decreases chunk - t,
                {
                    buf.push(bytes[t]);
                    t = t + 1;
                }
                proof {
                    assert(bytes@.subrange(0, chunk as int) =~= bytes@);
                }
                let ghost bv = bytes@;
                let ghost carry = self.carry@;
                proof {
                    lemma_steps_step(self.config.lower as int, self.config.upper as int, chunk as int, base as int);
                    assert(cells(w, c) == bv.map_values(|x: u8| Some(x)));
                }
                let found = first_match(&buf, &self.config.pattern);
                match found {
                    Some(i) => {
                        self.finished = true;
                        proof {
                            lemma_readable_match(s, carry, bv, p, i as int);
                        }
                        Some(start + i)
                    },
                    None => {
                        let mut tail: Vec<u8> = Vec::new();
                        if k_len > 0 {
                            let from = chunk - (k_len - 1);
                            let mut t: usize = from;
                            while t < chunk
                                invariant
                                    from <= t <= chunk,
                                    chunk == bytes@.len(),
                                    tail@ == bytes@.subrange(from as int, t as int),
                                decreases chunk - t,
                            {
                                tail.push(bytes[t]);
                                t = t + 1;
                            }
                        }
                        self.carry = tail;
                        proof {
                            lemma_readable_no_match(s, carry, bv, p, tail@);
                        }
                        None
                    },
                }
            },
        }
    }
}

proof fn lemma_steps_step(lower: int, upper: int, chunk: int, base: int)
    requires
        chunk > 0,
        base < upper,
    ensures
        steps(base, upper, chunk) == 1 + steps(base + chunk, upper, chunk),
{
}

/// After an unreadable window nothing is carried, and no occurrence appears.
proof fn lemma_unreadable_window(s: Seq<Option<u8>>, carry: Seq<u8>, p: Seq<u8>, c: nat)
    requires
        carries_tail(s, carry, p),
        c >= 1,
    ensures
        carries_tail(s + cells(None, c), Seq::empty(), p),
{
    let s2 = s + cells(None, c);
    let k = p.len();
    assert(s2[s2.len() - 1] is None);
    assert forall|o: int| !occurs_in(s2, p, o) by {
        if occurs_in(s2, p, o) {
            if k == 0 {
                if o >= s.len() {
                    assert(s2[o] is None);
                } else {
                    assert(s2[o] == s[o]);
                    assert(occurs_in(s, p, o));
                }
            } else if o + k <= s.len() {
                assert forall|t: int| 0 <= t < k implies s[o + t] == Some(p[t]) by {
                    assert(s2[o + t] == s[o + t]);
                }
                assert(s2[o] == s[o]);
                assert(occurs_in(s, p, o));
            } else {
                assert(s2[o + k - 1] == Some(p[k - 1]));
                assert(s2[o + k - 1] is None);
            }
        }
    }
}

/// A match found in the carried tail joined with a readable window is the
/// first occurrence in the stream extended by that window.
proof fn lemma_readable_match(s: Seq<Option<u8>>, carry: Seq<u8>, bytes: Seq<u8>, p: Seq<u8>, i: int)
    requires
        carries_tail(s, carry, p),
        bytes.len() >= 1,
        is_first_match(carry + bytes, p, i),
    ensures
        first_in(s + bytes.map_values(|x: u8| Some(x)), p, s.len() - carry.len() + i),
{
    let s2 = s + bytes.map_values(|x: u8| Some(x));
    let buf = carry + bytes;
    let st = s.len() - carry.len();
    lemma_joined_window(s, carry, bytes, p);
    if p.len() == 0 {
        assert(buf.subrange(0, 0) =~= p);
        assert(matches_at(buf, p, 0));
    }
    assert(occurs_in(s2, p, st + i));
    assert forall|j: int| 0 <= j < st + i implies !occurs_in(s2, p, j) by {
        if occurs_in(s2, p, j) {
            assert(matches_at(buf, p, j - st));
        }
    }
}

/// Where the carried tail joined with a readable window holds no match, the
/// extended stream holds no occurrence, and its tail is the last bytes of the
/// window.
proof fn lemma_readable_no_match(
    s: Seq<Option<u8>>,
    carry: Seq<u8>,
    bytes: Seq<u8>,
    p: Seq<u8>,
    tail: Seq<u8>,
)
    requires
        carries_tail(s, carry, p),
        1 <= bytes.len(),
        p.len() <= bytes.len(),
        forall|j: int| !matches_at(carry + bytes, p, j),
        p.len() == 0 ==> tail.len() == 0,
        p.len() > 0 ==> tail == bytes.subrange(bytes.len() - (p.len() - 1), bytes.len() as int),
    ensures
        carries_tail(s + bytes.map_values(|x: u8| Some(x)), tail, p),
{
    let s2 = s + bytes.map_values(|x: u8| Some(x));
    let st = s.len() - carry.len();
    let c = bytes.len() as int;
    lemma_joined_window(s, carry, bytes, p);
    assert forall|o: int| !occurs_in(s2, p, o) by {
        if occurs_in(s2, p, o) {
            assert(matches_at(carry + bytes, p, o - st));
        }
    }
    let tl = tail.len() as int;
    assert forall|t: int| 0 <= t < tl implies s2[s2.len() - tl + t] == Some(tail[t]) by {
        assert(s2[s.len() + (c - tl + t)] == Some(bytes[c - tl + t]));
    }
    assert(s2[s2.len() - 1] == Some(bytes[c - 1]));
}

/// The stream of the first `j` windows is a prefix of the stream of all.
pub proof fn lemma_stream_prefix(ws: Seq<Option<Seq<u8>>>, j: int, chunk: nat)
    requires
        0 <= j <= ws.len(),
    ensures
        stream(ws.take(j), chunk).len() <= stream(ws, chunk).len(),
        forall|i: int|
            0 <= i < stream(ws.take(j), chunk).len() ==> stream(ws.take(j), chunk)[i] == stream(
                ws,
                chunk,
            )[i],
    decreases ws.len(),
{
    if j == ws.len() {
        assert(ws.take(j) =~= ws);
    } else {
        let ws0 = ws.drop_last();
        assert(ws0.take(j) =~= ws.take(j));
        lemma_stream_prefix(ws0, j, chunk);
    }
}

/// The first occurrence in a prefix of a stream is the first in the stream.
proof fn lemma_first_in_extends(s1: Seq<Option<u8>>, s2: Seq<Option<u8>>, p: Seq<u8>, o: int)
    requires
        s1.len() <= s2.len(),
        forall|i: int| 0 <= i < s1.len() ==> s1[i] == s2[i],
        first_in(s1, p, o),
    ensures
        first_in(s2, p, o),
{
    assert(s1[o] == s2[o]);
    assert forall|t: int| 0 <= t < p.len() implies s2[o + t] == Some(p[t]) by {
        assert(s1[o + t] == s2[o + t]);
    }
    assert forall|j: int| 0 <= j < o implies !occurs_in(s2, p, j) by {
        if occurs_in(s2, p, j) {
            assert(s1[j] == s2[j]);
            assert forall|t: int| 0 <= t < p.len() implies s1[j + t] == Some(p[t]) by {
                assert(s1[j + t] == s2[j + t]);
            }
            assert(occurs_in(s1, p, j));
        }
    }
}

/// A simulated address space, window by window.
pub open spec fn memory_view(memory: Seq<Option<Vec<u8>>>) -> Seq<Option<Seq<u8>>> {
    memory.map_values(|w: Option<Vec<u8>>| window_view(w))
}

/// The windows that a scan with `config` reads from `memory`.
pub open spec fn scanned(config: ScanConfig, memory: Seq<Option<Vec<u8>>>) -> Seq<Option<Seq<u8>>> {
    memory_view(memory).take(
        steps(config.lower as int, config.upper as int, config.chunk_size as int) as int,
    )
}

fn copy_window(w: &Option<Vec<u8>>) -> (r: Option<Vec<u8>>)
    ensures
        window_view(r) == window_view(*w),
{
    match w {
        Some(b) => {
            let mut out: Vec<u8> = Vec::new();
            let mut t: usize = 0;
            while t < b.len()
                invariant
                    t <= b@.len(),
                    out@ == b@.subrange(0, t as int),
                decreases b@.len() - t,
            {
                out.push(b[t]);
                t = t + 1;
            }
            proof {
                assert(b@.subrange(0, b@.len() as int) =~= b@);
            }
            Some(out)
        },
        None => None,
    }
}

/// Scans a simulated address space: `memory[j]` is what reading the window at
/// `lower + j * chunk_size` gives, `None` where it is unreadable. Returns the
/// lowest address in the windows from `lower` up to `upper` at which the
/// pattern lies wholly in readable memory, across window boundaries too.
pub fn scan_memory(config: ScanConfig, memory: &Vec<Option<Vec<u8>>>) -> (r: Option<usize>)
    requires
        config.valid(),
        memory@.len() >= steps(config.lower as int, config.upper as int, config.chunk_size as int),
        windows_sized(memory_view(memory@), config.chunk_size as nat),
    ensures
        reports(
            stream(scanned(config, memory@), config.chunk_size as nat),
            config.lower as int,
            config.pattern@,
            r,
        ),
{
    let ghost cfg = config;
    let ghost c = config.chunk_size as nat;
    let ghost n = steps(config.lower as int, config.upper as int, config.chunk_size as int);
    let ghost mv = memory_view(memory@);
    let mut scanner = Scanner::new(config);
    let mut j: usize = 0;
    while scanner.next_base().is_some()
        invariant
            scanner.wf(),
            scanner.config() == cfg,
            cfg == config,
            !scanner.finished(),
            j == scanner.history().len(),
            scanner.history() == mv.take(j as int),
            memory@.len() >= n,
            mv == memory_view(memory@),
            windows_sized(mv, c),
            c == cfg.chunk_size,
            n == steps(cfg.lower as int, cfg.upper as int, cfg.chunk_size as int),
        decreases n - j,
    {
        proof {
            scanner.lemma_progress();
            lemma_steps_step(cfg.lower as int, cfg.upper as int, cfg.chunk_size as int, scanner.cursor());
            assert(j < n);
        }
        assert(j < memory.len());
        let w = copy_window(&memory[j]);
        proof {
            assert(window_view(w) == mv[j as int]);
            assert(sized(mv[j as int], c));
        }
        let found = scanner.feed(w);
        proof {
            assert(mv.take(j as int).push(mv[j as int]) =~= mv.take(j + 1));
        }
        j = j + 1;
        if let Some(a) = found {
            proof {
                scanner.lemma_progress();
                assert(j <= n);
                let ws = mv.take(n as int);
                assert(ws == scanned(config, memory@));
                assert(ws.take(j as int) =~= mv.take(j as int));
                lemma_stream_prefix(ws, j as int, c);
                lemma_first_in_extends(
                    stream(mv.take(j as int), c),
                    stream(ws, c),
                    cfg.pattern@,
                    a - cfg.lower,
                );
            }
            return Some(a);
        }
    }
    proof {
        scanner.lemma_progress();
    }
    None
}

/// `r` is the answer of a scan with `config` that read the windows `ws`, in
/// order from the lower bound; a scan that found nothing read every window.
pub open spec fn explains(config: ScanConfig, ws: Seq<Option<Seq<u8>>>, r: Option<usize>) -> bool {
    let n = steps(config.lower as int, config.upper as int, config.chunk_size as int);
    &&& ws.len() <= n
    &&& windows_sized(ws, config.chunk_size as nat)
    &&& reports(stream(ws, config.chunk_size as nat), config.lower as int, config.pattern@, r)
    &&& r is None ==> ws.len() == n
}

/// Scans the memory of a running process from `lower` up to `upper`, one
/// window of `chunk_size` bytes at a time; unreadable windows are passed over.
/// Whatever the reads gave, the result is the lowest address at which the
/// pattern lies wholly in what was read, and `None` only once every window of
/// the range was tried.
pub fn scan_range(process: &RemoteProcess, config: ScanConfig) -> (r: Option<usize>)
    requires
        config.valid(),
    ensures
        exists|ws: Seq<Option<Seq<u8>>>| #[trigger] explains(config, ws, r),
{
    let ghost cfg = config;
    let ghost n = steps(config.lower as int, config.upper as int, config.chunk_size as int);
    let chunk = config.chunk_size;
    let mut scanner = Scanner::new(config);
    loop
        invariant
            scanner.wf(),
            scanner.config() == cfg,
            cfg == config,
            !scanner.finished(),
            chunk == cfg.chunk_size,
            n == steps(cfg.lower as int, cfg.upper as int, cfg.chunk_size as int),
        decreases n - scanner.history().len(),
    {
        proof {
            scanner.lemma_progress();
        }
        match scanner.next_base() {
            None => {
                proof {
                    let ws = scanner.history();
                    assert(explains(cfg, ws, None));
                }
                return None;
            },
            Some(base) => {
                let w = process.read_window(base, chunk);
                let found = scanner.feed(w);
                proof {
                    scanner.lemma_progress();
                }
                if found.is_some() {
                    proof {
                        let ws = scanner.history();
                        assert(explains(cfg, ws, found));
                    }
                    return found;
                }
            },
        }
    }
}

proof fn lemma_stream_len(ws: Seq<Option<Seq<u8>>>, chunk: nat)
    requires
        windows_sized(ws, chunk),
    ensures
        stream(ws, chunk).len() == ws.len() * chunk,
    decreases ws.len(),
{
    if ws.len() > 0 {
        let ws0 = ws.drop_last();
        assert forall|j: int| 0 <= j < ws0.len() implies sized(#[trigger] ws0[j], chunk) by {
            assert(ws0[j] == ws[j]);
        }
        lemma_stream_len(ws0, chunk);
        assert(ws.len() * chunk == ws0.len() * chunk + chunk) by (nonlinear_arith)
            requires
                ws.len() == ws0.len() + 1,
        ;
    }
}

} // verus!
