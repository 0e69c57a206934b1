use vstd::prelude::*;
use vstd::std_specs::iter::IteratorSpec;
use vstd::string::StringSliceAdditionalSpecFns;

verus! {

/// Where a match address lies: the base of the window of `chunk` bytes,
/// counted from `lower`, that holds it, and its offset in that window.
pub fn window_of(lower: usize, chunk: usize, address: usize) -> (r: (usize, usize))
    requires
        1 <= chunk,
        lower <= address,
    ensures
        r.0 == lower + ((address - lower) / (chunk as int)) * chunk,
        r.1 == (address - lower) % (chunk as int),
        r.0 + r.1 == address,
        r.1 < chunk,
{
    let rel = address - lower;
    let q = rel / chunk;
    let off = rel % chunk;
    proof {
        assert(q * chunk + off == rel) by (nonlinear_arith)
            requires
                q == rel / chunk,
                off == rel % chunk,
                chunk >= 1,
        ;
        assert(q * chunk <= rel) by (nonlinear_arith)
            requires
                q * chunk + off == rel,
                off >= 0,
        ;
    }
    (lower + q * chunk, off)
}

/// The index of the last entry of `processes` named `name`.
pub open spec fn is_last_named(processes: Seq<(i32, String)>, name: Seq<char>, i: int) -> bool {
    0 <= i < processes.len() && processes[i].1@ == name && forall|j: int|
        i < j < processes.len() ==> processes[j].1@ != name
}

/// Picks the process to attach to from a list of (pid, name) entries: the
/// last one whose name is exactly `name`, or `None` when none is.
pub fn select_pid(processes: &Vec<(i32, String)>, name: &String) -> (r: Option<i32>)
    ensures
        r matches Some(pid) ==> exists|i: int|
            #[trigger] is_last_named(processes@, name@, i) && processes@[i].0 == pid,
        r is None ==> forall|i: int| 0 <= i < processes@.len() ==> processes@[i].1@ != name@,
{
    let mut found: Option<i32> = None;
    let ghost mut at: int = -1;
    let mut i: usize = 0;
    while i < processes.len()
        invariant
            i <= processes@.len(),
            found is None ==> forall|j: int| 0 <= j < i ==> processes@[j].1@ != name@,
            found matches Some(pid) ==> 0 <= at < i && processes@[at].1@ == name@
                && processes@[at].0 == pid && forall|j: int| at < j < i ==> processes@[j].1@
                != name@,
        decreases processes@.len() - i,
    {
        if processes[i].1 == *name {
            found = Some(processes[i].0);
            proof {
                at = i as int;
            }
        }
        i = i + 1;
    }
    proof {
        if found is Some {
            assert(is_last_named(processes@, name@, at));
        }
    }
    found
}

/// The bytes searched for when looking up `target` as UTF-8 text.
pub fn utf8_pattern(target: &str) -> (r: Vec<u8>)
    ensures
        r@ == target.spec_bytes(),
{
    let bytes = target.as_bytes();
    let mut out: Vec<u8> = Vec::new();
    let mut i: usize = 0;
    while i < bytes.len()
        invariant
            i <= bytes@.len(),
            out@ == bytes@.subrange(0, i as int),
        decreases bytes@.len() - i,
    {
        out.push(bytes[i]);
        i = i + 1;
    }
    proof {
        assert(bytes@.subrange(0, bytes@.len() as int) =~= bytes@);
    }
    out
}

/// The UTF-16 code units of one character: itself below 0x10000, else a
/// surrogate pair.
pub open spec fn utf16_of_char(c: char) -> Seq<u16> {
    let v = c as u32;
    if v < 0x10000 {
        seq![v as u16]
    } else {
        let u = (v - 0x10000) as u32;
        seq![(0xD800 + u / 0x400) as u16, (0xDC00 + u % 0x400) as u16]
    }
}

/// Little-endian bytes of one code unit.
pub open spec fn le_bytes(u: u16) -> Seq<u8> {
    seq![(u % 0x100) as u8, (u / 0x100) as u8]
}

/// The UTF-16LE encoding of `s`, as a wide-character string lies in memory.
pub open spec fn utf16le(s: Seq<char>) -> Seq<u8>
    decreases s.len(),
{
    if s.len() == 0 {
        Seq::empty()
    } else {
        let units = utf16_of_char(s.last());
        let tail = if units.len() == 1 {
            le_bytes(units[0])
        } else {
            le_bytes(units[0]) + le_bytes(units[1])
        };
        utf16le(s.drop_last()) + tail
    }
}

fn push_unit(out: &mut Vec<u8>, u: u16)
    ensures
        final(out)@ == old(out)@ + le_bytes(u),
{
    out.push((u % 0x100) as u8);
    out.push((u / 0x100) as u8);
    assert(final(out)@ =~= old(out)@ + le_bytes(u));
}

/// The bytes searched for when looking up `target` as a wide-character
/// (UTF-16, little-endian) string.
pub fn utf16le_pattern(target: &str) -> (r: Vec<u8>)
    ensures
        r@ == utf16le(target@),
{
    broadcast use vstd::string::axiom_spec_iter, vstd::string::next_postcondition;

    let mut chars = target.chars();
    let mut out: Vec<u8> = Vec::new();
    let ghost mut done: Seq<char> = Seq::empty();
    loop
        invariant
            chars.obeys_prophetic_iter_laws(),
            done + chars.remaining() == target@,
            out@ == utf16le(done),
        decreases target@.len() - done.len(),
    {
        match chars.next() {
            None => {
                proof {
                    assert(done =~= target@);
                }
                return out;
            },
            Some(c) => {
                let v = c as u32;
                if v < 0x10000 {
                    push_unit(&mut out, v as u16);
                } else {
                    let u = v - 0x10000;
                    push_unit(&mut out, (0xD800 + u / 0x400) as u16);
                    push_unit(&mut out, (0xDC00 + u % 0x400) as u16);
                }
                proof {
                    let d2 = done.push(c);
                    assert(d2.drop_last() =~= done);
                    assert(d2 + chars.remaining() =~= target@);
                    done = d2;
                }
            },
        }
    }
}

} // verus!
