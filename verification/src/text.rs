//! Character-level helpers shared by the scanner and the data model.
//!
//! Documents are handled as sequences of Unicode scalar values, so every
//! position in this crate counts characters, never bytes.

use vstd::prelude::*;
use vstd::std_specs::iter::IteratorSpec;

verus! {

/// `String::push` appends exactly one character to the end of the string.
pub assume_specification[ String::push ](s: &mut String, c: char)
    ensures
        final(s)@ == old(s)@.push(c),
;

/// The characters of `doc`, in order.
pub fn chars_of(doc: &str) -> (v: Vec<char>)
    ensures
        v@ == doc@,
{
    let mut v: Vec<char> = Vec::new();
    for c in it: doc.chars()
        invariant
            v@ == it.seq().take(it.index() as int),
            it.seq() == doc@,
    {
        v.push(c);
    }
    v
}

/// The string made of `v[bgn..end]`.
pub(crate) fn string_of(v: &Vec<char>, bgn: usize, end: usize) -> (s: String)
    requires
        bgn <= end <= v.len(),
    ensures
        s@ == v@.subrange(bgn as int, end as int),
{
    let mut s = String::new();
    let mut i: usize = bgn;
    while i < end
        invariant
            bgn <= i <= end <= v.len(),
            s@ == v@.subrange(bgn as int, i as int),
        decreases end - i,
    {
        s.push(v[i]);
        i += 1;
    }
    s
}

/// Whether two string slices hold the same characters.
pub fn str_eq(a: &str, b: &str) -> (r: bool)
    ensures
        r == (a@ == b@),
{
    let mut ia = a.chars();
    let mut ib = b.chars();
    let ghost mut done: Seq<char> = Seq::empty();
    loop
        invariant
            a@ == done + ia.remaining(),
            b@ == done + ib.remaining(),
            ia.obeys_prophetic_iter_laws(),
            ib.obeys_prophetic_iter_laws(),
            ia.decrease() is Some,
        decreases ia.decrease()->0,
    {
        let ghost ra = ia.remaining();
        let ghost rb = ib.remaining();
        let x = ia.next();
        let y = ib.next();
        match (x, y) {
            (None, None) => {
                return true;
            },
            (Some(cx), Some(cy)) => {
                if cx != cy {
                    proof {
                        assert(a@[done.len() as int] == cx);
                        assert(b@[done.len() as int] == cy);
                    }
                    return false;
                }
                proof {
                    assert(done + ra =~= done.push(cx) + ra.drop_first());
                    assert(done + rb =~= done.push(cy) + rb.drop_first());
                    done = done.push(cx);
                }
            },
            _ => {
                proof {
                    assert(a@.len() != b@.len());
                }
                return false;
            },
        }
    }
}

/// Whether `c` is whitespace in the sense of Unicode's `White_Space` property.
pub open spec fn is_space(c: char) -> bool {
    let u = c as u32;
    ||| 0x09 <= u <= 0x0D
    ||| u == 0x20
    ||| u == 0x85
    ||| u == 0xA0
    ||| u == 0x1680
    ||| 0x2000 <= u <= 0x200A
    ||| u == 0x2028
    ||| u == 0x2029
    ||| u == 0x202F
    ||| u == 0x205F
    ||| u == 0x3000
}

/// Executable form of [`is_space`].
pub fn is_whitespace(c: char) -> (r: bool)
    ensures
        r == is_space(c),
{
    let u: u32 = c as u32;
    (0x09 <= u && u <= 0x0D) || u == 0x20 || u == 0x85 || u == 0xA0 || u == 0x1680 || (0x2000 <= u
        && u <= 0x200A) || u == 0x2028 || u == 0x2029 || u == 0x202F || u == 0x205F || u == 0x3000
}

/// `s` without its leading whitespace.
pub open spec fn trim_start(s: Seq<char>) -> Seq<char>
    decreases s.len(),
{
    if s.len() > 0 && is_space(s[0]) {
        trim_start(s.drop_first())
    } else {
        s
    }
}

/// `s` without its trailing whitespace.
pub open spec fn trim_end(s: Seq<char>) -> Seq<char>
    decreases s.len(),
{
    if s.len() > 0 && is_space(s.last()) {
        trim_end(s.drop_last())
    } else {
        s
    }
}

/// `s` without its leading and trailing whitespace.
pub open spec fn trim(s: Seq<char>) -> Seq<char> {
    trim_end(trim_start(s))
}

/// The string made of `v[bgn..end]` with surrounding whitespace removed.
pub(crate) fn trimmed_string_of(v: &Vec<char>, bgn: usize, end: usize) -> (s: String)
    requires
        bgn <= end <= v.len(),
    ensures
        s@ == trim(v@.subrange(bgn as int, end as int)),
{
    let mut lo: usize = bgn;
    while lo < end && is_whitespace(v[lo])
        invariant
            bgn <= lo <= end <= v.len(),
            trim_start(v@.subrange(bgn as int, end as int)) == trim_start(
                v@.subrange(lo as int, end as int),
            ),
        decreases end - lo,
    {
        proof {
            let cur = v@.subrange(lo as int, end as int);
            assert(cur[0] == v@[lo as int]);
            assert(cur.drop_first() =~= v@.subrange(lo + 1, end as int));
        }
        lo += 1;
    }
    proof {
        let cur = v@.subrange(lo as int, end as int);
        if lo < end {
            assert(cur[0] == v@[lo as int]);
        }
        assert(trim_start(cur) == cur);
    }
    let mut hi: usize = end;
    while lo < hi && is_whitespace(v[hi - 1])
        invariant
            lo <= hi <= end <= v.len(),
            trim_end(v@.subrange(lo as int, end as int)) == trim_end(
                v@.subrange(lo as int, hi as int),
            ),
        decreases hi - lo,
    {
        proof {
            let cur = v@.subrange(lo as int, hi as int);
            assert(cur.last() == v@[hi - 1]);
            assert(cur.drop_last() =~= v@.subrange(lo as int, hi - 1));
        }
        hi -= 1;
    }
    proof {
        let cur = v@.subrange(lo as int, hi as int);
        if lo < hi {
            assert(cur.last() == v@[hi - 1]);
        }
        assert(trim_end(cur) == cur);
    }
    string_of(v, lo, hi)
}

/// `s` with surrounding whitespace removed.
pub fn trimmed(s: &str) -> (r: String)
    ensures
        r@ == trim(s@),
{
    let v = chars_of(s);
    proof {
        assert(v@.subrange(0, v@.len() as int) =~= v@);
    }
    trimmed_string_of(&v, 0, v.len())
}

} // verus!
