//! Small text helpers shared across the gateway: constant-time equality for
//! secrets, ASCII case folding, and substring search over bytes.

use vstd::prelude::*;
use vstd::string::StrSliceExecFns;

verus! {

/// Constant-time equality for strings, character by character: the loop
/// runs over the whole of `a` and never exits early on a mismatch.
pub fn ct_eq_str(a: &str, b: &str) -> (r: bool)
    ensures
        r == (a@ == b@),
{
    let n = a.unicode_len();
    let m = b.unicode_len();
    if n != m {
        // lengths are not secret; only the content comparison must not
        // exit early
        return false;
    }
    let mut acc: u8 = 0;
    let mut i: usize = 0;
    proof {
        assert(a@.subrange(0, 0) =~= b@.subrange(0, 0));
    }
    while i < n
        invariant
            n == a@.len(),
            n == b@.len(),
            i <= n,
            acc == 0 <==> a@.subrange(0, i as int) == b@.subrange(0, i as int),
        decreases n - i,
    {
        proof {
            assert(a@.subrange(0, i + 1).drop_last() =~= a@.subrange(0, i as int));
            assert(b@.subrange(0, i + 1).drop_last() =~= b@.subrange(0, i as int));
        }
        let ca = a.get_char(i);
        let cb = b.get_char(i);
        let d: u8 = if ca != cb {
            1
        } else {
            0
        };
        proof {
            if acc == 0 && d == 0 {
                assert(a@.subrange(0, i + 1) =~= b@.subrange(0, i + 1));
            }
            if a@.subrange(0, i + 1) == b@.subrange(0, i + 1) {
                assert(a@.subrange(0, i + 1)[i as int] == b@.subrange(0, i + 1)[i as int]);
                assert(a@.subrange(0, i + 1).drop_last() == b@.subrange(0, i + 1).drop_last());
            }
            assert((acc | d) == 0 <==> acc == 0 && d == 0) by (bit_vector);
        }
        acc = acc | d;
        i = i + 1;
    }
    proof {
        assert(a@.subrange(0, a@.len() as int) =~= a@);
        assert(b@.subrange(0, b@.len() as int) =~= b@);
    }
    acc == 0
}

/// ASCII lower-casing of a single byte.
pub open spec fn spec_lower_byte(b: u8) -> u8 {
    if 65 <= b <= 90 {
        (b + 32) as u8
    } else {
        b
    }
}

/// ASCII lower-casing of a byte sequence; bytes outside `A..Z` are kept.
pub open spec fn spec_lower_bytes(s: Seq<u8>) -> Seq<u8> {
    s.map_values(|b: u8| spec_lower_byte(b))
}

/// Lower-cases the ASCII letters of `s`, leaving all other bytes alone.
pub fn ascii_lower(s: &[u8]) -> (r: Vec<u8>)
    ensures
        r@ == spec_lower_bytes(s@),
{
    let mut out: Vec<u8> = Vec::new();
    let mut i: usize = 0;
    while i < s.len()
        invariant
            i <= s@.len(),
            out@ =~= spec_lower_bytes(s@.subrange(0, i as int)),
        decreases s@.len() - i,
    {
        let b = s[i];
        if 65 <= b && b <= 90 {
            out.push(b + 32);
        } else {
            out.push(b);
        }
        proof {
            assert(spec_lower_bytes(s@.subrange(0, i + 1)) =~= spec_lower_bytes(
                s@.subrange(0, i as int),
            ).push(spec_lower_byte(s@[i as int])));
        }
        i = i + 1;
    }
    proof {
        assert(s@.subrange(0, s@.len() as int) =~= s@);
    }
    out
}

/// Plain equality of byte slices (not constant-time; for non-secrets).
pub fn bytes_eq(a: &[u8], b: &[u8]) -> (r: bool)
    ensures
        r == (a@ == b@),
{
    if a.len() != b.len() {
        return false;
    }
    let mut i: usize = 0;
    while i < a.len()
        invariant
            i <= a@.len(),
            a@.len() == b@.len(),
            a@.subrange(0, i as int) == b@.subrange(0, i as int),
        decreases a@.len() - i,
    {
        proof {
            assert(a@.subrange(0, i + 1).drop_last() =~= a@.subrange(0, i as int));
            assert(b@.subrange(0, i + 1).drop_last() =~= b@.subrange(0, i as int));
        }
        if a[i] != b[i] {
            proof {
                assert(a@ != b@) by {
                    if a@ == b@ {
                        assert(a@[i as int] == b@[i as int]);
                    }
                }
            }
            return false;
        }
        proof {
            assert(a@.subrange(0, i + 1) =~= b@.subrange(0, i + 1));
        }
        i = i + 1;
    }
    proof {
        assert(a@.subrange(0, a@.len() as int) =~= a@);
        assert(b@.subrange(0, b@.len() as int) =~= b@);
    }
    true
}

/// True when `pat` occurs as a contiguous run inside `hay`.
pub open spec fn spec_contains_at(hay: Seq<u8>, pat: Seq<u8>, i: int) -> bool {
    0 <= i && i + pat.len() <= hay.len() && hay.subrange(i, i + pat.len() as int) == pat
}

pub open spec fn spec_contains(hay: Seq<u8>, pat: Seq<u8>) -> bool {
    exists|i: int| spec_contains_at(hay, pat, i)
}

/// Substring search: returns whether `pat` occurs anywhere in `hay`.
pub fn contains_bytes(hay: &[u8], pat: &[u8]) -> (r: bool)
    ensures
        r == spec_contains(hay@, pat@),
{
    if pat.len() == 0 {
        proof {
            assert(hay@.subrange(0, 0) =~= pat@);
            assert(spec_contains_at(hay@, pat@, 0));
        }
        return true;
    }
    if pat.len() > hay.len() {
        return false;
    }
    let hay_n: usize = hay.len();
    let pat_n: usize = pat.len();
    let mut start: usize = 0;
    let last: usize = hay_n - pat_n;
    while start <= last
        invariant
            hay_n == hay@.len(),
            pat_n == pat@.len(),
            1 <= pat_n <= hay_n,
            last == hay_n - pat_n,
            start <= last + 1,
            forall|i: int| 0 <= i < start ==> !spec_contains_at(hay@, pat@, i),
        decreases last + 1 - start,
    {
        let mut j: usize = 0;
        let mut all_eq = true;
        while j < pat.len() && all_eq
            invariant
                hay_n == hay@.len(),
                pat_n == pat@.len(),
                start + pat_n <= hay_n,
                j <= pat_n,
                all_eq ==> hay@.subrange(start as int, start + j) == pat@.subrange(0, j as int),
                !all_eq ==> !spec_contains_at(hay@, pat@, start as int),
            decreases pat@.len() - j + (if all_eq { 1int } else { 0int }),
        {
            proof {
                assert(hay@.subrange(start as int, start + j + 1).drop_last() =~= hay@.subrange(
                    start as int,
                    start + j,
                ));
                assert(pat@.subrange(0, j + 1).drop_last() =~= pat@.subrange(0, j as int));
            }
            if hay[start + j] != pat[j] {
                all_eq = false;
                proof {
                    assert(hay@.subrange(start as int, start + pat@.len() as int) != pat@) by {
                        let k = j as int;
                        if hay@.subrange(start as int, start + pat@.len() as int) == pat@ {
                            assert(hay@.subrange(start as int, start + pat@.len() as int)[k]
                                == hay@[start + k]);
                            assert(pat@[k] == hay@[start + k]);
                        }
                    }
                    assert(!spec_contains_at(hay@, pat@, start as int));
                }
            } else {
                proof {
                    assert(hay@.subrange(start as int, start + j + 1) =~= pat@.subrange(0, j + 1));
                }
                j = j + 1;
            }
        }
        if all_eq {
            proof {
                assert(pat@.subrange(0, pat@.len() as int) =~= pat@);
                assert(spec_contains_at(hay@, pat@, start as int));
            }
            return true;
        }
        start = start + 1;
    }
    proof {
        assert forall|i: int| !spec_contains_at(hay@, pat@, i) by {
            if 0 <= i && i + pat@.len() <= hay@.len() {
                assert(i <= last as int);
            }
        }
    }
    false
}

} // verus!
