//! Byte-sequence comparison helpers used by the registry and the codec.

use vstd::prelude::*;

verus! {

/// Exact equality of two byte vectors.
pub fn bytes_eq(a: &Vec<u8>, b: &Vec<u8>) -> (r: bool)
    ensures
        r == (a@ == b@),
{
    if a.len() != b.len() {
        proof {
            assert(a@ != b@);
        }
        return false;
    }
    let mut i: usize = 0;
    while i < a.len()
        invariant
            i <= a.len(),
            a@.len() == b@.len(),
            forall|j: int| 0 <= j < i ==> a@[j] == b@[j],
        decreases a.len() - i,
    {
        if a[i] != b[i] {
            proof {
                assert(a@ != b@);
            }
            return false;
        }
        i += 1;
    }
    proof {
        assert(a@ =~= b@);
    }
    true
}

/// Does `line[at .. at + pat.len()]` equal `pat`?
pub fn bytes_eq_at(line: &Vec<u8>, at: usize, pat: &Vec<u8>) -> (r: bool)
    requires
        at + pat@.len() <= line@.len(),
    ensures
        r == (line@.subrange(at as int, at + pat@.len()) == pat@),
{
    let llen = line.len();
    let mut i: usize = 0;
    while i < pat.len()
        invariant
            i <= pat.len(),
            llen == line@.len(),
            at + pat@.len() <= llen,
            forall|j: int| 0 <= j < i ==> line@[at + j] == pat@[j],
        decreases pat.len() - i,
    {
        if line[at + i] != pat[i] {
            proof {
                assert(line@.subrange(at as int, at + pat@.len())[i as int] != pat@[i as int]);
            }
            return false;
        }
        i += 1;
    }
    proof {
        assert(line@.subrange(at as int, at + pat@.len()) =~= pat@);
    }
    true
}

/// Are two regions of equal length within `line` equal byte for byte?
pub fn regions_eq(line: &Vec<u8>, a: usize, b: usize, n: usize) -> (r: bool)
    requires
        a + n <= line@.len(),
        b + n <= line@.len(),
    ensures
        r == (line@.subrange(a as int, a + n) == line@.subrange(b as int, b + n)),
{
    let llen = line.len();
    let mut i: usize = 0;
    while i < n
        invariant
            i <= n,
            llen == line@.len(),
            a + n <= llen,
            b + n <= llen,
            forall|j: int| 0 <= j < i ==> line@[a + j] == #[trigger] line@[b + j],
        decreases n - i,
    {
        if line[a + i] != line[b + i] {
            proof {
                assert(line@.subrange(a as int, a + n)[i as int] != line@.subrange(
                    b as int,
                    b + n,
                )[i as int]);
            }
            return false;
        }
        i += 1;
    }
    proof {
        assert forall|k: int| 0 <= k < n implies #[trigger] line@.subrange(a as int, a + n)[k]
            == line@.subrange(b as int, b + n)[k] by {
            assert(line@[a + k] == line@[b + k]);
        }
        assert(line@.subrange(a as int, a + n) =~= line@.subrange(b as int, b + n));
    }
    true
}

/// Copies the region `[at, at + n)` of `line` out into a fresh vector.
pub fn copy_region(line: &Vec<u8>, at: usize, n: usize) -> (r: Vec<u8>)
    requires
        at + n <= line@.len(),
    ensures
        r@ == line@.subrange(at as int, at + n),
{
    let llen = line.len();
    let mut out: Vec<u8> = Vec::new();
    let mut i: usize = 0;
    while i < n
        invariant
            i <= n,
            llen == line@.len(),
            at + n <= llen,
            out@.len() == i,
            forall|j: int| 0 <= j < i ==> out@[j] == line@[at + j],
        decreases n - i,
    {
        out.push(line[at + i]);
        i += 1;
    }
    proof {
        assert(out@ =~= line@.subrange(at as int, at + n));
    }
    out
}

} // verus!
