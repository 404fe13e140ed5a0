use vstd::prelude::*;

verus! {

/// Whether `x` is among the values of `v`.
pub fn contains_value(v: &Vec<u32>, x: u32) -> (r: bool)
    ensures
        r == v@.contains(x),
{
    let mut i: usize = 0;
    while i < v.len()
        invariant
            i <= v.len(),
            forall|k: int| 0 <= k < i ==> v@[k] != x,
        decreases v.len() - i,
    {
        if v[i] == x {
            return true;
        }
        i = i + 1;
    }
    false
}

/// Adds `x` to `v` unless it is there already.
pub fn insert_value(v: &mut Vec<u32>, x: u32)
    requires
        old(v)@.no_duplicates(),
    ensures
        final(v)@.no_duplicates(),
        forall|y: u32| final(v)@.contains(y) <==> (old(v)@.contains(y) || y == x),
        old(v)@.contains(x) ==> final(v)@ == old(v)@,
        !old(v)@.contains(x) ==> final(v)@ == old(v)@.push(x),
{
    if !contains_value(v, x) {
        v.push(x);
        proof {
            assert forall|y: u32| final(v)@.contains(y) <==> (old(v)@.contains(y) || y == x) by {
                if old(v)@.contains(y) {
                    let k = choose|k: int| 0 <= k < old(v)@.len() && old(v)@[k] == y;
                    assert(final(v)@[k] == y);
                }
                if y == x {
                    assert(final(v)@[old(v)@.len() as int] == y);
                }
                if final(v)@.contains(y) {
                    let k = choose|k: int| 0 <= k < final(v)@.len() && final(v)@[k] == y;
                    if k < old(v)@.len() {
                        assert(old(v)@[k] == y);
                    }
                }
            }
        }
    }
}

/// Removes every occurrence of `x` from `v`, keeping the order of the rest.
pub fn remove_value(v: &mut Vec<u32>, x: u32)
    requires
        old(v)@.no_duplicates(),
    ensures
        final(v)@.no_duplicates(),
        forall|y: u32| final(v)@.contains(y) <==> (old(v)@.contains(y) && y != x),
        final(v)@.len() <= old(v)@.len(),
{
    let mut out: Vec<u32> = Vec::new();
    let mut i: usize = 0;
    while i < v.len()
        invariant
            i <= v.len(),
            v@.no_duplicates(),
            out@.no_duplicates(),
            out@.len() <= i,
            forall|y: u32|
                out@.contains(y) <==> (v@.subrange(0, i as int).contains(y) && y != x),
        decreases v.len() - i,
    {
        let y = v[i];
        let ghost out0 = out@;
        proof {
            let pre = v@.subrange(0, i as int);
            let next = v@.subrange(0, i + 1);
            assert(next =~= pre.push(y));
            assert forall|z: u32| next.contains(z) <==> (pre.contains(z) || z == y) by {
                if next.contains(z) {
                    let k = choose|k: int| 0 <= k < next.len() && next[k] == z;
                    if k < pre.len() {
                        assert(pre[k] == z);
                    }
                }
                if pre.contains(z) {
                    let k = choose|k: int| 0 <= k < pre.len() && pre[k] == z;
                    assert(next[k] == z);
                }
                if z == y {
                    assert(next[pre.len() as int] == z);
                }
            }
            assert(!pre.contains(y)) by {
                if pre.contains(y) {
                    let k = choose|k: int| 0 <= k < pre.len() && pre[k] == y;
                    assert(v@[k] == v@[i as int]);
                }
            }
        }
        if y != x {
            let ghost prev = out@;
            out.push(y);
            proof {
                assert forall|z: u32| out@.contains(z) <==> (prev.contains(z) || z == y) by {
                    if prev.contains(z) {
                        let k = choose|k: int| 0 <= k < prev.len() && prev[k] == z;
                        assert(out@[k] == z);
                    }
                    if z == y {
                        assert(out@[prev.len() as int] == z);
                    }
                    if out@.contains(z) {
                        let k = choose|k: int| 0 <= k < out@.len() && out@[k] == z;
                        if k < prev.len() {
                            assert(prev[k] == z);
                        }
                    }
                }
                assert forall|a: int, b: int|
                    0 <= a < out@.len() && 0 <= b < out@.len() && a != b implies out@[a]
                    != out@[b] by {
                    if a == prev.len() {
                        assert(prev.contains(out@[b]));
                    } else if b == prev.len() {
                        assert(prev.contains(out@[a]));
                    } else {
                        assert(prev[a] == out@[a] && prev[b] == out@[b]);
                    }
                }
            }
        }
        proof {
            let next = v@.subrange(0, i + 1);
            let pre = v@.subrange(0, i as int);
            assert forall|z: u32| out@.contains(z) <==> (next.contains(z) && z != x) by {
                assert(out0.contains(z) <==> (pre.contains(z) && z != x));
                assert(next.contains(z) <==> (pre.contains(z) || z == y));
                if y == x {
                    assert(out@ == out0);
                }
            }
        }
        i = i + 1;
    }
    assert(v@.subrange(0, v.len() as int) =~= v@);
    *v = out;
}

} // verus!
