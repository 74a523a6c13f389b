use vstd::prelude::*;
use vstd::string::StringSliceAdditionalSpecFns;

verus! {

/// `prefix` followed by the UTF-8 bytes of `s`.
pub fn prefixed(prefix: &[u8], s: &str) -> (v: Vec<u8>)
    ensures
        v@ == prefix@ + s.spec_bytes(),
{
    let mut v: Vec<u8> = Vec::new();
    let mut i: usize = 0;
    while i < prefix.len()
        invariant
            i <= prefix@.len(),
            v@ == prefix@.subrange(0, i as int),
        decreases prefix@.len() - i,
    {
        v.push(prefix[i]);
        i = i + 1;
        assert(v@ =~= prefix@.subrange(0, i as int));
    }
    let b = s.as_bytes();
    let mut j: usize = 0;
    while j < b.len()
        invariant
            j <= b@.len(),
            i == prefix@.len(),
            v@ == prefix@.subrange(0, i as int) + b@.subrange(0, j as int),
        decreases b@.len() - j,
    {
        v.push(b[j]);
        j = j + 1;
        assert(v@ =~= prefix@.subrange(0, i as int) + b@.subrange(0, j as int));
    }
    assert(prefix@.subrange(0, i as int) =~= prefix@);
    assert(b@.subrange(0, j as int) =~= b@);
    v
}

} // verus!
