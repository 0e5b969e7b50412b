use vstd::prelude::*;

verus! {

/// The elements of `v` in reverse order.
pub fn reversed<T>(v: Vec<T>) -> (res: Vec<T>)
    ensures
        res@ == v@.reverse(),
{
    let mut v = v;
    let ghost orig = v@;
    let mut res: Vec<T> = Vec::new();
    while v.len() > 0
        invariant
            v@ == orig.subrange(0, v@.len() as int),
            res@ == orig.subrange(v@.len() as int, orig.len() as int).reverse(),
            v@.len() <= orig.len(),
        decreases v.len(),
    {
        let x = v.pop().unwrap();
        res.push(x);
        assert(res@ =~= orig.subrange(v@.len() as int, orig.len() as int).reverse());
    }
    assert(orig.subrange(0, orig.len() as int) =~= orig);
    res
}

} // verus!
