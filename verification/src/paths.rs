//! Directory-path bookkeeping: joining components with slashes, and listing
//! every prefix path of a working directory.

use vstd::prelude::*;

verus! {

/// The joined path: components separated by `'/'`.
pub open spec fn joined(components: Seq<Seq<char>>) -> Seq<char>
    decreases components.len(),
{
    if components.len() == 0 {
        Seq::empty()
    } else if components.len() == 1 {
        components[0]
    } else {
        joined(components.drop_last()) + seq!['/'] + components.last()
    }
}

/// Join the first `upto` path components with slashes.
#[verifier::loop_isolation(false)]
fn make_path_prefix(components: &Vec<Vec<char>>, upto: usize) -> (path: Vec<char>)
    requires
        upto <= components@.len(),
    ensures
        path@ == joined(components@.map_values(|c: Vec<char>| c@).take(upto as int)),
{
    let ghost cv = components@.map_values(|c: Vec<char>| c@);
    let mut path: Vec<char> = Vec::new();
    let mut i: usize = 0;
    while i < upto
        invariant
            i <= upto <= components@.len(),
            path@ == joined(cv.take(i as int)),
        decreases components@.len() - i,
    {
        if i > 0 {
            path.push('/');
        }
        let comp = &components[i];
        let mut j: usize = 0;
        while j < comp.len()
            invariant
                j <= comp@.len(),
                comp@ == cv[i as int],
                i > 0 ==> path@ == joined(cv.take(i as int)) + seq!['/'] + comp@.take(j as int),
                i == 0 ==> path@ == comp@.take(j as int),
            decreases comp@.len() - j,
        {
            path.push(comp[j]);
            proof {
                assert(comp@.take(j + 1) =~= comp@.take(j as int).push(comp@[j as int]));
            }
            j += 1;
        }
        proof {
            assert(comp@.take(comp@.len() as int) =~= comp@);
            assert(cv.take(i + 1).drop_last() =~= cv.take(i as int));
            assert(cv.take(i + 1).last() == cv[i as int]);
            if i == 0 {
                assert(cv.take(1) =~= seq![cv[0]]);
                assert(path@ =~= joined(cv.take(1)));
            } else {
                assert(path@ =~= joined(cv.take(i as int)) + seq!['/'] + cv[i as int]);
            }
        }
        i += 1;
    }
    path
}

/// Join path components with slashes.
pub fn make_path(components: &Vec<Vec<char>>) -> (path: Vec<char>)
    ensures
        path@ == joined(components@.map_values(|c: Vec<char>| c@)),
{
    let ghost cv = components@.map_values(|c: Vec<char>| c@);
    let path = make_path_prefix(components, components.len());
    proof {
        assert(cv.take(cv.len() as int) =~= cv);
    }
    path
}

/// All prefixes of the components, each joined into a path: the empty path
/// first, the full path last.
#[verifier::loop_isolation(false)]
pub fn prefixes(components: &Vec<Vec<char>>) -> (out: Vec<Vec<char>>)
    requires
        components@.len() < usize::MAX,
    ensures
        out@.len() == components@.len() + 1,
        forall|k: int|
            0 <= k <= components@.len() ==> (#[trigger] out@[k])@ == joined(
                components@.map_values(|c: Vec<char>| c@).take(k),
            ),
{
    let ghost cv = components@.map_values(|c: Vec<char>| c@);
    let mut out: Vec<Vec<char>> = Vec::new();
    let mut k: usize = 0;
    while k <= components.len()
        invariant
            k <= components@.len() + 1,
            out@.len() == k,
            forall|w: int| 0 <= w < k ==> (#[trigger] out@[w])@ == joined(cv.take(w)),
        decreases components@.len() + 1 - k,
    {
        let joined_head = make_path_prefix(components, k);
        out.push(joined_head);
        k += 1;
    }
    out
}

} // verus!
