use vstd::prelude::*;

verus! {

/// Why loading saved parameters failed, with the position of the first
/// parameter that could not be loaded.
#[derive(Clone, Copy, Debug, PartialEq, Eq, Structural)]
pub enum WeightLoadError {
    /// No array could be read under the parameter's name.
    Missing(usize),
    /// The stored array has another shape than the parameter.
    ShapeMismatch(usize),
}

/// A stored array fits a parameter of shape `shape`: it exists and has
/// that shape.
pub open spec fn fits<T>(stored: Option<(Vec<usize>, T)>, shape: Seq<usize>) -> bool {
    stored matches Some(a) && a.0@ == shape
}

/// Entry `i` is the first stored array that does not fit its parameter.
pub open spec fn first_misfit<T>(stored: Seq<Option<(Vec<usize>, T)>>, shapes: Seq<Vec<usize>>, i: int) -> bool {
    &&& 0 <= i < stored.len()
    &&& !fits(stored[i], shapes[i]@)
    &&& forall|j: int| 0 <= j < i ==> #[trigger] fits(stored[j], shapes[j]@)
}

/// A stored array fits its parameter exactly when it was found and agrees
/// with the parameter's shape in rank and axis by axis.
pub proof fn lemma_fits_means_same_dimensions<T>(stored: Option<(Vec<usize>, T)>, shape: Seq<usize>)
    ensures
        fits(stored, shape) <==> (stored is Some && stored.unwrap().0@.len() == shape.len() && forall|k: int|
            0 <= k < shape.len() ==> #[trigger] stored.unwrap().0@[k] == shape[k]),
{
    if stored is Some && stored.unwrap().0@.len() == shape.len() && forall|k: int|
        0 <= k < shape.len() ==> #[trigger] stored.unwrap().0@[k] == shape[k] {
        assert(stored.unwrap().0@ =~= shape);
    }
}

/// `a` and `b` hold the same dimensions.
fn same_shape(a: &Vec<usize>, b: &Vec<usize>) -> (r: bool)
    ensures
        r == (a@ == b@),
{
    if a.len() != b.len() {
        return false;
    }
    let mut k: usize = 0;
    while k < a.len()
        invariant
            k <= a@.len(),
            a@.len() == b@.len(),
            forall|j: int| 0 <= j < k ==> a@[j] == b@[j],
        decreases a@.len() - k,
    {
        if a[k] != b[k] {
            return false;
        }
        k = k + 1;
    }
    assert(a@ =~= b@);
    true
}

/// Loads saved parameters, all or nothing. `params[i]` has shape
/// `shapes[i]`, and `stored[i]` is what was found under its name (its
/// shape and data), if anything. Every entry is checked first; only when
/// all of them exist with the right shapes are the parameters replaced by
/// the stored data, in order. Otherwise the first entry that does not fit
/// is reported and the parameters stay as they were.
pub fn load_weights<T>(
    params: &mut Vec<T>,
    shapes: &Vec<Vec<usize>>,
    stored: Vec<Option<(Vec<usize>, T)>>,
) -> (r: Result<(), WeightLoadError>)
    requires
        old(params)@.len() == shapes@.len(),
        stored@.len() == shapes@.len(),
    ensures
        r is Ok <==> forall|i: int| 0 <= i < stored@.len() ==> #[trigger] fits(stored@[i], shapes@[i]@),
        r is Ok ==> final(params)@.len() == stored@.len() && forall|i: int|
            0 <= i < stored@.len() ==> #[trigger] final(params)@[i] == stored@[i].unwrap().1,
        r is Ok ==> forall|i: int|
            0 <= i < stored@.len() ==> #[trigger] stored@[i] is Some && stored@[i].unwrap().0@.len() == shapes@[i]@.len()
                && forall|k: int| 0 <= k < shapes@[i]@.len() ==> stored@[i].unwrap().0@[k] == shapes@[i]@[k],
        r matches Err(WeightLoadError::ShapeMismatch(i)) ==> stored@[i as int] is Some && (stored@[i as int].unwrap().0@.len()
            != shapes@[i as int]@.len() || exists|k: int|
            0 <= k < shapes@[i as int]@.len() && #[trigger] stored@[i as int].unwrap().0@[k] != shapes@[i as int]@[k]),
        r is Err ==> final(params)@ == old(params)@,
        r matches Err(WeightLoadError::Missing(i)) ==> first_misfit(stored@, shapes@, i as int) && stored@[i as int] is None,
        r matches Err(WeightLoadError::ShapeMismatch(i)) ==> first_misfit(stored@, shapes@, i as int) && stored@[i as int] is Some,
{
    let n = stored.len();
    let mut i: usize = 0;
    while i < n
        invariant
            i <= n,
            n == stored@.len(),
            stored@.len() == shapes@.len(),
            forall|j: int| 0 <= j < i ==> #[trigger] fits(stored@[j], shapes@[j]@),
        decreases n - i,
    {
        match &stored[i] {
            None => {
                assert(!fits(stored@[i as int], shapes@[i as int]@));
                return Err(WeightLoadError::Missing(i));
            },
            Some(entry) => {
                if !same_shape(&entry.0, &shapes[i]) {
                    assert(!fits(stored@[i as int], shapes@[i as int]@));
                    proof {
                        lemma_fits_means_same_dimensions(stored@[i as int], shapes@[i as int]@);
                    }
                    return Err(WeightLoadError::ShapeMismatch(i));
                }
            },
        }
        i = i + 1;
    }
    let ghost all = stored@;
    proof {
        assert forall|i: int| 0 <= i < stored@.len() implies #[trigger] stored@[i] is Some && stored@[i].unwrap().0@.len()
            == shapes@[i]@.len() && forall|k: int| 0 <= k < shapes@[i]@.len() ==> stored@[i].unwrap().0@[k] == shapes@[i]@[k] by {
            assert(fits(stored@[i], shapes@[i]@));
            lemma_fits_means_same_dimensions(stored@[i], shapes@[i]@);
        }
    }
    proof {
        assert forall|j: int| 0 <= j < n implies #[trigger] all[j] is Some by {
            assert(fits(all[j], shapes@[j]@));
        }
    }
    let mut rest = stored;
    let mut reversed: Vec<T> = Vec::new();
    while rest.len() > 0
        invariant
            all.len() == n,
            rest@ == all.subrange(0, rest@.len() as int),
            reversed@.len() + rest@.len() == n,
            forall|j: int| 0 <= j < n ==> #[trigger] all[j] is Some,
            forall|k: int| 0 <= k < reversed@.len() ==> #[trigger] reversed@[k] == all[n - 1 - k].unwrap().1,
        decreases rest@.len(),
    {
        let last = rest.pop();
        proof {
            assert(rest@ =~= all.subrange(0, rest@.len() as int));
            assert(last == Some(all[rest@.len() as int]));
        }
        match last {
            Some(Some(entry)) => {
                reversed.push(entry.1);
            },
            _ => {},
        }
    }
    let ghost rev = reversed@;
    params.clear();
    while reversed.len() > 0
        invariant
            rev.len() == n,
            reversed@ == rev.subrange(0, reversed@.len() as int),
            params@.len() + reversed@.len() == n,
            forall|k: int| 0 <= k < n ==> #[trigger] rev[k] == all[n - 1 - k].unwrap().1,
            forall|i: int| 0 <= i < params@.len() ==> #[trigger] params@[i] == all[i].unwrap().1,
        decreases reversed@.len(),
    {
        let v = reversed.pop().unwrap();
        proof {
            assert(v == rev[reversed@.len() as int]);
        }
        params.push(v);
    }
    Ok(())
}

} // verus!
