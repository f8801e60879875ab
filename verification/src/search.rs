//! Picking items out of a sequence: the first that fits, the last of the best, how many fit.
use vstd::prelude::*;

verus! {

/// The position of the first item for which `fits` holds.
pub open spec fn first_where<T>(s: Seq<T>, fits: spec_fn(T) -> bool) -> Option<int>
    decreases s.len(),
{
    if s.len() == 0 {
        None
    } else {
        match first_where(s.drop_last(), fits) {
            Some(i) => Some(i),
            None => if fits(s.last()) {
                Some(s.len() - 1)
            } else {
                None
            },
        }
    }
}

/// The position of the last of the best items for which `fits` holds, where
/// `as_good(x, y)` says that `x` is as good as `y` or better.
pub open spec fn best_where<T>(
    s: Seq<T>,
    fits: spec_fn(T) -> bool,
    as_good: spec_fn(T, T) -> bool,
) -> Option<int>
    decreases s.len(),
{
    if s.len() == 0 {
        None
    } else {
        let earlier = best_where(s.drop_last(), fits, as_good);
        match earlier {
            _ if !fits(s.last()) => earlier,
            Some(i) if !as_good(s.last(), s[i]) => earlier,
            _ => Some(s.len() - 1),
        }
    }
}

/// How many items there are for which `fits` holds.
pub open spec fn count_where<T>(s: Seq<T>, fits: spec_fn(T) -> bool) -> nat
    decreases s.len(),
{
    if s.len() == 0 {
        0
    } else {
        count_where(s.drop_last(), fits) + if fits(s.last()) {
            1nat
        } else {
            0nat
        }
    }
}

/// `first_where` gives an item that fits, none before it does, and it gives one wherever
/// there is one.
pub proof fn first_where_is_first<T>(s: Seq<T>, fits: spec_fn(T) -> bool)
    ensures
        match first_where(s, fits) {
            Some(i) => {
                &&& 0 <= i < s.len()
                &&& fits(s[i])
                &&& forall|j: int| 0 <= j < i ==> !fits(#[trigger] s[j])
            },
            None => forall|j: int| 0 <= j < s.len() ==> !fits(#[trigger] s[j]),
        },
    decreases s.len(),
{
    if s.len() > 0 {
        let front = s.drop_last();
        first_where_is_first(front, fits);
        match first_where(front, fits) {
            Some(i) => {
                assert forall|j: int| 0 <= j < i implies !fits(#[trigger] s[j]) by {
                    assert(front[j] == s[j]);
                }
            },
            None => {
                assert forall|j: int| 0 <= j < s.len() - 1 implies !fits(#[trigger] s[j]) by {
                    assert(front[j] == s[j]);
                }
            },
        }
    }
}

/// Under a total order of the items, `best_where` gives one that fits and is as good as
/// any other that does; those behind it that fit are worse. It gives one wherever one fits.
pub proof fn best_where_is_best<T>(
    s: Seq<T>,
    fits: spec_fn(T) -> bool,
    as_good: spec_fn(T, T) -> bool,
)
    requires
        forall|x: T, y: T| #[trigger] as_good(x, y) || as_good(y, x),
        forall|x: T, y: T, z: T| #[trigger]
            as_good(x, y) && #[trigger] as_good(y, z) ==> as_good(x, z),
    ensures
        match best_where(s, fits, as_good) {
            Some(i) => {
                &&& 0 <= i < s.len()
                &&& fits(s[i])
                &&& forall|j: int| 0 <= j < s.len() && fits(#[trigger] s[j]) ==> as_good(s[i], s[j])
                &&& forall|j: int|
                    i < j < s.len() && fits(#[trigger] s[j]) ==> !as_good(s[j], s[i])
            },
            None => forall|j: int| 0 <= j < s.len() ==> !fits(#[trigger] s[j]),
        },
    decreases s.len(),
{
    if s.len() > 0 {
        let front = s.drop_last();
        best_where_is_best(front, fits, as_good);
        let n = s.len() - 1;
        assert forall|j: int| 0 <= j < n implies front[j] == #[trigger] s[j] by {}
        assert(as_good(s[n], s[n]));
        if let Some(k) = best_where(front, fits, as_good) {
            assert forall|j: int|
                0 <= j < n && fits(#[trigger] s[j]) && as_good(s[n], s[k]) implies as_good(
                s[n],
                s[j],
            ) by {
                assert(as_good(front[k], front[j]));
            }
            assert(as_good(s[n], s[k]) || as_good(s[k], s[n]));
        }
    }
}

/// Counting the items that fit is picking them out.
pub proof fn counted_items_are_those_that_fit<T>(s: Seq<T>, fits: spec_fn(T) -> bool)
    ensures
        count_where(s, fits) == s.filter(fits).len(),
    decreases s.len(),
{
    reveal(Seq::filter);
    if s.len() > 0 {
        counted_items_are_those_that_fit(s.drop_last(), fits);
    }
}

} // verus!
