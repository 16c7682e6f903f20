//! Reading rows: the first row that fits, and the rows that fit in the order of a key.

use vstd::prelude::*;

verus! {

/// The position of the first row that fits; nothing where none does.
pub open spec fn first_where<T>(rows: Seq<T>, fits: spec_fn(T) -> bool) -> Option<int>
    decreases rows.len(),
{
    if rows.len() == 0 {
        None
    } else {
        match first_where(rows.drop_last(), fits) {
            Some(i) => Some(i),
            None => if fits(rows.last()) {
                Some(rows.len() - 1)
            } else {
                None
            },
        }
    }
}

/// A row that fits with none before it is the first.
pub proof fn lemma_first_is<T>(rows: Seq<T>, fits: spec_fn(T) -> bool, i: int)
    requires
        0 <= i < rows.len(),
        fits(rows[i]),
        forall|k: int| 0 <= k < i ==> !fits(#[trigger] rows[k]),
    ensures
        first_where(rows, fits) == Some(i),
    decreases rows.len(),
{
    let rest = rows.drop_last();
    if i < rest.len() {
        assert forall|k: int| 0 <= k < i implies !fits(#[trigger] rest[k]) by {
            assert(rest[k] == rows[k]);
        }
        assert(rest[i] == rows[i]);
        lemma_first_is(rest, fits, i);
    } else {
        assert forall|k: int| 0 <= k < rest.len() implies !fits(#[trigger] rest[k]) by {
            assert(rest[k] == rows[k]);
        }
        lemma_none_fits(rest, fits);
    }
}

/// Where no row fits there is no first.
pub proof fn lemma_none_fits<T>(rows: Seq<T>, fits: spec_fn(T) -> bool)
    requires
        forall|k: int| 0 <= k < rows.len() ==> !fits(#[trigger] rows[k]),
    ensures
        first_where(rows, fits) is None,
    decreases rows.len(),
{
    if rows.len() > 0 {
        let rest = rows.drop_last();
        assert forall|k: int| 0 <= k < rest.len() implies !fits(#[trigger] rest[k]) by {
            assert(rest[k] == rows[k]);
        }
        assert(!fits(rows[rows.len() - 1]));
        lemma_none_fits(rest, fits);
    }
}

/// What the first position that fits is, said directly.
pub proof fn lemma_first_where<T>(rows: Seq<T>, fits: spec_fn(T) -> bool)
    ensures
        match first_where(rows, fits) {
            Some(i) => 0 <= i < rows.len() && fits(rows[i]) && forall|k: int|
                0 <= k < i ==> !fits(#[trigger] rows[k]),
            None => forall|k: int| 0 <= k < rows.len() ==> !fits(#[trigger] rows[k]),
        },
    decreases rows.len(),
{
    if rows.len() > 0 {
        let rest = rows.drop_last();
        lemma_first_where(rest, fits);
        match first_where(rest, fits) {
            Some(i) => {
                assert(rest[i] == rows[i]);
                assert forall|k: int| 0 <= k < i implies !fits(#[trigger] rows[k]) by {
                    assert(rest[k] == rows[k]);
                }
            },
            None => {
                assert forall|k: int| 0 <= k < rows.len() - 1 implies !fits(#[trigger] rows[k]) by {
                    assert(rest[k] == rows[k]);
                }
            },
        }
    }
}

/// Appending a row does not move the first one that fits.
pub proof fn lemma_first_stays<T>(rows: Seq<T>, row: T, fits: spec_fn(T) -> bool)
    ensures
        first_where(rows, fits) is Some ==> first_where(rows.push(row), fits) == first_where(
            rows,
            fits,
        ),
        first_where(rows, fits) is None ==> first_where(rows.push(row), fits) == (if fits(row) {
            Some(rows.len() as int)
        } else {
            None
        }),
{
    assert(rows.push(row).drop_last() =~= rows);
}

/// Whether position `a` is listed before position `b`: by key, and by position for equal keys.
pub open spec fn listed_before(keys: Seq<i128>, a: int, b: int) -> bool {
    keys[a] < keys[b] || (keys[a] == keys[b] && a < b)
}

/// Whether `order` lists exactly the kept positions, by key, and by position for equal keys. There
/// is only one such list.
pub open spec fn is_listing(order: Seq<int>, keys: Seq<i128>, keep: Seq<bool>) -> bool {
    &&& forall|k: int|
        0 <= k < order.len() ==> 0 <= #[trigger] order[k] < keys.len() && keep[order[k]]
    &&& forall|i: int| 0 <= i < keys.len() && #[trigger] keep[i] ==> order.contains(i)
    &&& forall|a: int, b: int|
        0 <= a < b < order.len() ==> listed_before(keys, #[trigger] order[a], #[trigger] order[b])
}

/// Positions as integers.
pub open spec fn positions(v: Seq<usize>) -> Seq<int> {
    v.map_values(|i: usize| i as int)
}

/// Two lists of the same rows by the same keys are the same list.
pub proof fn lemma_listing_is_unique(
    x: Seq<int>,
    y: Seq<int>,
    keys: Seq<i128>,
    keep: Seq<bool>,
)
    requires
        keys.len() == keep.len(),
        is_listing(x, keys, keep),
        is_listing(y, keys, keep),
    ensures
        x == y,
    decreases x.len() + y.len(),
{
    if x.len() == 0 {
        if y.len() > 0 {
            assert(keep[y[0]]);
            assert(x.contains(y[0]));
        }
        assert(x =~= y);
    } else if y.len() == 0 {
        assert(keep[x[0]]);
        assert(y.contains(x[0]));
    } else {
        assert(keep[x[0]] && keep[y[0]]);
        let p = choose|p: int| 0 <= p < y.len() && y[p] == x[0];
        let q = choose|q: int| 0 <= q < x.len() && x[q] == y[0];
        assert(y.contains(x[0]));
        assert(x.contains(y[0]));
        if p > 0 && q > 0 {
            assert(listed_before(keys, y[0], y[p]));
            assert(listed_before(keys, x[0], x[q]));
        }
        assert(x[0] == y[0]);
        let first = x[0];
        let kept = keep.update(first, false);
        assert forall|x: Seq<int>| #[trigger] is_listing(x, keys, keep) && x.len() > 0 && x[0]
            == first implies is_listing(x.skip(1), keys, kept) by {
            let rest = x.skip(1);
            assert forall|k: int| 0 <= k < rest.len() implies 0 <= #[trigger] rest[k] < keys.len()
                && kept[rest[k]] by {
                assert(rest[k] == x[k + 1]);
                assert(listed_before(keys, x[0], x[k + 1]));
            }
            assert forall|i: int| 0 <= i < keys.len() && #[trigger] kept[i] implies rest.contains(
                i,
            ) by {
                assert(keep[i]);
                let k = choose|k: int| 0 <= k < x.len() && x[k] == i;
                assert(x.contains(i));
                assert(k > 0);
                assert(rest[k - 1] == i);
            }
            assert forall|a: int, b: int| 0 <= a < b < rest.len() implies listed_before(
                keys,
                #[trigger] rest[a],
                #[trigger] rest[b],
            ) by {
                assert(rest[a] == x[a + 1] && rest[b] == x[b + 1]);
            }
        }
        assert(is_listing(x.skip(1), keys, kept));
        assert(is_listing(y.skip(1), keys, kept));
        lemma_listing_is_unique(x.skip(1), y.skip(1), keys, kept);
        assert(x =~= seq![first] + x.skip(1));
        assert(y =~= seq![first] + y.skip(1));
    }
}

/// Lists the kept positions by key, and by position for equal keys.
pub fn listing(keys: &Vec<i128>, keep: &Vec<bool>) -> (r: Vec<usize>)
    requires
        keys@.len() == keep@.len(),
    ensures
        is_listing(positions(r@), keys@, keep@),
{
    let mut out: Vec<usize> = Vec::new();
    let mut i: usize = 0;
    while i < keys.len()
        invariant
            keys@.len() == keep@.len(),
            i <= keys@.len(),
            forall|k: int|
                0 <= k < out@.len() ==> 0 <= #[trigger] out@[k] < i && keep@[out@[k] as int],
            forall|j: int|
                0 <= j < i && #[trigger] keep@[j] ==> exists|k: int|
                    0 <= k < out@.len() && out@[k] == j,
            forall|a: int, b: int|
                0 <= a < b < out@.len() ==> listed_before(
                    keys@,
                    #[trigger] out@[a] as int,
                    #[trigger] out@[b] as int,
                ),
        decreases keys@.len() - i,
    {
        if keep[i] {
            let mut at: usize = out.len();
            while at > 0 && keys[out[at - 1]] > keys[i]
                invariant
                    i < keys@.len(),
                    at <= out@.len(),
                    forall|k: int| 0 <= k < out@.len() ==> 0 <= #[trigger] out@[k] < i,
                    forall|k: int| at <= k < out@.len() ==> keys@[#[trigger] out@[k] as int] > keys@[i as int],
                decreases at,
            {
                at = at - 1;
            }
            let ghost before = out@;
            out.insert(at, i);
            proof {
                assert(out@ == before.insert(at as int, i));
                assert forall|k: int| 0 <= k < out@.len() implies 0 <= #[trigger] out@[k] < i + 1
                    && keep@[out@[k] as int] by {
                    if k < at {
                        assert(out@[k] == before[k]);
                    } else if k > at {
                        assert(out@[k] == before[k - 1]);
                    }
                }
                assert forall|j: int| 0 <= j < i + 1 && #[trigger] keep@[j] implies exists|k: int|
                    0 <= k < out@.len() && out@[k] == j by {
                    if j == i {
                        assert(out@[at as int] == j);
                    } else {
                        let k = choose|k: int| 0 <= k < before.len() && before[k] == j;
                        if k < at {
                            assert(out@[k] == j);
                        } else {
                            assert(out@[k + 1] == j);
                        }
                    }
                }
                assert forall|a: int, b: int| 0 <= a < b < out@.len() implies listed_before(
                    keys@,
                    #[trigger] out@[a] as int,
                    #[trigger] out@[b] as int,
                ) by {
                    if b < at {
                        assert(out@[a] == before[a] && out@[b] == before[b]);
                    } else if b == at {
                        assert(out@[a] == before[a]);
                        assert(keys@[before[at - 1] as int] <= keys@[i as int]);
                        if a < at - 1 {
                            assert(listed_before(
                                keys@,
                                before[a] as int,
                                before[at - 1] as int,
                            ));
                        }
                    } else if a == at {
                        assert(out@[b] == before[b - 1]);
                    } else if a < at {
                        assert(out@[a] == before[a] && out@[b] == before[b - 1]);
                    } else {
                        assert(out@[a] == before[a - 1] && out@[b] == before[b - 1]);
                    }
                }
            }
        }
        i = i + 1;
    }
    proof {
        let order = positions(out@);
        assert forall|j: int| 0 <= j < keys@.len() && #[trigger] keep@[j] implies order.contains(
            j,
        ) by {
            let k = choose|k: int| 0 <= k < out@.len() && out@[k] == j;
            assert(order[k] == j);
        }
        assert forall|a: int, b: int| 0 <= a < b < order.len() implies listed_before(
            keys@,
            #[trigger] order[a],
            #[trigger] order[b],
        ) by {
            assert(order[a] == out@[a] && order[b] == out@[b]);
        }
        assert forall|k: int| 0 <= k < order.len() implies 0 <= #[trigger] order[k] < keys@.len()
            && keep@[order[k]] by {
            assert(order[k] == out@[k]);
        }
    }
    out
}

/// How many of the positions from 0 up to `n` fit.
pub open spec fn count_below(n: int, fits: spec_fn(int) -> bool) -> nat
    decreases n,
{
    if n <= 0 {
        0
    } else if fits(n - 1) {
        count_below(n - 1, fits) + 1
    } else {
        count_below(n - 1, fits)
    }
}

/// The sum of what is given for the positions from 0 up to `n`.
pub open spec fn sum_below(n: int, amount: spec_fn(int) -> int) -> int
    decreases n,
{
    if n <= 0 {
        0
    } else {
        sum_below(n - 1, amount) + amount(n - 1)
    }
}

/// No more positions fit than there are.
pub proof fn lemma_count_below(n: int, fits: spec_fn(int) -> bool)
    requires
        0 <= n,
    ensures
        count_below(n, fits) <= n,
        count_below(n, fits) > 0 <==> exists|i: int| 0 <= i < n && #[trigger] fits(i),
    decreases n,
{
    if n > 0 {
        lemma_count_below(n - 1, fits);
        if fits(n - 1) {
            assert(0 <= n - 1 < n && fits(n - 1));
        }
        if exists|i: int| 0 <= i < n && #[trigger] fits(i) {
            let i = choose|i: int| 0 <= i < n && #[trigger] fits(i);
            if i < n - 1 {
                assert(0 <= i < n - 1 && fits(i));
            }
        }
    }
}

/// Setting a row at its place, or appending it, makes it the one that is found.
pub proof fn lemma_set_row_is_found<T>(before: Seq<T>, after: Seq<T>, row: T, fits: spec_fn(T) -> bool)
    requires
        fits(row),
        match first_where(before, fits) {
            Some(i) => after == before.update(i, row),
            None => after == before.push(row),
        },
    ensures
        match first_where(before, fits) {
            Some(i) => first_where(after, fits) == Some(i) && after[i] == row,
            None => first_where(after, fits) == Some(before.len() as int)
                && after[before.len() as int] == row,
        },
{
    lemma_first_where(before, fits);
    match first_where(before, fits) {
        Some(i) => {
            assert forall|k: int| 0 <= k < i implies !fits(#[trigger] after[k]) by {
                assert(after[k] == before[k]);
            }
            lemma_first_is(after, fits, i);
        },
        None => {
            lemma_first_stays(before, row, fits);
        },
    }
}

/// Setting a row does not move another that is looked for otherwise.
pub proof fn lemma_set_row_keeps<T>(
    before: Seq<T>,
    after: Seq<T>,
    row: T,
    fits: spec_fn(T) -> bool,
    other: spec_fn(T) -> bool,
)
    requires
        !other(row),
        match first_where(before, fits) {
            Some(i) => after == before.update(i, row) && !other(before[i]),
            None => after == before.push(row),
        },
    ensures
        first_where(after, other) == first_where(before, other),
        first_where(before, other) matches Some(k) ==> after[k] == before[k] && 0 <= k
            < before.len(),
{
    lemma_first_where(before, fits);
    lemma_first_where(before, other);
    match first_where(before, fits) {
        Some(i) => {
            match first_where(before, other) {
                Some(k) => {
                    assert(after[k] == before[k]);
                    assert forall|x: int| 0 <= x < k implies !other(#[trigger] after[x]) by {
                        if x != i {
                            assert(after[x] == before[x]);
                        }
                    }
                    lemma_first_is(after, other, k);
                },
                None => {
                    assert forall|x: int| 0 <= x < after.len() implies !other(
                        #[trigger] after[x],
                    ) by {
                        if x != i {
                            assert(after[x] == before[x]);
                        }
                    }
                    lemma_none_fits(after, other);
                },
            }
        },
        None => {
            lemma_first_stays(before, row, other);
        },
    }
}

/// A listing holds each kept position once and no other, lower keys first, and positions with the same
/// key in their order.
pub proof fn lemma_listing_goes_by_key(
    order: Seq<int>,
    keys: Seq<i128>,
    keep: Seq<bool>,
    a: int,
    b: int,
    i: int,
)
    requires
        is_listing(order, keys, keep),
        0 <= a < b < order.len(),
    ensures
        keys[order[a]] <= keys[order[b]],
        keys[order[a]] == keys[order[b]] ==> order[a] < order[b],
        order.no_duplicates(),
        0 <= i < keys.len() ==> (order.contains(i) <==> keep[i]),
{
    assert(listed_before(keys, order[a], order[b]));
    assert forall|x: int, y: int| 0 <= x < order.len() && 0 <= y < order.len() && x != y implies
        order[x] != order[y] by {
        if x < y {
            assert(listed_before(keys, order[x], order[y]));
        } else {
            assert(listed_before(keys, order[y], order[x]));
        }
    }
}

} // verus!
