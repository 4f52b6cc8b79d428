//! Names that collide with nothing: the first of a numbered series that a
//! directory does not hold yet.
//!
//! A series has a first name and then `prefix 1 suffix`, `prefix 2 suffix`,
//! and so on, the number written in decimal. The directory is given as the
//! list of the names in it.

use vstd::prelude::*;
use vstd::relations::injective_on;
use vstd::set_lib::{lemma_int_range, lemma_len_subset, lemma_map_size, set_int_range};
use crate::text::{
    contains_name, decimal, from_chars, lemma_decimal_injective, lemma_decimal_nonempty,
    push_chars, push_decimal, views,
};

verus! {

/// The `k`-th name of the series.
pub open spec fn series_name(first: Seq<char>, prefix: Seq<char>, suffix: Seq<char>, k: nat) -> Seq<
    char,
> {
    if k == 0 {
        first
    } else {
        prefix + decimal(k) + suffix
    }
}

/// Whether the `k`-th name of the series is the first that `taken` lacks.
pub open spec fn is_first_free(
    first: Seq<char>,
    prefix: Seq<char>,
    suffix: Seq<char>,
    taken: Seq<Seq<char>>,
    k: nat,
) -> bool {
    &&& !taken.contains(series_name(first, prefix, suffix, k))
    &&& forall|j: nat| j < k ==> taken.contains(#[trigger] series_name(first, prefix, suffix, j))
}

/// The first name of the series that `taken` lacks.
pub open spec fn free_name(
    first: Seq<char>,
    prefix: Seq<char>,
    suffix: Seq<char>,
    taken: Seq<Seq<char>>,
) -> Seq<char> {
    series_name(
        first,
        prefix,
        suffix,
        choose|k: nat| is_first_free(first, prefix, suffix, taken, k),
    )
}

/// Whether the series can be told apart from its first name by length
/// alone: every numbered name is longer than the first.
pub open spec fn is_series(first: Seq<char>, prefix: Seq<char>, suffix: Seq<char>) -> bool {
    first.len() <= prefix.len() + suffix.len()
}

/// Two names of a series are the same name only if they have the same number.
pub proof fn lemma_series_injective(
    first: Seq<char>,
    prefix: Seq<char>,
    suffix: Seq<char>,
    a: nat,
    b: nat,
)
    requires
        is_series(first, prefix, suffix),
        series_name(first, prefix, suffix, a) == series_name(first, prefix, suffix, b),
    ensures
        a == b,
{
    lemma_decimal_nonempty(a);
    lemma_decimal_nonempty(b);
    let x = series_name(first, prefix, suffix, a);
    let y = series_name(first, prefix, suffix, b);
    assert(x.len() == y.len());
    if a != 0 && b != 0 {
        let da = decimal(a);
        let db = decimal(b);
        assert(da.len() == db.len());
        assert forall|i: int| 0 <= i < da.len() implies da[i] == db[i] by {
            assert(x[prefix.len() + i] == da[i]);
            assert(y[prefix.len() + i] == db[i]);
        }
        assert(da =~= db);
        lemma_decimal_injective(a, b);
    }
}

/// A list that holds the first `k` names of a series has at least `k`
/// entries.
pub proof fn lemma_series_bound(
    first: Seq<char>,
    prefix: Seq<char>,
    suffix: Seq<char>,
    taken: Seq<Seq<char>>,
    k: nat,
)
    requires
        is_series(first, prefix, suffix),
        forall|j: nat| j < k ==> taken.contains(#[trigger] series_name(first, prefix, suffix, j)),
    ensures
        k <= taken.len(),
{
    let place = |j: int| taken.index_of(series_name(first, prefix, suffix, j as nat));
    let numbers = set_int_range(0, k as int);
    let places = numbers.map(place);
    lemma_int_range(0, k as int);
    lemma_int_range(0, taken.len() as int);
    assert forall|a: int, b: int|
        numbers.contains(a) && numbers.contains(b) && #[trigger] place(a) == #[trigger] place(
            b,
        ) implies a == b by {
        let na = series_name(first, prefix, suffix, a as nat);
        let nb = series_name(first, prefix, suffix, b as nat);
        assert(taken.contains(na));
        assert(taken.contains(nb));
        assert(taken[place(a)] == na);
        assert(taken[place(b)] == nb);
        lemma_series_injective(first, prefix, suffix, a as nat, b as nat);
    }
    assert(injective_on(place, numbers));
    lemma_map_size(numbers, places, place);
    assert forall|p: int| places.contains(p) implies set_int_range(0, taken.len() as int).contains(
        p,
    ) by {
        let j = choose|j: int| numbers.contains(j) && place(j) == p;
        assert(taken.contains(series_name(first, prefix, suffix, j as nat)));
    }
    lemma_len_subset(places, set_int_range(0, taken.len() as int));
}

/// At most one name of a series is the first that a list lacks.
pub proof fn lemma_first_free_unique(
    first: Seq<char>,
    prefix: Seq<char>,
    suffix: Seq<char>,
    taken: Seq<Seq<char>>,
    a: nat,
    b: nat,
)
    requires
        is_first_free(first, prefix, suffix, taken, a),
        is_first_free(first, prefix, suffix, taken, b),
    ensures
        a == b,
{
    if a < b {
        assert(taken.contains(series_name(first, prefix, suffix, a)));
    } else if b < a {
        assert(taken.contains(series_name(first, prefix, suffix, b)));
    }
}

/// Some name of a series is the first that a list lacks, and it is none of
/// the list's names.
pub proof fn lemma_free_name(
    first: Seq<char>,
    prefix: Seq<char>,
    suffix: Seq<char>,
    taken: Seq<Seq<char>>,
)
    requires
        is_series(first, prefix, suffix),
    ensures
        exists|k: nat| is_first_free(first, prefix, suffix, taken, k),
        !taken.contains(free_name(first, prefix, suffix, taken)),
{
    lemma_first_free_from(first, prefix, suffix, taken, 0);
}

proof fn lemma_first_free_from(
    first: Seq<char>,
    prefix: Seq<char>,
    suffix: Seq<char>,
    taken: Seq<Seq<char>>,
    k: nat,
)
    requires
        is_series(first, prefix, suffix),
        forall|j: nat| j < k ==> taken.contains(#[trigger] series_name(first, prefix, suffix, j)),
    ensures
        exists|m: nat| is_first_free(first, prefix, suffix, taken, m),
    decreases taken.len() - k,
{
    lemma_series_bound(first, prefix, suffix, taken, k);
    if taken.contains(series_name(first, prefix, suffix, k)) {
        assert forall|j: nat| j < k + 1 implies taken.contains(
            #[trigger] series_name(first, prefix, suffix, j),
        ) by {}
        lemma_series_bound(first, prefix, suffix, taken, k + 1);
        lemma_first_free_from(first, prefix, suffix, taken, k + 1);
    } else {
        assert(is_first_free(first, prefix, suffix, taken, k));
    }
}

fn numbered(prefix: &[char], suffix: &[char], k: u64) -> (r: Vec<char>)
    ensures
        r@ == prefix@ + decimal(k as nat) + suffix@,
{
    let mut v: Vec<char> = Vec::new();
    push_chars(&mut v, prefix);
    push_decimal(&mut v, k as u128);
    push_chars(&mut v, suffix);
    assert(v@ =~= prefix@ + decimal(k as nat) + suffix@);
    v
}

/// The first name of the series `first`, `prefix 1 suffix`, `prefix 2
/// suffix`, ... that does not occur in `taken`.
pub(crate) fn first_free_name(
    first: &[char],
    prefix: &[char],
    suffix: &[char],
    taken: &Vec<String>,
) -> (r: String)
    requires
        is_series(first@, prefix@, suffix@),
    ensures
        r@ == free_name(first@, prefix@, suffix@, views(taken@)),
        !views(taken@).contains(r@),
        exists|k: nat| is_first_free(first@, prefix@, suffix@, views(taken@), k),
{
    let ghost names = views(taken@);
    let mut name = from_chars(first);
    let mut k: u64 = 0;
    while contains_name(taken, name.as_str())
        invariant
            is_series(first@, prefix@, suffix@),
            names == views(taken@),
            k <= taken.len(),
            name@ == series_name(first@, prefix@, suffix@, k as nat),
            forall|j: nat|
                j < k ==> names.contains(#[trigger] series_name(first@, prefix@, suffix@, j)),
        decreases taken.len() - k,
    {
        proof {
            assert forall|j: nat| j < k + 1 implies names.contains(
                #[trigger] series_name(first@, prefix@, suffix@, j),
            ) by {}
            lemma_series_bound(first@, prefix@, suffix@, names, (k + 1) as nat);
        }
        k = k + 1;
        let v = numbered(prefix, suffix, k);
        name = from_chars(v.as_slice());
    }
    proof {
        assert(is_first_free(first@, prefix@, suffix@, names, k as nat));
        let c = choose|c: nat| is_first_free(first@, prefix@, suffix@, names, c);
        lemma_first_free_unique(first@, prefix@, suffix@, names, k as nat, c);
    }
    name
}

} // verus!
