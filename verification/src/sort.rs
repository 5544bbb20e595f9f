//! Stable sorting by a text key, as a mathematical function, with its laws.

use vstd::prelude::*;
use vstd::seq_lib::to_multiset_insert;
use crate::text::{lemma_lex_irreflexive, lemma_lex_total, lemma_lex_transitive, lex_less};

verus! {

/// Whether key `a` must stand before key `b` in the chosen direction.
pub open spec fn comes_before(a: Seq<char>, b: Seq<char>, ascending: bool) -> bool {
    if ascending {
        lex_less(a, b)
    } else {
        lex_less(b, a)
    }
}

/// The first position at or after `from` whose key must stand behind `key`;
/// the length when there is none. A new item goes there: behind every item
/// whose key is equal to its own.
pub open spec fn insertion_point<T>(
    sorted: Seq<T>,
    key_of: spec_fn(T) -> Seq<char>,
    key: Seq<char>,
    ascending: bool,
    from: int,
) -> int
    decreases sorted.len() - from,
{
    if from < 0 || from >= sorted.len() {
        sorted.len() as int
    } else if comes_before(key, key_of(sorted[from]), ascending) {
        from
    } else {
        insertion_point(sorted, key_of, key, ascending, from + 1)
    }
}

/// The items in the order of their keys; items with equal keys keep the order
/// they came in.
pub open spec fn stable_sort<T>(items: Seq<T>, key_of: spec_fn(T) -> Seq<char>, ascending: bool)
    -> Seq<T>
    decreases items.len(),
{
    if items.len() == 0 {
        items
    } else {
        let front = stable_sort(items.drop_last(), key_of, ascending);
        front.insert(
            insertion_point(front, key_of, key_of(items.last()), ascending, 0),
            items.last(),
        )
    }
}

/// No item stands before one that must come before it.
pub open spec fn ordered<T>(s: Seq<T>, key_of: spec_fn(T) -> Seq<char>, ascending: bool) -> bool {
    forall|i: int, j: int|
        0 <= i < j < s.len() ==> !comes_before(
            #[trigger] key_of(s[j]),
            #[trigger] key_of(s[i]),
            ascending,
        )
}

/// No two items have the same key.
#[verifier::opaque]
pub open spec fn distinct_keys<T>(s: Seq<T>, key_of: spec_fn(T) -> Seq<char>) -> bool {
    forall|i: int, j: int|
        0 <= i < j < s.len() ==> #[trigger] key_of(s[i]) != #[trigger] key_of(s[j])
}

/// The insertion point lies in range; no item before it must stand behind
/// the key, and the item at it must.
pub proof fn lemma_insertion_point<T>(
    sorted: Seq<T>,
    key_of: spec_fn(T) -> Seq<char>,
    key: Seq<char>,
    ascending: bool,
    from: int,
)
    requires
        0 <= from <= sorted.len(),
    ensures
        from <= insertion_point(sorted, key_of, key, ascending, from) <= sorted.len(),
        forall|j: int|
            from <= j < insertion_point(sorted, key_of, key, ascending, from) ==> !comes_before(
                key,
                #[trigger] key_of(sorted[j]),
                ascending,
            ),
        insertion_point(sorted, key_of, key, ascending, from) < sorted.len() ==> comes_before(
            key,
            key_of(sorted[insertion_point(sorted, key_of, key, ascending, from)]),
            ascending,
        ),
    decreases sorted.len() - from,
{
    if from < sorted.len() && !comes_before(key, key_of(sorted[from]), ascending) {
        lemma_insertion_point(sorted, key_of, key, ascending, from + 1);
    }
}

/// The order of keys is transitive, and no key comes before itself.
proof fn lemma_comes_before_chain(a: Seq<char>, b: Seq<char>, c: Seq<char>, ascending: bool)
    requires
        comes_before(a, b, ascending),
        comes_before(b, c, ascending),
    ensures
        comes_before(a, c, ascending),
        a != c,
{
    if ascending {
        lemma_lex_transitive(a, b, c);
    } else {
        lemma_lex_transitive(c, b, a);
    }
    lemma_lex_irreflexive(a);
}

/// The sorted sequence has the same length as the input.
pub proof fn lemma_sort_len<T>(items: Seq<T>, key_of: spec_fn(T) -> Seq<char>, ascending: bool)
    ensures
        stable_sort(items, key_of, ascending).len() == items.len(),
    decreases items.len(),
{
    if items.len() > 0 {
        let front = stable_sort(items.drop_last(), key_of, ascending);
        lemma_sort_len(items.drop_last(), key_of, ascending);
        lemma_insertion_point(front, key_of, key_of(items.last()), ascending, 0);
    }
}

/// Sorting rearranges: every item occurs in the result as often as in the
/// input.
pub proof fn lemma_sort_is_permutation<T>(
    items: Seq<T>,
    key_of: spec_fn(T) -> Seq<char>,
    ascending: bool,
)
    ensures
        stable_sort(items, key_of, ascending).to_multiset() == items.to_multiset(),
    decreases items.len(),
{
    if items.len() > 0 {
        let front = stable_sort(items.drop_last(), key_of, ascending);
        let p = insertion_point(front, key_of, key_of(items.last()), ascending, 0);
        lemma_sort_is_permutation(items.drop_last(), key_of, ascending);
        lemma_insertion_point(front, key_of, key_of(items.last()), ascending, 0);
        to_multiset_insert(front, p, items.last());
        let rest = items.drop_last();
        to_multiset_insert(rest, rest.len() as int, items.last());
        assert(rest.insert(rest.len() as int, items.last()) =~= items);
    }
}

/// The result of sorting is in order.
pub proof fn lemma_sort_is_ordered<T>(
    items: Seq<T>,
    key_of: spec_fn(T) -> Seq<char>,
    ascending: bool,
)
    ensures
        ordered(stable_sort(items, key_of, ascending), key_of, ascending),
    decreases items.len(),
{
    if items.len() > 0 {
        let front = stable_sort(items.drop_last(), key_of, ascending);
        let x = items.last();
        let k = key_of(x);
        let p = insertion_point(front, key_of, k, ascending, 0);
        lemma_sort_is_ordered(items.drop_last(), key_of, ascending);
        lemma_insertion_point(front, key_of, k, ascending, 0);
        let r = front.insert(p, x);
        assert forall|i: int, j: int| 0 <= i < j < r.len() implies !comes_before(
            #[trigger] key_of(r[j]),
            #[trigger] key_of(r[i]),
            ascending,
        ) by {
            if j == p {
                assert(r[i] == front[i]);
            } else if i == p {
                assert(r[j] == front[j - 1]);
                if comes_before(key_of(front[j - 1]), k, ascending) {
                    lemma_comes_before_chain(key_of(front[j - 1]), k, key_of(front[p]), ascending);
                    if j - 1 > p {
                        assert(!comes_before(key_of(front[j - 1]), key_of(front[p]), ascending));
                    }
                }
            } else {
                let a = if i < p {
                    i
                } else {
                    i - 1
                };
                let b = if j < p {
                    j
                } else {
                    j - 1
                };
                assert(r[i] == front[a] && r[j] == front[b]);
                assert(!comes_before(key_of(front[b]), key_of(front[a]), ascending));
            }
        }
    }
}

/// Sorting a sequence that is in order changes nothing.
pub proof fn lemma_sort_of_ordered<T>(
    items: Seq<T>,
    key_of: spec_fn(T) -> Seq<char>,
    ascending: bool,
)
    requires
        ordered(items, key_of, ascending),
    ensures
        stable_sort(items, key_of, ascending) == items,
    decreases items.len(),
{
    if items.len() > 0 {
        let rest = items.drop_last();
        let k = key_of(items.last());
        assert(ordered(rest, key_of, ascending)) by {
            assert forall|i: int, j: int| 0 <= i < j < rest.len() implies !comes_before(
                #[trigger] key_of(rest[j]),
                #[trigger] key_of(rest[i]),
                ascending,
            ) by {
                assert(rest[i] == items[i] && rest[j] == items[j]);
            }
        }
        lemma_sort_of_ordered(rest, key_of, ascending);
        lemma_insertion_point(rest, key_of, k, ascending, 0);
        let p = insertion_point(rest, key_of, k, ascending, 0);
        if p < rest.len() {
            assert(rest[p] == items[p]);
            assert(!comes_before(key_of(items[items.len() - 1]), key_of(items[p]), ascending));
        }
        assert(rest.insert(rest.len() as int, items.last()) =~= items);
    }
}

/// Sorting twice in the same direction gives what sorting once gives.
pub proof fn lemma_sort_idempotent<T>(
    items: Seq<T>,
    key_of: spec_fn(T) -> Seq<char>,
    ascending: bool,
)
    ensures
        stable_sort(stable_sort(items, key_of, ascending), key_of, ascending) == stable_sort(
            items,
            key_of,
            ascending,
        ),
{
    lemma_sort_is_ordered(items, key_of, ascending);
    lemma_sort_of_ordered(stable_sort(items, key_of, ascending), key_of, ascending);
}

/// Every item of the sorted sequence is an item of the input.
pub proof fn lemma_sort_keeps_items<T>(
    items: Seq<T>,
    key_of: spec_fn(T) -> Seq<char>,
    ascending: bool,
)
    ensures
        forall|i: int|
            0 <= i < stable_sort(items, key_of, ascending).len() ==> items.contains(
                #[trigger] stable_sort(items, key_of, ascending)[i],
            ),
    decreases items.len(),
{
    if items.len() > 0 {
        let rest = items.drop_last();
        let front = stable_sort(rest, key_of, ascending);
        let p = insertion_point(front, key_of, key_of(items.last()), ascending, 0);
        lemma_sort_keeps_items(rest, key_of, ascending);
        lemma_insertion_point(front, key_of, key_of(items.last()), ascending, 0);
        let r = front.insert(p, items.last());
        assert forall|i: int| 0 <= i < r.len() implies items.contains(#[trigger] r[i]) by {
            if i == p {
                assert(items[items.len() - 1] == r[i]);
            } else {
                let a = if i < p {
                    i
                } else {
                    i - 1
                };
                assert(r[i] == front[a]);
                assert(rest.contains(front[a]));
                let m = choose|m: int| 0 <= m < rest.len() && rest[m] == front[a];
                assert(items[m] == r[i]);
            }
        }
    }
}

/// Sorting keeps keys distinct.
pub proof fn lemma_sort_keeps_distinct<T>(
    items: Seq<T>,
    key_of: spec_fn(T) -> Seq<char>,
    ascending: bool,
)
    requires
        distinct_keys(items, key_of),
    ensures
        distinct_keys(stable_sort(items, key_of, ascending), key_of),
    decreases items.len(),
{
    reveal(distinct_keys);
    if items.len() > 0 {
        let rest = items.drop_last();
        let front = stable_sort(rest, key_of, ascending);
        let x = items.last();
        let p = insertion_point(front, key_of, key_of(x), ascending, 0);
        assert(distinct_keys(rest, key_of)) by {
            assert forall|i: int, j: int| 0 <= i < j < rest.len() implies #[trigger] key_of(
                rest[i],
            ) != #[trigger] key_of(rest[j]) by {
                assert(rest[i] == items[i] && rest[j] == items[j]);
            }
        }
        lemma_sort_keeps_distinct(rest, key_of, ascending);
        lemma_sort_keeps_items(rest, key_of, ascending);
        lemma_insertion_point(front, key_of, key_of(x), ascending, 0);
        let r = front.insert(p, x);
        assert forall|i: int, j: int| 0 <= i < j < r.len() implies #[trigger] key_of(r[i])
            != #[trigger] key_of(r[j]) by {
            if i == p || j == p {
                let other = if i == p {
                    j - 1
                } else {
                    i
                };
                assert(front[other] == if i == p {
                    r[j]
                } else {
                    r[i]
                });
                assert(rest.contains(front[other]));
                let m = choose|m: int| 0 <= m < rest.len() && rest[m] == front[other];
                assert(items[m] == front[other]);
                assert(key_of(items[m]) != key_of(items[items.len() - 1]));
            } else {
                let a = if i < p {
                    i
                } else {
                    i - 1
                };
                let b = if j < p {
                    j
                } else {
                    j - 1
                };
                assert(r[i] == front[a] && r[j] == front[b]);
            }
        }
    }
}

/// Sorting down a sequence with strictly increasing keys reverses it.
proof fn lemma_descending_of_increasing<T>(t: Seq<T>, key_of: spec_fn(T) -> Seq<char>)
    requires
        ordered(t, key_of, true),
        distinct_keys(t, key_of),
    ensures
        stable_sort(t, key_of, false) == t.reverse(),
    decreases t.len(),
{
    reveal(distinct_keys);
    if t.len() == 0 {
        assert(t.reverse() =~= t);
    } else {
        let rest = t.drop_last();
        let x = t.last();
        assert(ordered(rest, key_of, true) && distinct_keys(rest, key_of)) by {
            assert forall|i: int, j: int| 0 <= i < j < rest.len() implies !comes_before(
                #[trigger] key_of(rest[j]),
                #[trigger] key_of(rest[i]),
                true,
            ) && key_of(rest[i]) != key_of(rest[j]) by {
                assert(rest[i] == t[i] && rest[j] == t[j]);
            }
        }
        lemma_descending_of_increasing(rest, key_of);
        let front = rest.reverse();
        if front.len() > 0 {
            let y = front[0];
            assert(y == t[t.len() - 2]);
            assert(!lex_less(key_of(t[t.len() - 1]), key_of(t[t.len() - 2])));
            assert(key_of(t[t.len() - 2]) != key_of(t[t.len() - 1]));
            if !lex_less(key_of(y), key_of(x)) {
                lemma_lex_total(key_of(y), key_of(x));
            }
            assert(insertion_point(front, key_of, key_of(x), false, 0) == 0);
        }
        assert(front.insert(0, x) =~= t.reverse());
    }
}

/// Where no two keys are equal, sorting down what was sorted up reverses it.
pub proof fn lemma_descending_reverses_ascending<T>(items: Seq<T>, key_of: spec_fn(T) -> Seq<char>)
    requires
        distinct_keys(items, key_of),
    ensures
        stable_sort(stable_sort(items, key_of, true), key_of, false) == stable_sort(
            items,
            key_of,
            true,
        ).reverse(),
{
    lemma_sort_is_ordered(items, key_of, true);
    lemma_sort_keeps_distinct(items, key_of, true);
    lemma_descending_of_increasing(stable_sort(items, key_of, true), key_of);
}

/// Whether `x` stands at some position of `s` and `y` at a later one.
pub open spec fn occurs_before<T>(s: Seq<T>, x: T, y: T) -> bool {
    exists|a: int, b: int|
        #![trigger s[a], s[b]]
        0 <= a < b < s.len() && s[a] == x && s[b] == y
}

/// Every item of the input stands somewhere in the sorted sequence.
pub proof fn lemma_sort_has_items<T>(
    items: Seq<T>,
    key_of: spec_fn(T) -> Seq<char>,
    ascending: bool,
    i: int,
) -> (a: int)
    requires
        0 <= i < items.len(),
    ensures
        0 <= a < stable_sort(items, key_of, ascending).len(),
        stable_sort(items, key_of, ascending)[a] == items[i],
    decreases items.len(),
{
    let rest = items.drop_last();
    let front = stable_sort(rest, key_of, ascending);
    let p = insertion_point(front, key_of, key_of(items.last()), ascending, 0);
    lemma_insertion_point(front, key_of, key_of(items.last()), ascending, 0);
    if i == items.len() - 1 {
        p
    } else {
        let before = lemma_sort_has_items(rest, key_of, ascending, i);
        assert(rest[i] == items[i]);
        if before < p {
            before
        } else {
            before + 1
        }
    }
}

/// Sorting is stable: of two items with equal keys, the one that came first
/// stands first in the sorted sequence.
pub proof fn lemma_sort_is_stable<T>(
    items: Seq<T>,
    key_of: spec_fn(T) -> Seq<char>,
    ascending: bool,
    i: int,
    j: int,
)
    requires
        0 <= i < j < items.len(),
        key_of(items[i]) == key_of(items[j]),
    ensures
        occurs_before(stable_sort(items, key_of, ascending), items[i], items[j]),
    decreases items.len(),
{
    let rest = items.drop_last();
    let front = stable_sort(rest, key_of, ascending);
    let k = key_of(items.last());
    let p = insertion_point(front, key_of, k, ascending, 0);
    lemma_insertion_point(front, key_of, k, ascending, 0);
    let sorted = front.insert(p, items.last());
    if j == items.len() - 1 {
        let a = lemma_sort_has_items(rest, key_of, ascending, i);
        assert(rest[i] == items[i]);
        lemma_sort_is_ordered(rest, key_of, ascending);
        if p <= a {
            lemma_lex_irreflexive(k);
            if p < a {
                assert(!comes_before(key_of(front[a]), key_of(front[p]), ascending));
            }
            assert(comes_before(k, key_of(front[p]), ascending));
        }
        assert(sorted[a] == items[i] && sorted[p] == items[j]);
    } else {
        assert(rest[i] == items[i] && rest[j] == items[j]);
        lemma_sort_is_stable(rest, key_of, ascending, i, j);
        let (a, b) = choose|a: int, b: int|
            #![trigger front[a], front[b]]
            0 <= a < b < front.len() && front[a] == items[i] && front[b] == items[j];
        let a2 = if a < p {
            a
        } else {
            a + 1
        };
        let b2 = if b < p {
            b
        } else {
            b + 1
        };
        assert(sorted[a2] == items[i] && sorted[b2] == items[j]);
    }
}

/// Sorting keeps a sequence free of repeated items.
pub proof fn lemma_sort_keeps_no_duplicates<T>(
    items: Seq<T>,
    key_of: spec_fn(T) -> Seq<char>,
    ascending: bool,
)
    requires
        items.no_duplicates(),
    ensures
        stable_sort(items, key_of, ascending).no_duplicates(),
{
    lemma_sort_is_permutation(items, key_of, ascending);
    items.lemma_multiset_has_no_duplicates();
    stable_sort(items, key_of, ascending).lemma_multiset_has_no_duplicates_conv();
}

/// Where no item occurs twice, sorting down what was sorted up reverses it
/// only if no two keys are equal.
pub proof fn lemma_reversal_needs_distinct_keys<T>(items: Seq<T>, key_of: spec_fn(T) -> Seq<char>)
    requires
        items.no_duplicates(),
        stable_sort(stable_sort(items, key_of, true), key_of, false) == stable_sort(
            items,
            key_of,
            true,
        ).reverse(),
    ensures
        distinct_keys(items, key_of),
{
    reveal(distinct_keys);
    let up = stable_sort(items, key_of, true);
    let down = stable_sort(up, key_of, false);
    let n = up.len() as int;
    lemma_sort_keeps_no_duplicates(items, key_of, true);
    assert forall|i: int, j: int| 0 <= i < j < items.len() implies #[trigger] key_of(items[i])
        != #[trigger] key_of(items[j]) by {
        if key_of(items[i]) == key_of(items[j]) {
            let u = lemma_sort_has_items(items, key_of, true, i);
            let v = lemma_sort_has_items(items, key_of, true, j);
            assert(items[i] != items[j]);
            let lo = if u < v {
                u
            } else {
                v
            };
            let hi = if u < v {
                v
            } else {
                u
            };
            lemma_sort_is_stable(up, key_of, false, lo, hi);
            let (a, b) = choose|a: int, b: int|
                #![trigger down[a], down[b]]
                0 <= a < b < down.len() && down[a] == up[lo] && down[b] == up[hi];
            assert(down[a] == up[n - 1 - a] && down[b] == up[n - 1 - b]);
            assert(n - 1 - a == lo);
            assert(n - 1 - b == hi);
        }
    }
}

} // verus!
