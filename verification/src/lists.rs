//! Lists of container numbers.

use vstd::prelude::*;

verus! {

/// The place of the first `x`, or the length where there is none.
pub open spec fn position(s: Seq<usize>, x: usize) -> int
    decreases s.len(),
{
    if s.len() == 0 || s[0] == x {
        0
    } else {
        1 + position(s.drop_first(), x)
    }
}

/// The list without `x`.
pub open spec fn without(s: Seq<usize>, x: usize) -> Seq<usize>
    decreases s.len(),
{
    if s.len() == 0 {
        s
    } else if s.last() == x {
        without(s.drop_last(), x)
    } else {
        without(s.drop_last(), x).push(s.last())
    }
}

/// The items that `keep` holds, or those it does not hold.
pub open spec fn filtered(s: Seq<usize>, keep: Seq<usize>, wanted: bool) -> Seq<usize>
    decreases s.len(),
{
    if s.len() == 0 {
        s
    } else if keep.contains(s.last()) == wanted {
        filtered(s.drop_last(), keep, wanted).push(s.last())
    } else {
        filtered(s.drop_last(), keep, wanted)
    }
}

/// The list with the item at `i` replaced by other items.
pub open spec fn spliced(s: Seq<usize>, i: int, items: Seq<usize>) -> Seq<usize> {
    s.take(i) + items + s.skip(i + 1)
}

/// The least place in `s` of any of `items`, or the length of `s`.
pub open spec fn first_place(s: Seq<usize>, items: Seq<usize>) -> int
    decreases items.len(),
{
    if items.len() == 0 {
        s.len() as int
    } else {
        let rest = first_place(s, items.drop_last());
        let here = position(s, items.last());
        if here < rest {
            here
        } else {
            rest
        }
    }
}

/// The list with `x` taken out and put back at `i`, or at the end.
pub open spec fn shifted(s: Seq<usize>, x: usize, i: int) -> Seq<usize> {
    let rest = without(s, x);
    rest.insert(
        if i <= rest.len() {
            i
        } else {
            rest.len() as int
        },
        x,
    )
}

pub proof fn lemma_position(s: Seq<usize>, x: usize)
    ensures
        0 <= position(s, x) <= s.len(),
        position(s, x) < s.len() <==> s.contains(x),
        position(s, x) < s.len() ==> s[position(s, x)] == x,
        forall|j: int| 0 <= j < position(s, x) ==> s[j] != x,
    decreases s.len(),
{
    if s.len() > 0 && s[0] != x {
        let rest = s.drop_first();
        lemma_position(rest, x);
        assert forall|j: int| 0 <= j < position(s, x) implies s[j] != x by {
            if j > 0 {
                assert(rest[j - 1] == s[j]);
            }
        }
        if s.contains(x) {
            let j = choose|j: int| 0 <= j < s.len() && s[j] == x;
            assert(rest[j - 1] == x);
        }
    } else if s.len() > 0 {
        assert(s[0] == x);
    }
}

pub proof fn lemma_position_is(s: Seq<usize>, x: usize, k: int)
    requires
        0 <= k < s.len(),
        s[k] == x,
        s.no_duplicates(),
    ensures
        position(s, x) == k,
{
    lemma_position(s, x);
}

pub proof fn lemma_without(s: Seq<usize>, x: usize)
    ensures
        forall|y: usize| #[trigger] without(s, x).contains(y) <==> (s.contains(y) && y != x),
        s.no_duplicates() ==> without(s, x).no_duplicates(),
        without(s, x).len() <= s.len(),
        !s.contains(x) ==> without(s, x) == s,
        s.no_duplicates() && s.contains(x) ==> without(s, x).len() == s.len() - 1,
    decreases s.len(),
{
    if s.len() > 0 {
        let front = s.drop_last();
        lemma_without(front, x);
        assert(s =~= front.push(s.last()));
        assert forall|y: usize| #[trigger] without(s, x).contains(y) <==> (s.contains(y) && y
            != x) by {
            lemma_push_contains(front, s.last(), y);
            lemma_push_contains(without(front, x), s.last(), y);
        }
        if s.no_duplicates() {
            assert(front.no_duplicates());
            lemma_last_not_in_front(s);
            if s.last() != x {
                lemma_push_unique(without(front, x), s.last());
            }
        }
        if !s.contains(x) {
            assert(s.last() != x);
            lemma_push_contains(front, s.last(), x);
        }
        if s.contains(x) {
            lemma_push_contains(front, s.last(), x);
        }
    }
}

pub proof fn lemma_push_contains(s: Seq<usize>, x: usize, y: usize)
    ensures
        s.push(x).contains(y) <==> (s.contains(y) || x == y),
{
    if s.push(x).contains(y) {
        let i = choose|i: int| 0 <= i < s.push(x).len() && s.push(x)[i] == y;
        if i < s.len() {
            assert(s[i] == y);
        }
    }
    if s.contains(y) {
        let i = choose|i: int| 0 <= i < s.len() && s[i] == y;
        assert(s.push(x)[i] == y);
    }
    assert(s.push(x)[s.len() as int] == x);
}

pub proof fn lemma_joined_contains(a: Seq<usize>, b: Seq<usize>, y: usize)
    ensures
        (a + b).contains(y) <==> a.contains(y) || b.contains(y),
{
    if a.contains(y) {
        let k = choose|k: int| 0 <= k < a.len() && a[k] == y;
        assert((a + b)[k] == y);
    }
    if b.contains(y) {
        let k = choose|k: int| 0 <= k < b.len() && b[k] == y;
        assert((a + b)[a.len() + k] == y);
    }
    if (a + b).contains(y) {
        let k = choose|k: int| 0 <= k < (a + b).len() && (a + b)[k] == y;
        if k < a.len() {
            assert(a[k] == y);
        } else {
            assert(b[k - a.len()] == y);
        }
    }
}

pub proof fn lemma_last_not_in_front(s: Seq<usize>)
    requires
        s.len() > 0,
        s.no_duplicates(),
    ensures
        !s.drop_last().contains(s.last()),
        s.drop_last().no_duplicates(),
{
    if s.drop_last().contains(s.last()) {
        let i = choose|i: int| 0 <= i < s.drop_last().len() && s.drop_last()[i] == s.last();
        assert(s[i] == s[s.len() - 1]);
    }
}

pub proof fn lemma_push_unique(s: Seq<usize>, x: usize)
    requires
        s.no_duplicates(),
        !s.contains(x),
    ensures
        s.push(x).no_duplicates(),
{
}

pub proof fn lemma_filtered(s: Seq<usize>, keep: Seq<usize>, wanted: bool)
    ensures
        forall|y: usize| #[trigger]
            filtered(s, keep, wanted).contains(y) <==> (s.contains(y) && keep.contains(y)
                == wanted),
        s.no_duplicates() ==> filtered(s, keep, wanted).no_duplicates(),
        filtered(s, keep, wanted).len() <= s.len(),
    decreases s.len(),
{
    if s.len() > 0 {
        let front = s.drop_last();
        lemma_filtered(front, keep, wanted);
        assert(s =~= front.push(s.last()));
        assert forall|y: usize| #[trigger] filtered(s, keep, wanted).contains(y) <==> (s.contains(
            y,
        ) && keep.contains(y) == wanted) by {
            lemma_push_contains(front, s.last(), y);
            lemma_push_contains(filtered(front, keep, wanted), s.last(), y);
        }
        if s.no_duplicates() {
            lemma_last_not_in_front(s);
            if keep.contains(s.last()) == wanted {
                lemma_push_unique(filtered(front, keep, wanted), s.last());
            }
        }
    }
}

pub proof fn lemma_insert(s: Seq<usize>, i: int, x: usize)
    requires
        0 <= i <= s.len(),
    ensures
        forall|y: usize| #[trigger] s.insert(i, x).contains(y) <==> (s.contains(y) || y == x),
        s.no_duplicates() && !s.contains(x) ==> s.insert(i, x).no_duplicates(),
        s.insert(i, x).len() == s.len() + 1,
        s.insert(i, x)[i] == x,
{
    let r = s.insert(i, x);
    assert forall|y: usize| #[trigger] r.contains(y) <==> (s.contains(y) || y == x) by {
        if r.contains(y) {
            let k = choose|k: int| 0 <= k < r.len() && r[k] == y;
            if k < i {
                assert(s[k] == y);
            } else if k > i {
                assert(s[k - 1] == y);
            }
        }
        if s.contains(y) {
            let k = choose|k: int| 0 <= k < s.len() && s[k] == y;
            if k < i {
                assert(r[k] == y);
            } else {
                assert(r[k + 1] == y);
            }
        }
        assert(r[i] == x);
    }
    if s.no_duplicates() && !s.contains(x) {
        assert forall|a: int, b: int| 0 <= a < r.len() && 0 <= b < r.len() && a != b implies r[a]
            != r[b] by {
            let a0 = if a < i {
                a
            } else {
                a - 1
            };
            let b0 = if b < i {
                b
            } else {
                b - 1
            };
            if a != i {
                assert(r[a] == s[a0]);
            }
            if b != i {
                assert(r[b] == s[b0]);
            }
        }
    }
}

pub proof fn lemma_shifted(s: Seq<usize>, x: usize, i: int)
    requires
        0 <= i,
        s.no_duplicates(),
        s.contains(x),
    ensures
        forall|y: usize| #[trigger] shifted(s, x, i).contains(y) <==> s.contains(y),
        shifted(s, x, i).no_duplicates(),
        shifted(s, x, i).len() == s.len(),
{
    lemma_without(s, x);
    let rest = without(s, x);
    lemma_insert(
        rest,
        if i <= rest.len() {
            i
        } else {
            rest.len() as int
        },
        x,
    );
}

pub proof fn lemma_without_at(s: Seq<usize>, x: usize, k: int)
    requires
        s.no_duplicates(),
        0 <= k < s.len(),
        s[k] == x,
    ensures
        without(s, x) == s.remove(k),
    decreases s.len(),
{
    let front = s.drop_last();
    if k == s.len() - 1 {
        lemma_last_not_in_front(s);
        lemma_without(front, x);
        assert(s.remove(k) =~= front);
    } else {
        assert(s[k] != s[s.len() - 1]);
        assert(front[k] == x);
        lemma_without_at(front, x, k);
        assert(s.remove(k) =~= front.remove(k).push(s.last()));
    }
}

/// Taking an item to another place and back to where it was leaves a list as it was.
pub proof fn lemma_shifted_back(s: Seq<usize>, x: usize, i: int)
    requires
        0 <= i,
        s.no_duplicates(),
        s.contains(x),
    ensures
        shifted(shifted(s, x, i), x, position(s, x)) == s,
{
    lemma_position(s, x);
    lemma_shifted(s, x, i);
    let k = position(s, x);
    lemma_without_at(s, x, k);
    let rest = without(s, x);
    let j = if i <= rest.len() {
        i
    } else {
        rest.len() as int
    };
    let r = shifted(s, x, i);
    assert(r[j] == x);
    lemma_without_at(r, x, j);
    assert(r.remove(j) =~= rest);
    assert(rest.insert(k, x) =~= s);
}

pub proof fn lemma_spliced(s: Seq<usize>, i: int, items: Seq<usize>)
    requires
        0 <= i < s.len(),
        s.no_duplicates(),
        items.no_duplicates(),
        forall|y: usize| #[trigger] items.contains(y) ==> !s.contains(y),
    ensures
        forall|y: usize| #[trigger]
            spliced(s, i, items).contains(y) <==> ((s.contains(y) && y != s[i]) || items.contains(
                y,
            )),
        spliced(s, i, items).no_duplicates(),
        spliced(s, i, items).len() == s.len() - 1 + items.len(),
{
    let r = spliced(s, i, items);
    let m = items.len() as int;
    assert forall|k: int| 0 <= k < r.len() implies #[trigger] r[k] == (if k < i {
        s[k]
    } else if k < i + m {
        items[k - i]
    } else {
        s[k - m + 1]
    }) by {}
    assert forall|y: usize| #[trigger] r.contains(y) <==> ((s.contains(y) && y != s[i])
        || items.contains(y)) by {
        if r.contains(y) {
            let k = choose|k: int| 0 <= k < r.len() && r[k] == y;
            if k < i {
                assert(s[k] == y);
            } else if k < i + m {
                assert(items[k - i] == y);
            } else {
                assert(s[k - m + 1] == y);
            }
        }
        if s.contains(y) && y != s[i] {
            let k = choose|k: int| 0 <= k < s.len() && s[k] == y;
            if k < i {
                assert(r[k] == y);
            } else {
                assert(r[k + m - 1] == y);
            }
        }
        if items.contains(y) {
            let k = choose|k: int| 0 <= k < items.len() && items[k] == y;
            assert(r[k + i] == y);
        }
    }
    assert forall|a: int, b: int| 0 <= a < b < r.len() implies r[a] != r[b] by {
        if i <= a < i + m {
            assert(items.contains(items[a - i]));
        }
        if i <= b < i + m {
            assert(items.contains(items[b - i]));
        }
        if a < i {
            assert(s.contains(s[a]));
        }
        if b < i {
            assert(s.contains(s[b]));
        }
        if a >= i + m {
            assert(s.contains(s[a - m + 1]));
        }
        if b >= i + m {
            assert(s.contains(s[b - m + 1]));
        }
    }
}

pub proof fn lemma_first_place(s: Seq<usize>, items: Seq<usize>)
    ensures
        0 <= first_place(s, items) <= s.len(),
        forall|k: int|
            0 <= k < items.len() ==> first_place(s, items) <= #[trigger] position(s, items[k]),
    decreases items.len(),
{
    if items.len() > 0 {
        let front = items.drop_last();
        lemma_first_place(s, front);
        lemma_position(s, items.last());
        assert forall|k: int| 0 <= k < items.len() implies first_place(s, items)
            <= #[trigger] position(s, items[k]) by {
            if k < front.len() {
                assert(front[k] == items[k]);
            }
        }
    }
}

/// A list of distinct numbers below `n` has at most `n` items.
pub proof fn lemma_distinct_bounded(s: Seq<usize>, n: int)
    requires
        s.no_duplicates(),
        0 <= n,
        forall|i: int| 0 <= i < s.len() ==> #[trigger] s[i] < n,
    ensures
        s.len() <= n,
    decreases n,
{
    if n == 0 {
        if s.len() > 0 {
            assert(s[0] < 0);
        }
    } else {
        let x = (n - 1) as usize;
        lemma_without(s, x);
        let rest = without(s, x);
        assert forall|i: int| 0 <= i < rest.len() implies #[trigger] rest[i] < n - 1 by {
            assert(rest.contains(rest[i]));
            assert(s.contains(rest[i]));
        }
        lemma_distinct_bounded(rest, n - 1);
    }
}

/// The place of the first `x`, or the length where there is none.
pub fn find(v: &Vec<usize>, x: usize) -> (res: usize)
    ensures
        res == position(v@, x),
        res <= v.len(),
{
    let mut i: usize = 0;
    proof {
        lemma_position(v@, x);
    }
    while i < v.len()
        invariant
            i <= v.len(),
            forall|j: int| 0 <= j < i ==> v[j] != x,
            0 <= position(v@, x) <= v.len(),
            position(v@, x) < v.len() <==> v@.contains(x),
            position(v@, x) < v.len() ==> v@[position(v@, x)] == x,
            forall|j: int| 0 <= j < position(v@, x) ==> v@[j] != x,
        decreases v.len() - i,
    {
        if v[i] == x {
            assert(v@.contains(x));
            return i;
        }
        i = i + 1;
    }
    i
}

pub fn contains(v: &Vec<usize>, x: usize) -> (res: bool)
    ensures
        res == v@.contains(x),
{
    proof {
        lemma_position(v@, x);
    }
    find(v, x) < v.len()
}

pub fn remove_item(v: &Vec<usize>, x: usize) -> (res: Vec<usize>)
    ensures
        res@ == without(v@, x),
{
    let mut res: Vec<usize> = Vec::new();
    assert(v@.take(0) =~= Seq::<usize>::empty());
    for i in 0..v.len()
        invariant
            res@ == without(v@.take(i as int), x),
    {
        assert(v@.take(i + 1).drop_last() =~= v@.take(i as int));
        if v[i] != x {
            res.push(v[i]);
        }
    }
    assert(v@.take(v.len() as int) =~= v@);
    res
}

pub fn filter_items(v: &Vec<usize>, keep: &Vec<usize>, wanted: bool) -> (res: Vec<usize>)
    ensures
        res@ == filtered(v@, keep@, wanted),
{
    let mut res: Vec<usize> = Vec::new();
    assert(v@.take(0) =~= Seq::<usize>::empty());
    for i in 0..v.len()
        invariant
            res@ == filtered(v@.take(i as int), keep@, wanted),
    {
        assert(v@.take(i + 1).drop_last() =~= v@.take(i as int));
        if contains(keep, v[i]) == wanted {
            res.push(v[i]);
        }
    }
    assert(v@.take(v.len() as int) =~= v@);
    res
}

pub fn splice_items(v: &Vec<usize>, i: usize, items: &Vec<usize>) -> (res: Vec<usize>)
    requires
        i < v.len(),
    ensures
        res@ == spliced(v@, i as int, items@),
{
    let mut res: Vec<usize> = Vec::new();
    for k in 0..i
        invariant
            i < v.len(),
            res@ == v@.take(k as int),
    {
        res.push(v[k]);
    }
    for k in 0..items.len()
        invariant
            i < v.len(),
            res@ == v@.take(i as int) + items@.take(k as int),
    {
        res.push(items[k]);
    }
    assert(items@.take(items.len() as int) =~= items@);
    for k in i + 1..v.len()
        invariant
            i < v.len(),
            res@ == v@.take(i as int) + items@ + v@.subrange(i + 1, k as int),
    {
        res.push(v[k]);
    }
    assert(v@.subrange(i + 1, v.len() as int) =~= v@.skip(i + 1));
    res
}

pub fn first_place_of(v: &Vec<usize>, items: &Vec<usize>) -> (res: usize)
    ensures
        res == first_place(v@, items@),
        res <= v.len(),
{
    let mut res: usize = v.len();
    assert(items@.take(0) =~= Seq::<usize>::empty());
    for i in 0..items.len()
        invariant
            res == first_place(v@, items@.take(i as int)),
            res <= v.len(),
    {
        assert(items@.take(i + 1).drop_last() =~= items@.take(i as int));
        let here = find(v, items[i]);
        if here < res {
            res = here;
        }
    }
    assert(items@.take(items.len() as int) =~= items@);
    res
}

/// Takes `x` out and puts it back at `i`, or at the end.
pub fn shift_item(v: &Vec<usize>, x: usize, i: usize) -> (res: Vec<usize>)
    ensures
        res@ == shifted(v@, x, i as int),
{
    let mut res = remove_item(v, x);
    let place = if i <= res.len() {
        i
    } else {
        res.len()
    };
    res.insert(place, x);
    res
}

pub fn insert_item(v: &Vec<usize>, i: usize, x: usize) -> (res: Vec<usize>)
    requires
        i <= v.len(),
    ensures
        res@ == v@.insert(i as int, x),
{
    let mut res = v.clone();
    assert(res@ =~= v@);
    res.insert(i, x);
    res
}

} // verus!
