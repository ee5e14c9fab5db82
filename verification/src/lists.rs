//! What lists contain, and in what order.

use vstd::prelude::*;

verus! {

/// What a list contains after an item was appended.
pub proof fn lemma_contains_push<T>(list: Seq<T>, item: T, x: T)
    ensures
        list.push(item).contains(x) <==> list.contains(x) || x == item,
{
    let more = list.push(item);
    if list.contains(x) {
        assert(more[list.index_of(x)] == x);
    }
    if x == item {
        assert(more[list.len() as int] == x);
    }
    if more.contains(x) && x != item {
        assert(list[more.index_of(x)] == x);
    }
}

/// The items of a list, each where it occurs first.
pub open spec fn first_uses<T>(list: Seq<T>) -> Seq<T>
    decreases list.len(),
{
    if list.len() == 0 {
        Seq::empty()
    } else if list.drop_last().contains(list.last()) {
        first_uses(list.drop_last())
    } else {
        first_uses(list.drop_last()).push(list.last())
    }
}

/// One item more.
pub proof fn lemma_first_uses_push<T>(list: Seq<T>, item: T)
    ensures
        first_uses(list.push(item)) == (if list.contains(item) {
            first_uses(list)
        } else {
            first_uses(list).push(item)
        }),
{
    assert(list.push(item).drop_last() =~= list);
}

/// The first uses are the items of the list, none of them twice, in the order in which they
/// first occur.
pub proof fn law_first_uses<T>(list: Seq<T>)
    ensures
        forall|x: T| #[trigger] first_uses(list).contains(x) <==> list.contains(x),
        forall|i: int, k: int|
            0 <= i < k < first_uses(list).len() ==> {
                let a = #[trigger] first_uses(list)[i];
                let b = #[trigger] first_uses(list)[k];
                &&& a != b
                &&& occurs_first(list, a, b)
            },
    decreases list.len(),
{
    if list.len() > 0 {
        let rest = list.drop_last();
        let item = list.last();
        law_first_uses(rest);
        assert(rest.push(item) =~= list);
        let uses = first_uses(list);
        let before = first_uses(rest);
        assert forall|x: T| #[trigger] uses.contains(x) <==> list.contains(x) by {
            lemma_contains_push(rest, item, x);
            lemma_contains_push(before, item, x);
            assert(before.contains(x) <==> rest.contains(x));
        }
        assert forall|i: int, k: int| 0 <= i < k < uses.len() implies {
            let a = #[trigger] uses[i];
            let b = #[trigger] uses[k];
            &&& a != b
            &&& occurs_first(list, a, b)
        } by {
            let a = uses[i];
            let b = uses[k];
            assert(a == before[i]);
            if k < before.len() {
                assert(b == before[k]);
                assert(occurs_first(rest, a, b));
                let p = choose|p: int|
                    0 <= p < rest.len() && rest[p] == a && forall|q: int|
                        0 <= q <= p ==> #[trigger] rest[q] != b;
                assert(list[p] == a);
                assert forall|q: int| 0 <= q <= p implies #[trigger] list[q] != b by {
                    assert(rest[q] != b);
                }
            } else {
                assert(before.contains(a));
                assert(rest.contains(a));
                let p = rest.index_of(a);
                assert(list[p] == a);
                assert forall|q: int| 0 <= q <= p implies #[trigger] list[q] != b by {
                    assert(rest.contains(rest[q]));
                }
            }
        }
    } else {
        assert(first_uses(list) =~= Seq::<T>::empty());
    }
}

/// `a` occurs in the list, and `b` not before it.
pub open spec fn occurs_first<T>(list: Seq<T>, a: T, b: T) -> bool {
    exists|p: int|
        0 <= p < list.len() && list[p] == a && forall|q: int| 0 <= q <= p ==> #[trigger] list[q] != b
}

} // verus!
