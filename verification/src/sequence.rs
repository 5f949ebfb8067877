//! What sequences hold.

use vstd::prelude::*;

verus! {

/// What a sequence holds after a push.
pub proof fn contains_after_push<A>(items: Seq<A>, item: A)
    ensures
        forall|x: A| #[trigger] items.push(item).contains(x) <==> items.contains(x) || x == item,
{
    let more = items.push(item);
    assert forall|x: A| #[trigger] more.contains(x) <==> items.contains(x) || x == item by {
        if items.contains(x) {
            let k = choose|k: int| 0 <= k < items.len() && items[k] == x;
            assert(more[k] == x);
        }
        assert(more[items.len() as int] == item);
    }
}

/// What two sequences hold together.
pub proof fn contains_in_both<A>(left: Seq<A>, right: Seq<A>)
    ensures
        forall|x: A| #[trigger]
            (left + right).contains(x) <==> left.contains(x) || right.contains(x),
{
    let both = left + right;
    assert forall|x: A| #[trigger] both.contains(x) <==> left.contains(x) || right.contains(
        x,
    ) by {
        if left.contains(x) {
            let k = choose|k: int| 0 <= k < left.len() && left[k] == x;
            assert(both[k] == x);
        }
        if right.contains(x) {
            let k = choose|k: int| 0 <= k < right.len() && right[k] == x;
            assert(both[left.len() + k] == x);
        }
    }
}

/// What a sequence holds before its last item was taken.
pub proof fn contains_before_drop<A>(items: Seq<A>)
    requires
        items.len() > 0,
    ensures
        forall|x: A| #[trigger]
            items.contains(x) <==> items.drop_last().contains(x) || x == items.last(),
{
    contains_after_push(items.drop_last(), items.last());
    assert(items.drop_last().push(items.last()) =~= items);
}

/// What a sequence holds before its first item was taken.
pub proof fn contains_before_drop_first<A>(items: Seq<A>)
    requires
        items.len() > 0,
    ensures
        forall|x: A|
            #![trigger items.contains(x)]
            #![trigger items.drop_first().contains(x)]
            items.contains(x) <==> items.drop_first().contains(x) || x == items[0],
{
    let rest = items.drop_first();
    assert forall|x: A|
        #![trigger items.contains(x)]
        #![trigger rest.contains(x)]
        items.contains(x) <==> rest.contains(x) || x == items[0] by {
        if items.contains(x) {
            let k = choose|k: int| 0 <= k < items.len() && items[k] == x;
            if k > 0 {
                assert(rest[k - 1] == x);
            }
        }
        if rest.contains(x) {
            let k = choose|k: int| 0 <= k < rest.len() && rest[k] == x;
            assert(items[k + 1] == x);
        }
    }
}

/// What is not in a sequence without duplicates can be pushed.
pub proof fn distinct_after_push<A>(items: Seq<A>, item: A)
    requires
        items.no_duplicates(),
    ensures
        !items.contains(item) ==> items.push(item).no_duplicates(),
{
}

/// Two sequences without duplicates that have nothing in common have none
/// together.
pub proof fn distinct_in_both<A>(left: Seq<A>, right: Seq<A>)
    requires
        left.no_duplicates(),
        right.no_duplicates(),
        forall|item: A| #[trigger] right.contains(item) ==> !left.contains(item),
    ensures
        (left + right).no_duplicates(),
{
    let both = left + right;
    assert forall|i: int, j: int|
        0 <= i < both.len() && 0 <= j < both.len() && i != j implies both[i] != both[j] by {
        if i < left.len() && j >= left.len() {
            assert(right.contains(right[j - left.len()]));
            assert(left.contains(left[i]));
        }
        if j < left.len() && i >= left.len() {
            assert(right.contains(right[i - left.len()]));
            assert(left.contains(left[j]));
        }
    }
}

} // verus!
