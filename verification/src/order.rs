//! Stable sorting by keys that compare lexicographically.
use vstd::prelude::*;
use vstd::utf8::encode_utf8;

verus! {

/// Whether key `a` comes no later than key `b`: the first difference decides, and a prefix comes
/// before what it is a prefix of.
pub open spec fn key_le(a: Seq<u64>, b: Seq<u64>) -> bool
    decreases a.len(),
{
    if a.len() == 0 {
        true
    } else if b.len() == 0 {
        false
    } else if a[0] != b[0] {
        a[0] < b[0]
    } else {
        key_le(a.drop_first(), b.drop_first())
    }
}

/// Puts index `i` into `order` behind every index whose key comes no later than its own.
pub open spec fn insert_index(keys: Seq<Seq<u64>>, order: Seq<int>, i: int) -> Seq<int>
    decreases order.len(),
{
    if order.len() == 0 {
        seq![i]
    } else if key_le(keys[order.last()], keys[i]) {
        order.push(i)
    } else {
        insert_index(keys, order.drop_last(), i).push(order.last())
    }
}

/// The order of the first `count` indices by their keys, equal keys in index order.
pub open spec fn order_of_first(keys: Seq<Seq<u64>>, count: nat) -> Seq<int>
    decreases count,
{
    if count == 0 {
        Seq::empty()
    } else {
        insert_index(keys, order_of_first(keys, (count - 1) as nat), count - 1)
    }
}

/// The indices of `keys` in ascending order of the keys, equal keys in index order.
pub open spec fn stable_order(keys: Seq<Seq<u64>>) -> Seq<int> {
    order_of_first(keys, keys.len())
}

/// The elements of `items` at the indices that `order` lists.
pub open spec fn arrange<T>(items: Seq<T>, order: Seq<int>) -> Seq<T> {
    Seq::new(order.len(), |k: int| items[order[k]])
}

/// The views of a vector of keys.
pub open spec fn key_views(keys: Seq<Vec<u64>>) -> Seq<Seq<u64>> {
    Seq::new(keys.len(), |k: int| keys[k]@)
}

/// The bytes of a string as a sorting key: strings compare by their bytes.
pub open spec fn byte_key(bytes: Seq<u8>) -> Seq<u64> {
    Seq::new(bytes.len(), |k: int| bytes[k] as u64)
}

/// The sorting key of a string: its bytes.
pub fn key_of(text: &str) -> (key: Vec<u64>)
    ensures
        key@ == byte_key(encode_utf8(text@)),
{
    let bytes = text.as_bytes();
    let mut key: Vec<u64> = Vec::new();
    let mut i: usize = 0;
    while i < bytes.len()
        invariant
            i <= bytes.len(),
            key@ == byte_key(bytes@).take(i as int),
        decreases bytes.len() - i,
    {
        key.push(bytes[i] as u64);
        i = i + 1;
        assert(key@ =~= byte_key(bytes@).take(i as int));
    }
    assert(byte_key(bytes@).take(i as int) =~= byte_key(bytes@));
    key
}

/// Whether key `a` comes no later than key `b`.
pub fn key_not_after(a: &Vec<u64>, b: &Vec<u64>) -> (result: bool)
    ensures
        result == key_le(a@, b@),
{
    let mut i: usize = 0;
    assert(a@.skip(0) =~= a@);
    assert(b@.skip(0) =~= b@);
    while i < a.len() && i < b.len()
        invariant
            i <= a.len(),
            i <= b.len(),
            key_le(a@, b@) == key_le(a@.skip(i as int), b@.skip(i as int)),
        decreases a.len() - i,
    {
        if a[i] != b[i] {
            return a[i] < b[i];
        }
        assert(a@.skip(i as int).drop_first() =~= a@.skip(i + 1));
        assert(b@.skip(i as int).drop_first() =~= b@.skip(i + 1));
        i = i + 1;
    }
    i == a.len()
}

/// Inserting an index keeps the others in place around it.
proof fn lemma_insert_index(keys: Seq<Seq<u64>>, order: Seq<int>, i: int, at: int)
    requires
        0 <= at <= order.len(),
        at == 0 || key_le(keys[order[at - 1]], keys[i]),
        forall|k: int| at <= k < order.len() ==> !key_le(keys[#[trigger] order[k]], keys[i]),
    ensures
        insert_index(keys, order, i) == order.insert(at, i),
    decreases order.len(),
{
    if order.len() == 0 {
        assert(order.insert(at, i) =~= seq![i]);
    } else if at == order.len() {
        assert(order.insert(at, i) =~= order.push(i));
    } else {
        assert(!key_le(keys[order[order.len() - 1]], keys[i]));
        lemma_insert_index(keys, order.drop_last(), i, at);
        assert(order.insert(at, i) =~= order.drop_last().insert(at, i).push(order.last()));
    }
}

/// Sorts `items` by `keys`, one key for each item; items with equal keys keep their order.
pub fn sort_by_keys<T>(items: Vec<T>, keys: &Vec<Vec<u64>>) -> (sorted: Vec<T>)
    requires
        items.len() == keys.len(),
    ensures
        sorted@ == arrange(items@, stable_order(key_views(keys@))),
{
    let mut items = items;
    let ghost all = items@;
    let ghost views = key_views(keys@);
    let count = items.len();
    let mut sorted: Vec<T> = Vec::new();
    let mut order: Vec<usize> = Vec::new();
    let mut i: usize = 0;
    let ghost mut indices: Seq<int> = Seq::empty();
    while i < count
        invariant
            i <= count,
            count == all.len(),
            count == keys.len(),
            views == key_views(keys@),
            items@ == all.skip(i as int),
            indices == order_of_first(views, i as nat),
            order.len() == i,
            indices.len() == i,
            forall|k: int|
                0 <= k < i ==> (#[trigger] order@[k]) as int == indices[k] && order@[k] < i,
            sorted@ == arrange(all, indices),
        decreases count - i,
    {
        let item = items.remove(0);
        assert(item == all[i as int]);
        assert(items@ =~= all.skip(i + 1));
        let mut at: usize = i;
        while at > 0 && !key_not_after(&keys[order[at - 1]], &keys[i])
            invariant
                at <= i < keys.len(),
                views == key_views(keys@),
                order.len() == i,
                indices.len() == i,
                forall|k: int|
                    0 <= k < i ==> (#[trigger] order@[k]) as int == indices[k] && order@[k] < i,
                forall|k: int|
                    at <= k < i ==> !key_le(views[#[trigger] indices[k]], views[i as int]),
            decreases at,
        {
            at = at - 1;
        }
        proof {
            lemma_insert_index(views, indices, i as int, at as int);
        }
        order.insert(at, i);
        sorted.insert(at, item);
        proof {
            indices = indices.insert(at as int, i as int);
        }
        i = i + 1;
        assert(sorted@ =~= arrange(all, indices));
    }
    sorted
}

/// The order lists every index once.
proof fn lemma_order_is_permutation(keys: Seq<Seq<u64>>, count: nat)
    ensures
        order_of_first(keys, count).len() == count,
        forall|k: int|
            0 <= k < count ==> 0 <= #[trigger] order_of_first(keys, count)[k] < count,
        forall|i: int| 0 <= i < count ==> #[trigger] order_of_first(keys, count).contains(i),
    decreases count,
{
    if count > 0 {
        let shorter = order_of_first(keys, (count - 1) as nat);
        lemma_order_is_permutation(keys, (count - 1) as nat);
        lemma_insert_index_members(keys, shorter, count - 1);
        let order = order_of_first(keys, count);
        assert forall|k: int| 0 <= k < count implies 0 <= #[trigger] order[k] < count by {
            assert(order.contains(order[k]));
        }
        assert forall|i: int| 0 <= i < count implies #[trigger] order.contains(i) by {
            if i < count - 1 {
                assert(shorter.contains(i));
            }
        }
    }
}

proof fn lemma_insert_index_members(keys: Seq<Seq<u64>>, order: Seq<int>, i: int)
    ensures
        insert_index(keys, order, i).len() == order.len() + 1,
        forall|j: int| #[trigger]
            insert_index(keys, order, i).contains(j) <==> order.contains(j) || j == i,
    decreases order.len(),
{
    let result = insert_index(keys, order, i);
    if order.len() == 0 {
        assert(result[0] == i);
    } else if key_le(keys[order.last()], keys[i]) {
        assert forall|j: int| #[trigger] result.contains(j) <==> order.contains(j) || j == i by {
            if order.contains(j) {
                let k = order.index_of(j);
                assert(result[k] == j);
            }
            assert(result[order.len() as int] == i);
        }
    } else {
        let shorter = insert_index(keys, order.drop_last(), i);
        lemma_insert_index_members(keys, order.drop_last(), i);
        assert forall|j: int| #[trigger] result.contains(j) <==> order.contains(j) || j == i by {
            if result.contains(j) {
                let k = result.index_of(j);
                if k < shorter.len() {
                    assert(shorter[k] == j);
                    assert(shorter.contains(j));
                    if j != i {
                        assert(order.drop_last().contains(j));
                        let m = order.drop_last().index_of(j);
                        assert(order[m] == j);
                    }
                } else {
                    assert(order[order.len() - 1] == j);
                }
            }
            if order.contains(j) || j == i {
                if j == i || order.drop_last().contains(j) {
                    assert(shorter.contains(j));
                    let k = shorter.index_of(j);
                    assert(result[k] == j);
                } else {
                    let m = order.index_of(j);
                    if m < order.len() - 1 {
                        assert(order.drop_last()[m] == j);
                    }
                    assert(result[shorter.len() as int] == j);
                }
            }
        }
    }
}

/// Keys compare totally.
pub proof fn lemma_key_le_total(a: Seq<u64>, b: Seq<u64>)
    ensures
        key_le(a, b) || key_le(b, a),
    decreases a.len(),
{
    if a.len() > 0 && b.len() > 0 && a[0] == b[0] {
        lemma_key_le_total(a.drop_first(), b.drop_first());
    }
}

/// Keys compare transitively.
pub proof fn lemma_key_le_transitive(a: Seq<u64>, b: Seq<u64>, c: Seq<u64>)
    requires
        key_le(a, b),
        key_le(b, c),
    ensures
        key_le(a, c),
    decreases a.len(),
{
    if a.len() > 0 && b.len() > 0 && c.len() > 0 && a[0] == b[0] && b[0] == c[0] {
        lemma_key_le_transitive(a.drop_first(), b.drop_first(), c.drop_first());
    }
}

/// What one index before another in an order means: a smaller key, or an equal one and a smaller
/// index.
pub open spec fn in_order(keys: Seq<Seq<u64>>, i: int, j: int) -> bool {
    key_le(keys[i], keys[j]) && (key_le(keys[j], keys[i]) ==> i < j)
}

proof fn lemma_insert_index_sorted(keys: Seq<Seq<u64>>, order: Seq<int>, i: int)
    requires
        forall|a: int, b: int|
            0 <= a < b < order.len() ==> in_order(keys, #[trigger] order[a], #[trigger] order[b]),
        forall|a: int| 0 <= a < order.len() ==> #[trigger] order[a] < i,
    ensures
        forall|a: int, b: int|
            0 <= a < b < insert_index(keys, order, i).len() ==> in_order(
                keys,
                #[trigger] insert_index(keys, order, i)[a],
                #[trigger] insert_index(keys, order, i)[b],
            ),
    decreases order.len(),
{
    let result = insert_index(keys, order, i);
    if order.len() == 0 {
    } else if key_le(keys[order.last()], keys[i]) {
        assert forall|a: int, b: int| 0 <= a < b < result.len() implies in_order(
            keys,
            #[trigger] result[a],
            #[trigger] result[b],
        ) by {
            if b == order.len() {
                if a < order.len() - 1 {
                    assert(in_order(keys, order[a], order[order.len() - 1]));
                    lemma_key_le_transitive(keys[order[a]], keys[order.last()], keys[i]);
                }
                assert(order[a] < i);
            } else {
                assert(in_order(keys, order[a], order[b]));
            }
        }
    } else {
        let rest = order.drop_last();
        let shorter = insert_index(keys, rest, i);
        lemma_insert_index_sorted(keys, rest, i);
        lemma_insert_index_members(keys, rest, i);
        lemma_key_le_total(keys[order.last()], keys[i]);
        assert forall|a: int, b: int| 0 <= a < b < result.len() implies in_order(
            keys,
            #[trigger] result[a],
            #[trigger] result[b],
        ) by {
            if b == shorter.len() {
                assert(shorter.contains(shorter[a]));
                if shorter[a] != i {
                    assert(rest.contains(shorter[a]));
                    let m = rest.index_of(shorter[a]);
                    assert(in_order(keys, order[m], order[order.len() - 1]));
                }
            } else {
                assert(in_order(keys, shorter[a], shorter[b]));
            }
        }
    }
}

proof fn lemma_order_sorted(keys: Seq<Seq<u64>>, count: nat)
    ensures
        forall|a: int, b: int|
            0 <= a < b < count ==> in_order(
                keys,
                #[trigger] order_of_first(keys, count)[a],
                #[trigger] order_of_first(keys, count)[b],
            ),
    decreases count,
{
    if count > 0 {
        let shorter = (count - 1) as nat;
        lemma_order_sorted(keys, shorter);
        lemma_order_is_permutation(keys, shorter);
        lemma_order_is_permutation(keys, count);
        lemma_insert_index_sorted(keys, order_of_first(keys, shorter), count - 1);
    }
}

/// A stable order lists each index exactly once, the keys ascend along it, and indices with equal
/// keys ascend.
pub proof fn law_stable_order(keys: Seq<Seq<u64>>)
    ensures
        stable_order(keys).len() == keys.len(),
        forall|k: int| 0 <= k < keys.len() ==> 0 <= #[trigger] stable_order(keys)[k] < keys.len(),
        forall|i: int| 0 <= i < keys.len() ==> #[trigger] stable_order(keys).contains(i),
        forall|a: int, b: int|
            0 <= a < b < keys.len() ==> in_order(
                keys,
                #[trigger] stable_order(keys)[a],
                #[trigger] stable_order(keys)[b],
            ),
{
    lemma_order_is_permutation(keys, keys.len());
    lemma_order_sorted(keys, keys.len());
}

} // verus!
