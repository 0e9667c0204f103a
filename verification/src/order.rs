//! Ordering the lines of a report.
//!
//! Lists are sorted by a text and, where texts are equal, by a list of numbers.
//! Entries with equal keys keep the order they came in.

use vstd::prelude::*;

verus! {

/// What an entry of a list is sorted by.
#[derive(Debug)]
pub struct SortKey {
    pub text: Vec<char>,
    pub numbers: Vec<usize>,
}

/// What a [`SortKey`] holds.
#[verifier::ext_equal]
pub ghost struct KeyView {
    pub text: Seq<char>,
    pub numbers: Seq<usize>,
}

impl View for SortKey {
    type V = KeyView;

    open spec fn view(&self) -> KeyView {
        KeyView { text: self.text@, numbers: self.numbers@ }
    }
}

/// What a list of keys holds.
pub open spec fn key_views(keys: Seq<SortKey>) -> Seq<KeyView> {
    keys.map_values(|key: SortKey| key@)
}

/// One text comes before another: it is a proper beginning of the other, or has
/// the smaller character at the first position where they differ.
pub open spec fn text_before(a: Seq<char>, b: Seq<char>) -> bool
    decreases a.len(),
{
    if b.len() == 0 {
        false
    } else if a.len() == 0 {
        true
    } else if a[0] != b[0] {
        a[0] < b[0]
    } else {
        text_before(a.skip(1), b.skip(1))
    }
}

/// One list of numbers comes before another, in the same sense.
pub open spec fn numbers_before(a: Seq<usize>, b: Seq<usize>) -> bool
    decreases a.len(),
{
    if b.len() == 0 {
        false
    } else if a.len() == 0 {
        true
    } else if a[0] != b[0] {
        a[0] < b[0]
    } else {
        numbers_before(a.skip(1), b.skip(1))
    }
}

/// One key comes before another.
pub open spec fn key_before(a: KeyView, b: KeyView) -> bool {
    text_before(a.text, b.text) || (a.text == b.text && numbers_before(a.numbers, b.numbers))
}

/// Entry `x` comes before entry `y`: its key does, or the keys are equal and `x`
/// came first.
pub open spec fn entry_before(keys: Seq<KeyView>, x: usize, y: usize) -> bool {
    key_before(keys[x as int], keys[y as int]) || (keys[x as int] == keys[y as int] && x < y)
}

/// `order` lists the entries of `keys` from the first to the last.
pub open spec fn is_order(keys: Seq<KeyView>, order: Seq<usize>) -> bool {
    &&& order.len() == keys.len()
    &&& forall|x: usize| x < keys.len() ==> #[trigger] order.contains(x)
    &&& forall|i: int| 0 <= i < order.len() ==> #[trigger] order[i] < keys.len()
    &&& forall|i: int, j: int|
        0 <= i < j < order.len() ==> entry_before(keys, #[trigger] order[i], #[trigger] order[j])
}

/// The entries of `keys` from the first to the last.
pub open spec fn order_of(keys: Seq<KeyView>) -> Seq<usize> {
    choose|order: Seq<usize>| is_order(keys, order)
}

proof fn lemma_text_order(a: Seq<char>, b: Seq<char>)
    ensures
        !(text_before(a, b) && text_before(b, a)),
        !text_before(a, a),
        text_before(a, b) || text_before(b, a) || a == b,
    decreases a.len(),
{
    if a.len() > 0 {
        lemma_text_order(a.skip(1), a.skip(1));
    }
    if a.len() > 0 && b.len() > 0 {
        lemma_text_order(a.skip(1), b.skip(1));
        if a[0] == b[0] && a.skip(1) == b.skip(1) {
            assert(a =~= seq![a[0]] + a.skip(1));
            assert(b =~= seq![b[0]] + b.skip(1));
        }
    } else if a.len() == 0 && b.len() == 0 {
        assert(a =~= b);
    }
}

proof fn lemma_text_transitive(a: Seq<char>, b: Seq<char>, c: Seq<char>)
    requires
        text_before(a, b),
        text_before(b, c),
    ensures
        text_before(a, c),
    decreases a.len(),
{
    if a.len() > 0 && a[0] == b[0] && b[0] == c[0] {
        lemma_text_transitive(a.skip(1), b.skip(1), c.skip(1));
    }
}

proof fn lemma_numbers_order(a: Seq<usize>, b: Seq<usize>)
    ensures
        !(numbers_before(a, b) && numbers_before(b, a)),
        !numbers_before(a, a),
        numbers_before(a, b) || numbers_before(b, a) || a == b,
    decreases a.len(),
{
    if a.len() > 0 {
        lemma_numbers_order(a.skip(1), a.skip(1));
    }
    if a.len() > 0 && b.len() > 0 {
        lemma_numbers_order(a.skip(1), b.skip(1));
        if a[0] == b[0] && a.skip(1) == b.skip(1) {
            assert(a =~= seq![a[0]] + a.skip(1));
            assert(b =~= seq![b[0]] + b.skip(1));
        }
    } else if a.len() == 0 && b.len() == 0 {
        assert(a =~= b);
    }
}

proof fn lemma_numbers_transitive(a: Seq<usize>, b: Seq<usize>, c: Seq<usize>)
    requires
        numbers_before(a, b),
        numbers_before(b, c),
    ensures
        numbers_before(a, c),
    decreases a.len(),
{
    if a.len() > 0 && a[0] == b[0] && b[0] == c[0] {
        lemma_numbers_transitive(a.skip(1), b.skip(1), c.skip(1));
    }
}

/// Of two different entries exactly one comes before the other.
proof fn lemma_entry_order(keys: Seq<KeyView>, x: usize, y: usize)
    ensures
        !(entry_before(keys, x, y) && entry_before(keys, y, x)),
        x != y ==> entry_before(keys, x, y) || entry_before(keys, y, x),
{
    let a = keys[x as int];
    let b = keys[y as int];
    lemma_text_order(a.text, b.text);
    lemma_text_order(b.text, a.text);
    lemma_numbers_order(a.numbers, b.numbers);
    lemma_numbers_order(b.numbers, a.numbers);
    if a.text == b.text && a.numbers == b.numbers {
        assert(a =~= b);
    }
}

proof fn lemma_entry_transitive(keys: Seq<KeyView>, x: usize, y: usize, z: usize)
    requires
        entry_before(keys, x, y),
        entry_before(keys, y, z),
    ensures
        entry_before(keys, x, z),
{
    let a = keys[x as int];
    let b = keys[y as int];
    let c = keys[z as int];
    if text_before(a.text, b.text) && text_before(b.text, c.text) {
        lemma_text_transitive(a.text, b.text, c.text);
    }
    if numbers_before(a.numbers, b.numbers) && numbers_before(b.numbers, c.numbers) {
        lemma_numbers_transitive(a.numbers, b.numbers, c.numbers);
    }
}

/// There is only one order.
pub proof fn lemma_order_unique(keys: Seq<KeyView>, a: Seq<usize>, b: Seq<usize>)
    requires
        is_order(keys, a),
        is_order(keys, b),
    ensures
        a == b,
{
    assert forall|i: int| 0 <= i < a.len() implies a[i] == b[i] by {
        lemma_order_unique_at(keys, a, b, i);
    }
    assert(a =~= b);
}

proof fn lemma_order_unique_at(keys: Seq<KeyView>, a: Seq<usize>, b: Seq<usize>, i: int)
    requires
        is_order(keys, a),
        is_order(keys, b),
        0 <= i < a.len(),
    ensures
        a[i] == b[i],
    decreases i,
{
    if a[i] != b[i] {
        assert(b.contains(a[i]));
        let j = choose|j: int| 0 <= j < b.len() && b[j] == a[i];
        assert(a.contains(b[i]));
        let k = choose|k: int| 0 <= k < a.len() && a[k] == b[i];
        if j < i {
            lemma_order_unique_at(keys, a, b, j);
            assert(entry_before(keys, a[j], a[i]));
            lemma_entry_order(keys, a[i], a[i]);
        }
        if k < i {
            lemma_order_unique_at(keys, a, b, k);
            assert(entry_before(keys, b[k], b[i]));
            lemma_entry_order(keys, b[i], b[i]);
        }
        assert(entry_before(keys, b[i], b[j]));
        assert(entry_before(keys, a[i], a[k]));
        lemma_entry_order(keys, a[i], b[i]);
    }
}

#[verifier::loop_isolation(false)]
fn text_is_before(a: &Vec<char>, b: &Vec<char>) -> (before: bool)
    ensures
        before == text_before(a@, b@),
{
    let mut i: usize = 0;
    assert(a@.skip(0) =~= a@);
    assert(b@.skip(0) =~= b@);
    while i < a.len() && i < b.len() && a[i] == b[i]
        invariant
            i <= a@.len(),
            i <= b@.len(),
            text_before(a@, b@) == text_before(a@.skip(i as int), b@.skip(i as int)),
        decreases a@.len() - i,
    {
        assert(a@.skip(i as int).skip(1) =~= a@.skip(i + 1));
        assert(b@.skip(i as int).skip(1) =~= b@.skip(i + 1));
        i = i + 1;
    }
    if i >= b.len() {
        false
    } else if i >= a.len() {
        true
    } else {
        a[i] < b[i]
    }
}

#[verifier::loop_isolation(false)]
fn numbers_are_before(a: &Vec<usize>, b: &Vec<usize>) -> (before: bool)
    ensures
        before == numbers_before(a@, b@),
{
    let mut i: usize = 0;
    assert(a@.skip(0) =~= a@);
    assert(b@.skip(0) =~= b@);
    while i < a.len() && i < b.len() && a[i] == b[i]
        invariant
            i <= a@.len(),
            i <= b@.len(),
            numbers_before(a@, b@) == numbers_before(a@.skip(i as int), b@.skip(i as int)),
        decreases a@.len() - i,
    {
        assert(a@.skip(i as int).skip(1) =~= a@.skip(i + 1));
        assert(b@.skip(i as int).skip(1) =~= b@.skip(i + 1));
        i = i + 1;
    }
    if i >= b.len() {
        false
    } else if i >= a.len() {
        true
    } else {
        a[i] < b[i]
    }
}

/// Returns whether the key of entry `x` comes before that of entry `y`.
fn key_is_before(keys: &Vec<SortKey>, x: usize, y: usize) -> (before: bool)
    requires
        x < keys@.len(),
        y < keys@.len(),
    ensures
        before == key_before(key_views(keys@)[x as int], key_views(keys@)[y as int]),
{
    proof {
        lemma_text_order(keys@[x as int].text@, keys@[y as int].text@);
    }
    if text_is_before(&keys[x].text, &keys[y].text) {
        true
    } else if text_is_before(&keys[y].text, &keys[x].text) {
        false
    } else {
        numbers_are_before(&keys[x].numbers, &keys[y].numbers)
    }
}

/// `order` lists the first `count` entries of `keys` from the first to the last.
spec fn orders_first(keys: Seq<KeyView>, count: nat, order: Seq<usize>) -> bool {
    &&& order.len() == count
    &&& forall|x: usize| x < count ==> #[trigger] order.contains(x)
    &&& forall|i: int| 0 <= i < count ==> #[trigger] order[i] < count
    &&& forall|i: int, j: int|
        0 <= i < j < count ==> entry_before(keys, #[trigger] order[i], #[trigger] order[j])
}

/// An entry that stands behind what it does not come before, and in front of
/// what it comes before, is in its place.
proof fn lemma_inserted(keys: Seq<KeyView>, sorted: Seq<usize>, next: usize, at: int)
    requires
        orders_first(keys, next as nat, sorted),
        0 <= at <= next,
        at > 0 ==> !key_before(keys[next as int], keys[sorted[at - 1] as int]),
        forall|i: int|
            at <= i < next ==> key_before(keys[next as int], keys[#[trigger] sorted[i] as int]),
    ensures
        orders_first(keys, (next + 1) as nat, sorted.insert(at, next)),
{
    let order = sorted.insert(at, next);
    assert forall|x: usize| x < next + 1 implies #[trigger] order.contains(x) by {
        if x == next {
            assert(order[at] == next);
        } else {
            assert(sorted.contains(x));
            let k = choose|k: int| 0 <= k < sorted.len() && sorted[k] == x;
            if k < at {
                assert(order[k] == x);
            } else {
                assert(order[k + 1] == x);
            }
        }
    }
    assert forall|i: int| 0 <= i < next + 1 implies #[trigger] order[i] < next + 1 by {
        if i < at {
            assert(order[i] == sorted[i]);
        } else if i > at {
            assert(order[i] == sorted[i - 1]);
        }
    }
    assert forall|i: int, j: int| 0 <= i < j < next + 1 implies entry_before(
        keys,
        #[trigger] order[i],
        #[trigger] order[j],
    ) by {
        if j < at {
            assert(entry_before(keys, sorted[i], sorted[j]));
        } else if j == at {
            let last = sorted[at - 1];
            lemma_entry_order(keys, next, last);
            assert(last < next);
            assert(entry_before(keys, last, next));
            if i < at - 1 {
                assert(entry_before(keys, sorted[i], sorted[at - 1]));
                lemma_entry_transitive(keys, sorted[i], last, next);
            }
        } else if i == at {
            assert(order[j] == sorted[j - 1]);
        } else if i < at {
            assert(entry_before(keys, sorted[i], sorted[j - 1]));
        } else {
            assert(entry_before(keys, sorted[i - 1], sorted[j - 1]));
        }
    }
}

/// The entries of a list can be put in order, so the order lists each of them.
pub proof fn lemma_order_exists(keys: Seq<KeyView>)
    requires
        keys.len() <= usize::MAX,
    ensures
        is_order(keys, order_of(keys)),
{
    let order = lemma_first_ordered(keys, keys.len());
    assert(is_order(keys, order));
}

proof fn lemma_first_ordered(keys: Seq<KeyView>, count: nat) -> (order: Seq<usize>)
    requires
        count <= keys.len() <= usize::MAX,
    ensures
        orders_first(keys, count, order),
    decreases count,
{
    if count == 0 {
        Seq::empty()
    } else {
        let next = (count - 1) as usize;
        let sorted = lemma_first_ordered(keys, next as nat);
        let at = lemma_insertion_point(keys, sorted, next, next as int);
        lemma_inserted(keys, sorted, next, at);
        sorted.insert(at, next)
    }
}

proof fn lemma_insertion_point(
    keys: Seq<KeyView>,
    sorted: Seq<usize>,
    next: usize,
    from: int,
) -> (at: int)
    requires
        0 <= from <= next,
        forall|i: int|
            from <= i < next ==> key_before(keys[next as int], keys[#[trigger] sorted[i] as int]),
    ensures
        0 <= at <= from,
        at > 0 ==> !key_before(keys[next as int], keys[sorted[at - 1] as int]),
        forall|i: int|
            at <= i < next ==> key_before(keys[next as int], keys[#[trigger] sorted[i] as int]),
    decreases from,
{
    if from > 0 && key_before(keys[next as int], keys[sorted[from - 1] as int]) {
        lemma_insertion_point(keys, sorted, next, from - 1)
    } else {
        from
    }
}

/// Returns the entries of `keys` from the first to the last.
#[verifier::loop_isolation(false)]
pub fn sort_order(keys: &Vec<SortKey>) -> (order: Vec<usize>)
    ensures
        order@ == order_of(key_views(keys@)),
        is_order(key_views(keys@), order@),
{
    let ghost views = key_views(keys@);
    let mut order: Vec<usize> = Vec::new();
    for next in 0..keys.len()
        invariant
            orders_first(views, next as nat, order@),
    {
        let ghost sorted = order@;
        let mut at: usize = order.len();
        while at > 0 && key_is_before(keys, next, order[at - 1])
            invariant
                at <= next,
                forall|i: int|
                    at <= i < next ==> key_before(
                        views[next as int],
                        views[#[trigger] order@[i] as int],
                    ),
            decreases at,
        {
            at = at - 1;
        }
        proof {
            lemma_inserted(views, sorted, next, at as int);
        }
        order.insert(at, next);
    }
    proof {
        assert(is_order(views, order@));
        lemma_order_unique(views, order@, order_of(views));
    }
    order
}

} // verus!
