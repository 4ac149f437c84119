//! The order of names that are bytes.

use vstd::prelude::*;

verus! {

/// `a` comes strictly before `b` in the order of their bytes.
pub open spec fn bytes_less(a: Seq<u8>, b: Seq<u8>) -> bool
    decreases a.len(),
{
    if b.len() == 0 {
        false
    } else if a.len() == 0 {
        true
    } else if a[0] == b[0] {
        bytes_less(a.drop_first(), b.drop_first())
    } else {
        a[0] < b[0]
    }
}

/// Whether `a` comes strictly before `b`.
pub fn bytes_precede(a: &Vec<u8>, b: &Vec<u8>) -> (less: bool)
    ensures
        less == bytes_less(a@, b@),
{
    let mut i: usize = 0;
    assert(a@.skip(0) =~= a@);
    assert(b@.skip(0) =~= b@);
    while i < a.len() && i < b.len()
        invariant
            i <= a@.len(),
            i <= b@.len(),
            bytes_less(a@, b@) == bytes_less(a@.skip(i as int), b@.skip(i as int)),
        decreases a.len() - i,
    {
        assert(a@.skip(i as int).drop_first() =~= a@.skip(i + 1));
        assert(b@.skip(i as int).drop_first() =~= b@.skip(i + 1));
        if a[i] != b[i] {
            return a[i] < b[i];
        }
        i = i + 1;
    }
    i < b.len()
}

/// No name comes before itself, and of two different names one comes first.
pub proof fn lemma_bytes_order(a: Seq<u8>, b: Seq<u8>)
    ensures
        !bytes_less(a, a),
        bytes_less(a, b) ==> !bytes_less(b, a),
        a != b ==> bytes_less(a, b) || bytes_less(b, a),
    decreases a.len(),
{
    if a.len() > 0 {
        lemma_bytes_order(a.drop_first(), a.drop_first());
    }
    if a.len() > 0 && b.len() > 0 && a[0] == b[0] {
        lemma_bytes_order(a.drop_first(), b.drop_first());
        if a.drop_first() == b.drop_first() {
            assert(a =~= seq![a[0]] + a.drop_first());
            assert(b =~= seq![b[0]] + b.drop_first());
        }
    } else if a.len() == 0 && b.len() == 0 {
        assert(a =~= b);
    }
}

/// The order of names is transitive.
pub proof fn lemma_bytes_less_transitive(a: Seq<u8>, b: Seq<u8>, c: Seq<u8>)
    requires
        bytes_less(a, b),
        bytes_less(b, c),
    ensures
        bytes_less(a, c),
    decreases a.len(),
{
    if a.len() > 0 && b.len() > 0 && c.len() > 0 && a[0] == b[0] && b[0] == c[0] {
        lemma_bytes_less_transitive(a.drop_first(), b.drop_first(), c.drop_first());
    }
}

/// What stands between the names of a path.
pub const SLASH: u8 = 47;

/// The path of a name below a path. The empty path is the root.
pub open spec fn below(path: Seq<u8>, name: Seq<u8>) -> Seq<u8> {
    if path.len() == 0 {
        name
    } else {
        path.push(SLASH) + name
    }
}

/// A copy of bytes.
pub fn copy_bytes(bytes: &Vec<u8>) -> (copy: Vec<u8>)
    ensures
        copy@ == bytes@,
{
    let mut copy: Vec<u8> = Vec::new();
    push_bytes(&mut copy, bytes);
    assert(copy@ =~= bytes@);
    copy
}

/// Adds bytes.
pub fn push_bytes(bytes: &mut Vec<u8>, more: &Vec<u8>)
    ensures
        final(bytes)@ == old(bytes)@ + more@,
{
    let ghost start = bytes@;
    for i in 0..more.len()
        invariant
            bytes@ == start + more@.take(i as int),
    {
        bytes.push(more[i]);
        assert(bytes@ =~= start + more@.take(i + 1));
    }
    assert(more@.take(more@.len() as int) =~= more@);
}

/// The path of a name below a path.
pub fn path_below(path: &Vec<u8>, name: &Vec<u8>) -> (whole: Vec<u8>)
    ensures
        whole@ == below(path@, name@),
{
    let mut whole = copy_bytes(path);
    if whole.len() != 0 {
        whole.push(SLASH);
    }
    push_bytes(&mut whole, name);
    assert(whole@ =~= below(path@, name@));
    whole
}

/// Whether the names are the same.
pub fn same_bytes(a: &Vec<u8>, b: &Vec<u8>) -> (same: bool)
    ensures
        same == (a@ == b@),
{
    if a.len() != b.len() {
        return false;
    }
    for i in 0..a.len()
        invariant
            a@.len() == b@.len(),
            forall|k: int| 0 <= k < i ==> a@[k] == b@[k],
    {
        if a[i] != b[i] {
            return false;
        }
    }
    assert(a@ =~= b@);
    true
}

/// Where a name goes in a list of names: behind those that it does not come
/// before.
pub open spec fn place_of(names: Seq<Seq<u8>>, name: Seq<u8>) -> int
    decreases names.len(),
{
    if names.len() == 0 || !bytes_less(name, names.last()) {
        names.len() as int
    } else {
        place_of(names.drop_last(), name)
    }
}

/// The names of a list.
pub open spec fn names_of<T>(list: Seq<(Seq<u8>, T)>) -> Seq<Seq<u8>> {
    list.map_values(|item: (Seq<u8>, T)| item.0)
}

/// The list with one more item, at its place.
pub open spec fn placed<T>(list: Seq<(Seq<u8>, T)>, item: (Seq<u8>, T)) -> Seq<(Seq<u8>, T)> {
    list.insert(place_of(names_of(list), item.0), item)
}

/// The list in ascending order of the names. Items of the same name stay in their
/// order.
pub open spec fn arranged<T>(list: Seq<(Seq<u8>, T)>) -> Seq<(Seq<u8>, T)>
    decreases list.len(),
{
    if list.len() == 0 {
        Seq::empty()
    } else {
        placed(arranged(list.drop_last()), list.last())
    }
}

/// What the items hold, one behind the other.
pub open spec fn run_together<T>(list: Seq<(Seq<u8>, Seq<T>)>) -> Seq<T>
    decreases list.len(),
{
    if list.len() == 0 {
        Seq::empty()
    } else {
        run_together(list.drop_last()) + list.last().1
    }
}

/// No name occurs twice.
pub open spec fn names_differ<T>(list: Seq<(Seq<u8>, T)>) -> bool {
    forall|i: int, j: int|
        0 <= i < j < list.len() ==> (#[trigger] list[i]).0 != (#[trigger] list[j]).0
}

/// The lists have the same items.
pub open spec fn same_items<T>(a: Seq<(Seq<u8>, T)>, b: Seq<(Seq<u8>, T)>) -> bool {
    forall|item: (Seq<u8>, T)| #![auto] a.contains(item) <==> b.contains(item)
}

spec fn is_arranged<T>(list: Seq<(Seq<u8>, T)>) -> bool {
    forall|i: int, j: int|
        0 <= i < j < list.len() ==> bytes_less((#[trigger] list[i]).0, (#[trigger] list[j]).0)
}

/// Where the name goes in the list.
pub fn find_place<T>(list: &Vec<(Vec<u8>, T)>, name: &Vec<u8>) -> (at: usize)
    ensures
        at <= list@.len(),
        at == place_of(list@.map_values(|item: (Vec<u8>, T)| item.0@), name@),
{
    let ghost names = list@.map_values(|item: (Vec<u8>, T)| item.0@);
    let mut at: usize = list.len();
    assert(names.take(at as int) =~= names);
    while at > 0
        invariant
            at <= list@.len(),
            names == list@.map_values(|item: (Vec<u8>, T)| item.0@),
            place_of(names, name@) == place_of(names.take(at as int), name@),
        decreases at,
    {
        assert(names.take(at as int).last() == list@[at - 1].0@);
        assert(names.take(at as int).drop_last() =~= names.take(at - 1));
        if !bytes_precede(name, &list[at - 1].0) {
            return at;
        }
        at = at - 1;
    }
    at
}

proof fn lemma_place(names: Seq<Seq<u8>>, name: Seq<u8>)
    ensures
        0 <= place_of(names, name) <= names.len(),
        forall|i: int|
            place_of(names, name) <= i < names.len() ==> bytes_less(name, #[trigger] names[i]),
        place_of(names, name) > 0 ==> !bytes_less(name, names[place_of(names, name) - 1]),
    decreases names.len(),
{
    if names.len() > 0 && bytes_less(name, names.last()) {
        lemma_place(names.drop_last(), name);
        assert forall|i: int| place_of(names, name) <= i < names.len() implies bytes_less(
            name,
            #[trigger] names[i],
        ) by {
            if i < names.len() - 1 {
                assert(names.drop_last()[i] == names[i]);
            }
        }
    }
}

proof fn lemma_placed<T>(list: Seq<(Seq<u8>, T)>, item: (Seq<u8>, T))
    requires
        is_arranged(list),
        forall|i: int| 0 <= i < list.len() ==> (#[trigger] list[i]).0 != item.0,
    ensures
        is_arranged(placed(list, item)),
{
    let names = names_of(list);
    let at = place_of(names, item.0);
    lemma_place(names, item.0);
    let whole = placed(list, item);
    assert forall|i: int, j: int| 0 <= i < j < whole.len() implies bytes_less(
        (#[trigger] whole[i]).0,
        (#[trigger] whole[j]).0,
    ) by {
        if i == at {
            assert(names[j - 1] == list[j - 1].0);
        } else if j == at {
            assert(names[at - 1] == list[at - 1].0);
            lemma_bytes_order(item.0, list[at - 1].0);
            if i < at - 1 {
                assert(bytes_less(list[i].0, list[at - 1].0));
                lemma_bytes_less_transitive(list[i].0, list[at - 1].0, item.0);
            }
        } else {
            let i0 = if i < at {
                i
            } else {
                i - 1
            };
            let j0 = if j < at {
                j
            } else {
                j - 1
            };
            assert(bytes_less(list[i0].0, list[j0].0));
        }
    }
}

proof fn lemma_placed_items<T>(list: Seq<(Seq<u8>, T)>, item: (Seq<u8>, T))
    ensures
        forall|x: (Seq<u8>, T)| #![auto]
            placed(list, item).contains(x) <==> list.contains(x) || x == item,
{
    let at = place_of(names_of(list), item.0);
    lemma_place(names_of(list), item.0);
    let whole = placed(list, item);
    assert forall|x: (Seq<u8>, T)| #![auto] whole.contains(x) <==> list.contains(x) || x == item by {
        if whole.contains(x) {
            let k = choose|k: int| 0 <= k < whole.len() && whole[k] == x;
            if k < at {
                assert(list[k] == x);
            } else if k > at {
                assert(list[k - 1] == x);
            }
        }
        if list.contains(x) {
            let k = choose|k: int| 0 <= k < list.len() && list[k] == x;
            if k < at {
                assert(whole[k] == x);
            } else {
                assert(whole[k + 1] == x);
            }
        }
        assert(whole[at] == item);
    }
}

proof fn lemma_arranged<T>(list: Seq<(Seq<u8>, T)>)
    requires
        names_differ(list),
    ensures
        is_arranged(arranged(list)),
        same_items(arranged(list), list),
    decreases list.len(),
{
    if list.len() > 0 {
        let rest = list.drop_last();
        assert forall|i: int, j: int| 0 <= i < j < rest.len() implies (#[trigger] rest[i]).0 != (
        #[trigger] rest[j]).0 by {
            assert(list[i].0 != list[j].0);
        }
        lemma_arranged(rest);
        let before = arranged(rest);
        assert forall|i: int| 0 <= i < before.len() implies (#[trigger] before[i]).0
            != list.last().0 by {
            assert(before.contains(before[i]));
            assert(rest.contains(before[i]));
            let k = choose|k: int| 0 <= k < rest.len() && rest[k] == before[i];
            assert(list[k].0 != list[list.len() - 1].0);
        }
        lemma_placed(before, list.last());
        lemma_placed_items(before, list.last());
        assert forall|x: (Seq<u8>, T)| #![auto] arranged(list).contains(x) <==> list.contains(x) by {
            if rest.contains(x) {
                let k = choose|k: int| 0 <= k < rest.len() && rest[k] == x;
                assert(list[k] == x);
            }
            if list.contains(x) && x != list.last() {
                let k = choose|k: int| 0 <= k < list.len() && list[k] == x;
                assert(rest[k] == x);
            }
            assert(list[list.len() - 1] == list.last());
        }
    }
}

proof fn lemma_arranged_unique<T>(a: Seq<(Seq<u8>, T)>, b: Seq<(Seq<u8>, T)>)
    requires
        is_arranged(a),
        is_arranged(b),
        same_items(a, b),
    ensures
        a == b,
    decreases a.len(),
{
    if a.len() == 0 {
        if b.len() > 0 {
            assert(b.contains(b[0]));
        }
        assert(a =~= b);
    } else {
        assert(a.contains(a[0]));
        assert(b.contains(a[0]));
        assert(b.contains(b[0]));
        assert(a.contains(b[0]));
        let i = choose|i: int| 0 <= i < b.len() && b[i] == a[0];
        let j = choose|j: int| 0 <= j < a.len() && a[j] == b[0];
        if a[0] != b[0] {
            assert(bytes_less(a[0].0, a[j].0));
            assert(bytes_less(b[0].0, b[i].0));
            lemma_bytes_order(a[0].0, b[0].0);
        }
        let a1 = a.drop_first();
        let b1 = b.drop_first();
        lemma_bytes_order(a[0].0, a[0].0);
        assert forall|x: (Seq<u8>, T)| #![auto] a1.contains(x) <==> b1.contains(x) by {
            if a1.contains(x) {
                let k = choose|k: int| 0 <= k < a1.len() && a1[k] == x;
                assert(a[k + 1] == x);
                assert(a.contains(x));
                let m = choose|m: int| 0 <= m < b.len() && b[m] == x;
                assert(bytes_less(a[0].0, a[k + 1].0));
                assert(m > 0);
                assert(b1[m - 1] == x);
            }
            if b1.contains(x) {
                let k = choose|k: int| 0 <= k < b1.len() && b1[k] == x;
                assert(b[k + 1] == x);
                assert(b.contains(x));
                let m = choose|m: int| 0 <= m < a.len() && a[m] == x;
                assert(bytes_less(b[0].0, b[k + 1].0));
                assert(m > 0);
                assert(a1[m - 1] == x);
            }
        }
        assert forall|i: int, j: int| 0 <= i < j < a1.len() implies bytes_less(
            (#[trigger] a1[i]).0,
            (#[trigger] a1[j]).0,
        ) by {
            assert(bytes_less(a[i + 1].0, a[j + 1].0));
        }
        assert forall|i: int, j: int| 0 <= i < j < b1.len() implies bytes_less(
            (#[trigger] b1[i]).0,
            (#[trigger] b1[j]).0,
        ) by {
            assert(bytes_less(b[i + 1].0, b[j + 1].0));
        }
        lemma_arranged_unique(a1, b1);
        assert(a =~= seq![a[0]] + a1);
        assert(b =~= seq![b[0]] + b1);
    }
}

/// The order in which items of different names come does not matter once they
/// are arranged.
pub proof fn arranging_forgets_the_order<T>(a: Seq<(Seq<u8>, T)>, b: Seq<(Seq<u8>, T)>)
    requires
        names_differ(a),
        names_differ(b),
        same_items(a, b),
    ensures
        arranged(a) == arranged(b),
{
    lemma_arranged(a);
    lemma_arranged(b);
    lemma_arranged_unique(arranged(a), arranged(b));
}

/// Arranging a list keeps all of its items, and adds none.
pub proof fn arranging_keeps_every_item<T>(list: Seq<(Seq<u8>, T)>, item: (Seq<u8>, T))
    ensures
        arranged(list).contains(item) <==> list.contains(item),
        arranged(list).len() == list.len(),
    decreases list.len(),
{
    if list.len() > 0 {
        let rest = list.drop_last();
        arranging_keeps_every_item(rest, item);
        lemma_placed_items(arranged(rest), list.last());
        lemma_place(names_of(arranged(rest)), list.last().0);
        if rest.contains(item) {
            let k = rest.index_of(item);
            assert(list[k] == item);
        }
        if item == list.last() {
            assert(list[list.len() - 1] == item);
        }
        if list.contains(item) && item != list.last() {
            let k = list.index_of(item);
            assert(rest[k] == item);
        }
    }
}

/// The items of a list of different names are in ascending order once they are
/// arranged.
pub proof fn arranged_items_are_in_order<T>(list: Seq<(Seq<u8>, T)>, i: int, j: int)
    requires
        names_differ(list),
        0 <= i < j < arranged(list).len(),
    ensures
        bytes_less(arranged(list)[i].0, arranged(list)[j].0),
{
    lemma_arranged(list);
}

/// What an item holds stands in what all of them hold.
pub proof fn all_items_run_together<T>(list: Seq<(Seq<u8>, Seq<T>)>, i: int, what: T)
    requires
        0 <= i < list.len(),
        list[i].1.contains(what),
    ensures
        run_together(list).contains(what),
    decreases list.len(),
{
    let all = run_together(list);
    let rest = list.drop_last();
    let before = run_together(rest);
    if i < rest.len() {
        all_items_run_together(rest, i, what);
        let k = before.index_of(what);
        assert(all[k] == what);
    } else {
        let k = list[i].1.index_of(what);
        assert(all[before.len() + k] == what);
    }
}

} // verus!
