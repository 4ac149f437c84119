//! Directory trees as maps from paths to entries, and what the actions of a
//! journal do to them.

use vstd::prelude::*;

verus! {

/// A path as its names, the root being the empty list.
pub type Place = Seq<Seq<char>>;

/// A directory tree: what stands at each place, relative to its top. What an
/// entry holds is a number that tells entries apart.
pub type Tree = Map<Place, int>;

/// The place lies at the given one or below it.
pub open spec fn at_or_below(place: Place, top: Place) -> bool {
    top.len() <= place.len() && place.take(top.len() as int) == top
}

/// Nothing stands at the place or below it.
pub open spec fn absent(tree: Tree, place: Place) -> bool {
    forall|k: Place| #[trigger] tree.contains_key(k) ==> !at_or_below(k, place)
}

/// The tree without what stands at the place and below it.
pub open spec fn cut(tree: Tree, place: Place) -> Tree {
    tree.restrict(tree.dom().filter(|k: Place| !at_or_below(k, place)))
}

/// What stands at the place and below it.
pub open spec fn part(tree: Tree, place: Place) -> Tree {
    Map::new(|rest: Place| tree.contains_key(place + rest), |rest: Place| tree[place + rest])
}

/// The tree with another one put at the place.
pub open spec fn graft(tree: Tree, place: Place, other: Tree) -> Tree {
    Map::new(
        |k: Place|
            tree.contains_key(k) || (at_or_below(k, place) && other.contains_key(
                k.skip(place.len() as int),
            )),
        |k: Place|
            if at_or_below(k, place) && other.contains_key(k.skip(place.len() as int)) {
                other[k.skip(place.len() as int)]
            } else {
                tree[k]
            },
    )
}

proof fn lemma_rest(place: Place, rest: Place)
    ensures
        at_or_below(place + rest, place),
        (place + rest).skip(place.len() as int) == rest,
{
    assert((place + rest).take(place.len() as int) =~= place);
    assert((place + rest).skip(place.len() as int) =~= rest);
}

proof fn lemma_split(place: Place, k: Place)
    requires
        at_or_below(k, place),
    ensures
        place + k.skip(place.len() as int) == k,
{
    assert(k =~= k.take(place.len() as int) + k.skip(place.len() as int));
}

/// Putting back what was cut out gives the same tree.
pub proof fn lemma_graft_back(tree: Tree, place: Place)
    ensures
        graft(cut(tree, place), place, part(tree, place)) == tree,
        absent(cut(tree, place), place),
{
    let again = graft(cut(tree, place), place, part(tree, place));
    assert forall|k: Place| #[trigger] again.contains_key(k) <==> tree.contains_key(k) by {
        if at_or_below(k, place) {
            lemma_split(place, k);
        }
    }
    assert forall|k: Place| #[trigger] again.contains_key(k) implies again[k] == tree[k] by {
        if at_or_below(k, place) {
            lemma_split(place, k);
        }
    }
    assert(again =~= tree);
}

/// What was put at a free place can be cut out again.
pub proof fn lemma_cut_graft(tree: Tree, place: Place, other: Tree)
    requires
        absent(tree, place),
    ensures
        cut(graft(tree, place, other), place) == tree,
        part(graft(tree, place, other), place) == other,
{
    let grafted = graft(tree, place, other);
    assert forall|k: Place| #[trigger] cut(grafted, place).contains_key(k) <==> tree.contains_key(
        k,
    ) by {}
    assert(cut(grafted, place) =~= tree);
    assert forall|rest: Place| #[trigger] part(grafted, place).contains_key(rest)
        <==> other.contains_key(rest) by {
        lemma_rest(place, rest);
    }
    assert forall|rest: Place| #[trigger] part(grafted, place).contains_key(rest) implies part(
        grafted,
        place,
    )[rest] == other[rest] by {
        lemma_rest(place, rest);
    }
    assert(part(grafted, place) =~= other);
}

/// The top of what was put at a place stands there.
pub proof fn lemma_graft_top(tree: Tree, place: Place, other: Tree)
    ensures
        other.contains_key(Seq::empty()) ==> graft(tree, place, other).contains_key(place),
        tree.contains_key(place) ==> part(tree, place).contains_key(Seq::empty()),
{
    lemma_rest(place, Seq::empty());
    assert(place + Seq::<Seq<char>>::empty() =~= place);
}

} // verus!
