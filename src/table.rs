use vstd::prelude::*;

verus! {

/// The map that a sequence of named entries stands for: a later entry replaces
/// an earlier one of the same name.
pub open spec fn last_wins<V>(pairs: Seq<(Seq<char>, V)>) -> Map<Seq<char>, V>
    decreases pairs.len(),
{
    if pairs.len() == 0 {
        Map::empty()
    } else {
        last_wins(pairs.drop_last()).insert(pairs.last().0, pairs.last().1)
    }
}

/// No two entries share a name.
pub open spec fn unique_names<V>(pairs: Seq<(Seq<char>, V)>) -> bool {
    forall|i: int, j: int| 0 <= i < j < pairs.len() ==> #[trigger] pairs[i].0 != #[trigger] pairs[j].0
}

/// A name is in the map exactly when some entry carries it.
pub proof fn lemma_last_wins_contains<V>(pairs: Seq<(Seq<char>, V)>, n: Seq<char>)
    ensures
        last_wins(pairs).contains_key(n) <==> exists|i: int| 0 <= i < pairs.len() && #[trigger] pairs[i].0 == n,
    decreases pairs.len(),
{
    if pairs.len() > 0 {
        let init = pairs.drop_last();
        lemma_last_wins_contains(init, n);
        if exists|i: int| 0 <= i < pairs.len() && #[trigger] pairs[i].0 == n {
            let i = choose|i: int| 0 <= i < pairs.len() && #[trigger] pairs[i].0 == n;
            if i < pairs.len() - 1 {
                assert(init[i].0 == n);
            }
        }
        if exists|i: int| 0 <= i < init.len() && #[trigger] init[i].0 == n {
            let i = choose|i: int| 0 <= i < init.len() && #[trigger] init[i].0 == n;
            assert(pairs[i].0 == n);
        }
    }
}

/// With unique names, each entry's name maps to that entry's value.
pub proof fn lemma_last_wins_index<V>(pairs: Seq<(Seq<char>, V)>, i: int)
    requires
        unique_names(pairs),
        0 <= i < pairs.len(),
    ensures
        last_wins(pairs).contains_key(pairs[i].0),
        last_wins(pairs)[pairs[i].0] == pairs[i].1,
    decreases pairs.len(),
{
    if i < pairs.len() - 1 {
        let init = pairs.drop_last();
        assert(init[i] == pairs[i]);
        lemma_last_wins_index(init, i);
        assert(pairs[i].0 != pairs[pairs.len() - 1].0);
    }
}

/// With unique names, dropping an entry drops its name from the map.
pub proof fn lemma_last_wins_remove<V>(pairs: Seq<(Seq<char>, V)>, i: int)
    requires
        unique_names(pairs),
        0 <= i < pairs.len(),
    ensures
        last_wins(pairs.remove(i)) == last_wins(pairs).remove(pairs[i].0),
    decreases pairs.len(),
{
    let n = pairs[i].0;
    let init = pairs.drop_last();
    if i == pairs.len() - 1 {
        assert(pairs.remove(i) =~= init);
        lemma_last_wins_contains(init, n);
        assert(!last_wins(init).contains_key(n));
        assert(last_wins(pairs).remove(n) =~= last_wins(init));
    } else {
        assert(init[i] == pairs[i]);
        lemma_last_wins_remove(init, i);
        assert(pairs.remove(i).drop_last() =~= init.remove(i));
        assert(pairs.remove(i).last() == pairs.last());
        assert(pairs.last().0 != n);
        assert(last_wins(pairs.remove(i)) =~= last_wins(pairs).remove(n));
    }
}

/// Removing a name that no entry carries leaves the map as it was.
pub proof fn lemma_last_wins_absent<V>(pairs: Seq<(Seq<char>, V)>, n: Seq<char>)
    requires
        forall|i: int| 0 <= i < pairs.len() ==> #[trigger] pairs[i].0 != n,
    ensures
        !last_wins(pairs).contains_key(n),
        last_wins(pairs).remove(n) == last_wins(pairs),
{
    lemma_last_wins_contains(pairs, n);
    assert(last_wins(pairs).remove(n) =~= last_wins(pairs));
}

} // verus!
