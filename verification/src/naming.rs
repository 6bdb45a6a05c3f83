//! Items kept under distinct names: the map that a sequence of named items
//! stands for, and how it changes when an entry is replaced, added or
//! removed.
use vstd::prelude::*;

verus! {

/// The names of `entries`, in order.
pub open spec fn names_of<D>(entries: Seq<(String, D)>) -> Seq<Seq<char>> {
    entries.map_values(|e: (String, D)| e.0@)
}

/// Whether no name occurs twice among `entries`.
pub open spec fn distinct_names<D>(entries: Seq<(String, D)>) -> bool {
    forall|i: int, j: int|
        0 <= i < entries.len() && 0 <= j < entries.len() && i != j ==> entries[i].0@
            != entries[j].0@
}

/// The map from name to item that `entries` describe, put in one after the
/// other: of two entries under one name, the later counts.
pub open spec fn map_of<D>(entries: Seq<(String, D)>) -> Map<Seq<char>, D>
    decreases entries.len(),
{
    if entries.len() == 0 {
        Map::empty()
    } else {
        map_of(entries.drop_last()).insert(entries.last().0@, entries.last().1)
    }
}

/// A name is in the map of `entries` just when some entry has it.
pub proof fn lemma_map_of_dom<D>(entries: Seq<(String, D)>, name: Seq<char>)
    ensures
        map_of(entries).dom().contains(name) <==> exists|i: int|
            0 <= i < entries.len() && (#[trigger] entries[i]).0@ == name,
    decreases entries.len(),
{
    if entries.len() > 0 {
        let rest = entries.drop_last();
        lemma_map_of_dom(rest, name);
        if exists|i: int| 0 <= i < rest.len() && (#[trigger] rest[i]).0@ == name {
            let i = choose|i: int| 0 <= i < rest.len() && (#[trigger] rest[i]).0@ == name;
            assert(entries[i] == rest[i]);
        }
        if exists|i: int| 0 <= i < entries.len() && (#[trigger] entries[i]).0@ == name {
            let i = choose|i: int| 0 <= i < entries.len() && (#[trigger] entries[i]).0@ == name;
            if i < entries.len() - 1 {
                assert(rest[i] == entries[i]);
            } else {
                assert(entries.last().0@ == name);
            }
        }
    }
}

proof fn lemma_distinct_prefix<D>(entries: Seq<(String, D)>)
    requires
        distinct_names(entries),
        entries.len() > 0,
    ensures
        distinct_names(entries.drop_last()),
{
    let rest = entries.drop_last();
    assert forall|i: int, j: int|
        0 <= i < rest.len() && 0 <= j < rest.len() && i != j implies rest[i].0@ != rest[j].0@ by {
        assert(rest[i] == entries[i] && rest[j] == entries[j]);
    }
}

/// With distinct names, the map of `entries` gives each entry's item under
/// its name.
pub proof fn lemma_map_of_at<D>(entries: Seq<(String, D)>, i: int)
    requires
        distinct_names(entries),
        0 <= i < entries.len(),
    ensures
        map_of(entries).dom().contains(entries[i].0@),
        map_of(entries)[entries[i].0@] == entries[i].1,
    decreases entries.len(),
{
    let rest = entries.drop_last();
    if i < entries.len() - 1 {
        lemma_distinct_prefix(entries);
        lemma_map_of_at(rest, i);
        assert(rest[i] == entries[i]);
        assert(entries[i].0@ != entries[entries.len() - 1].0@);
    }
}

pub proof fn lemma_map_of_replace<D>(before: Seq<(String, D)>, i: int, entry: (String, D))
    requires
        distinct_names(before),
        0 <= i < before.len(),
        before[i].0@ == entry.0@,
    ensures
        distinct_names(before.update(i, entry)),
        map_of(before.update(i, entry)) == map_of(before).insert(entry.0@, entry.1),
{
    let after = before.update(i, entry);
    assert forall|a: int, b: int|
        0 <= a < after.len() && 0 <= b < after.len() && a != b implies after[a].0@ != after[b].0@ by {
        assert(after[a].0@ == before[a].0@ && after[b].0@ == before[b].0@);
    }
    let m = map_of(before).insert(entry.0@, entry.1);
    assert forall|name: Seq<char>| #[trigger] map_of(after).dom().contains(name) == m.dom().contains(name) by {
        lemma_map_of_dom(after, name);
        lemma_map_of_dom(before, name);
        if exists|j: int| 0 <= j < before.len() && (#[trigger] before[j]).0@ == name {
            let j = choose|j: int| 0 <= j < before.len() && (#[trigger] before[j]).0@ == name;
            assert(after[j].0@ == name);
        }
        if exists|j: int| 0 <= j < after.len() && (#[trigger] after[j]).0@ == name {
            let j = choose|j: int| 0 <= j < after.len() && (#[trigger] after[j]).0@ == name;
            assert(before[j].0@ == name);
        }
    }
    assert forall|name: Seq<char>| #[trigger] map_of(after).dom().contains(name) implies map_of(after)[name] == m[name] by {
        lemma_map_of_dom(after, name);
        let j = choose|j: int| 0 <= j < after.len() && (#[trigger] after[j]).0@ == name;
        lemma_map_of_at(after, j);
        if j != i {
            lemma_map_of_at(before, j);
        }
    }
    assert(map_of(after) =~= m);
}

pub proof fn lemma_map_of_push<D>(before: Seq<(String, D)>, entry: (String, D))
    requires
        distinct_names(before),
        forall|j: int| 0 <= j < before.len() ==> (#[trigger] before[j]).0@ != entry.0@,
    ensures
        distinct_names(before.push(entry)),
        map_of(before.push(entry)) == map_of(before).insert(entry.0@, entry.1),
{
    let after = before.push(entry);
    assert forall|a: int, b: int|
        0 <= a < after.len() && 0 <= b < after.len() && a != b implies after[a].0@ != after[b].0@ by {
        if a < before.len() {
            assert(after[a] == before[a]);
        }
        if b < before.len() {
            assert(after[b] == before[b]);
        }
    }
    assert(after.drop_last() =~= before);
}

pub proof fn lemma_map_of_remove<D>(before: Seq<(String, D)>, i: int)
    requires
        distinct_names(before),
        0 <= i < before.len(),
    ensures
        distinct_names(before.remove(i)),
        map_of(before.remove(i)) == map_of(before).remove(before[i].0@),
{
    let after = before.remove(i);
    let key = before[i].0@;
    assert forall|a: int, b: int|
        0 <= a < after.len() && 0 <= b < after.len() && a != b implies after[a].0@ != after[b].0@ by {
        let a0 = if a < i { a } else { a + 1 };
        let b0 = if b < i { b } else { b + 1 };
        assert(after[a] == before[a0] && after[b] == before[b0]);
    }
    let m = map_of(before).remove(key);
    assert forall|name: Seq<char>| #[trigger] map_of(after).dom().contains(name) == m.dom().contains(name) by {
        lemma_map_of_dom(after, name);
        lemma_map_of_dom(before, name);
        if exists|j: int| 0 <= j < before.len() && (#[trigger] before[j]).0@ == name {
            let j = choose|j: int| 0 <= j < before.len() && (#[trigger] before[j]).0@ == name;
            if j < i {
                assert(after[j] == before[j]);
            } else if j > i {
                assert(after[j - 1] == before[j]);
            }
        }
        if exists|j: int| 0 <= j < after.len() && (#[trigger] after[j]).0@ == name {
            let j = choose|j: int| 0 <= j < after.len() && (#[trigger] after[j]).0@ == name;
            let j0 = if j < i { j } else { j + 1 };
            assert(after[j] == before[j0]);
            assert(before[j0].0@ != key);
        }
    }
    assert forall|name: Seq<char>| #[trigger] map_of(after).dom().contains(name) implies map_of(after)[name] == m[name] by {
        lemma_map_of_dom(after, name);
        let j = choose|j: int| 0 <= j < after.len() && (#[trigger] after[j]).0@ == name;
        let j0 = if j < i { j } else { j + 1 };
        assert(after[j] == before[j0]);
        lemma_map_of_at(after, j);
        lemma_map_of_at(before, j0);
    }
    assert(map_of(after) =~= m);
}

} // verus!
