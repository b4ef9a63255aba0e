//! Association lists keyed by names, where a later entry overrides an earlier one.

use vstd::prelude::*;

verus! {

/// The map that the entries of `s` describe, a later entry winning over an earlier one.
pub open spec fn table<V>(s: Seq<(Seq<char>, V)>) -> Map<Seq<char>, V>
    decreases s.len(),
{
    if s.len() == 0 {
        Map::empty()
    } else {
        table(s.drop_last()).insert(s.last().0, s.last().1)
    }
}

/// Entries past `i` that do not carry `key` do not change what the table says of it.
pub proof fn lemma_table_prefix<V>(s: Seq<(Seq<char>, V)>, i: int, key: Seq<char>)
    requires
        0 <= i <= s.len(),
        forall|j: int| i <= j < s.len() ==> (#[trigger] s[j]).0 != key,
    ensures
        table(s).contains_key(key) == table(s.subrange(0, i)).contains_key(key),
        table(s).contains_key(key) ==> table(s)[key] == table(s.subrange(0, i))[key],
    decreases s.len() - i,
{
    if i == s.len() {
        assert(s.subrange(0, i) =~= s);
    } else {
        let t = s.drop_last();
        assert(t.subrange(0, i) =~= s.subrange(0, i));
        lemma_table_prefix(t, i, key);
    }
}

/// The table of a prefix ending in an entry for `key` maps `key` to that entry's value.
pub proof fn lemma_table_last<V>(s: Seq<(Seq<char>, V)>, i: int)
    requires
        0 <= i < s.len(),
    ensures
        table(s.subrange(0, i + 1)).contains_key(s[i].0),
        table(s.subrange(0, i + 1))[s[i].0] == s[i].1,
{
    let p = s.subrange(0, i + 1);
    assert(p.drop_last() =~= s.subrange(0, i));
}

/// What the table says of a key comes from the last entry for that key.
pub proof fn lemma_table_value<V>(s: Seq<(Seq<char>, V)>, key: Seq<char>)
    requires
        table(s).contains_key(key),
    ensures
        exists|i: int|
            0 <= i < s.len() && s[i].0 == key && s[i].1 == table(s)[key] && forall|j: int|
                i < j < s.len() ==> (#[trigger] s[j]).0 != key,
    decreases s.len(),
{
    if s.last().0 != key {
        let t = s.drop_last();
        lemma_table_value(t, key);
        let i = choose|i: int|
            0 <= i < t.len() && t[i].0 == key && t[i].1 == table(t)[key] && forall|j: int|
                i < j < t.len() ==> (#[trigger] t[j]).0 != key;
        assert(s[i] == t[i]);
        assert forall|j: int| i < j < s.len() implies (#[trigger] s[j]).0 != key by {
            if j < t.len() {
                assert(s[j] == t[j]);
            }
        }
    } else {
        assert(s[s.len() - 1].0 == key);
    }
}

} // verus!
