//! Age-keyed bucket storage shared by the aggregate types: a vector of
//! `(age, value)` pairs kept strictly sorted by age, read as a map.

use vstd::prelude::*;

verus! {

/// Strictly increasing ages; strictness makes every key unique.
pub open spec fn sorted_ages<V>(s: Seq<(u64, V)>) -> bool {
    forall|i: int, j: int| 0 <= i < j < s.len() ==> (#[trigger] s[i]).0 < (#[trigger] s[j]).0
}

/// The ages of the pairs, in storage order.
pub open spec fn ages_of<V>(s: Seq<(u64, V)>) -> Seq<u64> {
    s.map_values(|e: (u64, V)| e.0)
}

/// The mapping that a pair list stands for; a later pair wins on a
/// duplicated age, which a sorted list never has.
pub open spec fn entries_map<V>(s: Seq<(u64, V)>) -> Map<u64, V>
    decreases s.len(),
{
    if s.len() == 0 {
        Map::empty()
    } else {
        entries_map(s.drop_last()).insert(s.last().0, s.last().1)
    }
}

/// On a sorted list the map holds exactly the listed ages, each at its
/// listed value.
pub proof fn lemma_entries_map<V>(s: Seq<(u64, V)>)
    requires
        sorted_ages(s),
    ensures
        forall|k: u64|
            #[trigger] entries_map(s).dom().contains(k) <==> exists|i: int|
                0 <= i < s.len() && (#[trigger] s[i]).0 == k,
        forall|i: int|
            0 <= i < s.len() ==> entries_map(s).dom().contains((#[trigger] s[i]).0)
                && entries_map(s)[s[i].0] == s[i].1,
    decreases s.len(),
{
    if s.len() > 0 {
        let t = s.drop_last();
        assert(forall|i: int| 0 <= i < t.len() ==> t[i] == #[trigger] s[i]);
        assert(sorted_ages(t));
        lemma_entries_map(t);
        assert(entries_map(s) == entries_map(t).insert(s.last().0, s.last().1));
        assert forall|k: u64| #[trigger] entries_map(s).dom().contains(k) implies exists|i: int|
            0 <= i < s.len() && (#[trigger] s[i]).0 == k by {
            if k == s.last().0 {
                assert(s[s.len() - 1].0 == k);
            } else {
                assert(entries_map(t).dom().contains(k));
                let i = choose|i: int| 0 <= i < t.len() && (#[trigger] t[i]).0 == k;
                assert(s[i].0 == k);
            }
        }
        assert forall|k: u64|
            (exists|i: int| 0 <= i < s.len() && (#[trigger] s[i]).0 == k) implies #[trigger]
            entries_map(s).dom().contains(k) by {
            let i = choose|i: int| 0 <= i < s.len() && (#[trigger] s[i]).0 == k;
            if i < s.len() - 1 {
                assert(t[i].0 == k);
            }
        }
        assert(forall|i: int|
            0 <= i < s.len() - 1 ==> (#[trigger] s[i]).0 != s.last().0);
    }
}

/// Replacing the pair at an age already listed is, as a map, an insert.
pub proof fn lemma_entries_map_update<V>(s: Seq<(u64, V)>, pos: int, v: V)
    requires
        sorted_ages(s),
        0 <= pos < s.len(),
    ensures
        sorted_ages(s.update(pos, (s[pos].0, v))),
        entries_map(s.update(pos, (s[pos].0, v))) == entries_map(s).insert(s[pos].0, v),
    decreases s.len(),
{
    let age = s[pos].0;
    let u = s.update(pos, (age, v));
    assert(sorted_ages(u)) by {
        assert(forall|i: int| 0 <= i < s.len() ==> (#[trigger] u[i]).0 == s[i].0);
    }
    if pos == s.len() - 1 {
        assert(u.drop_last() =~= s.drop_last());
        assert(entries_map(u) == entries_map(s.drop_last()).insert(age, v));
        assert(entries_map(s).insert(age, v) =~= entries_map(s.drop_last()).insert(age, v));
    } else {
        assert(u.drop_last() =~= s.drop_last().update(pos, (s[pos].0, v))) by {
            assert(forall|i: int|
                0 <= i < s.len() - 1 ==> u.drop_last()[i]
                    == #[trigger] s.drop_last().update(pos, (s[pos].0, v))[i]);
        }
        assert(s.drop_last()[pos] == s[pos]);
        lemma_entries_map_update(s.drop_last(), pos, v);
        // the two inserted keys differ, so the inserts commute
        assert(age != s.last().0);
        assert(entries_map(u) == entries_map(s.drop_last()).insert(age, v).insert(
            s.last().0,
            s.last().1,
        ));
        assert(entries_map(s.drop_last()).insert(age, v).insert(s.last().0, s.last().1)
            =~= entries_map(s.drop_last()).insert(s.last().0, s.last().1).insert(age, v));
    }
}

/// Placing a new age at its sorted position is, as a map, an insert.
pub proof fn lemma_entries_map_insert_at<V>(s: Seq<(u64, V)>, pos: int, age: u64, v: V)
    requires
        sorted_ages(s),
        0 <= pos <= s.len(),
        forall|i: int| 0 <= i < pos ==> (#[trigger] s[i]).0 < age,
        forall|i: int| pos <= i < s.len() ==> (#[trigger] s[i]).0 > age,
    ensures
        sorted_ages(s.insert(pos, (age, v))),
        entries_map(s.insert(pos, (age, v))) == entries_map(s).insert(age, v),
    decreases s.len(),
{
    let u = s.insert(pos, (age, v));
    assert(forall|i: int| 0 <= i < pos ==> u[i] == s[i]);
    assert(u[pos] == (age, v));
    assert(forall|i: int| pos < i < u.len() ==> u[i] == s[i - 1]);
    assert(sorted_ages(u));
    if pos == s.len() {
        assert(u.drop_last() =~= s);
    } else {
        assert(u.drop_last() =~= s.drop_last().insert(pos, (age, v)));
        assert(sorted_ages(s.drop_last())) by {
            assert(forall|i: int| 0 <= i < s.len() - 1 ==> s.drop_last()[i] == s[i]);
        }
        assert(forall|i: int| 0 <= i < s.len() - 1 ==> s.drop_last()[i] == s[i]);
        lemma_entries_map_insert_at(s.drop_last(), pos, age, v);
        assert(u.last() == s.last());
        assert(age != s.last().0);
        assert(entries_map(u) == entries_map(s.drop_last()).insert(age, v).insert(
            s.last().0,
            s.last().1,
        ));
        assert(entries_map(s.drop_last()).insert(age, v).insert(s.last().0, s.last().1)
            =~= entries_map(s.drop_last()).insert(s.last().0, s.last().1).insert(age, v));
    }
}

/// Looks the age up in a sorted pair list.
pub fn find_age<V: Copy>(entries: &Vec<(u64, V)>, age: u64) -> (r: Option<V>)
    requires
        sorted_ages(entries@),
    ensures
        r == if entries_map(entries@).dom().contains(age) {
            Some(entries_map(entries@)[age])
        } else {
            None::<V>
        },
{
    proof {
        lemma_entries_map(entries@);
    }
    let n = entries.len();
    let mut i: usize = 0;
    while i < n
        invariant
            0 <= i <= n == entries@.len(),
            sorted_ages(entries@),
            forall|j: int| 0 <= j < i ==> (#[trigger] entries@[j]).0 != age,
            entries_map(entries@).dom().contains(age) <==> exists|j: int|
                0 <= j < entries@.len() && (#[trigger] entries@[j]).0 == age,
            forall|j: int|
                0 <= j < entries@.len() ==> entries_map(entries@)[(#[trigger] entries@[j]).0]
                    == entries@[j].1,
        decreases n - i,
    {
        let e = entries[i];
        if e.0 == age {
            return Some(e.1);
        }
        i = i + 1;
    }
    None
}

/// Sets the value at the age, keeping the list sorted: replaces the pair
/// where the age is listed, splices one in where it is not.
pub fn upsert<V: Copy>(entries: &mut Vec<(u64, V)>, age: u64, v: V)
    requires
        sorted_ages(old(entries)@),
    ensures
        sorted_ages(final(entries)@),
        entries_map(final(entries)@) == entries_map(old(entries)@).insert(age, v),
{
    proof {
        lemma_entries_map(entries@);
    }
    let ghost s0 = entries@;
    let n = entries.len();
    let mut pos: usize = 0;
    while pos < n && entries[pos].0 < age
        invariant
            0 <= pos <= n == entries@.len(),
            entries@ == s0,
            forall|j: int| 0 <= j < pos ==> (#[trigger] entries@[j]).0 < age,
        decreases n - pos,
    {
        pos = pos + 1;
    }
    if pos < n && entries[pos].0 == age {
        proof {
            lemma_entries_map_update(entries@, pos as int, v);
        }
        entries[pos] = (age, v);
    } else {
        proof {
            assert(forall|i: int|
                pos <= i < entries@.len() ==> (#[trigger] entries@[i]).0 > age);
            lemma_entries_map_insert_at(entries@, pos as int, age, v);
        }
        entries.insert(pos, (age, v));
    }
}

/// The listed ages, in their sorted storage order.
pub fn ages_vec<V>(entries: &Vec<(u64, V)>) -> (r: Vec<u64>)
    ensures
        r@ == ages_of(entries@),
{
    let n = entries.len();
    let mut r: Vec<u64> = Vec::new();
    let mut i: usize = 0;
    while i < n
        invariant
            0 <= i <= n == entries@.len(),
            r@ == ages_of(entries@.take(i as int)),
        decreases n - i,
    {
        r.push(entries[i].0);
        proof {
            assert(ages_of(entries@.take(i + 1)) =~= ages_of(entries@.take(i as int)).push(
                entries@[i as int].0,
            ));
        }
        i = i + 1;
    }
    proof {
        assert(entries@.take(n as int) =~= entries@);
    }
    r
}

} // verus!
