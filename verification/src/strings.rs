//! Lists of names and the lookups on them.

use vstd::prelude::*;

verus! {

/// The character sequences of a list of strings.
pub open spec fn strings(v: Seq<String>) -> Seq<Seq<char>> {
    v.map_values(|s: String| s@)
}

/// The position of the first string in `v` equal to `key`.
pub fn find_first(v: &Vec<String>, key: &String) -> (res: Option<usize>)
    ensures
        match res {
            Some(i) => strings(v@).index_of_first(key@) == Some(i as int),
            None => strings(v@).index_of_first(key@) is None,
        },
        res matches Some(i) ==> i < v@.len(),
        res is None <==> !strings(v@).contains(key@),
{
    let ghost s = strings(v@);
    proof { s.index_of_first_ensures(key@); }
    let mut i: usize = 0;
    while i < v.len()
        invariant
            s == strings(v@),
            i <= v@.len(),
            forall|j: int| 0 <= j < i ==> s[j] != key@,
        decreases v@.len() - i,
    {
        if v[i] == *key {
            assert(s[i as int] == key@);
            assert(s.contains(key@));
            proof { s.index_of_first_ensures(key@); }
            let ghost idx = s.index_of_first(key@).unwrap();
            assert(idx == i as int) by {
                if idx < i as int {
                    assert(s[idx] != key@);
                }
                if idx > i as int {
                    assert(s[i as int] != key@);
                }
            }
            return Some(i);
        }
        i += 1;
    }
    assert(!s.contains(key@));
    proof { s.index_of_first_ensures(key@); }
    None
}

/// Removes the first string equal to `key`, if there is one.
pub fn remove_first(v: &mut Vec<String>, key: &String)
    ensures
        strings(final(v)@) == strings(old(v)@).remove_value(key@),
{
    let ghost s = strings(v@);
    match find_first(v, key) {
        Some(i) => {
            v.remove(i);
            assert(strings(v@) =~= s.remove(i as int));
        },
        None => {},
    }
}

/// Removing the first occurrence of `x` from a list without duplicates removes exactly `x`.
pub proof fn lemma_remove_value_contains<A>(s: Seq<A>, x: A, y: A)
    requires
        s.no_duplicates(),
    ensures
        s.remove_value(x).no_duplicates(),
        s.remove_value(x).contains(y) <==> (s.contains(y) && y != x),
{
    s.index_of_first_ensures(x);
    match s.index_of_first(x) {
        None => {},
        Some(i) => {
            let t = s.remove(i);
            assert(t.len() == s.len() - 1);
            assert forall|a: int, b: int| 0 <= a < t.len() && 0 <= b < t.len() && a != b implies t[a] != t[b] by {
                let a2 = if a < i { a } else { a + 1 };
                let b2 = if b < i { b } else { b + 1 };
                assert(t[a] == s[a2] && t[b] == s[b2]);
            }
            if t.contains(y) {
                let j = choose|j: int| 0 <= j < t.len() && t[j] == y;
                let j2 = if j < i { j } else { j + 1 };
                assert(s[j2] == y);
                assert(j2 != i);
            }
            if s.contains(y) && y != x {
                let j = choose|j: int| 0 <= j < s.len() && s[j] == y;
                assert(j != i);
                let j2 = if j < i { j } else { j - 1 };
                assert(t[j2] == y);
            }
        },
    }
}

} // verus!
