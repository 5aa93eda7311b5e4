//! Names: finding one in a list, keeping a list free of repeats, and the
//! order in which names are sorted.

use vstd::prelude::*;
use vstd::utf8::*;

verus! {

/// The characters of each name of a list.
pub open spec fn names_of(list: Seq<String>) -> Seq<Seq<char>> {
    Seq::new(list.len(), |i: int| list[i]@)
}

/// The first place at which `name` stands in `names`, if it stands there.
pub open spec fn position(names: Seq<Seq<char>>, name: Seq<char>) -> Option<int>
    decreases names.len(),
{
    if names.len() == 0 {
        None
    } else {
        match position(names.drop_last(), name) {
            Some(i) => Some(i),
            None => if names.last() == name {
                Some(names.len() - 1)
            } else {
                None
            },
        }
    }
}

/// `position` gives the first place of the name, and none only where the
/// name is absent.
pub proof fn lemma_position(names: Seq<Seq<char>>, name: Seq<char>)
    ensures
        match position(names, name) {
            Some(i) => 0 <= i < names.len() && names[i] == name && forall|j: int|
                0 <= j < i ==> names[j] != name,
            None => !names.contains(name),
        },
    decreases names.len(),
{
    if names.len() > 0 {
        let before = names.drop_last();
        lemma_position(before, name);
        match position(before, name) {
            Some(i) => {
                assert(names[i] == before[i]);
                assert forall|j: int| 0 <= j < i implies names[j] != name by {
                    assert(before[j] == names[j]);
                }
            },
            None => {
                assert forall|j: int| 0 <= j < names.len() - 1 implies names[j] != name by {
                    assert(before[j] == names[j]);
                    assert(before.contains(before[j]));
                }
            },
        }
    }
}

/// The first place at which `name` stands in `names`.
pub fn find_name(names: &Vec<String>, name: &String) -> (found: Option<usize>)
    ensures
        found matches Some(i) ==> position(names_of(names@), name@) == Some(i as int),
        found is None ==> position(names_of(names@), name@) is None,
{
    let ghost all = names_of(names@);
    let mut i: usize = 0;
    while i < names.len()
        invariant
            i <= names.len(),
            all == names_of(names@),
            position(all.take(i as int), name@) is None,
        decreases names.len() - i,
    {
        proof {
            assert(all.take(i + 1).drop_last() =~= all.take(i as int));
            assert(all.take(i + 1).last() == names@[i as int]@);
        }
        if names[i] == *name {
            proof {
                lemma_found_stays(all, name@, i + 1);
            }
            return Some(i);
        }
        i += 1;
    }
    assert(all.take(i as int) =~= all);
    None
}

/// A name found among the first `n` names is found at the same place among
/// all of them.
proof fn lemma_found_stays(names: Seq<Seq<char>>, name: Seq<char>, n: int)
    requires
        0 <= n <= names.len(),
        position(names.take(n), name) is Some,
    ensures
        position(names, name) == position(names.take(n), name),
    decreases names.len() - n,
{
    if n < names.len() {
        assert(names.take(n + 1).drop_last() =~= names.take(n));
        lemma_found_stays(names, name, n + 1);
    } else {
        assert(names.take(n) =~= names);
    }
}

/// `names` with `name` at its end, unless it stands in `names` already.
pub open spec fn with_name(names: Seq<Seq<char>>, name: Seq<char>) -> Seq<Seq<char>> {
    if names.contains(name) {
        names
    } else {
        names.push(name)
    }
}

/// Puts `name` at the end of the list unless the list holds it already.
pub fn insert_unique(names: &mut Vec<String>, name: &String)
    ensures
        names_of(final(names)@) == with_name(names_of(old(names)@), name@),
        names_of(old(names)@).no_duplicates() ==> names_of(final(names)@).no_duplicates(),
{
    let ghost before = names_of(names@);
    proof {
        lemma_position(before, name@);
    }
    if find_name(names, name).is_none() {
        names.push(name.clone());
        proof {
            let after = names_of(names@);
            assert(after =~= before.push(name@));
            if before.no_duplicates() {
                assert forall|i: int, j: int|
                    0 <= i < after.len() && 0 <= j < after.len() && i != j implies after[i]
                    != after[j] by {
                    if i < before.len() && j < before.len() {
                        assert(before[i] != before[j]);
                    } else if i < before.len() {
                        assert(before.contains(before[i]));
                    } else if j < before.len() {
                        assert(before.contains(before[j]));
                    }
                }
            }
        }
    }
}

/// Whether the bytes `a` come before the bytes `b`: at the first place where
/// they differ `a` has the smaller byte, or `a` ends there and `b` goes on.
pub open spec fn bytes_before(a: Seq<u8>, b: Seq<u8>) -> bool
    decreases a.len(),
{
    if b.len() == 0 {
        false
    } else if a.len() == 0 {
        true
    } else if a[0] != b[0] {
        a[0] < b[0]
    } else {
        bytes_before(a.drop_first(), b.drop_first())
    }
}

/// Whether the name `a` sorts before the name `b`: by the bytes of their
/// UTF-8 encodings, which is the order of their characters' code points.
pub open spec fn name_before(a: Seq<char>, b: Seq<char>) -> bool {
    bytes_before(encode_utf8(a), encode_utf8(b))
}

/// No list of bytes comes before itself.
pub proof fn lemma_bytes_irreflexive(a: Seq<u8>)
    ensures
        !bytes_before(a, a),
    decreases a.len(),
{
    if a.len() > 0 {
        lemma_bytes_irreflexive(a.drop_first());
    }
}

/// What comes before a list that comes before a third comes before the
/// third.
pub proof fn lemma_bytes_transitive(a: Seq<u8>, b: Seq<u8>, c: Seq<u8>)
    requires
        bytes_before(a, b),
        bytes_before(b, c),
    ensures
        bytes_before(a, c),
    decreases a.len(),
{
    if a.len() > 0 && b.len() > 0 && c.len() > 0 {
        if a[0] == b[0] && b[0] == c[0] {
            lemma_bytes_transitive(a.drop_first(), b.drop_first(), c.drop_first());
        }
    }
}

/// Of two different lists of bytes one comes before the other.
pub proof fn lemma_bytes_total(a: Seq<u8>, b: Seq<u8>)
    ensures
        a == b || bytes_before(a, b) || bytes_before(b, a),
    decreases a.len(),
{
    if a.len() > 0 && b.len() > 0 {
        if a[0] == b[0] {
            lemma_bytes_total(a.drop_first(), b.drop_first());
            if a.drop_first() == b.drop_first() {
                assert(a =~= seq![a[0]] + a.drop_first());
                assert(b =~= seq![b[0]] + b.drop_first());
            }
        }
    } else if a.len() == 0 && b.len() == 0 {
        assert(a =~= b);
    }
}

/// No name sorts before itself.
pub proof fn lemma_name_irreflexive(a: Seq<char>)
    ensures
        !name_before(a, a),
{
    lemma_bytes_irreflexive(encode_utf8(a));
}

/// The order of names is transitive.
pub proof fn lemma_name_transitive(a: Seq<char>, b: Seq<char>, c: Seq<char>)
    requires
        name_before(a, b),
        name_before(b, c),
    ensures
        name_before(a, c),
{
    lemma_bytes_transitive(encode_utf8(a), encode_utf8(b), encode_utf8(c));
}

/// Of two different names one sorts before the other.
pub proof fn lemma_name_total(a: Seq<char>, b: Seq<char>)
    ensures
        a == b || name_before(a, b) || name_before(b, a),
{
    lemma_bytes_total(encode_utf8(a), encode_utf8(b));
    if encode_utf8(a) == encode_utf8(b) {
        encode_utf8_decode_utf8(a);
        encode_utf8_decode_utf8(b);
    }
}

/// Whether `a` sorts before `b`.
pub fn sorts_before(a: &String, b: &String) -> (before: bool)
    ensures
        before == name_before(a@, b@),
{
    let x = a.as_str().as_bytes();
    let y = b.as_str().as_bytes();
    let mut i: usize = 0;
    assert(x@.skip(0) =~= x@ && y@.skip(0) =~= y@);
    loop
        invariant
            i <= x@.len(),
            i <= y@.len(),
            x@ == encode_utf8(a@),
            y@ == encode_utf8(b@),
            bytes_before(x@, y@) == bytes_before(x@.skip(i as int), y@.skip(i as int)),
        decreases x@.len() - i,
    {
        if i == y.len() {
            return false;
        }
        if i == x.len() {
            return true;
        }
        if x[i] != y[i] {
            return x[i] < y[i];
        }
        proof {
            assert(x@.skip(i as int).drop_first() =~= x@.skip(i + 1));
            assert(y@.skip(i as int).drop_first() =~= y@.skip(i + 1));
        }
        i += 1;
    }
}

/// Whether each name sorts before all the names in front of it: the names
/// fall from the greatest to the least, and none stands twice.
pub open spec fn descending(names: Seq<Seq<char>>) -> bool {
    forall|i: int, j: int| 0 <= i < j < names.len() ==> name_before(names[j], names[i])
}

/// Whether two lists hold the same names.
pub open spec fn same_names(a: Seq<Seq<char>>, b: Seq<Seq<char>>) -> bool {
    forall|name: Seq<char>| a.contains(name) <==> b.contains(name)
}

/// The names of a list from the greatest to the least, each once.
pub open spec fn sorted_descending(names: Seq<Seq<char>>) -> Seq<Seq<char>> {
    choose|sorted: Seq<Seq<char>>| descending(sorted) && same_names(sorted, names)
}

/// A descending list holds no name twice.
pub proof fn lemma_descending_distinct(names: Seq<Seq<char>>)
    requires
        descending(names),
    ensures
        names.no_duplicates(),
{
    assert forall|i: int, j: int|
        0 <= i < names.len() && 0 <= j < names.len() && i != j implies names[i] != names[j] by {
        lemma_name_irreflexive(names[i]);
        if i < j {
            assert(name_before(names[j], names[i]));
        } else {
            assert(name_before(names[i], names[j]));
        }
    }
}

/// There is one way only to put names in descending order.
pub proof fn lemma_descending_unique(a: Seq<Seq<char>>, b: Seq<Seq<char>>)
    requires
        descending(a),
        descending(b),
        same_names(a, b),
    ensures
        a == b,
    decreases a.len(),
{
    if a.len() == 0 {
        if b.len() > 0 {
            assert(b.contains(b[0]));
            assert(a.contains(b[0]));
        }
        assert(a =~= b);
    } else if b.len() == 0 {
        assert(a.contains(a[0]));
        assert(b.contains(a[0]));
    } else {
        // both start with the greatest name
        assert(a.contains(a[0]));
        assert(b.contains(a[0]));
        let k = choose|k: int| 0 <= k < b.len() && b[k] == a[0];
        assert(b.contains(b[0]));
        assert(a.contains(b[0]));
        let m = choose|m: int| 0 <= m < a.len() && a[m] == b[0];
        if k > 0 {
            assert(name_before(b[k], b[0]));
            if m > 0 {
                assert(name_before(a[m], a[0]));
                lemma_name_transitive(a[0], b[0], a[0]);
            }
            lemma_name_irreflexive(a[0]);
        }
        assert(a[0] == b[0]);
        let ta = a.drop_first();
        let tb = b.drop_first();
        lemma_descending_distinct(a);
        lemma_descending_distinct(b);
        assert forall|i: int, j: int| 0 <= i < j < ta.len() implies name_before(ta[j], ta[i]) by {
            assert(name_before(a[j + 1], a[i + 1]));
        }
        assert forall|i: int, j: int| 0 <= i < j < tb.len() implies name_before(tb[j], tb[i]) by {
            assert(name_before(b[j + 1], b[i + 1]));
        }
        assert forall|name: Seq<char>| ta.contains(name) <==> tb.contains(name) by {
            if ta.contains(name) {
                let i = choose|i: int| 0 <= i < ta.len() && ta[i] == name;
                assert(a[i + 1] == name);
                assert(a.contains(name));
                assert(b.contains(name));
                let j = choose|j: int| 0 <= j < b.len() && b[j] == name;
                assert(j != 0);
                assert(tb[j - 1] == name);
            }
            if tb.contains(name) {
                let i = choose|i: int| 0 <= i < tb.len() && tb[i] == name;
                assert(b[i + 1] == name);
                assert(b.contains(name));
                assert(a.contains(name));
                let j = choose|j: int| 0 <= j < a.len() && a[j] == name;
                assert(j != 0);
                assert(ta[j - 1] == name);
            }
        }
        lemma_descending_unique(ta, tb);
        assert(a =~= seq![a[0]] + ta);
        assert(b =~= seq![b[0]] + tb);
    }
}

/// A descending list with `name` put in its place, unless it stands there.
spec fn inserted(sorted: Seq<Seq<char>>, name: Seq<char>) -> Seq<Seq<char>>
    decreases sorted.len(),
{
    if sorted.len() == 0 {
        seq![name]
    } else if sorted.last() == name {
        sorted
    } else if name_before(name, sorted.last()) {
        sorted.push(name)
    } else {
        inserted(sorted.drop_last(), name).push(sorted.last())
    }
}

/// Putting a name into a descending list leaves it descending, and adds
/// that name only.
proof fn lemma_inserted(sorted: Seq<Seq<char>>, name: Seq<char>)
    requires
        descending(sorted),
    ensures
        descending(inserted(sorted, name)),
        forall|x: Seq<char>| #[trigger]
            inserted(sorted, name).contains(x) <==> sorted.contains(x) || x == name,
    decreases sorted.len(),
{
    let after = inserted(sorted, name);
    if sorted.len() == 0 {
        assert(after[0] == name);
    } else if sorted.last() == name {
        assert(sorted[sorted.len() - 1] == name);
    } else if name_before(name, sorted.last()) {
        assert forall|i: int, j: int| 0 <= i < j < after.len() implies name_before(
            after[j],
            after[i],
        ) by {
            if j < sorted.len() {
                assert(name_before(sorted[j], sorted[i]));
            } else if i < sorted.len() - 1 {
                assert(name_before(sorted[sorted.len() - 1], sorted[i]));
                lemma_name_transitive(name, sorted.last(), sorted[i]);
            }
        }
        assert(after[after.len() - 1] == name);
        assert forall|x: Seq<char>| sorted.contains(x) implies after.contains(x) by {
            let i = choose|i: int| 0 <= i < sorted.len() && sorted[i] == x;
            assert(after[i] == x);
        }
    } else {
        let shorter = sorted.drop_last();
        let last = sorted.last();
        assert forall|i: int, j: int| 0 <= i < j < shorter.len() implies name_before(
            shorter[j],
            shorter[i],
        ) by {
            assert(name_before(sorted[j], sorted[i]));
        }
        lemma_inserted(shorter, name);
        lemma_name_total(name, last);
        let inner = inserted(shorter, name);
        assert forall|i: int, j: int| 0 <= i < j < after.len() implies name_before(
            after[j],
            after[i],
        ) by {
            if j < inner.len() {
                assert(name_before(inner[j], inner[i]));
            } else {
                assert(inner.contains(inner[i]));
                if inner[i] != name {
                    let k = choose|k: int| 0 <= k < shorter.len() && shorter[k] == inner[i];
                    assert(name_before(sorted[sorted.len() - 1], sorted[k]));
                }
            }
        }
        assert(after[after.len() - 1] == last);
        assert forall|x: Seq<char>| #[trigger]
            after.contains(x) <==> sorted.contains(x) || x == name by {
            if after.contains(x) {
                let i = choose|i: int| 0 <= i < after.len() && after[i] == x;
                if i < inner.len() {
                    assert(inner.contains(inner[i]));
                    if x != name {
                        let k = choose|k: int| 0 <= k < shorter.len() && shorter[k] == x;
                        assert(sorted[k] == x);
                    }
                } else {
                    assert(sorted[sorted.len() - 1] == x);
                }
            }
            if sorted.contains(x) {
                let i = choose|i: int| 0 <= i < sorted.len() && sorted[i] == x;
                if i < shorter.len() {
                    assert(shorter[i] == x);
                    assert(shorter.contains(x));
                    assert(inner.contains(x));
                    let k = choose|k: int| 0 <= k < inner.len() && inner[k] == x;
                    assert(after[k] == x);
                }
            }
            if x == name {
                assert(inner.contains(name));
                let k = choose|k: int| 0 <= k < inner.len() && inner[k] == name;
                assert(after[k] == name);
            }
        }
    }
}

/// Every list of names can be put in descending order: `sorted_descending`
/// is descending and holds the names of the list, and no others.
pub proof fn lemma_sorted_descending(names: Seq<Seq<char>>)
    ensures
        descending(sorted_descending(names)),
        same_names(sorted_descending(names), names),
    decreases names.len(),
{
    if names.len() == 0 {
        let none = Seq::<Seq<char>>::empty();
        assert(descending(none) && same_names(none, names));
    } else {
        let shorter = names.drop_last();
        lemma_sorted_descending(shorter);
        let before = sorted_descending(shorter);
        lemma_inserted(before, names.last());
        let all = inserted(before, names.last());
        assert forall|x: Seq<char>| all.contains(x) <==> names.contains(x) by {
            if names.contains(x) {
                let i = choose|i: int| 0 <= i < names.len() && names[i] == x;
                if i < shorter.len() {
                    assert(shorter[i] == x);
                    assert(shorter.contains(x));
                }
            }
            if all.contains(x) && x != names.last() {
                assert(shorter.contains(x));
                let i = choose|i: int| 0 <= i < shorter.len() && shorter[i] == x;
                assert(names[i] == x);
            }
            if x == names.last() {
                assert(names[names.len() - 1] == x);
            }
        }
        assert(descending(all) && same_names(all, names));
    }
}

/// The names from the greatest to the least, each once.
pub fn sort_descending(names: &Vec<String>) -> (sorted: Vec<String>)
    ensures
        descending(names_of(sorted@)),
        same_names(names_of(sorted@), names_of(names@)),
        names_of(sorted@) == sorted_descending(names_of(names@)),
{
    let ghost all = names_of(names@);
    let mut sorted: Vec<String> = Vec::new();
    let mut i: usize = 0;
    assert(descending(names_of(sorted@)));
    while i < names.len()
        invariant
            i <= names.len(),
            all == names_of(names@),
            descending(names_of(sorted@)),
            same_names(names_of(sorted@), all.take(i as int)),
        decreases names.len() - i,
    {
        let name = &names[i];
        let ghost before = names_of(sorted@);
        let mut p: usize = 0;
        let mut searching = true;
        while searching && p < sorted.len()
            invariant
                p <= sorted.len(),
                before == names_of(sorted@),
                forall|q: int| 0 <= q < p ==> name_before(name@, #[trigger] before[q]),
                !searching ==> p < sorted.len() && !name_before(name@, before[p as int]),
            decreases sorted.len() - p + if searching { 1int } else { 0int },
        {
            if sorts_before(name, &sorted[p]) {
                p += 1;
            } else {
                searching = false;
            }
        }
        let present = p < sorted.len() && sorted[p] == *name;
        if !present {
            sorted.insert(p, name.clone());
        }
        proof {
            let after = names_of(sorted@);
            let seen = all.take(i as int);
            let next = all.take(i + 1);
            assert(next.drop_last() =~= seen);
            assert(next.last() == name@);
            if present {
                assert(after == before);
                assert forall|x: Seq<char>| after.contains(x) <==> next.contains(x) by {
                    if after.contains(x) {
                        assert(seen.contains(x));
                        let j = choose|j: int| 0 <= j < seen.len() && seen[j] == x;
                        assert(next[j] == x);
                    }
                    if next.contains(x) {
                        let j = choose|j: int| 0 <= j < next.len() && next[j] == x;
                        if j < seen.len() {
                            assert(seen[j] == x);
                            assert(seen.contains(x));
                        } else {
                            assert(before[p as int] == x);
                        }
                    }
                }
            } else {
                assert(after =~= before.insert(p as int, name@));
                assert forall|a: int, b: int| 0 <= a < b < after.len() implies name_before(
                    after[b],
                    after[a],
                ) by {
                    if b < p {
                        assert(name_before(before[b], before[a]));
                    } else if b == p {
                        assert(name_before(name@, before[a]));
                    } else {
                        // `after[b]` stood at `b - 1`, at or behind the place of the new name
                        lemma_name_total(name@, before[p as int]);
                        if b - 1 > p {
                            assert(name_before(before[b - 1], before[p as int]));
                            lemma_name_transitive(before[b - 1], before[p as int], name@);
                        }
                        assert(name_before(before[b - 1], name@));
                        if a < p {
                            assert(name_before(before[b - 1], before[a]));
                        } else if a > p {
                            assert(name_before(before[b - 1], before[a - 1]));
                        }
                    }
                }
                assert forall|x: Seq<char>| after.contains(x) <==> next.contains(x) by {
                    if after.contains(x) {
                        let j = choose|j: int| 0 <= j < after.len() && after[j] == x;
                        if j == p {
                            assert(next[i as int] == x);
                        } else {
                            if j < p {
                                assert(before[j] == x);
                            } else {
                                assert(before[j - 1] == x);
                            }
                            assert(before.contains(x));
                            assert(seen.contains(x));
                            let m = choose|m: int| 0 <= m < seen.len() && seen[m] == x;
                            assert(next[m] == x);
                        }
                    }
                    if next.contains(x) {
                        let j = choose|j: int| 0 <= j < next.len() && next[j] == x;
                        if j < seen.len() {
                            assert(seen[j] == x);
                            assert(seen.contains(x));
                            assert(before.contains(x));
                            let m = choose|m: int| 0 <= m < before.len() && before[m] == x;
                            if m < p {
                                assert(after[m] == x);
                            } else {
                                assert(after[m + 1] == x);
                            }
                        } else {
                            assert(after[p as int] == x);
                        }
                    }
                }
            }
        }
        i += 1;
    }
    proof {
        assert(all.take(i as int) =~= all);
        let s = names_of(sorted@);
        let chosen = sorted_descending(all);
        assert(descending(s) && same_names(s, all));
        assert(descending(chosen) && same_names(chosen, all));
        lemma_descending_unique(s, chosen);
    }
    sorted
}

} // verus!
