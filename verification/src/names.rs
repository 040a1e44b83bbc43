//! Maps and sets of names, kept in ascending order.

use vstd::prelude::*;

verus! {

/// `a` comes before `b`: the first character in which they differ is smaller, or `a` ends first.
pub open spec fn name_less(a: Seq<char>, b: Seq<char>) -> bool
    decreases a.len(),
{
    if b.len() == 0 {
        false
    } else if a.len() == 0 {
        true
    } else if a[0] != b[0] {
        (a[0] as int) < (b[0] as int)
    } else {
        name_less(a.drop_first(), b.drop_first())
    }
}

/// Calls `<` of std's `str`, which orders strings by their bytes and with that, in UTF-8, by their
/// code points.
#[verifier::external_body]
fn comes_before(a: &str, b: &str) -> (before: bool)
    ensures
        before == name_less(a@, b@),
{
    a < b
}

/// No name comes before itself.
pub proof fn lemma_irreflexive(a: Seq<char>)
    ensures
        !name_less(a, a),
    decreases a.len(),
{
    if a.len() > 0 {
        lemma_irreflexive(a.drop_first());
    }
}

/// The order is transitive.
pub proof fn lemma_transitive(a: Seq<char>, b: Seq<char>, c: Seq<char>)
    requires
        name_less(a, b),
        name_less(b, c),
    ensures
        name_less(a, c),
    decreases a.len(),
{
    if a.len() > 0 && a[0] == b[0] && b[0] == c[0] {
        lemma_transitive(a.drop_first(), b.drop_first(), c.drop_first());
    }
}

/// Of two different names one comes first.
pub proof fn lemma_total(a: Seq<char>, b: Seq<char>)
    ensures
        name_less(a, b) || name_less(b, a) || a == b,
    decreases a.len(),
{
    if a.len() > 0 && b.len() > 0 && a[0] == b[0] {
        lemma_total(a.drop_first(), b.drop_first());
        if a.drop_first() == b.drop_first() {
            assert(a =~= seq![a[0]] + a.drop_first());
            assert(b =~= seq![b[0]] + b.drop_first());
        }
    } else if a.len() == 0 && b.len() == 0 {
        assert(a =~= b);
    }
}

/// Names in strictly ascending order.
pub open spec fn in_order(names: Seq<Seq<char>>) -> bool {
    forall|i: int, j: int|
        0 <= i < j < names.len() ==> name_less(#[trigger] names[i], #[trigger] names[j])
}

/// `names` lists a set: every member once, in ascending order.
pub open spec fn lists(names: Seq<Seq<char>>, set: Set<Seq<char>>) -> bool {
    in_order(names) && names.to_set() == set
}

/// A set is listed in one way.
pub proof fn law_listing_is_unique(a: Seq<Seq<char>>, b: Seq<Seq<char>>, set: Set<Seq<char>>)
    requires
        lists(a, set),
        lists(b, set),
    ensures
        a == b,
    decreases a.len(),
{
    if a.len() == 0 {
        if b.len() > 0 {
            assert(b.to_set().contains(b[0]));
            assert(a.to_set().contains(b[0]));
        }
        assert(a =~= b);
    } else {
        assert(a.to_set().contains(a[0]));
        assert(b.to_set().contains(a[0]));
        let i = choose|i: int| 0 <= i < b.len() && b[i] == a[0];
        assert(b.to_set().contains(b[0]));
        assert(a.to_set().contains(b[0]));
        let j = choose|j: int| 0 <= j < a.len() && a[j] == b[0];
        if a[0] != b[0] {
            assert(name_less(b[0], b[i]));
            assert(name_less(a[0], a[j]));
            lemma_transitive(a[0], b[0], a[0]);
            lemma_irreflexive(a[0]);
        }
        let first = a[0];
        let rest_a = a.drop_first();
        let rest_b = b.drop_first();
        let rest = set.remove(first);
        assert(lists(rest_a, rest)) by {
            lemma_rest_listed(a, set);
        }
        assert(lists(rest_b, rest)) by {
            lemma_rest_listed(b, set);
        }
        law_listing_is_unique(rest_a, rest_b, rest);
        assert(a =~= seq![first] + rest_a);
        assert(b =~= seq![first] + rest_b);
    }
}

proof fn lemma_rest_listed(names: Seq<Seq<char>>, set: Set<Seq<char>>)
    requires
        names.len() > 0,
        lists(names, set),
    ensures
        lists(names.drop_first(), set.remove(names[0])),
{
    let rest = names.drop_first();
    assert forall|i: int, j: int| 0 <= i < j < rest.len() implies name_less(
        #[trigger] rest[i],
        #[trigger] rest[j],
    ) by {
        assert(rest[i] == names[i + 1]);
        assert(rest[j] == names[j + 1]);
    }
    assert forall|name: Seq<char>| #[trigger] rest.to_set().contains(name) == set.remove(
        names[0],
    ).contains(name) by {
        if rest.contains(name) {
            let i = choose|i: int| 0 <= i < rest.len() && rest[i] == name;
            assert(names[i + 1] == name);
            assert(names.to_set().contains(name));
            assert(name_less(names[0], names[i + 1]));
            lemma_irreflexive(name);
        }
        if set.remove(names[0]).contains(name) {
            assert(names.to_set().contains(name));
            let i = choose|i: int| 0 <= i < names.len() && names[i] == name;
            assert(rest[i - 1] == name);
        }
    }
    assert(rest.to_set() =~= set.remove(names[0]));
}

/// A map from names, stored as a vector of entries sorted by name.
#[derive(Debug)]
pub struct NameMap<V> {
    pub entries: Vec<(String, V)>,
}

/// The names of entries.
pub open spec fn names_of<V>(entries: Seq<(String, V)>) -> Seq<Seq<char>> {
    Seq::new(entries.len(), |i: int| entries[i].0@)
}

/// Some entry carries `name`.
pub open spec fn has_name<V>(entries: Seq<(String, V)>, name: Seq<char>) -> bool {
    exists|i: int| 0 <= i < entries.len() && (#[trigger] entries[i]).0@ == name
}

/// The position of `name`.
pub open spec fn name_index<V>(entries: Seq<(String, V)>, name: Seq<char>) -> int {
    choose|i: int| 0 <= i < entries.len() && (#[trigger] entries[i]).0@ == name
}

/// The map that a sorted list of entries stands for.
pub open spec fn name_map<V>(entries: Seq<(String, V)>) -> Map<Seq<char>, V> {
    Map::new(
        |name: Seq<char>| has_name(entries, name),
        |name: Seq<char>| entries[name_index(entries, name)].1,
    )
}

impl<V> View for NameMap<V> {
    type V = Map<Seq<char>, V>;

    open spec fn view(&self) -> Map<Seq<char>, V> {
        name_map(self.entries@)
    }
}

/// Every listed entry is in the map.
pub proof fn lemma_named_entry<V>(entries: Seq<(String, V)>, i: int)
    requires
        in_order(names_of(entries)),
        0 <= i < entries.len(),
    ensures
        name_map(entries).contains_key(entries[i].0@),
        name_map(entries)[entries[i].0@] == entries[i].1,
        name_index(entries, entries[i].0@) == i,
{
    let name = entries[i].0@;
    let names = names_of(entries);
    assert(has_name(entries, name));
    let j = name_index(entries, name);
    assert(0 <= j < entries.len() && entries[j].0@ == name);
    lemma_irreflexive(name);
    if i < j {
        assert(name_less(names[i], names[j]));
    }
    if j < i {
        assert(name_less(names[j], names[i]));
    }
}

/// The names of the entries list the keys of the map.
pub proof fn lemma_names_listed<V>(entries: Seq<(String, V)>)
    requires
        in_order(names_of(entries)),
    ensures
        lists(names_of(entries), name_map(entries).dom()),
        name_map(entries).dom().finite(),
        name_map(entries).dom().len() == entries.len(),
{
    let names = names_of(entries);
    assert forall|name: Seq<char>| #[trigger] names.to_set().contains(name) == name_map(
        entries,
    ).dom().contains(name) by {
        if names.contains(name) {
            let i = choose|i: int| 0 <= i < names.len() && names[i] == name;
            assert(entries[i].0@ == name);
        }
        if has_name(entries, name) {
            let i = name_index(entries, name);
            assert(names[i] == name);
        }
    }
    assert(names.to_set() =~= name_map(entries).dom());
    assert(names.no_duplicates()) by {
        assert forall|i: int, j: int| 0 <= i < j < names.len() implies names[i] != names[j] by {
            assert(name_less(names[i], names[j]));
            lemma_irreflexive(names[i]);
        }
    }
    names.unique_seq_to_set();
}

proof fn lemma_named_insert<V>(entries: Seq<(String, V)>, index: int, name: String, value: V)
    requires
        in_order(names_of(entries)),
        0 <= index <= entries.len(),
        forall|i: int| 0 <= i < index ==> name_less((#[trigger] entries[i]).0@, name@),
        forall|i: int| index <= i < entries.len() ==> name_less(name@, (#[trigger] entries[i]).0@),
    ensures
        in_order(names_of(entries.insert(index, (name, value)))),
        name_map(entries.insert(index, (name, value))) == name_map(entries).insert(name@, value),
        !name_map(entries).contains_key(name@),
{
    let after = entries.insert(index, (name, value));
    let names = names_of(entries);
    let longer = names_of(after);
    assert forall|i: int, j: int| 0 <= i < j < longer.len() implies name_less(
        #[trigger] longer[i],
        #[trigger] longer[j],
    ) by {
        let a = if i < index { i } else { i - 1 };
        let b = if j < index { j } else { j - 1 };
        if i != index {
            assert(after[i] == entries[a]);
        }
        if j != index {
            assert(after[j] == entries[b]);
        }
        if i != index && j != index {
            assert(name_less(names[a], names[b]));
        }
    }
    lemma_irreflexive(name@);
    lemma_named_entry(after, index);
    assert(!has_name(entries, name@)) by {
        if has_name(entries, name@) {
            let i = name_index(entries, name@);
            assert(entries[i].0@ == name@);
        }
    }
    assert forall|k: Seq<char>| has_name(after, k) == (has_name(entries, k) || k == name@) by {
        if has_name(after, k) {
            let i = name_index(after, k);
            if i < index {
                assert(entries[i].0@ == k);
            } else if i > index {
                assert(entries[i - 1].0@ == k);
            }
        }
        if has_name(entries, k) {
            let i = name_index(entries, k);
            if i < index {
                assert(after[i].0@ == k);
            } else {
                assert(after[i + 1].0@ == k);
            }
        }
        assert(after[index].0@ == name@);
    }
    assert forall|k: Seq<char>| has_name(after, k) && k != name@ implies name_map(after)[k]
        == name_map(entries)[k] by {
        let i = name_index(after, k);
        if i < index {
            assert(after[i] == entries[i]);
            lemma_named_entry(entries, i);
        } else {
            assert(after[i] == entries[i - 1]);
            lemma_named_entry(entries, i - 1);
        }
        lemma_named_entry(after, i);
    }
    assert(name_map(after) =~= name_map(entries).insert(name@, value));
}

impl<V> NameMap<V> {
    /// The entries are sorted.
    pub open spec fn wf(&self) -> bool {
        in_order(names_of(self.entries@))
    }

    /// The names, in ascending order.
    pub open spec fn names(&self) -> Seq<Seq<char>> {
        names_of(self.entries@)
    }

    pub fn new() -> (map: Self)
        ensures
            map.wf(),
            map@ == Map::<Seq<char>, V>::empty(),
    {
        let map = NameMap { entries: Vec::new() };
        assert(map@ =~= Map::<Seq<char>, V>::empty());
        map
    }

    pub fn len(&self) -> (n: usize)
        requires
            self.wf(),
        ensures
            n == self@.dom().len(),
            n == self.entries@.len(),
    {
        proof {
            lemma_names_listed(self.entries@);
        }
        self.entries.len()
    }

    /// The number of names before `name`.
    fn lower_bound(&self, name: &str) -> (index: usize)
        requires
            self.wf(),
        ensures
            index <= self.entries@.len(),
            forall|i: int| 0 <= i < index ==> name_less((#[trigger] self.entries@[i]).0@, name@),
            forall|i: int|
                index <= i < self.entries@.len() ==> !name_less(
                    (#[trigger] self.entries@[i]).0@,
                    name@,
                ),
    {
        let mut low: usize = 0;
        let mut high: usize = self.entries.len();
        while low < high
            invariant
                self.wf(),
                low <= high <= self.entries@.len(),
                forall|i: int| 0 <= i < low ==> name_less((#[trigger] self.entries@[i]).0@, name@),
                forall|i: int|
                    high <= i < self.entries@.len() ==> !name_less(
                        (#[trigger] self.entries@[i]).0@,
                        name@,
                    ),
            decreases high - low,
        {
            let middle: usize = low + (high - low) / 2;
            let ghost names = names_of(self.entries@);
            if comes_before(self.entries[middle].0.as_str(), name) {
                proof {
                    assert forall|i: int| 0 <= i < middle + 1 implies name_less(
                        (#[trigger] self.entries@[i]).0@,
                        name@,
                    ) by {
                        if i < middle {
                            assert(name_less(names[i], names[middle as int]));
                            lemma_transitive(names[i], names[middle as int], name@);
                        }
                    }
                }
                low = middle + 1;
            } else {
                proof {
                    assert forall|i: int| middle <= i < self.entries@.len() implies !name_less(
                        (#[trigger] self.entries@[i]).0@,
                        name@,
                    ) by {
                        if i > middle && name_less(names[i], name@) {
                            assert(name_less(names[middle as int], names[i]));
                            lemma_transitive(names[middle as int], names[i], name@);
                        }
                    }
                }
                high = middle;
            }
        }
        low
    }

    /// The position of `name`, where it is present.
    pub fn position(&self, name: &str) -> (found: Option<usize>)
        requires
            self.wf(),
        ensures
            match found {
                Some(index) => index < self.entries@.len() && self.entries@[index as int].0@
                    == name@ && self@.contains_key(name@) && self@[name@]
                    == self.entries@[index as int].1,
                None => !self@.contains_key(name@),
            },
    {
        let index: usize = self.lower_bound(name);
        let ghost names = names_of(self.entries@);
        if index < self.entries.len() && !comes_before(name, self.entries[index].0.as_str()) {
            proof {
                lemma_total(self.entries@[index as int].0@, name@);
                lemma_named_entry(self.entries@, index as int);
            }
            Some(index)
        } else {
            proof {
                if has_name(self.entries@, name@) {
                    let i = name_index(self.entries@, name@);
                    assert(self.entries@[i].0@ == name@);
                    lemma_irreflexive(name@);
                    if index < self.entries@.len() {
                        if index < i {
                            assert(name_less(names[index as int], names[i]));
                        }
                    }
                }
            }
            None
        }
    }

    pub fn contains(&self, name: &str) -> (found: bool)
        requires
            self.wf(),
        ensures
            found == self@.contains_key(name@),
    {
        self.position(name).is_some()
    }

    pub fn get(&self, name: &str) -> (found: Option<&V>)
        requires
            self.wf(),
        ensures
            match found {
                Some(value) => self@.contains_key(name@) && *value == self@[name@],
                None => !self@.contains_key(name@),
            },
    {
        match self.position(name) {
            Some(index) => Some(&self.entries[index].1),
            None => None,
        }
    }

    /// Add an entry; whether the name was new. An entry of that name stays as it is.
    pub fn insert(&mut self, name: String, value: V) -> (new: bool)
        requires
            old(self).wf(),
        ensures
            final(self).wf(),
            new == !old(self)@.contains_key(name@),
            new ==> final(self)@ == old(self)@.insert(name@, value),
            !new ==> final(self)@ == old(self)@,
    {
        let ghost before = self.entries@;
        let index: usize = self.lower_bound(name.as_str());
        if index < self.entries.len() && !comes_before(
            name.as_str(),
            self.entries[index].0.as_str(),
        ) {
            proof {
                lemma_total(self.entries@[index as int].0@, name@);
                lemma_named_entry(self.entries@, index as int);
            }
            false
        } else {
            proof {
                let names = names_of(before);
                assert forall|i: int| index <= i < before.len() implies name_less(
                    name@,
                    (#[trigger] before[i]).0@,
                ) by {
                    if i > index {
                        assert(name_less(names[index as int], names[i]));
                        lemma_transitive(name@, names[index as int], names[i]);
                    }
                }
                lemma_named_insert(before, index as int, name, value);
            }
            self.entries.insert(index, (name, value));
            true
        }
    }
}

/// Names, each once.
pub type NameSet = NameMap<()>;

/// `names` with `separator` between them.
pub open spec fn joined(names: Seq<Seq<char>>, separator: Seq<char>) -> Seq<char>
    decreases names.len(),
{
    if names.len() == 0 {
        Seq::empty()
    } else if names.len() == 1 {
        names[0]
    } else {
        joined(names.drop_last(), separator) + separator + names.last()
    }
}

/// The views of strings.
pub open spec fn texts(names: Seq<String>) -> Seq<Seq<char>> {
    Seq::new(names.len(), |i: int| names[i]@)
}

/// Join names.
pub fn join(names: &Vec<String>, separator: &str) -> (line: String)
    ensures
        line@ == joined(texts(names@), separator@),
{
    let mut line = String::new();
    let mut i: usize = 0;
    assert(line@ =~= Seq::<char>::empty());
    assert(texts(names@).take(0) =~= Seq::<Seq<char>>::empty());
    while i < names.len()
        invariant
            i <= names@.len(),
            line@ == joined(texts(names@).take(i as int), separator@),
        decreases names@.len() - i,
    {
        let ghost before = texts(names@).take(i as int);
        let ghost after = texts(names@).take(i + 1);
        assert(after.drop_last() =~= before);
        if i > 0 {
            line.append(separator);
        }
        line.append(names[i].as_str());
        proof {
            assert(after.last() == names@[i as int]@);
            if i == 0 {
                assert(line@ =~= names@[0]@);
            }
        }
        i += 1;
    }
    assert(texts(names@).take(i as int) =~= texts(names@));
    line
}

/// The names of `all` that `other` does not have, in ascending order.
pub fn difference<V, W>(all: &NameMap<V>, other: &NameMap<W>) -> (rest: Vec<String>)
    requires
        all.wf(),
        other.wf(),
    ensures
        lists(texts(rest@), all@.dom().difference(other@.dom())),
{
    let mut rest: Vec<String> = Vec::new();
    let mut i: usize = 0;
    let ghost names = names_of(all.entries@);
    while i < all.entries.len()
        invariant
            all.wf(),
            other.wf(),
            names == names_of(all.entries@),
            i <= all.entries@.len(),
            in_order(texts(rest@)),
            forall|name: Seq<char>| #[trigger]
                texts(rest@).contains(name) <==> names.take(i as int).contains(name)
                    && !other@.contains_key(name),
        decreases all.entries@.len() - i,
    {
        let ghost before = texts(rest@);
        let name = &all.entries[i].0;
        let kept = !other.contains(name.as_str());
        if kept {
            let copy = name.clone();
            rest.push(copy);
        }
        proof {
            let after = texts(rest@);
            let taken = names.take(i + 1);
            let now = names[i as int];
            assert(now == all.entries@[i as int].0@);
            assert forall|k: Seq<char>| #[trigger] after.contains(k) <==> taken.contains(k)
                && !other@.contains_key(k) by {
                if kept {
                    assert(after =~= before.push(now));
                    if after.contains(k) {
                        let j = choose|j: int| 0 <= j < after.len() && after[j] == k;
                        if j < before.len() {
                            assert(before[j] == k);
                            assert(before.contains(k));
                        }
                    }
                    if before.contains(k) {
                        let j = choose|j: int| 0 <= j < before.len() && before[j] == k;
                        assert(after[j] == k);
                    }
                    if k == now {
                        assert(after[before.len() as int] == k);
                    }
                }
                if taken.contains(k) {
                    let j = choose|j: int| 0 <= j < taken.len() && taken[j] == k;
                    if j < i {
                        assert(names.take(i as int)[j] == k);
                    }
                }
                if names.take(i as int).contains(k) {
                    let j = choose|j: int|
                        0 <= j < names.take(i as int).len() && names.take(i as int)[j] == k;
                    assert(taken[j] == k);
                }
                assert(taken[i as int] == now);
            }
            assert forall|a: int, b: int| 0 <= a < b < after.len() implies name_less(
                #[trigger] after[a],
                #[trigger] after[b],
            ) by {
                if b < before.len() {
                    assert(before[a] == after[a] && before[b] == after[b]);
                } else {
                    assert(before[a] == after[a]);
                    assert(before.contains(before[a]));
                    assert(names.take(i as int).contains(before[a]));
                    let m = choose|m: int|
                        0 <= m < names.take(i as int).len() && names.take(i as int)[m] == before[a];
                    assert(name_less(names[m], names[i as int]));
                }
            }
        }
        i += 1;
    }
    proof {
        let list = texts(rest@);
        assert(names.take(i as int) =~= names);
        lemma_names_listed(all.entries@);
        assert forall|name: Seq<char>| #[trigger] list.to_set().contains(name) == all@.dom().difference(
            other@.dom(),
        ).contains(name) by {
            assert(list.contains(name) <==> names.contains(name) && !other@.contains_key(name));
            assert(names.to_set().contains(name) == all@.dom().contains(name));
        }
        assert(list.to_set() =~= all@.dom().difference(other@.dom()));
    }
    rest
}

} // verus!
