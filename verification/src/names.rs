//! Sets of names, and rules kept by name.

use crate::order::{sorting_keeps_membership, sorting_orders, stable_sort};
use crate::rule::ProcessRule;
use crate::text::{
    comes_before, same_text, text_less, text_order_is_total, text_order_is_transitive,
};
use vstd::prelude::*;

verus! {

/// The names in a list of strings.
pub open spec fn names_in(v: Seq<String>) -> Seq<Seq<char>> {
    v.map_values(|s: String| s@)
}

/// The order of strings as texts.
pub open spec fn string_order() -> spec_fn(String, String) -> bool {
    |a: String, b: String| text_less(a@, b@)
}

/// The order of strings ranks them.
pub proof fn string_order_ranks()
    ensures
        crate::order::ranks(string_order()),
{
    let less = string_order();
    assert forall|a: String, b: String| #[trigger] less(a, b) implies !less(b, a) by {
        text_order_is_total(a@, b@);
    }
    assert forall|a: String, b: String, c: String|
        #![trigger less(a, b), less(b, c)]
        !less(a, b) && !less(b, c) implies !less(a, c) by {
        text_order_is_total(a@, b@);
        text_order_is_total(b@, c@);
        if less(a, c) {
            if a@ == b@ {
            } else if b@ == c@ {
            } else {
                text_order_is_transitive(b@, a@, c@);
            }
        }
    }
}

/// A list of names in order, each once.
pub open spec fn increasing(v: Seq<Seq<char>>) -> bool {
    forall|i: int, j: int| 0 <= i < j < v.len() ==> text_less(#[trigger] v[i], #[trigger] v[j])
}

/// Two lists in order that hold the same names are the same list.
pub proof fn increasing_lists_agree(a: Seq<Seq<char>>, b: Seq<Seq<char>>)
    requires
        increasing(a),
        increasing(b),
        a.to_set() == b.to_set(),
    ensures
        a == b,
    decreases a.len(),
{
    if a.len() == 0 {
        if b.len() > 0 {
            assert(b.contains(b[0]));
            assert(a.to_set().contains(b[0]));
        }
        assert(a =~= b);
    } else {
        assert(a.to_set().contains(a.last()));
        assert(b.contains(a.last()));
        assert(b.to_set().contains(b.last()));
        assert(a.contains(b.last()));
        let i = choose|i: int| 0 <= i < b.len() && b[i] == a.last();
        let j = choose|j: int| 0 <= j < a.len() && a[j] == b.last();
        text_order_is_total(a.last(), b.last());
        if a.last() != b.last() {
            assert(text_less(b[i], b[b.len() - 1]));
            assert(text_less(a[j], a[a.len() - 1]));
            assert(false);
        }
        let (x, y) = (a.drop_last(), b.drop_last());
        assert forall|n: Seq<char>| x.to_set().contains(n) == y.to_set().contains(n) by {
            lemma_drop_last_set(a, n);
            lemma_drop_last_set(b, n);
        }
        assert(x.to_set() =~= y.to_set());
        increasing_lists_agree(x, y);
        assert(a =~= x.push(a.last()));
        assert(b =~= y.push(b.last()));
    }
}

proof fn lemma_drop_last_set(a: Seq<Seq<char>>, n: Seq<char>)
    requires
        increasing(a),
        a.len() > 0,
    ensures
        a.drop_last().to_set().contains(n) == (a.to_set().contains(n) && n != a.last()),
{
    let x = a.drop_last();
    if x.contains(n) {
        let i = choose|i: int| 0 <= i < x.len() && x[i] == n;
        assert(a[i] == n);
        assert(text_less(a[i], a[a.len() - 1]));
        text_order_is_total(n, n);
    }
    if a.contains(n) && n != a.last() {
        let i = choose|i: int| 0 <= i < a.len() && a[i] == n;
        assert(x[i] == n);
    }
}

/// `v` in order; `v` holds nothing twice.
fn sort_names(v: Vec<String>) -> (r: Vec<String>)
    requires
        names_in(v@).no_duplicates(),
    ensures
        increasing(names_in(r@)),
        names_in(r@).to_set() == names_in(v@).to_set(),
{
    let before = |a: &String, b: &String| -> (c: bool)
        ensures
            c == text_less(a@, b@),
        { comes_before(a.as_str(), b.as_str()) };
    let ghost less = string_order();
    let ghost input = v@;
    let r = stable_sort(v, before, Ghost(less));
    proof {
        string_order_ranks();
        sorting_orders(input, less);
        let (p, q) = (names_in(input), names_in(r@));
        crate::order::sorting_keeps_items(input, less);
        assert forall|n: Seq<char>| p.contains(n) == q.contains(n) by {
            if p.contains(n) {
                let i = choose|i: int| 0 <= i < p.len() && p[i] == n;
                sorting_keeps_membership(input, less, input[i]);
                assert(input.contains(input[i]));
                let j = choose|j: int| 0 <= j < r@.len() && r@[j] == input[i];
                assert(q[j] == n);
            }
            if q.contains(n) {
                let i = choose|i: int| 0 <= i < q.len() && q[i] == n;
                sorting_keeps_membership(input, less, r@[i]);
                assert(r@.contains(r@[i]));
                let j = choose|j: int| 0 <= j < input.len() && input[j] == r@[i];
                assert(p[j] == n);
            }
        }
        assert(p.to_set() =~= q.to_set());
        p.unique_seq_to_set();
        q.lemma_cardinality_of_set();
        q.lemma_no_dup_set_cardinality();
        assert forall|i: int, j: int| 0 <= i < j < q.len() implies text_less(
            #[trigger] q[i],
            #[trigger] q[j],
        ) by {
            text_order_is_total(q[i], q[j]);
            assert(!less(r@[j], r@[i]));
            assert(q[i] != q[j]);
        }
    }
    r
}

/// A set of names.
#[derive(Debug)]
pub struct NameSet {
    names: Vec<String>,
}

impl View for NameSet {
    type V = Set<Seq<char>>;

    closed spec fn view(&self) -> Set<Seq<char>> {
        names_in(self.names@).to_set()
    }
}

impl NameSet {
    #[verifier::type_invariant]
    spec fn distinct(self) -> bool {
        names_in(self.names@).no_duplicates()
    }

    pub fn new() -> (r: Self)
        ensures
            r@ == Set::<Seq<char>>::empty(),
    {
        let r = NameSet { names: Vec::new() };
        assert(r@ =~= Set::<Seq<char>>::empty());
        r
    }

    pub fn contains(&self, name: &str) -> (r: bool)
        ensures
            r == self@.contains(name@),
    {
        let ghost all = names_in(self.names@);
        let mut i: usize = 0;
        while i < self.names.len()
            invariant
                i <= self.names@.len(),
                all == names_in(self.names@),
                forall|j: int| 0 <= j < i ==> #[trigger] all[j] != name@,
            decreases self.names@.len() - i,
        {
            if same_text(self.names[i].as_str(), name) {
                assert(all[i as int] == name@);
                assert(all.contains(name@));
                return true;
            }
            assert(all[i as int] != name@);
            i += 1;
        }
        false
    }

    pub fn is_empty(&self) -> (r: bool)
        ensures
            r == (self@ == Set::<Seq<char>>::empty()),
    {
        if self.names.len() == 0 {
            assert(self@ =~= Set::<Seq<char>>::empty());
            true
        } else {
            assert(names_in(self.names@).contains(names_in(self.names@)[0]));
            assert(self@.contains(names_in(self.names@)[0]));
            false
        }
    }

    /// Adds a name.
    pub fn insert(&mut self, name: String)
        ensures
            final(self)@ == old(self)@.insert(name@),
    {
        proof {
            use_type_invariant(&*self);
        }
        if self.contains(name.as_str()) {
            assert(self@ =~= old(self)@.insert(name@));
            return;
        }
        let ghost before = names_in(self.names@);
        let mut names: Vec<String> = Vec::new();
        std::mem::swap(&mut names, &mut self.names);
        names.push(name);
        proof {
            let after = names_in(names@);
            assert(after =~= before.push(name@));
            assert(after.no_duplicates()) by {
                assert forall|i: int, j: int| 0 <= i < after.len() && 0 <= j < after.len() && i
                    != j implies after[i] != after[j] by {
                    if i == before.len() {
                        assert(before.contains(after[j]));
                    } else if j == before.len() {
                        assert(before.contains(after[i]));
                    }
                }
            }
            assert(after.to_set() =~= before.to_set().insert(name@)) by {
                assert forall|n: Seq<char>| after.contains(n) == (before.contains(n) || n
                    == name@) by {
                    if before.contains(n) {
                        let i = choose|i: int| 0 <= i < before.len() && before[i] == n;
                        assert(after[i] == n);
                    }
                    if n == name@ {
                        assert(after[before.len() as int] == n);
                    }
                }
            }
        }
        self.names = names;
    }

    /// Takes a name out.
    pub fn remove(&mut self, name: &str)
        ensures
            final(self)@ == old(self)@.remove(name@),
    {
        proof {
            use_type_invariant(&*self);
        }
        let ghost all = names_in(self.names@);
        let mut names: Vec<String> = Vec::new();
        std::mem::swap(&mut names, &mut self.names);
        let mut i: usize = 0;
        while i < names.len()
            invariant
                i <= names@.len(),
                names_in(names@) == all,
                old(self)@ == all.to_set(),
                all.no_duplicates(),
                forall|j: int| 0 <= j < i ==> #[trigger] all[j] != name@,
            decreases names@.len() - i,
        {
            assert(all[i as int] == names@[i as int]@);
            if same_text(names[i].as_str(), name) {
                let _ = names.remove(i);
                proof {
                    let after = names_in(names@);
                    assert(after =~= all.remove(i as int));
                    lemma_removed(all, i as int);
                }
                self.names = names;
                return;
            }
            i += 1;
        }
        assert(!all.contains(name@));
        assert(all.to_set() =~= all.to_set().remove(name@));
        self.names = names;
    }

    /// The names in order.
    pub fn sorted_names(&self) -> (r: Vec<String>)
        ensures
            increasing(names_in(r@)),
            names_in(r@).to_set() == self@,
    {
        proof {
            use_type_invariant(self);
        }
        let copy = clone_strings(&self.names);
        sort_names(copy)
    }
}

impl Clone for NameSet {
    fn clone(&self) -> (r: Self)
        ensures
            r@ == self@,
    {
        proof {
            use_type_invariant(self);
        }
        let names = clone_strings(&self.names);
        NameSet { names }
    }
}

proof fn lemma_removed(all: Seq<Seq<char>>, i: int)
    requires
        all.no_duplicates(),
        0 <= i < all.len(),
    ensures
        all.remove(i).no_duplicates(),
        all.remove(i).to_set() == all.to_set().remove(all[i]),
{
    let after = all.remove(i);
    assert forall|n: Seq<char>| after.contains(n) == (all.contains(n) && n != all[i]) by {
        if after.contains(n) {
            let j = choose|j: int| 0 <= j < after.len() && after[j] == n;
            let k = if j < i {
                j
            } else {
                j + 1
            };
            assert(all[k] == n);
        }
        if all.contains(n) && n != all[i] {
            let k = choose|k: int| 0 <= k < all.len() && all[k] == n;
            let j = if k < i {
                k
            } else {
                k - 1
            };
            assert(after[j] == n);
        }
    }
    assert(after.to_set() =~= all.to_set().remove(all[i]));
}

/// A copy of a list of strings.
pub fn clone_strings(v: &Vec<String>) -> (r: Vec<String>)
    ensures
        r@ == v@,
{
    let mut out: Vec<String> = Vec::new();
    let mut i: usize = 0;
    while i < v.len()
        invariant
            i <= v@.len(),
            out@ == v@.take(i as int),
        decreases v@.len() - i,
    {
        out.push(v[i].clone());
        assert(out@ =~= v@.take(i + 1));
        i += 1;
    }
    assert(out@ =~= v@);
    out
}

/// The names of a list of named rules.
pub open spec fn keys_in(v: Seq<(String, ProcessRule)>) -> Seq<Seq<char>> {
    v.map_values(|e: (String, ProcessRule)| e.0@)
}

/// The rules that a list of named rules gives, each name having one.
pub open spec fn rules_in(v: Seq<(String, ProcessRule)>) -> Map<Seq<char>, ProcessRule> {
    Map::new(
        |n: Seq<char>| keys_in(v).contains(n),
        |n: Seq<char>| v[choose|i: int| 0 <= i < v.len() && keys_in(v)[i] == n].1,
    )
}

/// Rules by name.
#[derive(Debug)]
pub struct NameRules {
    entries: Vec<(String, ProcessRule)>,
}

impl View for NameRules {
    type V = Map<Seq<char>, ProcessRule>;

    closed spec fn view(&self) -> Map<Seq<char>, ProcessRule> {
        rules_in(self.entries@)
    }
}

proof fn lemma_rule_at(v: Seq<(String, ProcessRule)>, i: int)
    requires
        keys_in(v).no_duplicates(),
        0 <= i < v.len(),
    ensures
        rules_in(v).contains_key(v[i].0@),
        rules_in(v)[v[i].0@] == v[i].1,
{
    let n = v[i].0@;
    assert(keys_in(v)[i] == n);
    assert(keys_in(v).contains(n));
    let j = choose|j: int| 0 <= j < v.len() && keys_in(v)[j] == n;
    assert(j == i);
}

impl NameRules {
    #[verifier::type_invariant]
    spec fn distinct(self) -> bool {
        keys_in(self.entries@).no_duplicates()
    }

    pub fn new() -> (r: Self)
        ensures
            r@ == Map::<Seq<char>, ProcessRule>::empty(),
    {
        let r = NameRules { entries: Vec::new() };
        assert(r@ =~= Map::<Seq<char>, ProcessRule>::empty());
        r
    }

    /// The rule for a name.
    pub fn get(&self, name: &str) -> (r: Option<ProcessRule>)
        ensures
            r == (if self@.contains_key(name@) {
                Some(self@[name@])
            } else {
                None
            }),
    {
        proof {
            use_type_invariant(self);
        }
        let ghost all = keys_in(self.entries@);
        let mut i: usize = 0;
        while i < self.entries.len()
            invariant
                i <= self.entries@.len(),
                all == keys_in(self.entries@),
                all.no_duplicates(),
                forall|j: int| 0 <= j < i ==> #[trigger] all[j] != name@,
            decreases self.entries@.len() - i,
        {
            assert(all[i as int] == self.entries@[i as int].0@);
            if same_text(self.entries[i].0.as_str(), name) {
                proof {
                    lemma_rule_at(self.entries@, i as int);
                }
                return Some(self.entries[i].1);
            }
            i += 1;
        }
        assert(!all.contains(name@));
        None
    }

    /// Takes the rule for a name out.
    pub fn remove(&mut self, name: &str)
        ensures
            final(self)@ == old(self)@.remove(name@),
    {
        proof {
            use_type_invariant(&*self);
        }
        let ghost all = keys_in(self.entries@);
        let ghost listed = self.entries@;
        let mut entries: Vec<(String, ProcessRule)> = Vec::new();
        std::mem::swap(&mut entries, &mut self.entries);
        let mut i: usize = 0;
        while i < entries.len()
            invariant
                i <= entries@.len(),
                entries@ == listed,
                keys_in(listed) == all,
                old(self)@ == rules_in(listed),
                all.no_duplicates(),
                forall|j: int| 0 <= j < i ==> #[trigger] all[j] != name@,
            decreases entries@.len() - i,
        {
            assert(all[i as int] == listed[i as int].0@);
            if same_text(entries[i].0.as_str(), name) {
                let _ = entries.remove(i);
                proof {
                    let after = keys_in(entries@);
                    assert(after =~= all.remove(i as int));
                    lemma_removed(all, i as int);
                    assert forall|n: Seq<char>| rules_in(entries@).contains_key(n) implies rules_in(
                        entries@,
                    )[n] == rules_in(listed)[n] by {
                        let j = choose|j: int| 0 <= j < entries@.len() && after[j] == n;
                        let k = if j < i {
                            j
                        } else {
                            j + 1
                        };
                        assert(entries@[j] == listed[k]);
                        lemma_rule_at(entries@, j);
                        lemma_rule_at(listed, k);
                    }
                    assert forall|n: Seq<char>| rules_in(entries@).contains_key(n) == (rules_in(
                        listed,
                    ).contains_key(n) && n != name@) by {
                        assert(after.contains(n) == after.to_set().contains(n));
                        assert(all.contains(n) == all.to_set().contains(n));
                    }
                    assert(rules_in(entries@) =~= rules_in(listed).remove(name@));
                }
                self.entries = entries;
                return;
            }
            i += 1;
        }
        assert(!all.contains(name@));
        assert(rules_in(listed) =~= rules_in(listed).remove(name@));
        self.entries = entries;
    }

    /// Sets the rule for a name.
    pub fn insert(&mut self, name: String, rule: ProcessRule)
        ensures
            final(self)@ == old(self)@.insert(name@, rule),
    {
        self.remove(name.as_str());
        proof {
            use_type_invariant(&*self);
        }
        let ghost listed = self.entries@;
        let ghost all = keys_in(listed);
        let mut entries: Vec<(String, ProcessRule)> = Vec::new();
        std::mem::swap(&mut entries, &mut self.entries);
        entries.push((name, rule));
        proof {
            let after = keys_in(entries@);
            assert(after =~= all.push(name@));
            assert(!all.contains(name@)) by {
                assert(!rules_in(listed).contains_key(name@));
            }
            assert(after.no_duplicates()) by {
                assert forall|i: int, j: int| 0 <= i < after.len() && 0 <= j < after.len() && i
                    != j implies after[i] != after[j] by {
                    if i == all.len() {
                        assert(all.contains(after[j]));
                    } else if j == all.len() {
                        assert(all.contains(after[i]));
                    }
                }
            }
            assert forall|n: Seq<char>| #[trigger] rules_in(entries@).contains_key(n) implies
                rules_in(entries@)[n] == rules_in(listed).insert(name@, rule)[n] by {
                let j = choose|j: int| 0 <= j < entries@.len() && after[j] == n;
                lemma_rule_at(entries@, j);
                if j < listed.len() {
                    assert(entries@[j] == listed[j]);
                    lemma_rule_at(listed, j);
                    assert(all.contains(n));
                }
            }
            assert forall|n: Seq<char>| rules_in(entries@).contains_key(n) == (rules_in(
                listed,
            ).contains_key(n) || n == name@) by {
                if all.contains(n) {
                    let i = choose|i: int| 0 <= i < all.len() && all[i] == n;
                    assert(after[i] == n);
                }
                if n == name@ {
                    assert(after[all.len() as int] == n);
                }
            }
            assert(rules_in(entries@) =~= rules_in(listed).insert(name@, rule));
            assert(old(self)@.remove(name@).insert(name@, rule) =~= old(self)@.insert(name@, rule));
        }
        self.entries = entries;
    }

    /// The names in order.
    pub fn sorted_names(&self) -> (r: Vec<String>)
        ensures
            increasing(names_in(r@)),
            names_in(r@).to_set() == self@.dom(),
    {
        proof {
            use_type_invariant(self);
        }
        let mut names: Vec<String> = Vec::new();
        let mut i: usize = 0;
        while i < self.entries.len()
            invariant
                i <= self.entries@.len(),
                names_in(names@) == keys_in(self.entries@).take(i as int),
            decreases self.entries@.len() - i,
        {
            let ghost before = names@;
            names.push(self.entries[i].0.clone());
            assert(names_in(names@) =~= names_in(before).push(self.entries@[i as int].0@));
            assert(names_in(names@) =~= keys_in(self.entries@).take(i + 1));
            i += 1;
        }
        assert(names_in(names@) =~= keys_in(self.entries@));
        assert(keys_in(self.entries@).to_set() =~= self@.dom());
        sort_names(names)
    }
}

impl Clone for NameRules {
    fn clone(&self) -> (r: Self)
        ensures
            r@ == self@,
    {
        proof {
            use_type_invariant(self);
        }
        let mut entries: Vec<(String, ProcessRule)> = Vec::new();
        let mut i: usize = 0;
        while i < self.entries.len()
            invariant
                i <= self.entries@.len(),
                entries@ == self.entries@.take(i as int),
            decreases self.entries@.len() - i,
        {
            entries.push((self.entries[i].0.clone(), self.entries[i].1));
            assert(entries@ =~= self.entries@.take(i + 1));
            i += 1;
        }
        assert(entries@ =~= self.entries@);
        NameRules { entries }
    }
}

} // verus!
