use vstd::prelude::*;

verus! {

/// Variable bindings from names to values. The first store of a name
/// creates its binding; later stores overwrite it.
pub struct Environment<V> {
    names: Vec<Vec<char>>,
    values: Vec<V>,
}

/// The bindings of the first `n` entries; a later entry of a name wins.
pub open spec fn bindings<V>(names: Seq<Seq<char>>, values: Seq<V>, n: int) -> Map<Seq<char>, V>
    decreases n,
{
    if n <= 0 {
        Map::empty()
    } else {
        bindings(names, values, n - 1).insert(names[n - 1], values[n - 1])
    }
}

proof fn lemma_bindings_absent<V>(names: Seq<Seq<char>>, values: Seq<V>, n: int, k: Seq<char>)
    requires
        forall|j: int| 0 <= j < n ==> names[j] != k,
    ensures
        !bindings(names, values, n).contains_key(k),
    decreases n,
{
    if n > 0 {
        lemma_bindings_absent(names, values, n - 1, k);
    }
}

proof fn lemma_bindings_at<V>(names: Seq<Seq<char>>, values: Seq<V>, n: int, i: int)
    requires
        0 <= i < n,
        forall|j: int| 0 <= j < n && j != i ==> names[j] != names[i],
    ensures
        bindings(names, values, n).contains_key(names[i]),
        bindings(names, values, n)[names[i]] == values[i],
    decreases n,
{
    if n - 1 > i {
        lemma_bindings_at(names, values, n - 1, i);
    }
}

proof fn lemma_bindings_update<V>(names: Seq<Seq<char>>, values: Seq<V>, n: int, i: int, v: V)
    requires
        0 <= i < n <= values.len(),
        forall|j: int| 0 <= j < n && j != i ==> names[j] != names[i],
    ensures
        bindings(names, values.update(i, v), n) == bindings(names, values, n).insert(names[i], v),
    decreases n,
{
    if n - 1 > i {
        lemma_bindings_update(names, values, n - 1, i, v);
        assert(bindings(names, values.update(i, v), n) =~= bindings(names, values, n).insert(
            names[i],
            v,
        ));
    } else {
        assert(bindings(names, values.update(i, v), n - 1) == bindings(names, values, n - 1)) by {
            lemma_bindings_prefix(names, values, values.update(i, v), n - 1);
        }
        assert(bindings(names, values.update(i, v), n) =~= bindings(names, values, n).insert(
            names[i],
            v,
        ));
    }
}

proof fn lemma_bindings_prefix<V>(names: Seq<Seq<char>>, a: Seq<V>, b: Seq<V>, n: int)
    requires
        forall|j: int| 0 <= j < n ==> a[j] == b[j],
    ensures
        bindings(names, a, n) == bindings(names, b, n),
    decreases n,
{
    if n > 0 {
        lemma_bindings_prefix(names, a, b, n - 1);
    }
}

impl<V: Copy> Environment<V> {
    pub closed spec fn names_view(&self) -> Seq<Seq<char>> {
        self.names@.map_values(|n: Vec<char>| n@)
    }

    /// The bindings, as a map from names to values.
    pub closed spec fn view(&self) -> Map<Seq<char>, V> {
        bindings(self.names_view(), self.values@, self.values@.len() as int)
    }

    /// One entry per name, and a value for each.
    pub closed spec fn wf(&self) -> bool {
        &&& self.names@.len() == self.values@.len()
        &&& forall|i: int, j: int|
            0 <= i < self.names@.len() && 0 <= j < self.names@.len() && i != j
                ==> self.names@[i]@ != self.names@[j]@
    }

    pub fn new() -> (r: Self)
        ensures
            r.wf(),
            r@ == Map::<Seq<char>, V>::empty(),
    {
        Environment { names: Vec::new(), values: Vec::new() }
    }

    /// The position of `name`'s entry, if it has one.
    fn find(&self, name: &Vec<char>) -> (r: Option<usize>)
        requires
            self.wf(),
        ensures
            match r {
                Some(i) => i < self.names@.len() && self.names@[i as int]@ == name@,
                None => forall|j: int| 0 <= j < self.names@.len() ==> self.names@[j]@ != name@,
            },
    {
        let mut i: usize = 0;
        while i < self.names.len()
            invariant
                i <= self.names@.len(),
                forall|j: int| 0 <= j < i ==> self.names@[j]@ != name@,
            decreases self.names@.len() - i,
        {
            if same_chars(&self.names[i], name) {
                return Some(i);
            }
            i = i + 1;
        }
        None
    }

    /// The value bound to `name`.
    pub fn get(&self, name: &Vec<char>) -> (r: Option<V>)
        requires
            self.wf(),
        ensures
            r == (if self@.contains_key(name@) {
                Some(self@[name@])
            } else {
                None::<V>
            }),
    {
        let ghost nv = self.names_view();
        match self.find(name) {
            Some(i) => {
                proof {
                    lemma_bindings_at(nv, self.values@, self.values@.len() as int, i as int);
                }
                Some(self.values[i])
            },
            None => {
                proof {
                    lemma_bindings_absent(nv, self.values@, self.values@.len() as int, name@);
                }
                None
            },
        }
    }

    /// Binds `name` to `value`, creating the binding or overwriting it.
    pub fn set(&mut self, name: Vec<char>, value: V)
        requires
            old(self).wf(),
        ensures
            final(self).wf(),
            final(self)@ == old(self)@.insert(name@, value),
    {
        let ghost nv = self.names_view();
        match self.find(&name) {
            Some(i) => {
                proof {
                    lemma_bindings_update(nv, self.values@, self.values@.len() as int, i as int, value);
                }
                self.values.set(i, value);
            },
            None => {
                let ghost key = name@;
                self.names.push(name);
                self.values.push(value);
                proof {
                    assert(self.names_view() =~= nv.push(key));
                    lemma_bindings_prefix(
                        self.names_view(),
                        self.values@,
                        old(self).values@,
                        self.values@.len() - 1,
                    );
                    lemma_bindings_names(nv, self.names_view(), old(self).values@, self.values@.len() - 1);
                }
            },
        }
    }
}

proof fn lemma_bindings_names<V>(a: Seq<Seq<char>>, b: Seq<Seq<char>>, values: Seq<V>, n: int)
    requires
        forall|j: int| 0 <= j < n ==> a[j] == b[j],
    ensures
        bindings(a, values, n) == bindings(b, values, n),
    decreases n,
{
    if n > 0 {
        lemma_bindings_names(a, b, values, n - 1);
    }
}

/// Whether two character sequences are equal.
pub fn same_chars(a: &Vec<char>, b: &Vec<char>) -> (r: bool)
    ensures
        r == (a@ == b@),
{
    if a.len() != b.len() {
        return false;
    }
    let mut i: usize = 0;
    while i < a.len()
        invariant
            a@.len() == b@.len(),
            i <= a@.len(),
            forall|j: int| 0 <= j < i ==> a@[j] == b@[j],
        decreases a@.len() - i,
    {
        if a[i] != b[i] {
            return false;
        }
        i = i + 1;
    }
    assert(a@ =~= b@);
    true
}

} // verus!
