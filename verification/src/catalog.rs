use vstd::prelude::*;
use vstd::hash_map::StringHashMap;

verus! {

/// Position of the first name equal to `label`, if there is one.
pub open spec fn first_index(names: Seq<Seq<char>>, label: Seq<char>) -> Option<int>
    decreases names.len(),
{
    if names.len() == 0 {
        None
    } else {
        match first_index(names.drop_last(), label) {
            Some(i) => Some(i),
            None => if names.last() == label {
                Some(names.len() - 1)
            } else {
                None
            },
        }
    }
}

/// `first_index` finds the least position that holds the label, and finds
/// none only where no position holds it.
pub proof fn lemma_first_index(names: Seq<Seq<char>>, label: Seq<char>)
    ensures
        match first_index(names, label) {
            Some(i) => 0 <= i < names.len() && names[i] == label && forall|j: int|
                0 <= j < i ==> names[j] != label,
            None => forall|j: int| 0 <= j < names.len() ==> names[j] != label,
        },
    decreases names.len(),
{
    if names.len() > 0 {
        let init = names.drop_last();
        lemma_first_index(init, label);
        assert(forall|j: int| 0 <= j < init.len() ==> init[j] == names[j]);
    }
}

/// The map sends each label to the first position at which the names hold
/// it, and holds no other label.
pub open spec fn indexes(m: Map<Seq<char>, usize>, names: Seq<Seq<char>>) -> bool {
    forall|l: Seq<char>|
        (#[trigger] m.contains_key(l) <==> first_index(names, l) is Some) && (m.contains_key(l)
            ==> first_index(names, l) == Some(m[l] as int))
}

/// The ordered set of category names that both environments draw from.
pub struct CategoryCatalog {
    names: Vec<String>,
    index: StringHashMap<usize>,
}

impl CategoryCatalog {
    #[verifier::type_invariant]
    spec fn index_matches_names(&self) -> bool {
        indexes(self.index@, self.names.deep_view())
    }

    /// The names, in catalog order.
    pub closed spec fn names(&self) -> Seq<Seq<char>> {
        self.names.deep_view()
    }

    /// A catalog of the given names. A name that occurs twice is known by
    /// its first position.
    pub fn new(names: Vec<String>) -> (catalog: Self)
        ensures
            catalog.names() == names.deep_view(),
    {
        let mut index = StringHashMap::<usize>::new();
        let mut i: usize = 0;
        while i < names.len()
            invariant
                i <= names.len(),
                indexes(index@, names.deep_view().take(i as int)),
            decreases names.len() - i,
        {
            let ghost before = names.deep_view().take(i as int);
            let ghost after = names.deep_view().take(i + 1);
            let name = &names[i];
            assert(after.drop_last() =~= before);
            assert(after.last() == name@);
            if !index.contains_key(name.as_str()) {
                index.insert(name.clone(), i);
            }
            i += 1;
        }
        assert(names.deep_view().take(i as int) =~= names.deep_view());
        CategoryCatalog { names, index }
    }

    /// Number of names.
    pub fn len(&self) -> (n: usize)
        ensures
            n == self.names().len(),
    {
        self.names.len()
    }

    /// The position under which observations of `label` are counted.
    pub fn lookup(&self, label: &str) -> (found: Option<usize>)
        ensures
            match found {
                Some(k) => first_index(self.names(), label@) == Some(k as int),
                None => first_index(self.names(), label@) is None,
            },
    {
        proof {
            use_type_invariant(self);
        }
        match self.index.get(label) {
            Some(k) => Some(*k),
            None => None,
        }
    }

    /// The names as they were given.
    pub fn categories(&self) -> (names: &Vec<String>)
        ensures
            names.deep_view() == self.names(),
    {
        &self.names
    }
}

} // verus!
