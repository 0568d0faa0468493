use vstd::prelude::*;
use crate::keyed::ViewEq;

verus! {

/// The view of a cache key: its kind, namespace and name.
pub type KeyView = (Seq<char>, Seq<char>, Seq<char>);

#[derive(PartialEq, Eq, Hash, Clone, Debug, Default)]
pub struct CacheKey {
    pub kind: String,
    pub namespace: String,
    pub name: String,
}

impl View for CacheKey {
    type V = KeyView;

    open spec fn view(&self) -> KeyView {
        (self.kind@, self.namespace@, self.name@)
    }
}

impl ViewEq for CacheKey {
    fn view_eq(&self, other: &Self) -> (b: bool) {
        self.kind == other.kind && self.namespace == other.namespace && self.name == other.name
    }

    fn duplicate(&self) -> (r: Self) {
        CacheKey { kind: self.kind.clone(), namespace: self.namespace.clone(), name: self.name.clone() }
    }
}


/// The views of a sequence of cache keys.
pub open spec fn keys_view(s: Seq<CacheKey>) -> Seq<KeyView> {
    s.map_values(|c: CacheKey| c@)
}

/// The views of a sequence of strings.
pub open spec fn strings_view(s: Seq<String>) -> Seq<Seq<char>> {
    s.map_values(|x: String| x@)
}

/// A copy of a vector of strings.
pub fn duplicate_strings(v: &Vec<String>) -> (r: Vec<String>)
    ensures
        r@ == v@,
{
    let mut r: Vec<String> = Vec::new();
    for i in 0..v.len()
        invariant
            r@ == v@.take(i as int),
    {
        r.push(v[i].clone());
        assert(r@ =~= v@.take(i + 1));
    }
    assert(v@.take(v.len() as int) =~= v@);
    r
}

/// Whether some key in `v` has the view of `k`.
pub fn contains_cache_key(v: &Vec<CacheKey>, k: &CacheKey) -> (b: bool)
    ensures
        b == keys_view(v@).contains(k@),
{
    let mut i: usize = 0;
    while i < v.len()
        invariant
            i <= v@.len(),
            forall|j: int| 0 <= j < i ==> (#[trigger] v@[j])@ != k@,
        decreases v@.len() - i,
    {
        if v[i].view_eq(k) {
            assert(keys_view(v@)[i as int] == k@);
            return true;
        }
        i = i + 1;
    }
    assert(!keys_view(v@).contains(k@)) by {
        if keys_view(v@).contains(k@) {
            let j = choose|j: int| 0 <= j < keys_view(v@).len() && keys_view(v@)[j] == k@;
            assert(v@[j]@ == k@);
        }
    }
    false
}

/// Whether some string in `v` has the view of `s`.
pub fn contains_string(v: &Vec<String>, s: &String) -> (b: bool)
    ensures
        b == strings_view(v@).contains(s@),
{
    let mut i: usize = 0;
    while i < v.len()
        invariant
            i <= v@.len(),
            forall|j: int| 0 <= j < i ==> (#[trigger] v@[j])@ != s@,
        decreases v@.len() - i,
    {
        if v[i] == *s {
            assert(strings_view(v@)[i as int] == s@);
            return true;
        }
        i = i + 1;
    }
    assert(!strings_view(v@).contains(s@)) by {
        if strings_view(v@).contains(s@) {
            let j = choose|j: int| 0 <= j < strings_view(v@).len() && strings_view(v@)[j] == s@;
            assert(v@[j]@ == s@);
        }
    }
    false
}

} // verus!
