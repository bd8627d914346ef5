//! Repository paths: sequences of byte-string components with a total,
//! componentwise lexicographic order.

use vstd::prelude::*;
use vstd::slice::slice_to_vec;
use vstd::string::StringSliceAdditionalSpecFns;

verus! {

/// Lexicographic "less than" on byte strings, looking only at positions `i` and later.
pub open spec fn name_lt_from(a: Seq<u8>, b: Seq<u8>, i: int) -> bool
    decreases a.len() - i,
{
    if i < 0 || i >= b.len() {
        false
    } else if i >= a.len() {
        true
    } else if a[i] != b[i] {
        a[i] < b[i]
    } else {
        name_lt_from(a, b, i + 1)
    }
}

/// The order on path components: bytewise lexicographic, a proper prefix first.
pub open spec fn name_lt(a: Seq<u8>, b: Seq<u8>) -> bool {
    name_lt_from(a, b, 0)
}

/// Lexicographic "less than" on paths, looking only at positions `i` and later.
pub open spec fn path_lt_from(a: Seq<Seq<u8>>, b: Seq<Seq<u8>>, i: int) -> bool
    decreases a.len() - i,
{
    if i < 0 || i >= b.len() {
        false
    } else if i >= a.len() {
        true
    } else if a[i] != b[i] {
        name_lt(a[i], b[i])
    } else {
        path_lt_from(a, b, i + 1)
    }
}

/// The order on paths: componentwise lexicographic, a proper prefix first.
pub open spec fn path_lt(a: Seq<Seq<u8>>, b: Seq<Seq<u8>>) -> bool {
    path_lt_from(a, b, 0)
}

proof fn lemma_name_lt_from_irreflexive(a: Seq<u8>, i: int)
    ensures
        !name_lt_from(a, a, i),
    decreases a.len() - i,
{
    if 0 <= i < a.len() {
        lemma_name_lt_from_irreflexive(a, i + 1);
    }
}

proof fn lemma_name_lt_from_transitive(a: Seq<u8>, b: Seq<u8>, c: Seq<u8>, i: int)
    requires
        name_lt_from(a, b, i),
        name_lt_from(b, c, i),
    ensures
        name_lt_from(a, c, i),
    decreases a.len() - i,
{
    if i < a.len() && a[i] == b[i] && b[i] == c[i] {
        lemma_name_lt_from_transitive(a, b, c, i + 1);
    }
}

proof fn lemma_name_lt_from_total(a: Seq<u8>, b: Seq<u8>, i: int)
    requires
        0 <= i <= a.len(),
        i <= b.len(),
        !name_lt_from(a, b, i),
        !name_lt_from(b, a, i),
    ensures
        a.len() == b.len(),
        forall|j: int| i <= j < a.len() ==> a[j] == b[j],
    decreases a.len() - i,
{
    if i < a.len() && i < b.len() {
        lemma_name_lt_from_total(a, b, i + 1);
    }
}

/// No name is less than itself.
pub proof fn lemma_name_lt_irreflexive(a: Seq<u8>)
    ensures
        !name_lt(a, a),
{
    lemma_name_lt_from_irreflexive(a, 0);
}

/// The order on names is transitive.
pub proof fn lemma_name_lt_transitive(a: Seq<u8>, b: Seq<u8>, c: Seq<u8>)
    requires
        name_lt(a, b),
        name_lt(b, c),
    ensures
        name_lt(a, c),
{
    lemma_name_lt_from_transitive(a, b, c, 0);
}

/// Of two names, one is less than the other or they are the same name.
pub proof fn lemma_name_lt_total(a: Seq<u8>, b: Seq<u8>)
    ensures
        name_lt(a, b) || name_lt(b, a) || a == b,
{
    if !name_lt(a, b) && !name_lt(b, a) {
        lemma_name_lt_from_total(a, b, 0);
        assert(a =~= b);
    }
}

/// Two names are never each less than the other.
pub proof fn lemma_name_lt_asymmetric(a: Seq<u8>, b: Seq<u8>)
    ensures
        !(name_lt(a, b) && name_lt(b, a)),
{
    if name_lt(a, b) && name_lt(b, a) {
        lemma_name_lt_transitive(a, b, a);
        lemma_name_lt_irreflexive(a);
    }
}

proof fn lemma_path_lt_from_irreflexive(a: Seq<Seq<u8>>, i: int)
    ensures
        !path_lt_from(a, a, i),
    decreases a.len() - i,
{
    if 0 <= i < a.len() {
        lemma_path_lt_from_irreflexive(a, i + 1);
    }
}

proof fn lemma_path_lt_from_transitive(a: Seq<Seq<u8>>, b: Seq<Seq<u8>>, c: Seq<Seq<u8>>, i: int)
    requires
        path_lt_from(a, b, i),
        path_lt_from(b, c, i),
    ensures
        path_lt_from(a, c, i),
    decreases a.len() - i,
{
    if i < a.len() {
        if a[i] == b[i] && b[i] == c[i] {
            lemma_path_lt_from_transitive(a, b, c, i + 1);
        } else if a[i] != b[i] && b[i] != c[i] {
            lemma_name_lt_transitive(a[i], b[i], c[i]);
            lemma_name_lt_irreflexive(a[i]);
        }
    }
}

proof fn lemma_path_lt_from_total(a: Seq<Seq<u8>>, b: Seq<Seq<u8>>, i: int)
    requires
        0 <= i <= a.len(),
        i <= b.len(),
        !path_lt_from(a, b, i),
        !path_lt_from(b, a, i),
    ensures
        a.len() == b.len(),
        forall|j: int| i <= j < a.len() ==> a[j] == b[j],
    decreases a.len() - i,
{
    if i < a.len() && i < b.len() {
        lemma_name_lt_total(a[i], b[i]);
        lemma_path_lt_from_total(a, b, i + 1);
    }
}

/// No path is less than itself.
pub proof fn lemma_path_lt_irreflexive(a: Seq<Seq<u8>>)
    ensures
        !path_lt(a, a),
{
    lemma_path_lt_from_irreflexive(a, 0);
}

/// The order on paths is transitive.
pub proof fn lemma_path_lt_transitive(a: Seq<Seq<u8>>, b: Seq<Seq<u8>>, c: Seq<Seq<u8>>)
    requires
        path_lt(a, b),
        path_lt(b, c),
    ensures
        path_lt(a, c),
{
    lemma_path_lt_from_transitive(a, b, c, 0);
}

/// Of two paths, one is less than the other or they are the same path.
pub proof fn lemma_path_lt_total(a: Seq<Seq<u8>>, b: Seq<Seq<u8>>)
    ensures
        path_lt(a, b) || path_lt(b, a) || a == b,
{
    if !path_lt(a, b) && !path_lt(b, a) {
        lemma_path_lt_from_total(a, b, 0);
        assert(a =~= b);
    }
}

proof fn lemma_path_lt_from_split(a: Seq<Seq<u8>>, b: Seq<Seq<u8>>, i: int, k: int)
    requires
        0 <= i <= k,
        k < a.len(),
        k < b.len(),
        forall|j: int| 0 <= j < k ==> a[j] == b[j],
        name_lt(a[k], b[k]),
    ensures
        path_lt_from(a, b, i),
    decreases k - i,
{
    if i < k {
        lemma_path_lt_from_split(a, b, i + 1, k);
    } else {
        lemma_name_lt_irreflexive(a[k]);
    }
}

/// Two paths that agree on their first `k` components and then differ are
/// ordered as the components at position `k` are.
pub proof fn lemma_path_lt_at_first_difference(a: Seq<Seq<u8>>, b: Seq<Seq<u8>>, k: int)
    requires
        0 <= k < a.len(),
        k < b.len(),
        forall|j: int| 0 <= j < k ==> a[j] == b[j],
        name_lt(a[k], b[k]),
    ensures
        path_lt(a, b),
{
    lemma_path_lt_from_split(a, b, 0, k);
}

/// True when `prefix` is an initial segment of `path`, shorter than `path`.
pub open spec fn is_strictly_under(path: Seq<Seq<u8>>, prefix: Seq<Seq<u8>>) -> bool {
    &&& prefix.len() < path.len()
    &&& forall|j: int| 0 <= j < prefix.len() ==> path[j] == prefix[j]
}

/// Compares two byte strings for equality.
pub fn bytes_eq(a: &Vec<u8>, b: &Vec<u8>) -> (r: bool)
    ensures
        r == (a@ == b@),
{
    if a.len() != b.len() {
        return false;
    }
    let mut i: usize = 0;
    while i < a.len()
        invariant
            i <= a.len(),
            a.len() == b.len(),
            forall|j: int| 0 <= j < i ==> a@[j] == b@[j],
        decreases a.len() - i,
    {
        if a[i] != b[i] {
            return false;
        }
        i = i + 1;
    }
    assert(a@ =~= b@);
    true
}

/// Decides the lexicographic order of two byte strings.
pub fn bytes_lt(a: &Vec<u8>, b: &Vec<u8>) -> (r: bool)
    ensures
        r == name_lt(a@, b@),
{
    let mut i: usize = 0;
    while i < a.len() && i < b.len()
        invariant
            i <= a.len(),
            i <= b.len(),
            name_lt(a@, b@) == name_lt_from(a@, b@, i as int),
        decreases a.len() - i,
    {
        if a[i] != b[i] {
            return a[i] < b[i];
        }
        i = i + 1;
    }
    i < b.len()
}

/// A single, non-empty segment of a repository path.
#[derive(Debug, PartialEq, Eq)]
pub struct RepoPathComponent {
    value: Vec<u8>,
}

impl View for RepoPathComponent {
    type V = Seq<u8>;

    closed spec fn view(&self) -> Seq<u8> {
        self.value@
    }
}

impl Clone for RepoPathComponent {
    fn clone(&self) -> (r: Self)
        ensures
            r@ == self@,
    {
        proof {
            use_type_invariant(self);
        }
        RepoPathComponent { value: self.value.clone() }
    }
}

impl RepoPathComponent {
    #[verifier::type_invariant]
    spec fn is_non_empty(self) -> bool {
        self.value@.len() > 0
    }

    /// Makes a component of the given bytes; there is none of no bytes.
    pub fn new(value: Vec<u8>) -> (r: Option<Self>)
        ensures
            r is Some <==> value@.len() > 0,
            r is Some ==> r->0@ == value@,
    {
        if value.len() == 0 {
            None
        } else {
            Some(RepoPathComponent { value })
        }
    }

    /// Makes a component of the UTF-8 bytes of `s`; there is none of the empty string.
    pub fn from_str(s: &str) -> (r: Option<Self>)
        ensures
            r is Some <==> s.spec_bytes().len() > 0,
            r is Some ==> r->0@ == s.spec_bytes(),
    {
        Self::new(slice_to_vec(s.as_bytes()))
    }

    /// The bytes of the component, of which there is at least one.
    pub fn as_bytes(&self) -> (r: &Vec<u8>)
        ensures
            r@ == self@,
            r@.len() > 0,
    {
        proof {
            use_type_invariant(self);
        }
        &self.value
    }

    /// Whether the two components are the same name.
    pub fn equals(&self, other: &RepoPathComponent) -> (r: bool)
        ensures
            r == (self@ == other@),
    {
        bytes_eq(&self.value, &other.value)
    }

    /// Whether this component sorts before `other`.
    pub fn lt(&self, other: &RepoPathComponent) -> (r: bool)
        ensures
            r == name_lt(self@, other@),
    {
        bytes_lt(&self.value, &other.value)
    }
}

/// A path from the repository root, as the list of its components.
#[derive(Debug, PartialEq, Eq)]
pub struct RepoPath {
    components: Vec<RepoPathComponent>,
}

impl View for RepoPath {
    type V = Seq<Seq<u8>>;

    closed spec fn view(&self) -> Seq<Seq<u8>> {
        self.components@.map_values(|c: RepoPathComponent| c@)
    }
}

impl Clone for RepoPath {
    fn clone(&self) -> (r: Self)
        ensures
            r@ == self@,
    {
        let mut components: Vec<RepoPathComponent> = Vec::new();
        let mut i: usize = 0;
        while i < self.components.len()
            invariant
                i <= self.components.len(),
                components@.len() == i,
                forall|j: int| 0 <= j < i ==> components@[j]@ == self.components@[j]@,
            decreases self.components.len() - i,
        {
            components.push(self.components[i].clone());
            i = i + 1;
        }
        let r = RepoPath { components };
        assert(r@ =~= self@);
        r
    }
}

impl RepoPath {
    /// The path of the repository root, which has no components.
    pub fn root() -> (r: Self)
        ensures
            r@ == Seq::<Seq<u8>>::empty(),
    {
        let r = RepoPath { components: Vec::new() };
        assert(r@ =~= Seq::<Seq<u8>>::empty());
        r
    }

    /// The path made of the given components, outermost first.
    pub fn from_components(components: Vec<RepoPathComponent>) -> (r: Self)
        ensures
            r@ == components@.map_values(|c: RepoPathComponent| c@),
    {
        RepoPath { components }
    }

    /// Whether this is the path of the repository root.
    pub fn is_root(&self) -> (r: bool)
        ensures
            r == (self@.len() == 0),
    {
        self.components.len() == 0
    }

    /// The number of components.
    pub fn len(&self) -> (r: usize)
        ensures
            r == self@.len(),
    {
        self.components.len()
    }

    /// The component at position `i`, counted from the root.
    pub fn component(&self, i: usize) -> (r: &RepoPathComponent)
        requires
            i < self@.len(),
        ensures
            r@ == self@[i as int],
    {
        &self.components[i]
    }

    /// The path of the entry called `name` in the directory at this path.
    pub fn join(&self, name: &RepoPathComponent) -> (r: RepoPath)
        ensures
            r@ == self@.push(name@),
    {
        let mut joined = self.clone();
        joined.components.push(name.clone());
        assert(joined@ =~= self@.push(name@));
        joined
    }

    /// Splits the path into its parent directory and its last component.
    /// The root has neither.
    pub fn split(&self) -> (r: Option<(RepoPath, RepoPathComponent)>)
        ensures
            match r {
                None => self@.len() == 0,
                Some((dir, basename)) => {
                    &&& self@.len() > 0
                    &&& dir@ == self@.drop_last()
                    &&& basename@ == self@.last()
                },
            },
    {
        if self.components.len() == 0 {
            return None;
        }
        let last: usize = self.components.len() - 1;
        let mut parent: Vec<RepoPathComponent> = Vec::new();
        let mut i: usize = 0;
        while i < last
            invariant
                i <= last,
                last + 1 == self.components.len(),
                parent@.len() == i,
                forall|j: int| 0 <= j < i ==> parent@[j]@ == self.components@[j]@,
            decreases last - i,
        {
            parent.push(self.components[i].clone());
            i = i + 1;
        }
        let dir = RepoPath { components: parent };
        assert(dir@ =~= self@.drop_last());
        Some((dir, self.components[last].clone()))
    }

    /// Whether the two paths have the same components.
    pub fn equals(&self, other: &RepoPath) -> (r: bool)
        ensures
            r == (self@ == other@),
    {
        if self.components.len() != other.components.len() {
            assert(self@.len() != other@.len());
            return false;
        }
        let mut i: usize = 0;
        while i < self.components.len()
            invariant
                i <= self.components.len(),
                self.components.len() == other.components.len(),
                forall|j: int| 0 <= j < i ==> self@[j] == other@[j],
            decreases self.components.len() - i,
        {
            if !self.components[i].equals(&other.components[i]) {
                assert(self@[i as int] != other@[i as int]);
                return false;
            }
            i = i + 1;
        }
        assert(self@ =~= other@);
        true
    }

    /// Whether this path sorts before `other`.
    pub fn lt(&self, other: &RepoPath) -> (r: bool)
        ensures
            r == path_lt(self@, other@),
    {
        let mut i: usize = 0;
        while i < self.components.len() && i < other.components.len()
            invariant
                i <= self.components.len(),
                i <= other.components.len(),
                path_lt(self@, other@) == path_lt_from(self@, other@, i as int),
            decreases self.components.len() - i,
        {
            if !self.components[i].equals(&other.components[i]) {
                return self.components[i].lt(&other.components[i]);
            }
            i = i + 1;
        }
        i < other.components.len()
    }
}

} // verus!
