use vstd::prelude::*;

verus! {

/// Whether `base` is a leading run of the components of `p`.
pub open spec fn is_prefix_of(base: Seq<Seq<char>>, p: Seq<Seq<char>>) -> bool {
    base.len() <= p.len() && p.subrange(0, base.len() as int) == base
}

/// The components of `p` that follow `base`, when `base` leads `p`.
pub open spec fn relative_to(p: Seq<Seq<char>>, base: Seq<Seq<char>>) -> Option<Seq<Seq<char>>> {
    if is_prefix_of(base, p) {
        Some(p.subrange(base.len() as int, p.len() as int))
    } else {
        None
    }
}

/// The character sequences of a sequence of strings.
pub open spec fn views_of(v: Seq<String>) -> Seq<Seq<char>> {
    v.map_values(|s: String| s@)
}

proof fn lemma_views_push(v: Seq<String>, s: String)
    ensures
        views_of(v.push(s)) == views_of(v).push(s@),
{
    assert(views_of(v.push(s)) =~= views_of(v).push(s@));
}

/// An absolute filesystem path, held as its sequence of components below the root.
/// The root itself has no component.
pub struct FsPath {
    pub parts: Vec<String>,
}

impl View for FsPath {
    type V = Seq<Seq<char>>;

    open spec fn view(&self) -> Seq<Seq<char>> {
        views_of(self.parts@)
    }
}

impl FsPath {
    /// The root of the filesystem.
    pub fn root() -> (r: FsPath)
        ensures
            r@ == Seq::<Seq<char>>::empty(),
    {
        let r = FsPath { parts: Vec::new() };
        assert(r@ =~= Seq::<Seq<char>>::empty());
        r
    }

    /// A path from its components.
    pub fn from_parts(parts: Vec<String>) -> (r: FsPath)
        ensures
            r.parts@ == parts@,
            r@ == views_of(parts@),
    {
        FsPath { parts }
    }

    /// A copy of this path.
    pub fn duplicate(&self) -> (r: FsPath)
        ensures
            r@ == self@,
    {
        let mut parts: Vec<String> = Vec::new();
        let mut i: usize = 0;
        while i < self.parts.len()
            invariant
                i <= self.parts.len(),
                views_of(parts@) == self@.subrange(0, i as int),
            decreases self.parts.len() - i,
        {
            let s = self.parts[i].clone();
            assert(s@ == self@[i as int]);
            proof {
                lemma_views_push(parts@, s);
            }
            parts.push(s);
            i = i + 1;
            assert(views_of(parts@) =~= self@.subrange(0, i as int));
        }
        assert(self@.subrange(0, i as int) =~= self@);
        FsPath { parts }
    }

    /// This path with one more component.
    pub fn join_name(&self, name: &str) -> (r: FsPath)
        ensures
            r@ == self@.push(name@),
    {
        let mut r = self.duplicate();
        let s = name.to_string();
        proof {
            lemma_views_push(r.parts@, s);
        }
        r.parts.push(s);
        assert(r@ =~= self@.push(name@));
        r
    }

    /// This path followed by the components of `rel`.
    pub fn join(&self, rel: &FsPath) -> (r: FsPath)
        ensures
            r@ == self@ + rel@,
    {
        let mut r = self.duplicate();
        let mut i: usize = 0;
        while i < rel.parts.len()
            invariant
                i <= rel.parts.len(),
                r@ == self@ + rel@.subrange(0, i as int),
            decreases rel.parts.len() - i,
        {
            let s = rel.parts[i].clone();
            assert(s@ == rel@[i as int]);
            proof {
                lemma_views_push(r.parts@, s);
            }
            r.parts.push(s);
            i = i + 1;
            assert(r@ =~= self@ + rel@.subrange(0, i as int));
        }
        assert(rel@.subrange(0, i as int) =~= rel@);
        r
    }

    /// Whether the two paths have the same components.
    pub fn same_as(&self, other: &FsPath) -> (r: bool)
        ensures
            r == (self@ == other@),
    {
        if self.parts.len() != other.parts.len() {
            return false;
        }
        let mut i: usize = 0;
        while i < self.parts.len()
            invariant
                i <= self.parts.len(),
                self.parts.len() == other.parts.len(),
                self@.subrange(0, i as int) == other@.subrange(0, i as int),
            decreases self.parts.len() - i,
        {
            if self.parts[i] != other.parts[i] {
                assert(self@[i as int] != other@[i as int]);
                return false;
            }
            i = i + 1;
            assert(self@.subrange(0, i as int) =~= other@.subrange(0, i as int));
        }
        assert(self@ =~= self@.subrange(0, i as int));
        assert(other@ =~= other@.subrange(0, i as int));
        true
    }

    /// The components of this path below `base`, or `None` when `base` does not lead it.
    pub fn strip_prefix(&self, base: &FsPath) -> (r: Option<FsPath>)
        ensures
            match r {
                Some(rel) => relative_to(self@, base@) == Some(rel@),
                None => relative_to(self@, base@) is None,
            },
    {
        if base.parts.len() > self.parts.len() {
            return None;
        }
        let mut i: usize = 0;
        while i < base.parts.len()
            invariant
                i <= base.parts.len() <= self.parts.len(),
                self@.subrange(0, i as int) == base@.subrange(0, i as int),
            decreases base.parts.len() - i,
        {
            if self.parts[i] != base.parts[i] {
                assert(self@.subrange(0, base@.len() as int)[i as int] != base@[i as int]);
                return None;
            }
            i = i + 1;
            assert(self@.subrange(0, i as int) =~= base@.subrange(0, i as int));
        }
        assert(base@ =~= base@.subrange(0, i as int));
        let mut rest: Vec<String> = Vec::new();
        let mut j: usize = i;
        while j < self.parts.len()
            invariant
                i == base.parts.len(),
                i <= j <= self.parts.len(),
                views_of(rest@) == self@.subrange(i as int, j as int),
            decreases self.parts.len() - j,
        {
            let s = self.parts[j].clone();
            assert(s@ == self@[j as int]);
            proof {
                lemma_views_push(rest@, s);
            }
            rest.push(s);
            j = j + 1;
            assert(views_of(rest@) =~= self@.subrange(i as int, j as int));
        }
        Some(FsPath { parts: rest })
    }

    /// The last component, or the empty string for the root.
    pub fn file_name(&self) -> (r: String)
        ensures
            self@.len() == 0 ==> r@ == Seq::<char>::empty(),
            self@.len() > 0 ==> r@ == self@.last(),
    {
        let n = self.parts.len();
        if n == 0 {
            String::new()
        } else {
            self.parts[n - 1].clone()
        }
    }
}

} // verus!
