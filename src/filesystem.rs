use vstd::prelude::*;

verus! {

// ---------------------------------------------------------------------------
// Paths
// ---------------------------------------------------------------------------

/// A path as the text of its components, from the root on.
pub open spec fn path_view(p: Vec<String>) -> Seq<Seq<char>> {
    p@.map_values(|s: String| s@)
}

/// Whether `p` ends with the components of `q`.
pub open spec fn ends_with(p: Seq<Seq<char>>, q: Seq<Seq<char>>) -> bool {
    q.len() <= p.len() && p.subrange(p.len() - q.len(), p.len() as int) == q
}

/// Whether two paths hold the same components.
pub fn same_path(a: &Vec<String>, b: &Vec<String>) -> (r: bool)
    ensures
        r == (path_view(*a) == path_view(*b)),
{
    if a.len() != b.len() {
        proof {
            assert(path_view(*a).len() != path_view(*b).len());
        }
        return false;
    }
    let mut i: usize = 0;
    while i < a.len()
        invariant
            i <= a@.len(),
            a@.len() == b@.len(),
            forall|j: int| 0 <= j < i ==> (#[trigger] a@[j])@ == b@[j]@,
        decreases a.len() - i,
    {
        if a[i] != b[i] {
            proof {
                assert(path_view(*a)[i as int] != path_view(*b)[i as int]);
            }
            return false;
        }
        i = i + 1;
    }
    proof {
        assert(path_view(*a) =~= path_view(*b));
    }
    true
}

/// Whether `entry` ends with the components of `suffix`.
pub fn path_ends_with(entry: &Vec<String>, suffix: &Vec<String>) -> (r: bool)
    ensures
        r == ends_with(path_view(*entry), path_view(*suffix)),
{
    if suffix.len() > entry.len() {
        return false;
    }
    let n = entry.len();
    let offset = n - suffix.len();
    let mut i: usize = 0;
    while i < suffix.len()
        invariant
            i <= suffix@.len(),
            offset + suffix@.len() == entry@.len(),
            offset + suffix@.len() == n,
            forall|j: int| 0 <= j < i ==> (#[trigger] suffix@[j])@ == entry@[offset + j]@,
        decreases suffix.len() - i,
    {
        if entry[offset + i] != suffix[i] {
            proof {
                let p = path_view(*entry);
                let q = path_view(*suffix);
                assert(p.subrange(p.len() - q.len(), p.len() as int)[i as int] != q[i as int]);
            }
            return false;
        }
        i = i + 1;
    }
    proof {
        let p = path_view(*entry);
        let q = path_view(*suffix);
        assert(p.subrange(p.len() - q.len(), p.len() as int) =~= q);
    }
    true
}

// ---------------------------------------------------------------------------
// Path interner
// ---------------------------------------------------------------------------

/// Assigns dense integer ids to paths; an id is never reused.
pub struct PathInterner {
    pub vec: Vec<Vec<String>>,
}

impl PathInterner {
    pub open spec fn view(&self) -> Seq<Seq<Seq<char>>> {
        self.vec@.map_values(|p: Vec<String>| path_view(p))
    }

    /// No path has two ids.
    pub open spec fn wf(&self) -> bool {
        forall|i: int, j: int|
            0 <= i < j < self.vec@.len() ==> path_view(#[trigger] self.vec@[i]) != path_view(
                #[trigger] self.vec@[j],
            )
    }

    pub fn new() -> (r: PathInterner)
        ensures
            r.wf(),
            r.vec@.len() == 0,
    {
        PathInterner { vec: Vec::new() }
    }

    fn find(&self, path: &Vec<String>) -> (r: Option<usize>)
        requires
            self.wf(),
        ensures
            match r {
                Some(i) => i < self.vec@.len() && path_view(self.vec@[i as int]) == path_view(*path),
                None => forall|i: int| 0 <= i < self.vec@.len() ==> path_view(#[trigger] self.vec@[i]) != path_view(*path),
            },
    {
        let mut i: usize = 0;
        while i < self.vec.len()
            invariant
                i <= self.vec@.len(),
                forall|j: int| 0 <= j < i ==> path_view(#[trigger] self.vec@[j]) != path_view(*path),
            decreases self.vec.len() - i,
        {
            if same_path(&self.vec[i], path) {
                return Some(i);
            }
            i = i + 1;
        }
        None
    }

    /// The id of `path`, given a new one where it has none.
    pub fn put(&mut self, path: Vec<String>) -> (r: usize)
        requires
            old(self).wf(),
        ensures
            final(self).wf(),
            r < final(self).vec@.len(),
            path_view(final(self).vec@[r as int]) == path_view(path),
            final(self).vec@.len() == old(self).vec@.len() || final(self).vec@ == old(self).vec@.push(path),
            final(self).vec@.len() == old(self).vec@.len() ==> final(self).vec@ == old(self).vec@,
            forall|i: int| 0 <= i < old(self).vec@.len() ==> #[trigger] final(self).vec@[i] == old(self).vec@[i],
            (exists|i: int| 0 <= i < old(self).vec@.len() && path_view(#[trigger] old(self).vec@[i]) == path_view(path))
                ==> final(self).vec@ == old(self).vec@,
            !(exists|i: int| 0 <= i < old(self).vec@.len() && path_view(#[trigger] old(self).vec@[i]) == path_view(path))
                ==> final(self).vec@ == old(self).vec@.push(path),
    {
        match self.find(&path) {
            Some(id) => id,
            None => {
                let next_id = self.vec.len();
                self.vec.push(path);
                next_id
            },
        }
    }

    /// The id of `path`, given a new one where it has none.
    pub fn get_or_put_clone(&mut self, path: &Vec<String>) -> (r: usize)
        requires
            old(self).wf(),
        ensures
            final(self).wf(),
            r < final(self).vec@.len(),
            path_view(final(self).vec@[r as int]) == path_view(*path),
            forall|i: int| 0 <= i < old(self).vec@.len() ==> #[trigger] final(self).vec@[i] == old(self).vec@[i],
            final(self).vec@.len() <= old(self).vec@.len() + 1,
            (exists|i: int| 0 <= i < old(self).vec@.len() && path_view(#[trigger] old(self).vec@[i]) == path_view(*path))
                ==> final(self).vec@ == old(self).vec@,
            !(exists|i: int| 0 <= i < old(self).vec@.len() && path_view(#[trigger] old(self).vec@[i]) == path_view(*path))
                ==> final(self).vec@.len() == old(self).vec@.len() + 1 && r == old(self).vec@.len(),
    {
        let copy = copy_path(path);
        self.put(copy)
    }

    pub fn has_key(&self, path: &Vec<String>) -> (r: bool)
        requires
            self.wf(),
        ensures
            r == exists|i: int| 0 <= i < self.vec@.len() && path_view(#[trigger] self.vec@[i]) == path_view(*path),
    {
        match self.find(path) {
            Some(_) => true,
            None => false,
        }
    }

    /// The id of a path that has one.
    pub fn get(&self, path: &Vec<String>) -> (r: usize)
        requires
            self.wf(),
            exists|i: int| 0 <= i < self.vec@.len() && path_view(#[trigger] self.vec@[i]) == path_view(*path),
        ensures
            r < self.vec@.len(),
            path_view(self.vec@[r as int]) == path_view(*path),
    {
        match self.find(path) {
            Some(id) => id,
            None => 0,
        }
    }

    pub fn get_by_id(&self, id: usize) -> (r: &Vec<String>)
        requires
            id < self.vec@.len(),
        ensures
            *r == self.vec@[id as int],
    {
        &self.vec[id]
    }

    /// The interner once no more ids are given out.
    pub fn freeze(self) -> (r: FrozenPathInterner)
        ensures
            r.vec@ == self.vec@,
    {
        FrozenPathInterner::from(self)
    }
}

/// A copy of a path.
pub fn copy_path(path: &Vec<String>) -> (r: Vec<String>)
    ensures
        path_view(r) == path_view(*path),
{
    let mut r: Vec<String> = Vec::new();
    let mut i: usize = 0;
    while i < path.len()
        invariant
            i <= path@.len(),
            r@.len() == i,
            forall|j: int| 0 <= j < i ==> (#[trigger] r@[j])@ == path@[j]@,
        decreases path.len() - i,
    {
        r.push(path[i].clone());
        i = i + 1;
    }
    proof {
        assert(path_view(r) =~= path_view(*path));
    }
    r
}

/// The paths of an interner that gives out no more ids.
pub struct FrozenPathInterner {
    pub vec: Vec<Vec<String>>,
}

impl FrozenPathInterner {
    fn from(interner: PathInterner) -> (r: FrozenPathInterner)
        ensures
            r.vec@ == interner.vec@,
    {
        FrozenPathInterner { vec: interner.vec }
    }

    pub fn get(&self, id: usize) -> (r: &Vec<String>)
        requires
            id < self.vec@.len(),
        ensures
            *r == self.vec@[id as int],
    {
        &self.vec[id]
    }
}

// ---------------------------------------------------------------------------
// Disk catalog
// ---------------------------------------------------------------------------

/// What the catalog knows of a path on disk: its length and its (device, inode)
/// identity.
#[derive(Clone, Copy, Debug, PartialEq, Eq)]
pub struct PathCacheEntry {
    pub file_length: u64,
    pub device_node: u64,
    pub index_node: u64,
}

impl PathCacheEntry {
    pub fn length(&self) -> (r: u64)
        ensures
            r == self.file_length,
    {
        self.file_length
    }

    pub fn device_node(&self) -> (r: u64)
        ensures
            r == self.device_node,
    {
        self.device_node
    }

    pub fn index_node(&self) -> (r: u64)
        ensures
            r == self.index_node,
    {
        self.index_node
    }

    /// Whether two entries are the same object on disk: hard links share their
    /// (device, inode).
    pub fn same_node(&self, other: &PathCacheEntry) -> (r: bool)
        ensures
            r == (self.device_node == other.device_node && self.index_node == other.index_node),
    {
        self.device_node == other.device_node && self.index_node == other.index_node
    }
}

/// The catalog: the disk entry of each path id that has one. Path ids are the dense
/// ids of the interner, so the entries sit at their ids, and discovery walks them in
/// ascending id order, an order that a hash map's iteration would not give.
pub struct PathCache {
    pub entries: Vec<Option<PathCacheEntry>>,
}

impl PathCache {
    pub fn new() -> (r: PathCache)
        ensures
            r.entries@.len() == 0,
    {
        PathCache { entries: Vec::new() }
    }

    pub open spec fn entry(&self, id: int) -> Option<PathCacheEntry> {
        if 0 <= id < self.entries@.len() {
            self.entries@[id]
        } else {
            None
        }
    }

    pub fn contains(&self, id: usize) -> (r: bool)
        ensures
            r == self.entry(id as int) is Some,
    {
        id < self.entries.len() && self.entries[id].is_some()
    }

    /// Records the disk entry of path `id`, replacing what was known of it.
    pub fn upsert_by_id(&mut self, id: usize, entry: PathCacheEntry)
        requires
            id < usize::MAX,
        ensures
            final(self).entry(id as int) == Some(entry),
            forall|j: int| j != id ==> final(self).entry(j) == old(self).entry(j),
    {
        while self.entries.len() <= id
            invariant
                id < usize::MAX,
                self.entries@.len() >= old(self).entries@.len(),
                forall|j: int| 0 <= j < old(self).entries@.len() ==> #[trigger] self.entries@[j] == old(self).entries@[j],
                forall|j: int| old(self).entries@.len() <= j < self.entries@.len() ==> #[trigger] self.entries@[j] is None,
            decreases id + 1 - self.entries.len(),
        {
            self.entries.push(None);
        }
        self.entries.set(id, Some(entry));
        proof {
            assert forall|j: int| j != id implies #[trigger] self.entry(j) == old(self).entry(j) by {
                if 0 <= j < old(self).entries@.len() {
                } else if old(self).entries@.len() <= j < self.entries@.len() {
                    assert(self.entries@[j] is None);
                }
            }
        }
    }

    /// The catalog once it is complete.
    pub fn freeze(self) -> (r: FrozenPathCache)
        ensures
            r.entries@ == self.entries@,
    {
        FrozenPathCache::from(self)
    }
}

pub struct FrozenPathCache {
    pub entries: Vec<Option<PathCacheEntry>>,
}

impl FrozenPathCache {
    pub open spec fn entry(&self, id: int) -> Option<PathCacheEntry> {
        if 0 <= id < self.entries@.len() {
            self.entries@[id]
        } else {
            None
        }
    }

    pub fn from(cache: PathCache) -> (r: FrozenPathCache)
        ensures
            r.entries@ == cache.entries@,
    {
        FrozenPathCache { entries: cache.entries }
    }

    pub fn get(&self, id: usize) -> (r: &PathCacheEntry)
        requires
            self.entry(id as int) is Some,
        ensures
            Some(*r) == self.entry(id as int),
    {
        self.entries[id].as_ref().unwrap()
    }
}

} // verus!
