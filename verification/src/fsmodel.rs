//! An explicit model of the filesystem tree that transfers operate on: a
//! finite collection of entries, each a component path naming either a
//! regular file with its bytes or a directory. Every engine contract is
//! stated over [`Fs::has`] and [`Fs::node_at`], so what a move, a copy or
//! a merge does to the tree is pinned down pointwise, key by key.

use vstd::prelude::*;
use crate::path::{FsPath, wf_comps, clone_string};

verus! {

/// One filesystem entry: a regular file with its content, or a directory.
pub enum Node {
    File(Vec<u8>),
    Dir,
}

/// The mathematical form of an entry.
pub enum NodeV {
    File(Seq<u8>),
    Dir,
}

impl View for Node {
    type V = NodeV;

    open spec fn view(&self) -> NodeV {
        match self {
            Node::File(bytes) => NodeV::File(bytes@),
            Node::Dir => NodeV::Dir,
        }
    }
}

/// The key a component vector names.
pub open spec fn key_of(cs: Seq<String>) -> Seq<Seq<char>> {
    cs.map_values(|c: String| c@)
}

/// An entry of the tree.
pub struct FsEntry {
    pub comps: Vec<String>,
    pub node: Node,
}

/// The filesystem tree.
pub struct Fs {
    pub entries: Vec<FsEntry>,
}

impl Fs {
    /// The key of the entry at index `i`.
    pub open spec fn key_at(self, i: int) -> Seq<Seq<char>> {
        key_of(self.entries@[i].comps@)
    }

    /// Whether some entry has key `k`.
    pub open spec fn has(self, k: Seq<Seq<char>>) -> bool {
        exists|i: int| 0 <= i < self.entries@.len() && self.key_at(i) == k
    }

    /// The index of the entry with key `k` (meaningful only when unique).
    pub open spec fn idx_of(self, k: Seq<Seq<char>>) -> int {
        choose|i: int| 0 <= i < self.entries@.len() && self.key_at(i) == k
    }

    /// The node stored under key `k` (meaningful only when `has(k)`).
    pub open spec fn node_at(self, k: Seq<Seq<char>>) -> NodeV {
        self.entries@[self.idx_of(k)].node@
    }

    /// Key `k` holds a regular file.
    pub open spec fn file_at(self, k: Seq<Seq<char>>) -> bool {
        self.has(k) && self.node_at(k) is File
    }

    /// Key `k` holds a directory.
    pub open spec fn dir_at(self, k: Seq<Seq<char>>) -> bool {
        self.has(k) && self.node_at(k) is Dir
    }

    /// The bytes of the file under key `k`.
    pub open spec fn bytes_at(self, k: Seq<Seq<char>>) -> Seq<u8> {
        self.node_at(k)->File_0
    }

    /// Well-formed: keys are distinct, non-empty and render faithfully.
    pub open spec fn wf(self) -> bool {
        &&& forall|i: int, j: int|
            0 <= i < self.entries@.len() && 0 <= j < self.entries@.len() && i != j
                ==> #[trigger] self.key_at(i) != #[trigger] self.key_at(j)
        &&& forall|i: int|
            0 <= i < self.entries@.len() ==> wf_comps(#[trigger] self.key_at(i))
                && self.key_at(i).len() > 0
    }

    /// An empty tree.
    pub fn new() -> (fs: Fs)
        ensures
            fs.wf(),
            forall|k: Seq<Seq<char>>| !fs.has(k),
    {
        Fs { entries: Vec::new() }
    }
}

/// Whether two component vectors name the same key.
pub fn comps_eq(a: &Vec<String>, b: &Vec<String>) -> (r: bool)
    ensures
        r == (key_of(a@) == key_of(b@)),
{
    if a.len() != b.len() {
        proof {
            assert(key_of(a@).len() != key_of(b@).len());
        }
        return false;
    }
    let mut i: usize = 0;
    while i < a.len()
        invariant
            i <= a.len(),
            a@.len() == b@.len(),
            forall|j: int| 0 <= j < i ==> key_of(a@)[j] == key_of(b@)[j],
        decreases a.len() - i,
    {
        if !a[i].eq(&b[i]) {
            proof {
                assert(key_of(a@)[i as int] != key_of(b@)[i as int]);
            }
            return false;
        }
        i = i + 1;
    }
    proof {
        assert(key_of(a@) =~= key_of(b@));
    }
    true
}

/// Whether `p` is a strict prefix of `k`.
pub open spec fn strict_prefix_of(p: Seq<Seq<char>>, k: Seq<Seq<char>>) -> bool {
    p.len() < k.len() && k.take(p.len() as int) == p
}

/// Whether the component vector `a` is a strict prefix of entry key `b`.
pub fn comps_strict_prefix(a: &Vec<String>, b: &Vec<String>) -> (r: bool)
    ensures
        r == strict_prefix_of(key_of(a@), key_of(b@)),
{
    if a.len() >= b.len() {
        return false;
    }
    let mut i: usize = 0;
    while i < a.len()
        invariant
            i <= a.len(),
            a@.len() < b@.len(),
            forall|j: int| 0 <= j < i ==> key_of(b@)[j] == key_of(a@)[j],
        decreases a.len() - i,
    {
        if !a[i].eq(&b[i]) {
            proof {
                assert(key_of(b@).take(a@.len() as int)[i as int] != key_of(a@)[i as int]);
            }
            return false;
        }
        i = i + 1;
    }
    proof {
        assert(key_of(b@).take(a@.len() as int) =~= key_of(a@));
    }
    true
}

impl Fs {
    /// The index of the entry with key `p`, if present.
    pub fn find_idx(&self, p: &Vec<String>) -> (r: Option<usize>)
        requires
            self.wf(),
        ensures
            match r {
                Some(i) => i < self.entries@.len() && self.key_at(i as int) == key_of(p@),
                None => !self.has(key_of(p@)),
            },
    {
        let mut i: usize = 0;
        while i < self.entries.len()
            invariant
                i <= self.entries@.len(),
                forall|j: int| 0 <= j < i ==> self.key_at(j) != key_of(p@),
            decreases self.entries@.len() - i,
        {
            if comps_eq(&self.entries[i].comps, p) {
                return Some(i);
            }
            i = i + 1;
        }
        None
    }

    /// Whether the path names an entry.
    pub fn exists_at(&self, p: &FsPath) -> (r: bool)
        requires
            self.wf(),
        ensures
            r == self.has(p@),
    {
        proof {
            assert(key_of(p.comps@) == p@);
        }
        self.find_idx(&p.comps).is_some()
    }

    /// Whether the path names a regular file.
    pub fn is_file_at(&self, p: &FsPath) -> (r: bool)
        requires
            self.wf(),
        ensures
            r == self.file_at(p@),
    {
        proof {
            assert(key_of(p.comps@) == p@);
        }
        match self.find_idx(&p.comps) {
            Some(i) => {
                proof {
                    self.lemma_idx_unique(i as int, p@);
                }
                match &self.entries[i].node {
                    Node::File(_) => true,
                    Node::Dir => false,
                }
            },
            None => false,
        }
    }

    /// Whether the path names a directory.
    pub fn is_dir_at(&self, p: &FsPath) -> (r: bool)
        requires
            self.wf(),
        ensures
            r == self.dir_at(p@),
    {
        proof {
            assert(key_of(p.comps@) == p@);
        }
        match self.find_idx(&p.comps) {
            Some(i) => {
                proof {
                    self.lemma_idx_unique(i as int, p@);
                }
                match &self.entries[i].node {
                    Node::File(_) => false,
                    Node::Dir => true,
                }
            },
            None => false,
        }
    }

    /// The bytes of the file the path names.
    pub fn read_file(&self, p: &FsPath) -> (r: Option<Vec<u8>>)
        requires
            self.wf(),
        ensures
            match r {
                Some(bytes) => self.file_at(p@) && bytes@ == self.bytes_at(p@),
                None => !self.file_at(p@),
            },
    {
        proof {
            assert(key_of(p.comps@) == p@);
        }
        match self.find_idx(&p.comps) {
            Some(i) => {
                proof {
                    self.lemma_idx_unique(i as int, p@);
                }
                match &self.entries[i].node {
                    Node::File(bytes) => Some(copy_bytes(bytes)),
                    Node::Dir => None,
                }
            },
            None => None,
        }
    }

    /// With a unique match, the chosen index is the matching one.
    pub proof fn lemma_idx_unique(self, i: int, k: Seq<Seq<char>>)
        requires
            self.wf(),
            0 <= i < self.entries@.len(),
            self.key_at(i) == k,
        ensures
            self.idx_of(k) == i,
            self.has(k),
    {
        assert(self.has(k));
        let j = self.idx_of(k);
        assert(0 <= j < self.entries@.len() && self.key_at(j) == k);
        if i != j {
            assert(self.key_at(i) != self.key_at(j));
        }
    }

    /// Replace or add the entry under a key.
    fn put(&mut self, comps: Vec<String>, node: Node)
        requires
            old(self).wf(),
            wf_comps(key_of(comps@)),
            key_of(comps@).len() > 0,
        ensures
            final(self).wf(),
            final(self).has(key_of(comps@)),
            final(self).node_at(key_of(comps@)) == node@,
            forall|k: Seq<Seq<char>>|
                k != key_of(comps@) ==> #[trigger] final(self).has(k) == old(self).has(k),
            forall|k: Seq<Seq<char>>|
                k != key_of(comps@) && old(self).has(k) ==> #[trigger] final(self).node_at(k)
                    == old(self).node_at(k),
    {
        let ghost p = key_of(comps@);
        let found = self.find_idx(&comps);
        match found {
            Some(i) => {
                let ghost pre = *self;
                self.entries.remove(i);
                let ghost mid = *self;
                self.entries.push(FsEntry { comps, node });
                proof {
                    let n = pre.entries@.len();
                    assert(mid.entries@ =~= pre.entries@.subrange(0, i as int)
                        + pre.entries@.subrange(i as int + 1, n as int));
                    assert forall|j: int| 0 <= j < n - 1 implies #[trigger] mid.key_at(j) == (
                    if j < i {
                        pre.key_at(j)
                    } else {
                        pre.key_at(j + 1)
                    }) by {}
                    assert(self.entries@ =~= mid.entries@.push(FsEntry { comps, node }));
                    assert forall|j: int| 0 <= j < n - 1 implies #[trigger] self.key_at(j)
                        == mid.key_at(j) by {}
                    assert(self.key_at(n - 1) == p);
                    assert forall|a: int, b: int|
                        0 <= a < self.entries@.len() && 0 <= b < self.entries@.len() && a != b
                            implies #[trigger] self.key_at(a) != #[trigger] self.key_at(b) by {
                        if a < n - 1 && b < n - 1 {
                            let aa = if a < i { a } else { a + 1 };
                            let bb = if b < i { b } else { b + 1 };
                            assert(pre.key_at(aa) != pre.key_at(bb));
                        } else if a == n - 1 {
                            let bb = if b < i { b } else { b + 1 };
                            assert(pre.key_at(bb) == self.key_at(b));
                            if self.key_at(b) == p {
                                assert(pre.key_at(bb) == pre.key_at(i as int));
                                assert(false);
                            }
                        } else {
                            let aa = if a < i { a } else { a + 1 };
                            assert(pre.key_at(aa) == self.key_at(a));
                            if self.key_at(a) == p {
                                assert(pre.key_at(aa) == pre.key_at(i as int));
                                assert(false);
                            }
                        }
                    }
                    assert forall|j: int| 0 <= j < self.entries@.len() implies wf_comps(
                        #[trigger] self.key_at(j),
                    ) && self.key_at(j).len() > 0 by {
                        if j < n - 1 {
                            let jj = if j < i { j } else { j + 1 };
                            assert(pre.key_at(jj) == self.key_at(j));
                        }
                    }
                    assert(self.wf());
                    self.lemma_idx_unique(n - 1, p);
                    assert forall|k: Seq<Seq<char>>| k != p implies #[trigger] self.has(k) == pre.has(
                        k,
                    ) by {
                        if self.has(k) {
                            let j = choose|j: int|
                                0 <= j < self.entries@.len() && self.key_at(j) == k;
                            assert(j < n - 1);
                            let jj = if j < i {
                                j
                            } else {
                                j + 1
                            };
                            assert(pre.key_at(jj) == k);
                        }
                        if pre.has(k) {
                            let j = choose|j: int| 0 <= j < n && pre.key_at(j) == k;
                            assert(j != i);
                            let jj = if j < i {
                                j
                            } else {
                                j - 1
                            };
                            assert(self.key_at(jj) == k);
                        }
                    }
                    assert forall|k: Seq<Seq<char>>| k != p && pre.has(k) implies #[trigger] self.node_at(
                        k,
                    ) == pre.node_at(k) by {
                        let j = choose|j: int| 0 <= j < n && pre.key_at(j) == k;
                        pre.lemma_idx_unique(j, k);
                        assert(j != i);
                        let jj = if j < i {
                            j
                        } else {
                            j - 1
                        };
                        assert(self.key_at(jj) == k);
                        self.lemma_idx_unique(jj, k);
                        assert(self.entries@[jj].node == pre.entries@[j].node);
                    }
                }
            },
            None => {
                let ghost pre = *self;
                self.entries.push(FsEntry { comps, node });
                proof {
                    let n = pre.entries@.len();
                    assert(self.entries@ =~= pre.entries@.push(FsEntry { comps, node }));
                    assert forall|j: int| 0 <= j < n implies #[trigger] self.key_at(j)
                        == pre.key_at(j) by {}
                    assert(self.key_at(n as int) == p);
                    assert forall|a: int, b: int|
                        0 <= a < self.entries@.len() && 0 <= b < self.entries@.len() && a != b
                            implies #[trigger] self.key_at(a) != #[trigger] self.key_at(b) by {
                        if a < n && b < n {
                            assert(pre.key_at(a) != pre.key_at(b));
                        } else if a == n {
                            if self.key_at(b) == p {
                                assert(pre.key_at(b) == p);
                                assert(pre.has(p));
                                assert(false);
                            }
                        } else {
                            if self.key_at(a) == p {
                                assert(pre.key_at(a) == p);
                                assert(pre.has(p));
                                assert(false);
                            }
                        }
                    }
                    assert forall|j: int| 0 <= j < self.entries@.len() implies wf_comps(
                        #[trigger] self.key_at(j),
                    ) && self.key_at(j).len() > 0 by {
                        if j < n {
                            assert(pre.key_at(j) == self.key_at(j));
                        }
                    }
                    assert(self.wf());
                    self.lemma_idx_unique(n as int, p);
                    assert forall|k: Seq<Seq<char>>| k != p implies #[trigger] self.has(k)
                        == pre.has(k) by {
                        if self.has(k) {
                            let j = choose|j: int|
                                0 <= j < self.entries@.len() && self.key_at(j) == k;
                            assert(j < n);
                            assert(pre.key_at(j) == k);
                        }
                        if pre.has(k) {
                            let j = choose|j: int| 0 <= j < n && pre.key_at(j) == k;
                            assert(self.key_at(j) == k);
                        }
                    }
                    assert forall|k: Seq<Seq<char>>| k != p && pre.has(k) implies #[trigger] self.node_at(
                        k,
                    ) == pre.node_at(k) by {
                        let j = choose|j: int| 0 <= j < n && pre.key_at(j) == k;
                        pre.lemma_idx_unique(j, k);
                        assert(self.key_at(j) == k);
                        self.lemma_idx_unique(j, k);
                    }
                }
            },
        }
    }

    /// Create or overwrite the file at `p` with the given bytes.
    pub fn write_file(&mut self, p: &FsPath, bytes: Vec<u8>)
        requires
            old(self).wf(),
            p.wf(),
            p@.len() > 0,
        ensures
            final(self).wf(),
            final(self).file_at(p@),
            final(self).bytes_at(p@) == bytes@,
            forall|k: Seq<Seq<char>>|
                k != p@ ==> #[trigger] final(self).has(k) == old(self).has(k),
            forall|k: Seq<Seq<char>>|
                k != p@ && old(self).has(k) ==> #[trigger] final(self).node_at(k) == old(
                    self,
                ).node_at(k),
    {
        proof {
            assert(key_of(p.comps@) == p@);
        }
        let comps = clone_comps(&p.comps);
        self.put(comps, Node::File(bytes));
    }

    /// Create the directory at `p` if nothing is there yet.
    pub fn mk_dir(&mut self, p: &FsPath)
        requires
            old(self).wf(),
            p.wf(),
            p@.len() > 0,
            !old(self).file_at(p@),
        ensures
            final(self).wf(),
            final(self).dir_at(p@),
            forall|k: Seq<Seq<char>>|
                k != p@ ==> #[trigger] final(self).has(k) == old(self).has(k),
            forall|k: Seq<Seq<char>>|
                k != p@ && old(self).has(k) ==> #[trigger] final(self).node_at(k) == old(
                    self,
                ).node_at(k),
    {
        proof {
            assert(key_of(p.comps@) == p@);
        }
        let comps = clone_comps(&p.comps);
        self.put(comps, Node::Dir);
    }

    /// Remove the entry at `p`, if any.
    pub fn remove_at(&mut self, p: &FsPath)
        requires
            old(self).wf(),
        ensures
            final(self).wf(),
            !final(self).has(p@),
            forall|k: Seq<Seq<char>>|
                k != p@ ==> #[trigger] final(self).has(k) == old(self).has(k),
            forall|k: Seq<Seq<char>>|
                k != p@ && old(self).has(k) ==> #[trigger] final(self).node_at(k) == old(
                    self,
                ).node_at(k),
    {
        proof {
            assert(key_of(p.comps@) == p@);
        }
        let found = self.find_idx(&p.comps);
        match found {
            Some(i) => {
                let ghost pre = *self;
                self.entries.remove(i);
                proof {
                    let n = pre.entries@.len();
                    assert(self.entries@ =~= pre.entries@.subrange(0, i as int)
                        + pre.entries@.subrange(i as int + 1, n as int));
                    assert forall|j: int| 0 <= j < n - 1 implies #[trigger] self.key_at(j) == (
                    if j < i {
                        pre.key_at(j)
                    } else {
                        pre.key_at(j + 1)
                    }) by {}
                    assert forall|a: int, b: int|
                        0 <= a < self.entries@.len() && 0 <= b < self.entries@.len() && a != b
                            implies #[trigger] self.key_at(a) != #[trigger] self.key_at(b) by {
                        let aa = if a < i {
                            a
                        } else {
                            a + 1
                        };
                        let bb = if b < i {
                            b
                        } else {
                            b + 1
                        };
                        assert(pre.key_at(aa) != pre.key_at(bb));
                    }
                    if self.has(p@) {
                        let j = choose|j: int| 0 <= j < self.entries@.len() && self.key_at(j) == p@;
                        let jj = if j < i {
                            j
                        } else {
                            j + 1
                        };
                        assert(pre.key_at(jj) == p@);
                        assert(pre.key_at(i as int) == p@);
                        assert(false);
                    }
                    assert forall|k: Seq<Seq<char>>| k != p@ implies #[trigger] self.has(k)
                        == pre.has(k) by {
                        if self.has(k) {
                            let j = choose|j: int|
                                0 <= j < self.entries@.len() && self.key_at(j) == k;
                            let jj = if j < i {
                                j
                            } else {
                                j + 1
                            };
                            assert(pre.key_at(jj) == k);
                        }
                        if pre.has(k) {
                            let j = choose|j: int| 0 <= j < n && pre.key_at(j) == k;
                            assert(j != i);
                            let jj = if j < i {
                                j
                            } else {
                                j - 1
                            };
                            assert(self.key_at(jj) == k);
                        }
                    }
                    assert forall|k: Seq<Seq<char>>| k != p@ && pre.has(k) implies #[trigger] self.node_at(
                        k,
                    ) == pre.node_at(k) by {
                        let j = choose|j: int| 0 <= j < n && pre.key_at(j) == k;
                        pre.lemma_idx_unique(j, k);
                        assert(j != i);
                        let jj = if j < i {
                            j
                        } else {
                            j - 1
                        };
                        assert(self.key_at(jj) == k);
                        self.lemma_idx_unique(jj, k);
                        assert(self.entries@[jj].node == pre.entries@[j].node);
                    }
                }
            },
            None => {
                proof {
                    assert(!self.has(p@));
                }
            },
        }
    }
}

/// Whether `k` is a non-empty prefix (proper or full) of `p`.
pub open spec fn prefix_of(k: Seq<Seq<char>>, p: Seq<Seq<char>>) -> bool {
    0 < k.len() <= p.len() && p.take(k.len() as int) == k
}

impl Fs {
    /// Create every missing directory along `p`, outermost first, as
    /// creating a destination's parents does. Fails, changing nothing,
    /// when a file stands where a directory is needed.
    pub fn create_dir_all(&mut self, p: &FsPath) -> (ok: bool)
        requires
            old(self).wf(),
            p.wf(),
        ensures
            final(self).wf(),
            ok == (forall|l: int| 1 <= l <= p@.len() ==> !old(self).file_at(#[trigger] p@.take(l))),
            !ok ==> forall|k: Seq<Seq<char>>|
                #[trigger] final(self).has(k) == old(self).has(k) && (old(self).has(k)
                    ==> final(self).node_at(k) == old(self).node_at(k)),
            ok ==> forall|l: int| 1 <= l <= p@.len() ==> final(self).dir_at(#[trigger] p@.take(l)),
            ok ==> forall|k: Seq<Seq<char>>|
                !prefix_of(k, p@) ==> #[trigger] final(self).has(k) == old(self).has(k) && (old(
                    self,
                ).has(k) ==> final(self).node_at(k) == old(self).node_at(k)),
    {
        // First pass: nothing along the way may be a file.
        let mut q = FsPath { comps: Vec::new(), trailing_sep: false };
        let mut l: usize = 0;
        proof {
            assert(q@ =~= p@.take(0));
        }
        while l < p.comps.len()
            invariant
                self == old(self),
                self.wf(),
                p.wf(),
                l <= p.comps@.len(),
                p.comps@.len() == p@.len(),
                q@ == p@.take(l as int),
                q.wf(),
                forall|j: int| 1 <= j <= l ==> !self.file_at(#[trigger] p@.take(j)),
            decreases p.comps@.len() - l,
        {
            q = q.child(&p.comps[l]);
            proof {
                assert(q@ =~= p@.take(l + 1));
                assert(forall|j: int| 0 <= j < q@.len() ==> q@[j] == p@[j]);
            }
            if self.is_file_at(&q) {
                return false;
            }
            l = l + 1;
        }
        // Second pass: create what is missing.
        let ghost fs0 = *self;
        let mut q = FsPath { comps: Vec::new(), trailing_sep: false };
        let mut l: usize = 0;
        proof {
            assert(q@ =~= p@.take(0));
        }
        while l < p.comps.len()
            invariant
                self.wf(),
                p.wf(),
                l <= p.comps@.len(),
                p.comps@.len() == p@.len(),
                q@ == p@.take(l as int),
                q.wf(),
                forall|j: int| 1 <= j <= p@.len() ==> !fs0.file_at(#[trigger] p@.take(j)),
                forall|j: int| 1 <= j <= l ==> self.dir_at(#[trigger] p@.take(j)),
                forall|k: Seq<Seq<char>>|
                    !prefix_of(k, p@) ==> #[trigger] self.has(k) == fs0.has(k) && (fs0.has(k)
                        ==> self.node_at(k) == fs0.node_at(k)),
                forall|j: int|
                    l < j <= p@.len() ==> (#[trigger] self.has(p@.take(j)) == fs0.has(p@.take(j))
                        && (fs0.has(p@.take(j)) ==> self.node_at(p@.take(j)) == fs0.node_at(
                        p@.take(j),
                    ))),
            decreases p.comps@.len() - l,
        {
            q = q.child(&p.comps[l]);
            proof {
                assert(q@ =~= p@.take(l + 1));
                assert(forall|j: int| 0 <= j < q@.len() ==> q@[j] == p@[j]);
                assert(prefix_of(q@, p@));
            }
            let ghost pre = *self;
            if !self.exists_at(&q) {
                self.mk_dir(&q);
            } else {
                proof {
                    assert(self.has(q@));
                    assert(!self.file_at(q@));
                    assert(self.dir_at(q@));
                }
            }
            l = l + 1;
            proof {
                assert forall|k: Seq<Seq<char>>| !prefix_of(k, p@) implies #[trigger] self.has(k)
                    == fs0.has(k) && (fs0.has(k) ==> self.node_at(k) == fs0.node_at(k)) by {
                    assert(prefix_of(q@, p@));
                    assert(k != q@);
                    assert(self.has(k) == pre.has(k));
                    assert(pre.has(k) ==> self.node_at(k) == pre.node_at(k));
                }
                assert forall|j: int| 1 <= j <= l implies self.dir_at(#[trigger] p@.take(j)) by {
                    if j < l {
                        assert(pre.dir_at(p@.take(j)));
                        if p@.take(j) != q@ {
                            assert(self.has(p@.take(j)) == pre.has(p@.take(j)));
                        }
                    }
                }
                assert forall|j: int| l < j <= p@.len() implies (#[trigger] self.has(p@.take(j))
                    == fs0.has(p@.take(j)) && (fs0.has(p@.take(j)) ==> self.node_at(p@.take(j))
                    == fs0.node_at(p@.take(j)))) by {
                    assert(p@.take(j).len() == j);
                    assert(q@.len() == l);
                    assert(p@.take(j) != q@);
                }
            }
        }
        true
    }

    /// Whether anything lies strictly under `p`.
    pub fn has_children(&self, p: &FsPath) -> (r: bool)
        requires
            self.wf(),
        ensures
            r == exists|k: Seq<Seq<char>>| #[trigger] self.has(k) && strict_prefix_of(p@, k),
    {
        proof {
            assert(key_of(p.comps@) == p@);
        }
        let mut i: usize = 0;
        while i < self.entries.len()
            invariant
                i <= self.entries@.len(),
                forall|j: int| 0 <= j < i ==> !strict_prefix_of(p@, #[trigger] self.key_at(j)),
            decreases self.entries@.len() - i,
        {
            if comps_strict_prefix(&p.comps, &self.entries[i].comps) {
                proof {
                    assert(self.has(self.key_at(i as int)));
                }
                return true;
            }
            i = i + 1;
        }
        proof {
            if exists|k: Seq<Seq<char>>| #[trigger] self.has(k) && strict_prefix_of(p@, k) {
                let k = choose|k: Seq<Seq<char>>| #[trigger] self.has(k) && strict_prefix_of(p@, k);
                let j = choose|j: int| 0 <= j < self.entries@.len() && self.key_at(j) == k;
                assert(!strict_prefix_of(p@, self.key_at(j)));
                assert(false);
            }
        }
        false
    }

    /// Remove the directory at `p` when it is empty, as removing an
    /// emptied source directory after a move does.
    pub fn remove_empty_dir(&mut self, p: &FsPath) -> (r: bool)
        requires
            old(self).wf(),
        ensures
            final(self).wf(),
            r == (old(self).dir_at(p@) && !(exists|k: Seq<Seq<char>>|
                #[trigger] old(self).has(k) && strict_prefix_of(p@, k))),
            r ==> !final(self).has(p@) && forall|k: Seq<Seq<char>>|
                k != p@ ==> #[trigger] final(self).has(k) == old(self).has(k) && (old(self).has(k)
                    ==> final(self).node_at(k) == old(self).node_at(k)),
            !r ==> forall|k: Seq<Seq<char>>|
                #[trigger] final(self).has(k) == old(self).has(k) && (old(self).has(k)
                    ==> final(self).node_at(k) == old(self).node_at(k)),
    {
        if !self.is_dir_at(p) {
            return false;
        }
        if self.has_children(p) {
            return false;
        }
        self.remove_at(p);
        true
    }
}

/// Nothing observable differs between the two trees.
pub open spec fn fs_unchanged(a: Fs, b: Fs) -> bool {
    &&& forall|k: Seq<Seq<char>>| #[trigger] b.has(k) == a.has(k)
    &&& forall|k: Seq<Seq<char>>| a.has(k) ==> #[trigger] b.node_at(k) == a.node_at(k)
}

impl Fs {
    /// Keys present in a well-formed tree are well-formed and non-empty.
    pub proof fn lemma_key_wf(self, k: Seq<Seq<char>>)
        requires
            self.wf(),
            self.has(k),
        ensures
            wf_comps(k),
            k.len() > 0,
    {
        let i = choose|i: int| 0 <= i < self.entries@.len() && self.key_at(i) == k;
        assert(wf_comps(self.key_at(i)));
    }
}

/// A copy of a byte vector.
pub fn copy_bytes(bytes: &Vec<u8>) -> (r: Vec<u8>)
    ensures
        r@ == bytes@,
{
    let mut r: Vec<u8> = Vec::new();
    let mut i: usize = 0;
    while i < bytes.len()
        invariant
            i <= bytes@.len(),
            r@ == bytes@.take(i as int),
        decreases bytes@.len() - i,
    {
        r.push(bytes[i]);
        proof {
            assert(bytes@.take(i as int).push(bytes@[i as int]) =~= bytes@.take(i + 1));
        }
        i = i + 1;
    }
    proof {
        assert(bytes@.take(bytes@.len() as int) =~= bytes@);
    }
    r
}

/// A copy of a component vector, key preserved.
pub fn clone_comps(comps: &Vec<String>) -> (r: Vec<String>)
    ensures
        key_of(r@) == key_of(comps@),
{
    let mut r: Vec<String> = Vec::new();
    let mut i: usize = 0;
    while i < comps.len()
        invariant
            i <= comps@.len(),
            key_of(r@) == key_of(comps@).take(i as int),
        decreases comps@.len() - i,
    {
        let ghost pre = key_of(r@);
        r.push(clone_string(&comps[i]));
        proof {
            assert(key_of(r@) =~= pre.push(comps@[i as int]@));
            assert(key_of(comps@).take(i + 1) =~= pre.push(comps@[i as int]@));
        }
        i = i + 1;
    }
    proof {
        assert(key_of(comps@).take(comps@.len() as int) =~= key_of(comps@));
    }
    r
}

} // verus!
