//! A directory tree of text files, as the engine sees one.
//!
//! The SSOT tree and each application's configuration area are mirrors of
//! this model: a set of relative paths, each carrying its text.  The
//! surrounding program reads a real directory into a `FileStore` before an
//! operation and writes the store back afterwards; every engine operation
//! is specified and proved against this model.

use vstd::prelude::*;

use crate::strutil::eq_str;

verus! {

/// One file: a relative path and its text.
#[derive(Clone, Debug)]
pub struct FileEntry {
    pub path: String,
    pub content: String,
}

/// A directory tree of text files, keyed by relative path.
#[derive(Clone, Debug)]
pub struct FileStore {
    pub entries: Vec<FileEntry>,
}

impl FileStore {
    /// Paths are unique.
    pub open spec fn wf(&self) -> bool {
        forall|i: int, j: int|
            0 <= i < j < self.entries.len() ==> self.entries[i].path@ != self.entries[j].path@
    }

    /// Whether a file stands at `path`.
    pub open spec fn spec_has(&self, path: Seq<char>) -> bool {
        exists|i: int| 0 <= i < self.entries.len() && self.entries[i].path@ == path
    }

    /// The text of the file at `path`.
    pub open spec fn spec_at(&self, path: Seq<char>) -> Seq<char> {
        let i = choose|i: int| 0 <= i < self.entries.len() && self.entries[i].path@ == path;
        self.entries[i].content@
    }

    /// An empty tree.
    pub fn new() -> (r: FileStore)
        ensures
            r.wf(),
            forall|p: Seq<char>| !r.spec_has(p),
            r.entries@.len() == 0,
    {
        FileStore { entries: Vec::new() }
    }

    /// Index of the entry at `path`, if any.
    fn find(&self, path: &str) -> (r: Option<usize>)
        ensures
            match r {
                Some(i) => i < self.entries.len() && self.entries[i as int].path@ == path@,
                None => !self.spec_has(path@),
            },
    {
        let n = self.entries.len();
        let mut i: usize = 0;
        while i < n
            invariant
                i <= n,
                n == self.entries.len(),
                forall|j: int| 0 <= j < i ==> self.entries[j].path@ != path@,
            decreases n - i,
        {
            if eq_str(self.entries[i].path.as_str(), path) {
                return Some(i);
            }
            i += 1;
        }
        None
    }

    /// Whether a file stands at `path`.
    pub fn contains(&self, path: &str) -> (r: bool)
        ensures
            r == self.spec_has(path@),
    {
        self.find(path).is_some()
    }

    /// Read the file at `path`.
    pub fn get(&self, path: &str) -> (r: Option<&String>)
        requires
            self.wf(),
        ensures
            match r {
                Some(c) => self.spec_has(path@) && c@ == self.spec_at(path@),
                None => !self.spec_has(path@),
            },
    {
        match self.find(path) {
            Some(i) => {
                let ghost k = choose|k: int|
                    0 <= k < self.entries.len() && self.entries[k].path@ == path@;
                proof {
                    assert(k == i);
                }
                Some(&self.entries[i].content)
            },
            None => None,
        }
    }

    /// Write `content` at `path`, replacing any file already there.
    pub fn put(&mut self, path: &str, content: &str)
        requires
            old(self).wf(),
        ensures
            final(self).wf(),
            final(self).spec_has(path@),
            final(self).spec_at(path@) == content@,
            forall|q: Seq<char>| q != path@ ==> final(self).spec_has(q) == old(self).spec_has(q),
            forall|q: Seq<char>|
                q != path@ && old(self).spec_has(q) ==> final(self).spec_at(q) == old(
                    self,
                ).spec_at(q),
            final(self).entries@.len() == old(self).entries@.len() + (if old(self).spec_has(
                path@,
            ) {
                0int
            } else {
                1int
            }),
    {
        let ghost pre = *self;
        if let Some(i) = self.find(path) {
            proof {
                let k = choose|k: int|
                    0 <= k < pre.entries.len() && pre.entries[k].path@ == path@;
                assert(k == i);
            }
            self.entries.remove(i);
            proof {
                lemma_removed_frame(pre, *self, i as int, path@);
            }
        }
        let ghost mid = *self;
        self.entries.push(FileEntry { path: String::from_str(path), content: String::from_str(content) });
        proof {
            let n = self.entries.len() - 1;
            assert(self.entries[n].path@ == path@);
            assert forall|q: Seq<char>| q != path@ implies self.spec_has(q) == mid.spec_has(
                q,
            ) by {
                if mid.spec_has(q) {
                    let k = choose|k: int|
                        0 <= k < mid.entries.len() && mid.entries[k].path@ == q;
                    assert(self.entries[k].path@ == q);
                } else if self.spec_has(q) {
                    let k = choose|k: int|
                        0 <= k < self.entries.len() && self.entries[k].path@ == q;
                    assert(k < n ==> mid.entries[k].path@ == q);
                }
            }
            assert forall|q: Seq<char>| q != path@ && mid.spec_has(q) implies self.spec_at(q)
                == mid.spec_at(q) by {
                let k = choose|k: int| 0 <= k < mid.entries.len() && mid.entries[k].path@ == q;
                let k2 = choose|k2: int|
                    0 <= k2 < self.entries.len() && self.entries[k2].path@ == q;
                assert(self.entries[k].path@ == q);
                assert(k2 < n);
                assert(mid.entries[k2].path@ == q);
            }
            let k2 = choose|k2: int|
                0 <= k2 < self.entries.len() && self.entries[k2].path@ == path@;
            assert(k2 == n) by {
                if k2 < n {
                    assert(mid.entries[k2].path@ == path@);
                    assert(mid.spec_has(path@));
                }
            }
        }
    }

    /// Remove the file at `path`; removing an absent file changes nothing.
    pub fn remove(&mut self, path: &str)
        requires
            old(self).wf(),
        ensures
            final(self).wf(),
            !final(self).spec_has(path@),
            forall|q: Seq<char>| q != path@ ==> final(self).spec_has(q) == old(self).spec_has(q),
            forall|q: Seq<char>|
                q != path@ && old(self).spec_has(q) ==> final(self).spec_at(q) == old(
                    self,
                ).spec_at(q),
    {
        let ghost pre = *self;
        if let Some(i) = self.find(path) {
            self.entries.remove(i);
            proof {
                lemma_removed_frame(pre, *self, i as int, path@);
                assert forall|k: int|
                    0 <= k < self.entries.len() implies self.entries[k].path@ != path@ by {
                    if k < i {
                        assert(pre.entries[k].path@ == self.entries[k].path@);
                    } else {
                        assert(pre.entries[k + 1].path@ == self.entries[k].path@);
                    }
                }
            }
        }
    }

    /// The number of files in the tree.
    pub fn count(&self) -> (r: usize)
        ensures
            r == self.entries.len(),
    {
        self.entries.len()
    }

    /// The path of the file at position `i`.
    pub fn path_at(&self, i: usize) -> (r: &String)
        requires
            i < self.entries.len(),
        ensures
            r@ == self.entries[i as int].path@,
            self.spec_has(r@),
    {
        &self.entries[i].path
    }

    /// The text of the file at position `i`.
    pub fn content_at(&self, i: usize) -> (r: &String)
        requires
            i < self.entries.len(),
            self.wf(),
        ensures
            r@ == self.entries[i as int].content@,
            r@ == self.spec_at(self.entries[i as int].path@),
    {
        proof {
            let p = self.entries[i as int].path@;
            let k = choose|k: int| 0 <= k < self.entries.len() && self.entries[k].path@ == p;
            assert(k == i);
        }
        &self.entries[i].content
    }
}

/// After removing position `i`, which held `path`, every other path keeps
/// its presence and its text, and well-formedness is kept.
proof fn lemma_removed_frame(pre: FileStore, post: FileStore, i: int, path: Seq<char>)
    requires
        pre.wf(),
        0 <= i < pre.entries.len(),
        pre.entries[i].path@ == path,
        post.entries@ == pre.entries@.remove(i),
    ensures
        post.wf(),
        forall|q: Seq<char>| q != path ==> post.spec_has(q) == pre.spec_has(q),
        forall|q: Seq<char>| q != path && pre.spec_has(q) ==> post.spec_at(q) == pre.spec_at(q),
{
    assert forall|a: int, b: int|
        0 <= a < b < post.entries.len() implies post.entries[a].path@ != post.entries[b].path@ by {
        let a2 = if a < i { a } else { a + 1 };
        let b2 = if b < i { b } else { b + 1 };
        assert(post.entries[a].path@ == pre.entries[a2].path@);
        assert(post.entries[b].path@ == pre.entries[b2].path@);
    }
    assert forall|q: Seq<char>| q != path implies post.spec_has(q) == pre.spec_has(q) by {
        if pre.spec_has(q) {
            let k = choose|k: int| 0 <= k < pre.entries.len() && pre.entries[k].path@ == q;
            if k < i {
                assert(post.entries[k].path@ == q);
            } else {
                assert(post.entries[k - 1].path@ == q);
            }
        } else if post.spec_has(q) {
            let k = choose|k: int| 0 <= k < post.entries.len() && post.entries[k].path@ == q;
            let k2 = if k < i { k } else { k + 1 };
            assert(pre.entries[k2].path@ == q);
        }
    }
    assert forall|q: Seq<char>| q != path && pre.spec_has(q) implies post.spec_at(q) == pre.spec_at(
        q,
    ) by {
        let k = choose|k: int| 0 <= k < pre.entries.len() && pre.entries[k].path@ == q;
        let kp = if k < i { k } else { k - 1 };
        assert(post.entries[kp].path@ == q && post.entries[kp].content@ == pre.entries[k].content@);
        let k2 = choose|k2: int| 0 <= k2 < post.entries.len() && post.entries[k2].path@ == q;
        let k3 = if k2 < i { k2 } else { k2 + 1 };
        assert(pre.entries[k3].path@ == q);
        assert(k3 == k);
    }
}

} // verus!
