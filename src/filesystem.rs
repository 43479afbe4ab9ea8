//! An in-memory directory tree addressed by `/`-separated paths.
//!
//! Entries live in an arena: an entry is named by its position, the root
//! directory (named "") sits at position 0, and a directory lists the
//! positions of its children. Times are milliseconds.
use vstd::prelude::*;

use crate::board::views;
use crate::dna::split_on;

verus! {

#[derive(Debug, PartialEq, Eq)]
pub enum FSError {
    NotFound,
    NotADir,
    Duplicate,
    DirNotEmpty,
    PermissionDenied,
    GenericError(String),
}

/// A file or a directory.
pub struct Entry {
    name: String,
    is_dir: bool,
    modified: u64,
    content: Vec<u8>,
    children: Vec<usize>,
}

impl Entry {
    pub closed spec fn name_spec(&self) -> Seq<char> {
        self.name@
    }

    pub closed spec fn is_dir_spec(&self) -> bool {
        self.is_dir
    }

    pub closed spec fn modified_spec(&self) -> u64 {
        self.modified
    }

    pub closed spec fn content_spec(&self) -> Seq<u8> {
        self.content@
    }

    /// Positions of the children, in the order they were added.
    pub closed spec fn children_spec(&self) -> Seq<usize> {
        self.children@
    }

    pub fn name(&self) -> (r: &String)
        ensures
            r@ == self.name_spec(),
    {
        &self.name
    }

    pub fn is_dir(&self) -> (r: bool)
        ensures
            r == self.is_dir_spec(),
    {
        self.is_dir
    }

    pub fn modified(&self) -> (r: u64)
        ensures
            r == self.modified_spec(),
    {
        self.modified
    }

    pub fn child_count(&self) -> (r: usize)
        ensures
            r == self.children_spec().len(),
    {
        self.children.len()
    }
}

/// The non-empty parts of a path.
pub open spec fn nonempty(ps: Seq<Seq<char>>) -> Seq<Seq<char>>
    decreases ps.len(),
{
    if ps.len() == 0 {
        Seq::empty()
    } else {
        let r = nonempty(ps.drop_last());
        if ps.last().len() > 0 {
            r.push(ps.last())
        } else {
            r
        }
    }
}

/// The names along `path`; empty parts (as in `//` or a leading `/`) are
/// skipped.
pub open spec fn path_parts(path: Seq<char>) -> Seq<Seq<char>> {
    nonempty(split_on(path, '/'))
}

pub open spec fn child_ok(nodes: Seq<Entry>, i: int, c: usize) -> bool {
    0 < c < nodes.len() && c != i
}

/// The first of `kids` whose entry is named `name`, as a position in `kids`.
pub open spec fn find_child(nodes: Seq<Entry>, kids: Seq<usize>, name: Seq<char>) -> Option<int>
    decreases kids.len(),
{
    if kids.len() == 0 {
        None
    } else if nodes[kids[0] as int].name_spec() == name {
        Some(0)
    } else {
        match find_child(nodes, kids.drop_first(), name) {
            Some(k) => Some(k + 1),
            None => None,
        }
    }
}

/// The entry reached by following `parts` from the root.
pub open spec fn resolve(nodes: Seq<Entry>, parts: Seq<Seq<char>>) -> Result<usize, FSError>
    decreases parts.len(),
{
    if parts.len() == 0 {
        Ok(0)
    } else {
        match resolve(nodes, parts.drop_last()) {
            Err(e) => Err(e),
            Ok(d) => if !nodes[d as int].is_dir_spec() {
                Err(FSError::NotADir)
            } else {
                match find_child(nodes, nodes[d as int].children_spec(), parts.last()) {
                    None => Err(FSError::NotFound),
                    Some(k) => Ok(nodes[d as int].children_spec()[k]),
                }
            },
        }
    }
}

pub struct Filesystem {
    nodes: Vec<Entry>,
}

impl Filesystem {
    pub closed spec fn nodes_spec(&self) -> Seq<Entry> {
        self.nodes@
    }

    /// The root is a directory, and every child position is an entry other
    /// than the root and than its own directory.
    pub open spec fn wf(&self) -> bool {
        &&& self.nodes_spec().len() >= 1
        &&& self.nodes_spec()[0].is_dir_spec()
        &&& forall|i: int, k: int|
            0 <= i < self.nodes_spec().len() && 0 <= k < self.nodes_spec()[i].children_spec().len()
                ==> child_ok(self.nodes_spec(), i, #[trigger] self.nodes_spec()[i].children_spec()[k])
    }

    /// The entry that `path` names, as `navigate_filesystem_mut` finds it.
    pub open spec fn lookup(&self, path: Seq<char>) -> Result<usize, FSError> {
        resolve(self.nodes_spec(), path_parts(path))
    }

    /// A filesystem with only the root directory, named "".
    pub fn new(now: u64) -> (r: Filesystem)
        ensures
            r.wf(),
            r.nodes_spec().len() == 1,
            r.nodes_spec()[0].is_dir_spec(),
            r.nodes_spec()[0].name_spec() == Seq::<char>::empty(),
            r.nodes_spec()[0].children_spec() == Seq::<usize>::empty(),
            r.nodes_spec()[0].modified_spec() == now,
    {
        let mut nodes: Vec<Entry> = Vec::new();
        nodes.push(
            Entry {
                name: String::new(),
                is_dir: true,
                modified: now,
                content: Vec::new(),
                children: Vec::new(),
            },
        );
        Filesystem { nodes }
    }

    /// Number of entries in the arena, removed ones included.
    pub fn entry_count(&self) -> (r: usize)
        ensures
            r == self.nodes_spec().len(),
    {
        self.nodes.len()
    }

    fn parts(path: &str) -> (r: Vec<Vec<char>>)
        ensures
            views(r@) == path_parts(path@),
    {
        let chars = crate::board::chars_of(path);
        let pieces = crate::dna::split_chars(&chars, '/');
        let ghost ps = split_on(path@, '/');
        let mut out: Vec<Vec<char>> = Vec::new();
        let mut i: usize = 0;
        let mut pieces = pieces;
        let ghost all = pieces@;
        let total = pieces.len();
        assert(views(out@) =~= nonempty(ps.take(0)));
        while pieces.len() > 0
            invariant
                views(all) == ps,
                all.len() == total,
                pieces@ == all.subrange(i as int, all.len() as int),
                i + pieces@.len() == all.len(),
                views(out@) == nonempty(ps.take(i as int)),
            decreases pieces@.len(),
        {
            let p = pieces.remove(0);
            assert(p == all[i as int]);
            assert(pieces@ =~= all.subrange(i + 1, all.len() as int));
            assert(ps.take(i + 1).drop_last() =~= ps.take(i as int));
            assert(ps.take(i + 1).last() == p@);
            if p.len() > 0 {
                let ghost before = out@;
                out.push(p);
                assert(views(out@) =~= views(before).push(ps.take(i + 1).last()));
            }
            i = i + 1;
        }
        assert(ps.take(i as int) =~= ps);
        out
    }

    /// Whether the directory `d` has a child directory named `name`.
    fn has_dir_child(&self, d: usize, name: &Vec<char>) -> (r: bool)
        requires
            self.wf(),
            d < self.nodes_spec().len(),
        ensures
            r == clashes(self.nodes_spec(), self.nodes_spec()[d as int].children_spec(), name@, true),
    {
        let kids = &self.nodes[d].children;
        let ghost ks = kids@;
        let mut k: usize = 0;
        while k < kids.len()
            invariant
                self.wf(),
                d < self.nodes_spec().len(),
                kids@ == ks,
                ks == self.nodes_spec()[d as int].children_spec(),
                k <= ks.len(),
                forall|j: int|
                    0 <= j < k ==> !((#[trigger] self.nodes_spec()[ks[j] as int]).is_dir_spec()
                        && self.nodes_spec()[ks[j] as int].name_spec() == name@),
            decreases ks.len() - k,
        {
            let c = kids[k];
            assert(child_ok(self.nodes_spec(), d as int, ks[k as int]));
            if self.nodes[c].is_dir && chars_equal(&self.nodes[c].name, name) {
                return true;
            }
            k = k + 1;
        }
        false
    }

    /// The position in `kids` of the first child named `name`.
    fn child_position(&self, d: usize, name: &Vec<char>) -> (r: Option<usize>)
        requires
            self.wf(),
            d < self.nodes_spec().len(),
        ensures
            r matches Some(k) ==> find_child(
                self.nodes_spec(),
                self.nodes_spec()[d as int].children_spec(),
                name@,
            ) == Some(k as int),
            r is None ==> find_child(
                self.nodes_spec(),
                self.nodes_spec()[d as int].children_spec(),
                name@,
            ) is None,
            r matches Some(k) ==> k < self.nodes_spec()[d as int].children_spec().len(),
    {
        let kids = &self.nodes[d].children;
        let ghost ks = kids@;
        let mut k: usize = 0;
        assert(ks.skip(0) =~= ks);
        while k < kids.len()
            invariant
                self.wf(),
                d < self.nodes_spec().len(),
                kids@ == ks,
                ks == self.nodes_spec()[d as int].children_spec(),
                k <= ks.len(),
                find_child(self.nodes_spec(), ks, name@) == match find_child(
                    self.nodes_spec(),
                    ks.skip(k as int),
                    name@,
                ) {
                    Some(j) => Some(j + k),
                    None => None::<int>,
                },
            decreases ks.len() - k,
        {
            let c = kids[k];
            assert(ks.skip(k as int).drop_first() =~= ks.skip(k + 1));
            let ghost cn = self.nodes_spec()[c as int].name_spec();
            if chars_equal(&self.nodes[c].name, name) {
                return Some(k);
            }
            k = k + 1;
        }
        None
    }

    /// Follows `parts` from the root.
    fn resolve_parts(&self, parts: &Vec<Vec<char>>, upto: usize) -> (r: Result<usize, FSError>)
        requires
            self.wf(),
            upto <= parts@.len(),
        ensures
            r == resolve(self.nodes_spec(), views(parts@).take(upto as int)),
            r matches Ok(i) ==> i < self.nodes_spec().len(),
    {
        let mut at: usize = 0;
        let mut i: usize = 0;
        assert(views(parts@).take(0) =~= Seq::<Seq<char>>::empty());
        while i < upto
            invariant
                self.wf(),
                upto <= parts@.len(),
                i <= upto,
                at < self.nodes_spec().len(),
                resolve(self.nodes_spec(), views(parts@).take(i as int)) == Ok::<usize, FSError>(at),
            decreases upto - i,
        {
            let ghost t = views(parts@).take(i + 1);
            assert(t.drop_last() =~= views(parts@).take(i as int));
            assert(t.last() == parts@[i as int]@);
            if !self.nodes[at].is_dir {
                proof {
                    lemma_resolve_error_stays(self.nodes_spec(), views(parts@), (i + 1) as nat, upto as nat);
                }
                return Err(FSError::NotADir);
            }
            match self.child_position(at, &parts[i]) {
                None => {
                    proof {
                        lemma_resolve_error_stays(self.nodes_spec(), views(parts@), (i + 1) as nat, upto as nat);
                    }
                    return Err(FSError::NotFound);
                },
                Some(k) => {
                    at = self.nodes[at].children[k];
                },
            }
            i = i + 1;
        }
        Ok(at)
    }

    /// The entry at `path`: `NotFound` when a name is missing, `NotADir`
    /// when a file stands where a directory is needed.
    pub fn navigate_filesystem_mut(&self, path: &str) -> (r: Result<usize, FSError>)
        requires
            self.wf(),
        ensures
            r == self.lookup(path@),
            r matches Ok(i) ==> i < self.nodes_spec().len(),
    {
        let parts = Self::parts(path);
        assert(views(parts@).take(parts@.len() as int) =~= path_parts(path@));
        self.resolve_parts(&parts, parts.len())
    }

    /// The entry at `path`.
    pub fn get(&self, path: &str) -> (r: Result<&Entry, FSError>)
        requires
            self.wf(),
        ensures
            r is Ok <==> self.lookup(path@) is Ok,
            r matches Ok(e) ==> *e == self.nodes_spec()[self.lookup(path@)->Ok_0 as int],
            r matches Err(e) ==> self.lookup(path@) == Err::<usize, FSError>(e),
    {
        match self.navigate_filesystem_mut(path) {
            Ok(i) => Ok(&self.nodes[i]),
            Err(e) => Err(e),
        }
    }

    /// Adds a new entry named `name` under the directory at `path`.
    fn add_entry(&mut self, path: &str, name: &str, is_dir: bool, now: u64) -> (r: Result<
        usize,
        FSError,
    >)
        requires
            old(self).wf(),
            old(self).nodes_spec().len() < usize::MAX,
        ensures
            final(self).wf(),
            adds(old(self).nodes_spec(), final(self).nodes_spec(), old(self).lookup(path@), name@, is_dir, now, r),
    {
        let d = match self.navigate_filesystem_mut(path) {
            Ok(d) => d,
            Err(e) => {
                return Err(e);
            },
        };
        if !self.nodes[d].is_dir {
            return Err(FSError::NotADir);
        }
        let name_chars = crate::board::chars_of(name);
        let clash = if is_dir {
            self.has_dir_child(d, &name_chars)
        } else {
            self.child_position(d, &name_chars).is_some()
        };
        if clash {
            return Err(FSError::Duplicate);
        }
        let n = self.nodes.len();
        let ghost before = self.nodes@;
        let mut parent = self.nodes.remove(d);
        parent.children.push(n);
        self.nodes.insert(d, parent);
        self.nodes.push(
            Entry {
                name: name.to_owned(),
                is_dir,
                modified: now,
                content: Vec::new(),
                children: Vec::new(),
            },
        );
        proof {
            assert forall|i: int| 0 <= i < n && i != d implies self.nodes@[i] == before[i] by {}
            assert forall|i: int, k: int|
                0 <= i < self.nodes_spec().len() && 0 <= k < self.nodes_spec()[i].children_spec().len()
                    implies child_ok(self.nodes_spec(), i, #[trigger] self.nodes_spec()[i].children_spec()[k]) by {
                if i < n && i != d {
                    assert(self.nodes_spec()[i] == before[i]);
                }
            }
        }
        Ok(n)
    }

    /// Sets the modification time of the entry at `path`.
    pub fn touch(&mut self, path: &str, now: u64) -> (r: Result<(), FSError>)
        requires
            old(self).wf(),
        ensures
            final(self).wf(),
            final(self).nodes_spec().len() == old(self).nodes_spec().len(),
            match old(self).lookup(path@) {
                Err(e) => r == Err::<(), FSError>(e) && final(self).nodes_spec() == old(self).nodes_spec(),
                Ok(i) => {
                    &&& r is Ok
                    &&& final(self).nodes_spec()[i as int].modified_spec() == now
                    &&& final(self).nodes_spec()[i as int].name_spec() == old(self).nodes_spec()[i as int].name_spec()
                    &&& final(self).nodes_spec()[i as int].is_dir_spec() == old(self).nodes_spec()[i as int].is_dir_spec()
                    &&& final(self).nodes_spec()[i as int].children_spec() == old(self).nodes_spec()[i as int].children_spec()
                    &&& final(self).nodes_spec()[i as int].content_spec() == old(self).nodes_spec()[i as int].content_spec()
                    &&& forall|j: int|
                        0 <= j < old(self).nodes_spec().len() && j != i ==> final(self).nodes_spec()[j] == old(self).nodes_spec()[j]
                },
            },
    {
        let i = match self.navigate_filesystem_mut(path) {
            Ok(i) => i,
            Err(e) => {
                return Err(e);
            },
        };
        let ghost before = self.nodes@;
        let mut entry = self.nodes.remove(i);
        entry.modified = now;
        self.nodes.insert(i, entry);
        proof {
            assert forall|j: int| 0 <= j < before.len() && j != i implies self.nodes@[j]
                == before[j] by {}
            assert forall|a: int, k: int|
                0 <= a < self.nodes_spec().len() && 0 <= k < self.nodes_spec()[a].children_spec().len()
                    implies child_ok(self.nodes_spec(), a, #[trigger] self.nodes_spec()[a].children_spec()[k]) by {
                if a != i {
                    assert(self.nodes_spec()[a] == before[a]);
                } else {
                    assert(self.nodes_spec()[a].children_spec() == before[a].children_spec());
                }
            }
        }
        Ok(())
    }

    /// Removes the entry at `path` from its directory and returns it; a
    /// directory must be empty. The root cannot be removed.
    pub fn delete(&mut self, path: &str) -> (r: Result<Entry, FSError>)
        requires
            old(self).wf(),
        ensures
            final(self).wf(),
            final(self).nodes_spec().len() == old(self).nodes_spec().len(),
            path_parts(path@).len() == 0 ==> r == Err::<Entry, FSError>(FSError::PermissionDenied)
                && final(self).nodes_spec() == old(self).nodes_spec(),
            path_parts(path@).len() > 0 ==> match old(self).lookup(path@) {
                Err(e) => r == Err::<Entry, FSError>(e) && final(self).nodes_spec() == old(self).nodes_spec(),
                Ok(c) => {
                    let pre = old(self).nodes_spec();
                    if pre[c as int].is_dir_spec() && pre[c as int].children_spec().len() > 0 {
                        r == Err::<Entry, FSError>(FSError::DirNotEmpty) && final(self).nodes_spec()
                            == pre
                    } else {
                        let d = resolve(pre, path_parts(path@).drop_last())->Ok_0;
                        let k = find_child(pre, pre[d as int].children_spec(), path_parts(
                            path@,
                        ).last())->Some_0;
                        let post = final(self).nodes_spec();
                        &&& r matches Ok(e) && e == pre[c as int]
                        &&& post[d as int].children_spec() == pre[d as int].children_spec().remove(k)
                        &&& post[d as int].name_spec() == pre[d as int].name_spec()
                        &&& post[d as int].is_dir_spec() == pre[d as int].is_dir_spec()
                        &&& post[d as int].modified_spec() == pre[d as int].modified_spec()
                        &&& post[c as int].children_spec() == Seq::<usize>::empty()
                        &&& forall|j: int|
                            0 <= j < pre.len() && j != c && j != d ==> post[j] == pre[j]
                    }
                },
            },
    {
        let parts = Self::parts(path);
        if parts.len() == 0 {
            return Err(FSError::PermissionDenied);
        }
        let last = parts.len() - 1;
        let ghost ps = path_parts(path@);
        assert(views(parts@).take(last as int) =~= ps.drop_last());
        assert(views(parts@).take(parts@.len() as int) =~= ps);
        let d = match self.resolve_parts(&parts, last) {
            Ok(d) => d,
            Err(e) => {
                return Err(e);
            },
        };
        if !self.nodes[d].is_dir {
            return Err(FSError::NotADir);
        }
        assert(parts@[last as int]@ == ps.last());
        let k = match self.child_position(d, &parts[last]) {
            Some(k) => k,
            None => {
                return Err(FSError::NotFound);
            },
        };
        let c = self.nodes[d].children[k];
        if self.nodes[c].is_dir && self.nodes[c].children.len() > 0 {
            return Err(FSError::DirNotEmpty);
        }
        let ghost before = self.nodes@;
        let mut parent = self.nodes.remove(d);
        let _gone = parent.children.remove(k);
        self.nodes.insert(d, parent);
        let ghost mid = self.nodes@;
        let mut removed = Entry {
            name: String::new(),
            is_dir: false,
            modified: 0,
            content: Vec::new(),
            children: Vec::new(),
        };
        self.nodes.set_and_swap(c, &mut removed);
        proof {
            assert forall|j: int| 0 <= j < before.len() && j != c && j != d implies self.nodes@[j]
                == before[j] by {}
            assert forall|a: int, q: int|
                0 <= a < self.nodes_spec().len() && 0 <= q < self.nodes_spec()[a].children_spec().len()
                    implies child_ok(self.nodes_spec(), a, #[trigger] self.nodes_spec()[a].children_spec()[q]) by {
                if a != c && a != d {
                    assert(self.nodes_spec()[a] == before[a]);
                } else if a == d {
                    assert(self.nodes_spec()[a].children_spec() == before[a].children_spec().remove(
                        k as int,
                    ));
                    assert(self.nodes_spec()[a].children_spec()[q] == before[a].children_spec()[if q
                        < k {
                        q
                    } else {
                        q + 1
                    }]);
                }
            }
        }
        Ok(removed)
    }

    /// Creates the directory `name` under the directory at `path`: the
    /// errors of `navigate_filesystem_mut`, `NotADir` when `path` is a file,
    /// `Duplicate` when the directory already has a directory of that name
    /// (a file of that name does not stop it).
    pub fn mkdir(&mut self, path: &str, name: &str, now: u64) -> (r: Result<usize, FSError>)
        requires
            old(self).wf(),
            old(self).nodes_spec().len() < usize::MAX,
        ensures
            final(self).wf(),
            adds(old(self).nodes_spec(), final(self).nodes_spec(), old(self).lookup(path@), name@, true, now, r),
    {
        self.add_entry(path, name, true, now)
    }

    /// Creates the empty file `name` under the directory at `path`, with
    /// the errors of `mkdir`, except that any entry of that name, file or
    /// directory, is a `Duplicate`.
    pub fn create_file(&mut self, path: &str, name: &str, now: u64) -> (r: Result<usize, FSError>)
        requires
            old(self).wf(),
            old(self).nodes_spec().len() < usize::MAX,
        ensures
            final(self).wf(),
            adds(old(self).nodes_spec(), final(self).nodes_spec(), old(self).lookup(path@), name@, false, now, r),
    {
        self.add_entry(path, name, false, now)
    }
}

/// Whether adding `name` to the children `kids` collides with one of them:
/// a new directory collides with a directory of that name, a new file with
/// any entry of that name.
pub open spec fn clashes(nodes: Seq<Entry>, kids: Seq<usize>, name: Seq<char>, is_dir: bool) -> bool {
    if is_dir {
        exists|k: int|
            0 <= k < kids.len() && (#[trigger] nodes[kids[k] as int]).is_dir_spec()
                && nodes[kids[k] as int].name_spec() == name
    } else {
        find_child(nodes, kids, name) is Some
    }
}

/// What adding an entry named `name` under the entry `at` does to the
/// entries `pre`, giving `post` and the result `r`.
pub open spec fn adds(
    pre: Seq<Entry>,
    post: Seq<Entry>,
    at: Result<usize, FSError>,
    name: Seq<char>,
    is_dir: bool,
    now: u64,
    r: Result<usize, FSError>,
) -> bool {
    match at {
        Err(e) => r == Err::<usize, FSError>(e) && post == pre,
        Ok(d) => {
            let kids = pre[d as int].children_spec();
            if !pre[d as int].is_dir_spec() {
                r == Err::<usize, FSError>(FSError::NotADir) && post == pre
            } else if clashes(pre, kids, name, is_dir) {
                r == Err::<usize, FSError>(FSError::Duplicate) && post == pre
            } else {
                let n = pre.len();
                &&& r == Ok::<usize, FSError>(n as usize)
                &&& post.len() == n + 1
                &&& post[n as int].name_spec() == name
                &&& post[n as int].is_dir_spec() == is_dir
                &&& post[n as int].modified_spec() == now
                &&& post[n as int].children_spec() == Seq::<usize>::empty()
                &&& post[n as int].content_spec() == Seq::<u8>::empty()
                &&& post[d as int].children_spec() == kids.push(n as usize)
                &&& post[d as int].name_spec() == pre[d as int].name_spec()
                &&& post[d as int].is_dir_spec()
                &&& post[d as int].modified_spec() == pre[d as int].modified_spec()
                &&& post[d as int].content_spec() == pre[d as int].content_spec()
                &&& forall|i: int| 0 <= i < n && i != d ==> post[i] == pre[i]
            }
        },
    }
}

/// Two character vectors hold the same characters.
fn chars_equal(a: &String, b: &Vec<char>) -> (r: bool)
    ensures
        r == (a@ == b@),
{
    let s = a.as_str();
    let n = s.unicode_len();
    if n != b.len() {
        return false;
    }
    let mut i: usize = 0;
    while i < n
        invariant
            n == s@.len(),
            s@ == a@,
            n == b@.len(),
            i <= n,
            forall|j: int| 0 <= j < i ==> s@[j] == b@[j],
        decreases n - i,
    {
        if s.get_char(i) != b[i] {
            return false;
        }
        i = i + 1;
    }
    assert(s@ =~= b@);
    true
}

/// Once following a path fails, following a longer one fails the same way.
proof fn lemma_resolve_error_stays(nodes: Seq<Entry>, parts: Seq<Seq<char>>, k: nat, n: nat)
    requires
        k <= n <= parts.len(),
        resolve(nodes, parts.take(k as int)) is Err,
    ensures
        resolve(nodes, parts.take(n as int)) == resolve(nodes, parts.take(k as int)),
    decreases n - k,
{
    if k < n {
        assert(parts.take((k + 1) as int).drop_last() =~= parts.take(k as int));
        lemma_resolve_error_stays(nodes, parts, k + 1, n);
    }
}

} // verus!
