//! In-memory hierarchical file store keyed by slash-delimited paths.
//!
//! A path names an entry by its parent directory (everything before the
//! last slash, navigated component by component) and its final name.
//! Lookups and updates are specified over the raw bytes of the path, so
//! any UTF-8 path works: the slash byte occurs in UTF-8 only as the slash
//! character. Failures are string-described "not found" errors.

use vstd::prelude::*;
use vstd::slice::slice_to_vec;
use vstd::string::*;

verus! {

/// A file: its raw content bytes.
pub struct File {
    pub content: Vec<u8>,
}

/// A directory: named entries, each a file or a child directory. Lookups
/// take the first entry of a given name.
pub struct Directory {
    pub entries: Vec<(Vec<u8>, FileSystemEntry)>,
}

/// A directory entry: a file or a nested directory.
pub enum FileSystemEntry {
    File(File),
    Directory(Directory),
}

/// The slash byte, the path separator.
pub open spec fn slash() -> u8 {
    47u8
}

/// The index of the last slash byte of `s`, or -1 when there is none.
pub open spec fn rlast_slash(s: Seq<u8>) -> int
    decreases s.len(),
{
    if s.len() == 0 {
        -1
    } else if s[s.len() - 1] == slash() {
        s.len() - 1
    } else {
        rlast_slash(s.drop_last())
    }
}

/// Everything before the last slash of a path; empty when there is none.
pub open spec fn parent_of(s: Seq<u8>) -> Seq<u8> {
    if rlast_slash(s) >= 0 {
        s.subrange(0, rlast_slash(s))
    } else {
        Seq::<u8>::empty()
    }
}

/// Everything after the last slash of a path; the whole path when there
/// is none.
pub open spec fn name_of(s: Seq<u8>) -> Seq<u8> {
    if rlast_slash(s) >= 0 {
        s.subrange(rlast_slash(s) + 1, s.len() as int)
    } else {
        s
    }
}

/// The path components still to be produced from input `s`, with `cur`
/// the partial component read so far: maximal nonempty runs of non-slash
/// bytes.
pub open spec fn comps_rec(s: Seq<u8>, cur: Seq<u8>) -> Seq<Seq<u8>>
    decreases s.len(),
{
    if s.len() == 0 {
        if cur.len() > 0 {
            seq![cur]
        } else {
            Seq::<Seq<u8>>::empty()
        }
    } else if s[0] == slash() {
        (if cur.len() > 0 {
            seq![cur]
        } else {
            Seq::<Seq<u8>>::empty()
        }) + comps_rec(s.drop_first(), Seq::<u8>::empty())
    } else {
        comps_rec(s.drop_first(), cur.push(s[0]))
    }
}

/// The nonempty slash-separated components of a path.
pub open spec fn components(s: Seq<u8>) -> Seq<Seq<u8>> {
    comps_rec(s, Seq::<u8>::empty())
}

/// The first entry of this name, scanning in insertion order.
pub open spec fn find(es: Seq<(Vec<u8>, FileSystemEntry)>, name: Seq<u8>) -> Option<
    FileSystemEntry,
>
    decreases es.len(),
{
    if es.len() == 0 {
        None
    } else if es[0].0@ == name {
        Some(es[0].1)
    } else {
        find(es.drop_first(), name)
    }
}

/// The directory reached from `d` by following the components in order;
/// `None` when a component is missing or names a file.
pub open spec fn nav(d: Directory, comps: Seq<Seq<u8>>) -> Option<Directory>
    decreases comps.len(),
{
    if comps.len() == 0 {
        Some(d)
    } else {
        match find(d.entries@, comps[0]) {
            Some(FileSystemEntry::Directory(d2)) => nav(d2, comps.drop_first()),
            _ => None,
        }
    }
}

/// The content of the file that the path names under `root`, or `None`
/// when the parent directory cannot be navigated to or the final name is
/// missing or names a directory.
pub open spec fn file_at(root: Directory, p: Seq<u8>) -> Option<Seq<u8>> {
    match nav(root, components(parent_of(p))) {
        Some(d) => match find(d.entries@, name_of(p)) {
            Some(FileSystemEntry::File(f)) => Some(f.content@),
            _ => None,
        },
        None => None,
    }
}

/// Updating the first entry of a name (or what stands at its index) keeps
/// every other name's lookup; the updated name finds the new entry.
proof fn lemma_find_after_update(
    pre: Seq<(Vec<u8>, FileSystemEntry)>,
    post: Seq<(Vec<u8>, FileSystemEntry)>,
    j: int,
    name: Seq<u8>,
)
    requires
        0 <= j < pre.len(),
        post.len() == pre.len(),
        forall|l: int| 0 <= l < pre.len() && l != j ==> #[trigger] post[l] == pre[l],
        pre[j].0@ == name,
        post[j].0@ == name,
        forall|l: int| 0 <= l < j ==> (#[trigger] pre[l]).0@ != name,
    ensures
        find(post, name) == Some(post[j].1),
        forall|other: Seq<u8>| other != name ==> find(post, other) == find(pre, other),
    decreases j,
{
    if j == 0 {
        assert forall|other: Seq<u8>| other != name implies find(post, other) == find(
            pre,
            other,
        ) by {
            if pre[0].0@ == other {
            } else {
                assert(post.drop_first() =~= pre.drop_first());
            }
        }
    } else {
        assert(post[0] == pre[0]);
        assert(pre[0].0@ != name);
        let pre1 = pre.drop_first();
        let post1 = post.drop_first();
        assert forall|l: int| 0 <= l < pre1.len() && l != j - 1 implies #[trigger] post1[l]
            == pre1[l] by {
            assert(post[l + 1] == pre[l + 1]);
        }
        assert forall|l: int| 0 <= l < j - 1 implies (#[trigger] pre1[l]).0@ != name by {
            assert(pre[l + 1].0@ != name);
        }
        assert(pre1[j - 1].0@ == name && post1[j - 1].0@ == name);
        lemma_find_after_update(pre1, post1, j - 1, name);
        assert(find(post, name) == find(post1, name));
        assert(post1[j - 1] == post[j]);
        assert forall|other: Seq<u8>| other != name implies find(post, other) == find(
            pre,
            other,
        ) by {
            if post[0].0@ != other {
                assert(find(post, other) == find(post1, other));
                assert(find(pre, other) == find(pre1, other));
            }
        }
    }
}

/// Appending an entry of a name not yet present makes that name find it
/// and keeps every other name's lookup.
proof fn lemma_find_after_push(
    pre: Seq<(Vec<u8>, FileSystemEntry)>,
    e: (Vec<u8>, FileSystemEntry),
    name: Seq<u8>,
)
    requires
        forall|l: int| 0 <= l < pre.len() ==> (#[trigger] pre[l]).0@ != name,
        e.0@ == name,
    ensures
        find(pre.push(e), name) == Some(e.1),
        forall|other: Seq<u8>| other != name ==> find(pre.push(e), other) == find(pre, other),
    decreases pre.len(),
{
    let post = pre.push(e);
    if pre.len() == 0 {
        assert(post[0] == e);
        assert forall|other: Seq<u8>| other != name implies find(post, other) == find(
            pre,
            other,
        ) by {
            assert(post.drop_first() =~= pre);
            assert(find(post, other) == find(pre, other));
        }
    } else {
        let pre1 = pre.drop_first();
        assert forall|l: int| 0 <= l < pre1.len() implies (#[trigger] pre1[l]).0@ != name by {
            assert(pre[l + 1].0@ != name);
        }
        lemma_find_after_push(pre1, e, name);
        assert(post.drop_first() =~= pre1.push(e));
        assert(post[0] == pre[0]);
        assert(pre[0].0@ != name);
        assert(find(post, name) == find(pre1.push(e), name));
        assert forall|other: Seq<u8>| other != name implies find(post, other) == find(
            pre,
            other,
        ) by {
            if pre[0].0@ != other {
                assert(find(post, other) == find(pre1.push(e), other));
                assert(find(pre, other) == find(pre1, other));
            }
        }
    }
}

/// Compares two byte strings for equality.
fn bytes_eq(a: &Vec<u8>, b: &Vec<u8>) -> (r: bool)
    ensures
        r == (a@ == b@),
{
    if a.len() != b.len() {
        proof {
            assert(a@ != b@);
        }
        return false;
    }
    let n = a.len();
    let mut i: usize = 0;
    while i < n
        invariant
            n == a@.len() == b@.len(),
            i <= n,
            forall|j: int| 0 <= j < i ==> a@[j] == b@[j],
        decreases n - i,
    {
        if a[i] != b[i] {
            return false;
        }
        i += 1;
    }
    proof {
        assert(a@ =~= b@);
    }
    true
}

/// Copies the byte range `[a, b)` out of `bs`.
fn copy_range(bs: &Vec<u8>, a: usize, b: usize) -> (r: Vec<u8>)
    requires
        a <= b <= bs@.len(),
    ensures
        r@ == bs@.subrange(a as int, b as int),
{
    let mut r: Vec<u8> = Vec::new();
    let mut i: usize = a;
    while i < b
        invariant
            a <= i <= b <= bs@.len(),
            r@ =~= bs@.subrange(a as int, i as int),
        decreases b - i,
    {
        r.push(bs[i]);
        proof {
            assert(r@ =~= bs@.subrange(a as int, i as int + 1));
        }
        i += 1;
    }
    proof {
        assert(r@ =~= bs@.subrange(a as int, b as int));
    }
    r
}

/// The views of a list of byte strings.
pub open spec fn views_of(s: Seq<Vec<u8>>) -> Seq<Seq<u8>> {
    s.map_values(|v: Vec<u8>| v@)
}

/// Splits a path into the bytes before and after its last slash.
fn split_bytes(bs: &Vec<u8>) -> (r: (Vec<u8>, Vec<u8>))
    ensures
        r.0@ == parent_of(bs@),
        r.1@ == name_of(bs@),
{
    let n = bs.len();
    let mut i: usize = n;
    proof {
        assert(bs@.subrange(0, n as int) =~= bs@);
    }
    while i > 0
        invariant
            i <= n,
            n == bs@.len(),
            rlast_slash(bs@) == rlast_slash(bs@.subrange(0, i as int)),
        decreases i,
    {
        let ghost sub = bs@.subrange(0, i as int);
        proof {
            assert(sub[sub.len() - 1] == bs@[i as int - 1]);
        }
        if bs[i - 1] == 47u8 {
            proof {
                assert(rlast_slash(sub) == i - 1);
            }
            let parent = copy_range(bs, 0, i - 1);
            let name = copy_range(bs, i, n);
            return (parent, name);
        }
        proof {
            assert(sub.drop_last() =~= bs@.subrange(0, i as int - 1));
            assert(rlast_slash(sub) == rlast_slash(bs@.subrange(0, i as int - 1)));
        }
        i -= 1;
    }
    proof {
        assert(bs@.subrange(0, 0) =~= Seq::<u8>::empty());
        assert(rlast_slash(bs@) == -1);
    }
    let name = copy_range(bs, 0, n);
    proof {
        assert(name@ =~= bs@);
    }
    (Vec::new(), name)
}

/// Splits a path into its nonempty slash-separated components.
fn comp_vecs(bs: &Vec<u8>) -> (r: Vec<Vec<u8>>)
    ensures
        views_of(r@) == components(bs@),
{
    let n = bs.len();
    let mut r: Vec<Vec<u8>> = Vec::new();
    let mut cur: Vec<u8> = Vec::new();
    let mut i: usize = 0;
    proof {
        assert(bs@.skip(0) =~= bs@);
        assert(views_of(r@) =~= Seq::<Seq<u8>>::empty());
        assert(views_of(r@) + comps_rec(bs@.skip(0), cur@) =~= components(bs@));
    }
    while i < n
        invariant
            i <= n,
            n == bs@.len(),
            views_of(r@) + comps_rec(bs@.skip(i as int), cur@) =~= components(bs@),
        decreases n - i,
    {
        let ghost rs = r@;
        let ghost cs = cur@;
        proof {
            assert(bs@.skip(i as int)[0] == bs@[i as int]);
            assert(bs@.skip(i as int).drop_first() =~= bs@.skip(i as int + 1));
        }
        if bs[i] == 47u8 {
            if cur.len() > 0 {
                r.push(cur);
                cur = Vec::new();
                proof {
                    let x = comps_rec(bs@.skip(i as int + 1), Seq::<u8>::empty());
                    assert(views_of(r@) =~= views_of(rs) + seq![cs]);
                    assert(comps_rec(bs@.skip(i as int), cs) =~= seq![cs] + x);
                    assert((views_of(rs) + seq![cs]) + x =~= views_of(rs) + (seq![cs] + x));
                    assert(views_of(r@) + comps_rec(bs@.skip(i as int + 1), cur@)
                        =~= components(bs@));
                }
            } else {
                proof {
                    let x = comps_rec(bs@.skip(i as int + 1), Seq::<u8>::empty());
                    assert(cs =~= Seq::<u8>::empty());
                    assert(comps_rec(bs@.skip(i as int), cs) == Seq::<Seq<u8>>::empty() + x);
                    assert(Seq::<Seq<u8>>::empty() + x =~= x);
                    assert(views_of(r@) + comps_rec(bs@.skip(i as int + 1), cur@)
                        =~= components(bs@));
                }
            }
        } else {
            cur.push(bs[i]);
            proof {
                assert(cur@ == cs.push(bs@[i as int]));
                assert(views_of(r@) + comps_rec(bs@.skip(i as int + 1), cur@) =~= components(
                    bs@,
                ));
            }
        }
        i += 1;
    }
    proof {
        assert(bs@.skip(i as int) =~= Seq::<u8>::empty());
    }
    let ghost rs = r@;
    let ghost cs = cur@;
    if cur.len() > 0 {
        r.push(cur);
        proof {
            assert(views_of(r@) =~= views_of(rs).push(cs));
            assert(comps_rec(Seq::<u8>::empty(), cs) =~= seq![cs]);
            assert(views_of(r@) =~= components(bs@));
        }
    } else {
        proof {
            assert(comps_rec(Seq::<u8>::empty(), cs) =~= Seq::<Seq<u8>>::empty());
            assert(views_of(r@) =~= components(bs@));
        }
    }
    r
}

/// Finds the index of the first entry of this name, with the facts the
/// first-match `find` specification yields there.
fn find_idx(es: &Vec<(Vec<u8>, FileSystemEntry)>, name: &Vec<u8>) -> (r: Option<usize>)
    ensures
        match r {
            Some(j) => {
                &&& j < es@.len()
                &&& es@[j as int].0@ == name@
                &&& forall|l: int| 0 <= l < j ==> (#[trigger] es@[l]).0@ != name@
                &&& find(es@, name@) == Some(es@[j as int].1)
            },
            None => {
                &&& find(es@, name@) is None
                &&& forall|l: int| 0 <= l < es@.len() ==> (#[trigger] es@[l]).0@ != name@
            },
        },
{
    let n = es.len();
    let mut i: usize = 0;
    proof {
        assert(es@.skip(0) =~= es@);
    }
    while i < n
        invariant
            i <= n,
            n == es@.len(),
            forall|l: int| 0 <= l < i ==> (#[trigger] es@[l]).0@ != name@,
            find(es@, name@) == find(es@.skip(i as int), name@),
        decreases n - i,
    {
        proof {
            assert(es@.skip(i as int)[0] == es@[i as int]);
            assert(es@.skip(i as int).drop_first() =~= es@.skip(i as int + 1));
        }
        let hit = bytes_eq(&es[i].0, name);
        if hit {
            return Some(i);
        }
        i += 1;
    }
    proof {
        assert(es@.skip(i as int) =~= Seq::<(Vec<u8>, FileSystemEntry)>::empty());
    }
    None
}

/// Follows the components from `comps[k]` on down from `d`, returning the
/// directory that `nav` names, or nothing exactly when `nav` fails.
fn nav_ref<'a>(d: &'a Directory, comps: &Vec<Vec<u8>>, k: usize) -> (r: Option<&'a Directory>)
    requires
        k <= comps@.len(),
    ensures
        match r {
            Some(d2) => nav(*d, views_of(comps@).skip(k as int)) == Some(*d2),
            None => nav(*d, views_of(comps@).skip(k as int)) is None,
        },
    decreases comps@.len() - k,
{
    let ghost cs = views_of(comps@).skip(k as int);
    if k == comps.len() {
        proof {
            assert(cs.len() == 0);
        }
        return Some(d);
    }
    proof {
        assert(cs[0] == comps@[k as int]@);
        assert(cs.drop_first() =~= views_of(comps@).skip(k as int + 1));
    }
    let found = find_idx(&d.entries, &comps[k]);
    match found {
        Some(j) => {
            match &d.entries[j].1 {
                FileSystemEntry::Directory(d2) => nav_ref(d2, comps, k + 1),
                FileSystemEntry::File(_) => None,
            }
        },
        None => None,
    }
}

/// The entry of a given name in the parent directory that the path
/// navigates to under `root`.
pub open spec fn entry_of_name(root: Directory, p: Seq<u8>, name: Seq<u8>) -> Option<
    FileSystemEntry,
> {
    match nav(root, components(parent_of(p))) {
        Some(d) => find(d.entries@, name),
        None => None,
    }
}

/// The entry that the path names under `root`: the final name looked up
/// in the parent directory the path navigates to.
pub open spec fn entry_at(root: Directory, p: Seq<u8>) -> Option<FileSystemEntry> {
    entry_of_name(root, p, name_of(p))
}

/// Inserts `entry` under `name` into the directory named by the
/// components from `comps[k]` on below `d`, which must be navigable: the
/// first entry of that name is replaced in place, or the entry appended.
/// Every other name of that directory keeps its lookup.
fn insert_at(
    d: &mut Directory,
    comps: &Vec<Vec<u8>>,
    k: usize,
    name: &Vec<u8>,
    entry: FileSystemEntry,
)
    requires
        k <= comps@.len(),
        nav(*old(d), views_of(comps@).skip(k as int)) is Some,
    ensures
        ({
            let cs = views_of(comps@).skip(k as int);
            nav(*final(d), cs) matches Some(nd) && (nav(*old(d), cs) matches Some(od) && {
                &&& find(nd.entries@, name@) == Some(entry)
                &&& forall|other: Seq<u8>|
                    other != name@ ==> find(nd.entries@, other) == find(od.entries@, other)
            })
        }),
    decreases comps@.len() - k,
{
    let ghost cs = views_of(comps@).skip(k as int);
    if k == comps.len() {
        proof {
            assert(cs.len() == 0);
        }
        let found = find_idx(&d.entries, name);
        let ghost pre = d.entries@;
        let key = copy_range(name, 0, name.len());
        proof {
            assert(key@ =~= name@);
        }
        match found {
            Some(j) => {
                let ghost jj = j as int;
                let _ = d.entries.remove(j);
                let ghost e2 = (key, entry);
                d.entries.insert(j, (key, entry));
                proof {
                    let post = d.entries@;
                    assert(post == pre.remove(jj).insert(jj, e2));
                    pre.remove_ensures(jj);
                    pre.remove(jj).insert_ensures(jj, e2);
                    assert forall|l: int| 0 <= l < pre.len() && l != jj implies #[trigger] post[l]
                        == pre[l] by {
                        if l < jj {
                            assert(pre.remove(jj)[l] == pre[l]);
                        } else {
                            assert(pre.remove(jj)[l - 1] == pre[l]);
                        }
                    }
                    assert(post[jj] == e2);
                    lemma_find_after_update(pre, post, jj, name@);
                }
            },
            None => {
                let ghost e2 = (key, entry);
                d.entries.push((key, entry));
                proof {
                    lemma_find_after_push(pre, e2, name@);
                }
            },
        }
        return ;
    }
    proof {
        assert(cs[0] == comps@[k as int]@);
        assert(cs.drop_first() =~= views_of(comps@).skip(k as int + 1));
    }
    let found = find_idx(&d.entries, &comps[k]);
    match found {
        Some(j) => {
            let ghost pre = d.entries@;
            let ghost jj = j as int;
            let e = d.entries.remove(j);
            let nm = e.0;
            match e.1 {
                FileSystemEntry::Directory(mut sub) => {
                    let ghost sub0 = sub;
                    insert_at(&mut sub, comps, k + 1, name, entry);
                    let ghost e2 = (nm, FileSystemEntry::Directory(sub));
                    d.entries.insert(j, (nm, FileSystemEntry::Directory(sub)));
                    proof {
                        let post = d.entries@;
                        assert(post == pre.remove(jj).insert(jj, e2));
                        pre.remove_ensures(jj);
                        pre.remove(jj).insert_ensures(jj, e2);
                        assert forall|l: int|
                            0 <= l < pre.len() && l != jj implies #[trigger] post[l] == pre[l] by {
                            if l < jj {
                                assert(pre.remove(jj)[l] == pre[l]);
                            } else {
                                assert(pre.remove(jj)[l - 1] == pre[l]);
                            }
                        }
                        assert(post[jj] == e2);
                        lemma_find_after_update(pre, post, jj, comps@[k as int]@);
                        assert(find(post, cs[0]) == Some(FileSystemEntry::Directory(sub)));
                        assert(find(pre, cs[0]) == Some(FileSystemEntry::Directory(sub0)));
                        assert(nav(*d, cs) == nav(sub, cs.drop_first()));
                        assert(nav(*old(d), cs) == nav(sub0, cs.drop_first()));
                    }
                },
                FileSystemEntry::File(f) => {
                    proof {
                        assert(find(pre, cs[0]) == Some(pre[jj].1));
                        assert(false);
                    }
                    d.entries.insert(j, (nm, FileSystemEntry::File(f)));
                },
            }
        },
        None => {
            proof {
                assert(false);
            }
        },
    }
}

/// The in-memory file store itself.
pub struct FileSystem {
    root: Directory,
}

impl FileSystem {
    /// The root directory of the store.
    pub closed spec fn root_dir(self) -> Directory {
        self.root
    }

    /// An empty file store: a bare root directory holding nothing, so no
    /// path names an entry.
    pub fn new() -> (r: FileSystem)
        ensures
            r.root_dir().entries@ =~= Seq::<(Vec<u8>, FileSystemEntry)>::empty(),
            forall|p: Seq<u8>| #[trigger] entry_at(r.root_dir(), p) is None,
    {
        let fs = FileSystem { root: Directory { entries: Vec::new() } };
        proof {
            assert forall|p: Seq<u8>| #[trigger] entry_at(fs.root, p) is None by {
                let cs = components(parent_of(p));
                if cs.len() == 0 {
                    assert(nav(fs.root, cs) == Some(fs.root));
                    assert(find(fs.root.entries@, name_of(p)) is None);
                } else {
                    assert(find(fs.root.entries@, cs[0]) is None);
                    assert(nav(fs.root, cs) is None);
                }
            }
        }
        fs
    }

    /// Creates (or replaces) the file that the path names, holding
    /// `content`. Succeeds exactly when the parent directory exists; the
    /// file is then readable under the path, and every sibling name in
    /// that directory keeps its entry. Fails with a "not found" error,
    /// changing nothing, when the parent cannot be navigated to.
    pub fn create_file(&mut self, path: &str, content: Vec<u8>) -> (r: Result<(), String>)
        ensures
            r is Ok <==> nav(
                old(self).root_dir(),
                components(parent_of(path.spec_bytes())),
            ) is Some,
            r is Err ==> *final(self) == *old(self),
            r is Ok ==> file_at(final(self).root_dir(), path.spec_bytes()) == Some(content@),
            r is Ok ==> forall|other: Seq<u8>|
                other != name_of(path.spec_bytes()) ==> entry_of_name(
                    final(self).root_dir(),
                    path.spec_bytes(),
                    other,
                ) == entry_of_name(old(self).root_dir(), path.spec_bytes(), other),
    {
        let bs = slice_to_vec(path.as_bytes());
        let (parent, name) = split_bytes(&bs);
        let comps = comp_vecs(&parent);
        let ghost cs = views_of(comps@);
        proof {
            assert(cs.skip(0) =~= cs);
        }
        let probe = nav_ref(&self.root, &comps, 0);
        if probe.is_none() {
            return Err(String::from_str("Directory not found: ").concat(path));
        }
        let ghost entry = FileSystemEntry::File(File { content: content });
        insert_at(&mut self.root, &comps, 0, &name, FileSystemEntry::File(File { content }));
        proof {
            assert(find(
                nav(self.root, cs)->0.entries@,
                name_of(path.spec_bytes()),
            ) == Some(entry));
        }
        Ok(())
    }

    /// Creates (or replaces) an empty directory under the path's final
    /// name. Succeeds exactly when the parent directory exists; the new
    /// directory is then navigable and empty, and every sibling name
    /// keeps its entry. Fails with a "not found" error, changing nothing,
    /// when the parent cannot be navigated to.
    pub fn create_directory(&mut self, path: &str) -> (r: Result<(), String>)
        ensures
            r is Ok <==> nav(
                old(self).root_dir(),
                components(parent_of(path.spec_bytes())),
            ) is Some,
            r is Err ==> *final(self) == *old(self),
            r is Ok ==> (entry_at(final(self).root_dir(), path.spec_bytes()) matches Some(
                FileSystemEntry::Directory(nd),
            ) && nd.entries@.len() == 0),
            r is Ok ==> forall|other: Seq<u8>|
                other != name_of(path.spec_bytes()) ==> entry_of_name(
                    final(self).root_dir(),
                    path.spec_bytes(),
                    other,
                ) == entry_of_name(old(self).root_dir(), path.spec_bytes(), other),
    {
        let bs = slice_to_vec(path.as_bytes());
        let (parent, name) = split_bytes(&bs);
        let comps = comp_vecs(&parent);
        let ghost cs = views_of(comps@);
        proof {
            assert(cs.skip(0) =~= cs);
        }
        let probe = nav_ref(&self.root, &comps, 0);
        if probe.is_none() {
            return Err(String::from_str("Directory not found: ").concat(path));
        }
        let fresh = FileSystemEntry::Directory(Directory { entries: Vec::new() });
        let ghost entry = fresh;
        insert_at(&mut self.root, &comps, 0, &name, fresh);
        Ok(())
    }

    /// Reads the content of the file that the path names, or fails with a
    /// "not found" error exactly when the path names no file: the parent
    /// cannot be navigated to, the name is absent, or it names a
    /// directory.
    pub fn read_file(&self, path: &str) -> (r: Result<&Vec<u8>, String>)
        ensures
            r matches Ok(c) ==> file_at(self.root_dir(), path.spec_bytes()) == Some(c@),
            r is Err <==> file_at(self.root_dir(), path.spec_bytes()) is None,
    {
        let bs = slice_to_vec(path.as_bytes());
        let (parent, name) = split_bytes(&bs);
        let comps = comp_vecs(&parent);
        let ghost cs = views_of(comps@);
        proof {
            assert(cs.skip(0) =~= cs);
        }
        let probe = nav_ref(&self.root, &comps, 0);
        match probe {
            Some(dir) => {
                let found = find_idx(&dir.entries, &name);
                match found {
                    Some(j) => {
                        match &dir.entries[j].1 {
                            FileSystemEntry::File(file) => Ok(&file.content),
                            FileSystemEntry::Directory(_) => Err(
                                String::from_str("File not found: ").concat(path),
                            ),
                        }
                    },
                    None => Err(String::from_str("File not found: ").concat(path)),
                }
            },
            None => Err(String::from_str("File not found: ").concat(path)),
        }
    }
}

} // verus!
