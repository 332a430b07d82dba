//! Which files and directories deleting a torrent's data removes.
use vstd::prelude::*;
use vstd::string::StringSliceAdditionalSpecFns;

verus! {

/// A filesystem path as its root flag and its named components, each the raw
/// bytes of one name.
#[derive(Debug, PartialEq, Eq)]
pub struct FsPath {
    pub absolute: bool,
    pub components: Vec<Vec<u8>>,
}

/// The mathematical content of an [`FsPath`].
pub struct PathView {
    pub absolute: bool,
    pub components: Seq<Seq<u8>>,
}

impl View for FsPath {
    type V = PathView;

    open spec fn view(&self) -> PathView {
        PathView {
            absolute: self.absolute,
            components: self.components@.map_values(|c: Vec<u8>| c@),
        }
    }
}

/// Total number of bytes of a list of names.
pub open spec fn bytes_total(parts: Seq<Seq<u8>>) -> nat
    decreases parts.len(),
{
    if parts.len() == 0 {
        0
    } else {
        bytes_total(parts.drop_last()) + parts.last().len()
    }
}

impl PathView {
    /// Length in bytes of the path written out with `/` separators.
    pub open spec fn render_len(self) -> nat {
        (if self.absolute {
            1nat
        } else {
            0nat
        }) + bytes_total(self.components) + if self.components.len() > 0 {
            (self.components.len() - 1) as nat
        } else {
            0nat
        }
    }

    /// The path made of the first `m` components.
    pub open spec fn prefix(self, m: int) -> PathView {
        PathView { absolute: self.absolute, components: self.components.take(m) }
    }

    /// The path lies under `base` (or is `base`), component by component.
    pub open spec fn starts_with(self, base: PathView) -> bool {
        &&& self.absolute == base.absolute
        &&& base.components.len() <= self.components.len()
        &&& self.components.take(base.components.len() as int) == base.components
    }

    /// The final name of the path, if it has one (`.` and `..` are not names).
    pub open spec fn file_name(self) -> Option<Seq<u8>> {
        if self.components.len() == 0 {
            None
        } else {
            let last = self.components.last();
            if last == seq![46u8] || last == seq![46u8, 46u8] {
                None
            } else {
                Some(last)
            }
        }
    }
}

/// The directories strictly between `base` and a file under it.
pub open spec fn dirs_between(file: PathView, base: PathView, d: PathView) -> bool {
    &&& file.starts_with(base)
    &&& exists|m: int|
        base.components.len() < m < file.components.len() && d == #[trigger] file.prefix(m)
}

/// `d` is one of the directories of `file` deeper than `base` and shallower than
/// its first `hi` components.
pub open spec fn dir_below(file: PathView, base: PathView, hi: int, d: PathView) -> bool {
    exists|k: int| base.components.len() < k < hi && d == #[trigger] file.prefix(k)
}

/// `d` lies between the base and one of the first `n` files.
pub open spec fn dir_of_some_file(files: Seq<PathView>, base: PathView, n: int, d: PathView) -> bool {
    exists|t: int| 0 <= t < n && dirs_between(#[trigger] files[t], base, d)
}

/// The directories to delete: every directory strictly between the base path
/// and one of the files, plus the base path itself when its name is the
/// recorded container name.
pub open spec fn spec_deletable_dir(
    files: Seq<PathView>,
    base: PathView,
    container: Option<Seq<u8>>,
    d: PathView,
) -> bool {
    ||| exists|i: int| 0 <= i < files.len() && dirs_between(#[trigger] files[i], base, d)
    ||| (container is Some && base.file_name() == container && d == base)
}

/// The views of a list of paths.
pub open spec fn path_views(paths: Seq<FsPath>) -> Seq<PathView> {
    paths.map_values(|p: FsPath| p@)
}

/// The `/`-separated names of a byte string, empty names dropped; `cur` is the
/// name being read.
pub open spec fn split_names(bytes: Seq<u8>, cur: Seq<u8>) -> Seq<Seq<u8>>
    decreases bytes.len(),
{
    if bytes.len() == 0 {
        if cur.len() == 0 {
            seq![]
        } else {
            seq![cur]
        }
    } else if bytes[0] == 47u8 {
        (if cur.len() == 0 {
            seq![]
        } else {
            seq![cur]
        }) + split_names(bytes.skip(1), seq![])
    } else {
        split_names(bytes.skip(1), cur.push(bytes[0]))
    }
}

/// The names with the `.` names dropped, except a leading one of a relative
/// path (`keep_first`), as `std::path` reads them.
pub open spec fn dots_dropped(names: Seq<Seq<u8>>, keep_first: bool) -> Seq<Seq<u8>>
    decreases names.len(),
{
    if names.len() == 0 {
        seq![]
    } else {
        let prev = dots_dropped(names.drop_last(), keep_first);
        let c = names.last();
        if c == seq![46u8] && !(names.len() == 1 && keep_first) {
            prev
        } else {
            prev.push(c)
        }
    }
}

/// A copy of a byte vector.
pub(crate) fn copy_bytes(v: &Vec<u8>) -> (copy: Vec<u8>)
    ensures
        copy@ == v@,
{
    let mut out: Vec<u8> = Vec::new();
    let mut i: usize = 0;
    while i < v.len()
        invariant
            0 <= i <= v@.len(),
            out@ == v@.take(i as int),
        decreases v@.len() - i,
    {
        out.push(v[i]);
        proof {
            assert(out@ =~= v@.take(i + 1));
        }
        i = i + 1;
    }
    proof {
        assert(v@.take(v@.len() as int) =~= v@);
    }
    out
}

/// Whether two byte vectors are equal.
fn same_bytes(a: &Vec<u8>, b: &Vec<u8>) -> (same: bool)
    ensures
        same == (a@ == b@),
{
    if a.len() != b.len() {
        return false;
    }
    let mut i: usize = 0;
    while i < a.len()
        invariant
            a@.len() == b@.len(),
            0 <= i <= a@.len(),
            forall|j: int| 0 <= j < i ==> a@[j] == b@[j],
        decreases a@.len() - i,
    {
        if a[i] != b[i] {
            return false;
        }
        i = i + 1;
    }
    proof {
        assert(a@ =~= b@);
    }
    true
}

impl FsPath {
    /// Splits a `/`-separated path: it is absolute when it starts with `/`,
    /// and its names are the non-empty pieces between separators, with `.`
    /// names dropped except one leading a relative path.
    pub fn parse(s: &str) -> (path: FsPath)
        ensures
            path@.absolute == (s.spec_bytes().len() > 0 && s.spec_bytes()[0] == 47u8),
            path@.components == dots_dropped(split_names(s.spec_bytes(), seq![]), !path@.absolute),
    {
        let bytes = s.as_bytes();
        let n = bytes.len();
        let mut components: Vec<Vec<u8>> = Vec::new();
        let mut cur: Vec<u8> = Vec::new();
        let mut i: usize = 0;
        proof {
            assert(bytes@.skip(0) =~= bytes@);
            assert(components@.map_values(|c: Vec<u8>| c@) =~= Seq::<Seq<u8>>::empty());
            assert(Seq::<Seq<u8>>::empty() + split_names(bytes@, seq![]) =~= split_names(bytes@, seq![]));
        }
        while i < n
            invariant
                n == bytes@.len(),
                0 <= i <= n,
                components@.map_values(|c: Vec<u8>| c@) + split_names(bytes@.skip(i as int), cur@)
                    == split_names(bytes@, seq![]),
            decreases n - i,
        {
            let ghost rest = bytes@.skip(i as int);
            proof {
                assert(rest[0] == bytes@[i as int]);
                assert(rest.skip(1) =~= bytes@.skip(i + 1));
            }
            if bytes[i] == 47u8 {
                if cur.len() > 0 {
                    let ghost before = components@.map_values(|c: Vec<u8>| c@);
                    let ghost old_components = components@;
                    let ghost cur_view = cur@;
                    components.push(cur);
                    proof {
                        lemma_views_push(old_components, components@.last());
                        assert(components@ == old_components.push(components@.last()));
                        assert(components@.map_values(|c: Vec<u8>| c@) =~= before + seq![
                            cur_view,
                        ]);
                    }
                } else {
                    proof {
                        assert(seq![] + split_names(bytes@.skip(i + 1), seq![]) =~= split_names(
                            bytes@.skip(i + 1),
                            seq![],
                        ));
                    }
                }
                cur = Vec::new();
            } else {
                cur.push(bytes[i]);
            }
            i = i + 1;
        }
        proof {
            assert(bytes@.skip(n as int).len() == 0);
        }
        let ghost before = components@.map_values(|c: Vec<u8>| c@);
        if cur.len() > 0 {
            let ghost old_components = components@;
            let ghost cur_view = cur@;
            components.push(cur);
            proof {
                lemma_views_push(old_components, components@.last());
                assert(components@ == old_components.push(components@.last()));
                assert(components@.map_values(|c: Vec<u8>| c@) =~= before + seq![cur_view]);
            }
        } else {
            proof {
                assert(before + seq![] =~= before);
            }
        }
        let absolute = n > 0 && bytes[0] == 47u8;
        let ghost names = components@.map_values(|c: Vec<u8>| c@);
        let mut kept: Vec<Vec<u8>> = Vec::new();
        let mut k: usize = 0;
        while k < components.len()
            invariant
                0 <= k <= components@.len(),
                names == components@.map_values(|c: Vec<u8>| c@),
                kept@.map_values(|c: Vec<u8>| c@) == dots_dropped(names.take(k as int), !absolute),
            decreases components@.len() - k,
        {
            let c = &components[k];
            let is_dot = c.len() == 1 && c[0] == 46u8;
            proof {
                assert(names.take(k + 1).drop_last() =~= names.take(k as int));
                assert(names.take(k + 1).last() == c@);
                if c@.len() == 1 && c@[0] == 46u8 {
                    assert(c@ =~= seq![46u8]);
                }
            }
            if !is_dot || (k == 0 && !absolute) {
                let ghost before = kept@;
                let copy = copy_bytes(c);
                kept.push(copy);
                proof {
                    lemma_views_push(before, kept@.last());
                    assert(kept@ == before.push(kept@.last()));
                }
            }
            k = k + 1;
        }
        proof {
            assert(names.take(components@.len() as int) =~= names);
        }
        FsPath { absolute, components: kept }
    }

    /// A copy of this path.
    pub fn copy(&self) -> (copy: FsPath)
        ensures
            copy@ == self@,
    {
        let mut components: Vec<Vec<u8>> = Vec::new();
        let mut i: usize = 0;
        while i < self.components.len()
            invariant
                0 <= i <= self.components@.len(),
                components@.map_values(|c: Vec<u8>| c@) == self.components@.map_values(
                    |c: Vec<u8>| c@,
                ).take(i as int),
            decreases self.components@.len() - i,
        {
            let ghost old_components = components@;
            let c = copy_bytes(&self.components[i]);
            components.push(c);
            proof {
                lemma_views_push(old_components, components@.last());
                assert(components@ == old_components.push(components@.last()));
                assert(components@.map_values(|c: Vec<u8>| c@) =~= self.components@.map_values(
                    |c: Vec<u8>| c@,
                ).take(i + 1));
            }
            i = i + 1;
        }
        proof {
            assert(self.components@.map_values(|c: Vec<u8>| c@).take(
                self.components@.len() as int,
            ) =~= self.components@.map_values(|c: Vec<u8>| c@));
        }
        FsPath { absolute: self.absolute, components }
    }

    /// The path made of the first `m` components.
    fn prefix(&self, m: usize) -> (p: FsPath)
        requires
            m <= self.components@.len(),
        ensures
            p@ == self@.prefix(m as int),
    {
        let mut components: Vec<Vec<u8>> = Vec::new();
        let mut i: usize = 0;
        while i < m
            invariant
                m <= self.components@.len(),
                0 <= i <= m,
                components@.map_values(|c: Vec<u8>| c@) == self@.components.take(i as int),
            decreases m - i,
        {
            let ghost old_components = components@;
            let c = copy_bytes(&self.components[i]);
            components.push(c);
            proof {
                lemma_views_push(old_components, components@.last());
                assert(components@ == old_components.push(components@.last()));
                assert(components@.map_values(|c: Vec<u8>| c@) =~= self@.components.take(i + 1));
            }
            i = i + 1;
        }
        proof {
            assert(self@.components.take(m as int) =~= self@.prefix(m as int).components);
        }
        FsPath { absolute: self.absolute, components }
    }

    /// Whether two paths are the same.
    fn same_as(&self, other: &FsPath) -> (same: bool)
        ensures
            same == (self@ == other@),
    {
        if self.absolute != other.absolute || self.components.len() != other.components.len() {
            proof {
                if self@ == other@ {
                    assert(self@.components.len() == other@.components.len());
                }
            }
            return false;
        }
        let mut i: usize = 0;
        while i < self.components.len()
            invariant
                self.components@.len() == other.components@.len(),
                0 <= i <= self.components@.len(),
                forall|j: int| 0 <= j < i ==> self@.components[j] == other@.components[j],
            decreases self.components@.len() - i,
        {
            if !same_bytes(&self.components[i], &other.components[i]) {
                proof {
                    assert(self@.components[i as int] != other@.components[i as int]);
                }
                return false;
            }
            i = i + 1;
        }
        proof {
            assert(self@.components =~= other@.components);
        }
        true
    }

    /// Whether the path lies under `base` (or is `base`).
    fn starts_with(&self, base: &FsPath) -> (under: bool)
        ensures
            under == self@.starts_with(base@),
    {
        if self.absolute != base.absolute || base.components.len() > self.components.len() {
            return false;
        }
        let mut i: usize = 0;
        while i < base.components.len()
            invariant
                base.components@.len() <= self.components@.len(),
                0 <= i <= base.components@.len(),
                forall|j: int| 0 <= j < i ==> self@.components[j] == base@.components[j],
            decreases base.components@.len() - i,
        {
            if !same_bytes(&self.components[i], &base.components[i]) {
                proof {
                    assert(self@.components.take(base@.components.len() as int)[i as int]
                        != base@.components[i as int]);
                }
                return false;
            }
            i = i + 1;
        }
        proof {
            assert(self@.components.take(base@.components.len() as int) =~= base@.components);
        }
        true
    }

    /// Length in bytes of the path written out.
    fn render_len(&self) -> (len: usize)
        requires
            self@.render_len() <= usize::MAX,
        ensures
            len == self@.render_len(),
    {
        let n = self.components.len();
        let mut total: usize = if self.absolute {
            1
        } else {
            0
        };
        let mut i: usize = 0;
        proof {
            assert(self@.components.take(0) =~= Seq::<Seq<u8>>::empty());
        }
        while i < n
            invariant
                n == self@.components.len(),
                0 <= i <= n,
                self@.render_len() <= usize::MAX,
                total == (if self.absolute {
                    1nat
                } else {
                    0nat
                }) + bytes_total(self@.components.take(i as int)),
            decreases n - i,
        {
            proof {
                assert(self@.components.take(i + 1).drop_last() =~= self@.components.take(
                    i as int,
                ));
                lemma_bytes_total_prefix(self@.components, i + 1, n as int);
                assert(self@.components.take(n as int) =~= self@.components);
            }
            total = total + self.components[i].len();
            i = i + 1;
        }
        proof {
            assert(self@.components.take(n as int) =~= self@.components);
        }
        if n > 0 {
            total + (n - 1)
        } else {
            total
        }
    }

    /// The final name of the path, if it has one.
    fn file_name(&self) -> (name: Option<&Vec<u8>>)
        ensures
            match self@.file_name() {
                Some(n) => name matches Some(v) && v@ == n,
                None => name is None,
            },
    {
        let n = self.components.len();
        if n == 0 {
            return None;
        }
        let last = &self.components[n - 1];
        proof {
            assert(self@.components.last() == last@);
        }
        if (last.len() == 1 && last[0] == 46u8) || (last.len() == 2 && last[0] == 46u8 && last[1]
            == 46u8) {
            proof {
                if last@.len() == 1 {
                    assert(last@ =~= seq![46u8]);
                } else {
                    assert(last@ =~= seq![46u8, 46u8]);
                }
            }
            return None;
        }
        proof {
            if last@ == seq![46u8] {
                assert(last@.len() == 1 && last@[0] == 46u8);
            }
            if last@ == seq![46u8, 46u8] {
                assert(last@.len() == 2 && last@[0] == 46u8 && last@[1] == 46u8);
            }
        }
        Some(last)
    }
}

proof fn lemma_views_push(s: Seq<Vec<u8>>, v: Vec<u8>)
    ensures
        s.push(v).map_values(|c: Vec<u8>| c@) == s.map_values(|c: Vec<u8>| c@).push(v@),
{
    assert(s.push(v).map_values(|c: Vec<u8>| c@) =~= s.map_values(|c: Vec<u8>| c@).push(v@));
}

proof fn lemma_bytes_total_prefix(parts: Seq<Seq<u8>>, i: int, j: int)
    requires
        0 <= i <= j <= parts.len(),
    ensures
        bytes_total(parts.take(i)) <= bytes_total(parts.take(j)),
    decreases j - i,
{
    if i < j {
        lemma_bytes_total_prefix(parts, i, j - 1);
        assert(parts.take(j).drop_last() =~= parts.take(j - 1));
    }
}

proof fn lemma_prefix_render_len(p: PathView, m: int)
    requires
        0 <= m <= p.components.len(),
    ensures
        p.prefix(m).render_len() <= p.render_len(),
{
    lemma_bytes_total_prefix(p.components, m, p.components.len() as int);
    assert(p.components.take(p.components.len() as int) =~= p.components);
}

/// The list is ordered longest rendering first.
pub open spec fn longest_first(paths: Seq<PathView>) -> bool {
    forall|i: int, j: int|
        0 <= i < j < paths.len() ==> (#[trigger] paths[i]).render_len() >= (
        #[trigger] paths[j]).render_len()
}

/// Every path of the list renders within `usize::MAX` bytes.
pub open spec fn renderable(paths: Seq<FsPath>) -> bool {
    forall|i: int| 0 <= i < paths.len() ==> (#[trigger] paths[i])@.render_len() <= usize::MAX
}

proof fn lemma_path_views_push(s: Seq<FsPath>, p: FsPath)
    ensures
        path_views(s.push(p)) == path_views(s).push(p@),
{
    assert(path_views(s.push(p)) =~= path_views(s).push(p@));
}

proof fn lemma_views_insert(s: Seq<FsPath>, j: int, p: FsPath)
    requires
        0 <= j <= s.len(),
    ensures
        path_views(s.insert(j, p)) == path_views(s).insert(j, p@),
{
    assert(path_views(s.insert(j, p)) =~= path_views(s).insert(j, p@));
}

/// Adds a directory to a list kept longest first and free of repeats.
fn insert_dir(dirs: &mut Vec<FsPath>, p: FsPath)
    requires
        longest_first(path_views(old(dirs)@)),
        path_views(old(dirs)@).no_duplicates(),
        renderable(old(dirs)@),
        p@.render_len() <= usize::MAX,
    ensures
        longest_first(path_views(final(dirs)@)),
        path_views(final(dirs)@).no_duplicates(),
        renderable(final(dirs)@),
        forall|d: PathView|
            path_views(final(dirs)@).contains(d) <==> (path_views(old(dirs)@).contains(d) || d
                == p@),
{
    let ghost old_views = path_views(dirs@);
    let mut k: usize = 0;
    while k < dirs.len()
        invariant
            0 <= k <= dirs@.len(),
            old_views == path_views(dirs@),
            dirs@ == old(dirs)@,
            longest_first(old_views),
            old_views.no_duplicates(),
            renderable(dirs@),
            forall|t: int| 0 <= t < k ==> dirs@[t]@ != p@,
        decreases dirs@.len() - k,
    {
        if dirs[k].same_as(&p) {
            proof {
                assert(old_views[k as int] == p@);
            }
            return;
        }
        k = k + 1;
    }
    proof {
        assert(!old_views.contains(p@));
    }
    let len = p.render_len();
    let mut j: usize = 0;
    while j < dirs.len()
        invariant
            0 <= j <= dirs@.len(),
            old_views == path_views(dirs@),
            dirs@ == old(dirs)@,
            renderable(dirs@),
            len == p@.render_len(),
            forall|t: int| 0 <= t < j ==> old_views[t].render_len() >= len,
        ensures
            0 <= j <= dirs@.len(),
            dirs@ == old(dirs)@,
            forall|t: int| 0 <= t < j ==> old_views[t].render_len() >= len,
            j < dirs@.len() ==> old_views[j as int].render_len() < len,
        decreases dirs@.len() - j,
    {
        if dirs[j].render_len() < len {
            break;
        }
        j = j + 1;
    }
    let ghost old_dirs = dirs@;
    let ghost pv = p@;
    dirs.insert(j, p);
    proof {
        lemma_views_insert(old_dirs, j as int, dirs@[j as int]);
        let nv = path_views(dirs@);
        assert(nv == old_views.insert(j as int, pv));
        assert forall|a: int, b: int| 0 <= a < b < nv.len() implies (#[trigger] nv[a]).render_len()
            >= (#[trigger] nv[b]).render_len() by {
            if b < j {
            } else if b == j {
            } else if a == j {
                if b - 1 > j {
                    assert(old_views[j as int].render_len() >= old_views[b - 1].render_len());
                }
            } else if a < j {
            } else {
            }
        }
        assert forall|a: int, b: int| 0 <= a < b < nv.len() implies nv[a] != nv[b] by {
            if a == j {
                assert(old_views.contains(nv[b]));
            } else if b == j {
                assert(old_views.contains(nv[a]));
            } else if a < j && b < j {
            } else if a < j {
            } else {
            }
        }
        assert forall|t: int| 0 <= t < dirs@.len() implies (#[trigger] dirs@[t])@.render_len()
            <= usize::MAX by {
            if t < j {
                assert(dirs@[t] == old_dirs[t]);
            } else if t > j {
                assert(dirs@[t] == old_dirs[t - 1]);
            }
        }
        assert forall|d: PathView| nv.contains(d) <==> (old_views.contains(d) || d == pv) by {
            if nv.contains(d) {
                let t = choose|t: int| 0 <= t < nv.len() && nv[t] == d;
                if t < j {
                    assert(old_views[t] == d);
                } else if t > j {
                    assert(old_views[t - 1] == d);
                }
            }
            if old_views.contains(d) {
                let t = choose|t: int| 0 <= t < old_views.len() && old_views[t] == d;
                if t < j {
                    assert(nv[t] == d);
                } else {
                    assert(nv[t + 1] == d);
                }
            }
            if d == pv {
                assert(nv[j as int] == d);
            }
        }
    }
}

/// The bytes of a recorded container name.
pub open spec fn container_bytes(name: Option<&str>) -> Option<Seq<u8>> {
    match name {
        Some(n) => Some(n.spec_bytes()),
        None => None,
    }
}

/// The files of a torrent and the directories to remove with them, deepest
/// (longest) first. A directory is removed when it lies strictly between the
/// base path and one of the files; the base path itself is removed only when
/// its name is the recorded container name.
pub fn calculate_deletion_lists(
    files: &[FsPath],
    base_path: &FsPath,
    known_container_name: Option<&str>,
) -> (lists: (Vec<FsPath>, Vec<FsPath>))
    requires
        renderable(files@),
        base_path@.render_len() <= usize::MAX,
    ensures
        path_views(lists.0@) == path_views(files@),
        path_views(lists.1@).no_duplicates(),
        longest_first(path_views(lists.1@)),
        forall|d: PathView|
            path_views(lists.1@).contains(d) <==> spec_deletable_dir(
                path_views(files@),
                base_path@,
                container_bytes(known_container_name),
                d,
            ),
{
    let ghost fv = path_views(files@);
    let ghost base = base_path@;
    let mut out_files: Vec<FsPath> = Vec::new();
    let mut dirs: Vec<FsPath> = Vec::new();
    let n = files.len();
    let mut i: usize = 0;
    while i < n
        invariant
            n == files@.len(),
            fv == path_views(files@),
            base == base_path@,
            renderable(files@),
            0 <= i <= n,
            path_views(out_files@) == fv.take(i as int),
            longest_first(path_views(dirs@)),
            path_views(dirs@).no_duplicates(),
            renderable(dirs@),
            forall|d: PathView|
                #[trigger] path_views(dirs@).contains(d) <==> dir_of_some_file(fv, base, i as int, d),
        decreases n - i,
    {
        let f = &files[i];
        let ghost old_out = out_files@;
        let fc = f.copy();
        out_files.push(fc);
        proof {
            lemma_path_views_push(old_out, fc);
            assert(fv[i as int] == f@);
            assert(path_views(out_files@) =~= fv.take(i + 1));
        }
        let ghost before = path_views(dirs@);
        if f.starts_with(base_path) && base_path.components.len() < f.components.len() {
            let flen = f.components.len();
            let mut m: usize = base_path.components.len() + 1;
            while m < flen
                invariant
                    flen == f@.components.len(),
                    f@.starts_with(base),
                    fv[i as int] == f@,
                    base == base_path@,
                    renderable(files@),
                    i < n,
                    n == fv.len(),
                    n == files@.len(),
                    renderable(files@),
                    files@[i as int] == *f,
                    base.components.len() + 1 <= m <= flen,
                    longest_first(path_views(dirs@)),
                    path_views(dirs@).no_duplicates(),
                    renderable(dirs@),
                    forall|d: PathView|
                        #[trigger] path_views(dirs@).contains(d) <==> (before.contains(d) || dir_below(f@, base, m as int, d)),
                    forall|d: PathView|
                        #[trigger] before.contains(d) <==> dir_of_some_file(fv, base, i as int, d),
                decreases flen - m,
            {
                proof {
                    lemma_prefix_render_len(f@, m as int);
                    assert(files@[i as int]@.render_len() <= usize::MAX);
                }
                let d = f.prefix(m);
                let ghost dv = d@;
                let ghost pre = path_views(dirs@);
                insert_dir(&mut dirs, d);
                proof {
                    assert forall|e: PathView| #[trigger] path_views(dirs@).contains(e) <==> (before.contains(e)
                        || dir_below(f@, base, m + 1, e)) by {
                        if path_views(dirs@).contains(e) {
                            if e == dv {
                                assert(e == f@.prefix(m as int));
                                assert(dir_below(f@, base, m + 1, e));
                            } else {
                                assert(pre.contains(e));
                                if !before.contains(e) {
                                    let k = choose|k: int| base.components.len() < k < m && e == #[trigger] f@.prefix(k);
                                    assert(base.components.len() < k < m + 1 && e == f@.prefix(k));
                                    assert(dir_below(f@, base, m + 1, e));
                                }
                            }
                        }
                        if before.contains(e) {
                            assert(pre.contains(e));
                        }
                        if dir_below(f@, base, m + 1, e) {
                            let k = choose|k: int| base.components.len() < k < m + 1 && e == #[trigger] f@.prefix(k);
                            if k == m {
                                assert(e == dv);
                            } else {
                                assert(base.components.len() < k < m && e == f@.prefix(k));
                                assert(dir_below(f@, base, m as int, e));
                                assert(pre.contains(e));
                            }
                        }
                    }
                }
                m = m + 1;
            }
            proof {
                assert forall|d: PathView| #[trigger] path_views(dirs@).contains(d) <==> dir_of_some_file(fv, base, i + 1, d) by {
                    if before.contains(d) {
                        let t = choose|t: int| 0 <= t < i && dirs_between(#[trigger] fv[t], base, d);
                        assert(0 <= t < i + 1 && dirs_between(fv[t], base, d));
                    }
                    if path_views(dirs@).contains(d) && !before.contains(d) {
                        let k = choose|k: int| base.components.len() < k < m && d == #[trigger] f@.prefix(k);
                        assert(d == fv[i as int].prefix(k));
                        assert(dirs_between(fv[i as int], base, d));
                    }
                    if dir_of_some_file(fv, base, i + 1, d) {
                        let t = choose|t: int| 0 <= t < i + 1 && dirs_between(#[trigger] fv[t], base, d);
                        if t == i {
                            let k = choose|k: int|
                                base.components.len() < k < f@.components.len() && d == #[trigger] fv[t].prefix(k);
                            assert(d == f@.prefix(k));
                            assert(dir_below(f@, base, m as int, d));
                        } else {
                            assert(dir_of_some_file(fv, base, i as int, d));
                        }
                    }
                }
            }
        } else {
            proof {
                assert forall|d: PathView| #[trigger] path_views(dirs@).contains(d) <==> dir_of_some_file(fv, base, i + 1, d) by {
                    if path_views(dirs@).contains(d) {
                        let t = choose|t: int| 0 <= t < i && dirs_between(#[trigger] fv[t], base, d);
                        assert(0 <= t < i + 1 && dirs_between(fv[t], base, d));
                    }
                    if dir_of_some_file(fv, base, i + 1, d) {
                        let t = choose|t: int| 0 <= t < i + 1 && dirs_between(#[trigger] fv[t], base, d);
                        if t == i {
                            assert(fv[t] == f@);
                            let k = choose|k: int|
                                base.components.len() < k < fv[t].components.len() && d == #[trigger] fv[t].prefix(k);
                        } else {
                            assert(dir_of_some_file(fv, base, i as int, d));
                        }
                    }
                }
            }
        }
        i = i + 1;
    }
    proof {
        assert(fv.take(n as int) =~= fv);
    }
    let ghost before = path_views(dirs@);
    if let Some(recorded_name) = known_container_name {
        if let Some(folder_name) = base_path.file_name() {
            let name_bytes = recorded_name.as_bytes();
            let mut same = folder_name.len() == name_bytes.len();
            let mut k: usize = 0;
            while same && k < folder_name.len()
                invariant
                    0 <= k <= folder_name@.len(),
                    same ==> folder_name@.len() == name_bytes@.len(),
                    same ==> forall|t: int| 0 <= t < k ==> folder_name@[t] == name_bytes@[t],
                    !same ==> folder_name@ != name_bytes@,
                decreases folder_name@.len() - k,
            {
                if folder_name[k] != name_bytes[k] {
                    same = false;
                }
                k = k + 1;
            }
            proof {
                if same {
                    assert(folder_name@ =~= name_bytes@);
                }
            }
            if same {
                insert_dir(&mut dirs, base_path.copy());
            }
        }
    }
    (out_files, dirs)
}

} // verus!
