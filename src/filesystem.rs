//! Rebuilding a file tree from a terminal session of `cd` and `ls`, and
//! the total size of each directory.
use vstd::prelude::*;
use crate::numbers::{parse_usize, usize_of};
use crate::words::{is_word, word_bounds, words};
use crate::monkey_notes::bounds_ok;

verus! {

#[derive(Debug)]
pub enum LsCmdOutput {
    DirOutput(String),
    FileOutput(String, usize),
}

#[derive(Debug)]
pub enum FsCmd {
    CdParent,
    CdRoot,
    Cd(String),
    Ls(Vec<LsCmdOutput>),
}

/// A path as the list of its parts, the root `/` first.
pub open spec fn path_view(p: Seq<String>) -> Seq<Seq<char>> {
    p.map_values(|s: String| s@)
}

/// The files seen so far, each with its full path and size.
pub open spec fn files_view(f: Seq<(Vec<String>, usize)>) -> Seq<(Seq<Seq<char>>, usize)> {
    f.map_values(|e: (Vec<String>, usize)| (path_view(e.0@), e.1))
}

/// No path occurs twice.
pub open spec fn paths_unique(f: Seq<(Seq<Seq<char>>, usize)>) -> bool {
    forall|a: int, b: int| 0 <= a < b < f.len() ==> f[a].0 != f[b].0
}

/// The list after recording that the file at `p` has size `s`: a known path
/// gets the new size, a new one is added at the end.
pub open spec fn record(f: Seq<(Seq<Seq<char>>, usize)>, p: Seq<Seq<char>>, s: usize) -> Seq<(Seq<Seq<char>>, usize)> {
    if exists|k: int| 0 <= k < f.len() && f[k].0 == p {
        let k = choose|k: int| 0 <= k < f.len() && f[k].0 == p;
        f.update(k, (p, s))
    } else {
        f.push((p, s))
    }
}

/// The files after an `ls` in directory `cwd` listed `outs`.
pub open spec fn recorded_all(
    f: Seq<(Seq<Seq<char>>, usize)>,
    cwd: Seq<Seq<char>>,
    outs: Seq<LsCmdOutput>,
) -> Seq<(Seq<Seq<char>>, usize)>
    decreases outs.len(),
{
    if outs.len() == 0 {
        f
    } else {
        let before = recorded_all(f, cwd, outs.drop_last());
        match outs.last() {
            LsCmdOutput::DirOutput(_) => before,
            LsCmdOutput::FileOutput(n, s) => record(before, cwd.push(n@), s),
        }
    }
}

/// The current directory and the files seen so far.
pub struct ElfFs {
    pub cwd: Vec<String>,
    pub file_sizes: Vec<(Vec<String>, usize)>,
}

fn same_path(a: &Vec<String>, b: &Vec<String>) -> (r: bool)
    ensures
        r == (path_view(a@) == path_view(b@)),
{
    if a.len() != b.len() {
        assert(path_view(a@).len() != path_view(b@).len());
        return false;
    }
    let mut k: usize = 0;
    while k < a.len()
        invariant
            a.len() == b.len(),
            k <= a.len(),
            forall|j: int| 0 <= j < k ==> a[j]@ == b[j]@,
        decreases a.len() - k,
    {
        if !is_word(a[k].as_str(), b[k].as_str()) {
            assert(path_view(a@)[k as int] != path_view(b@)[k as int]);
            return false;
        }
        k += 1;
    }
    assert(path_view(a@) =~= path_view(b@));
    true
}

fn copy_path(p: &Vec<String>, n: usize) -> (r: Vec<String>)
    requires
        n <= p.len(),
    ensures
        path_view(r@) == path_view(p@).subrange(0, n as int),
{
    let mut r: Vec<String> = Vec::new();
    let mut k: usize = 0;
    while k < n
        invariant
            n <= p.len(),
            k <= n,
            path_view(r@) == path_view(p@).subrange(0, k as int),
        decreases n - k,
    {
        let part = p[k].clone();
        assert(part == p[k as int]);
        let ghost before = r@;
        r.push(part);
        assert(path_view(r@) =~= path_view(before).push(part@));
        assert(path_view(r@) =~= path_view(p@).subrange(0, k as int + 1));
        k += 1;
    }
    r
}

impl ElfFs {
    pub open spec fn wf(&self) -> bool {
        paths_unique(files_view(self.file_sizes@))
    }

    /// At the root, with no files seen.
    pub fn empty() -> (r: ElfFs)
        ensures
            r.wf(),
            path_view(r.cwd@) == seq!["/"@],
            r.file_sizes@.len() == 0,
    {
        let mut cwd: Vec<String> = Vec::new();
        cwd.push("/".to_owned());
        assert(path_view(cwd@) =~= seq!["/"@]);
        ElfFs { cwd, file_sizes: Vec::new() }
    }

    /// Applies one command of the session.
    pub fn fold_cmd(acc: &mut ElfFs, cmd: &FsCmd)
        requires
            old(acc).wf(),
        ensures
            final(acc).wf(),
            match *cmd {
                FsCmd::CdParent => path_view(final(acc).cwd@) == (if old(acc).cwd@.len() > 0 {
                    path_view(old(acc).cwd@).drop_last()
                } else {
                    path_view(old(acc).cwd@)
                }) && final(acc).file_sizes@ == old(acc).file_sizes@,
                FsCmd::CdRoot => path_view(final(acc).cwd@) == seq!["/"@] && final(acc).file_sizes@
                    == old(acc).file_sizes@,
                FsCmd::Cd(p) => path_view(final(acc).cwd@) == path_view(old(acc).cwd@).push(p@)
                    && final(acc).file_sizes@ == old(acc).file_sizes@,
                FsCmd::Ls(outs) => path_view(final(acc).cwd@) == path_view(old(acc).cwd@) && files_view(
                    final(acc).file_sizes@,
                ) == recorded_all(files_view(old(acc).file_sizes@), path_view(old(acc).cwd@), outs@),
            },
    {
        match cmd {
            FsCmd::CdParent => acc.cd_parent(),
            FsCmd::CdRoot => acc.cd_root(),
            FsCmd::Cd(path) => acc.cd(path.clone()),
            FsCmd::Ls(contents) => acc.populate_files(contents),
        }
    }

    /// Records the files that one `ls` listed.
    pub fn populate_files(&mut self, cs: &Vec<LsCmdOutput>)
        requires
            old(self).wf(),
        ensures
            final(self).wf(),
            final(self).cwd@ == old(self).cwd@,
            files_view(final(self).file_sizes@) == recorded_all(
                files_view(old(self).file_sizes@),
                path_view(old(self).cwd@),
                cs@,
            ),
    {
        let ghost cwd = path_view(self.cwd@);
        let ghost start = files_view(self.file_sizes@);
        let mut k: usize = 0;
        while k < cs.len()
            invariant
                self.wf(),
                self.cwd@ == old(self).cwd@,
                cwd == path_view(self.cwd@),
                start == files_view(old(self).file_sizes@),
                k <= cs.len(),
                files_view(self.file_sizes@) == recorded_all(start, cwd, cs@.subrange(0, k as int)),
            decreases cs.len() - k,
        {
            proof {
                assert(cs@.subrange(0, k as int + 1).drop_last() =~= cs@.subrange(0, k as int));
            }
            match &cs[k] {
                LsCmdOutput::DirOutput(_) => {},
                LsCmdOutput::FileOutput(n, s) => {
                    let mut path = copy_path(&self.cwd, self.cwd.len());
                    path.push(n.clone());
                    proof {
                        assert(path_view(self.cwd@).subrange(0, self.cwd@.len() as int) =~= path_view(self.cwd@));
                        assert(path_view(path@) =~= cwd.push(n@));
                    }
                    self.record_file(path, *s);
                },
            }
            k += 1;
        }
        assert(cs@.subrange(0, k as int) =~= cs@);
    }

    /// Notes that the file at `path` has size `size`.
    fn record_file(&mut self, path: Vec<String>, size: usize)
        requires
            old(self).wf(),
        ensures
            final(self).wf(),
            final(self).cwd@ == old(self).cwd@,
            files_view(final(self).file_sizes@) == record(files_view(old(self).file_sizes@), path_view(path@), size),
    {
        let ghost f = files_view(self.file_sizes@);
        let ghost p = path_view(path@);
        let mut k: usize = 0;
        while k < self.file_sizes.len()
            invariant
                f == files_view(self.file_sizes@),
                self.file_sizes@ == old(self).file_sizes@,
                self.cwd@ == old(self).cwd@,
                paths_unique(f),
                p == path_view(path@),
                k <= self.file_sizes.len(),
                forall|j: int| 0 <= j < k ==> f[j].0 != p,
            decreases self.file_sizes.len() - k,
        {
            if same_path(&self.file_sizes[k].0, &path) {
                proof {
                    assert(f[k as int].0 == path_view(self.file_sizes@[k as int].0@));
                    assert(f[k as int].0 == p);
                    let c = choose|c: int| 0 <= c < f.len() && f[c].0 == p;
                    if c != k {
                        assert(f[c].0 == f[k as int].0);
                    }
                }
                self.file_sizes.set(k, (path, size));
                proof {
                    assert(files_view(self.file_sizes@) =~= f.update(k as int, (p, size)));
                }
                return;
            }
            k += 1;
        }
        self.file_sizes.push((path, size));
        proof {
            assert(!exists|c: int| 0 <= c < f.len() && f[c].0 == p);
            assert(files_view(self.file_sizes@) =~= f.push((p, size)));
        }
    }

    /// Back to the root.
    pub fn cd_root(&mut self)
        ensures
            path_view(final(self).cwd@) == seq!["/"@],
            final(self).file_sizes@ == old(self).file_sizes@,
    {
        let mut cwd: Vec<String> = Vec::new();
        cwd.push("/".to_owned());
        assert(path_view(cwd@) =~= seq!["/"@]);
        self.cwd = cwd;
    }

    /// Up one directory.
    pub fn cd_parent(&mut self)
        ensures
            path_view(final(self).cwd@) == (if old(self).cwd@.len() > 0 {
                path_view(old(self).cwd@).drop_last()
            } else {
                path_view(old(self).cwd@)
            }),
            final(self).file_sizes@ == old(self).file_sizes@,
    {
        let ghost before = self.cwd@;
        self.cwd.pop();
        proof {
            if before.len() > 0 {
                assert(path_view(self.cwd@) =~= path_view(before).drop_last());
            }
        }
    }

    /// Into the directory `path` below the current one.
    pub fn cd(&mut self, path: String)
        ensures
            path_view(final(self).cwd@) == path_view(old(self).cwd@).push(path@),
            final(self).file_sizes@ == old(self).file_sizes@,
    {
        let ghost before = self.cwd@;
        self.cwd.push(path);
        assert(path_view(self.cwd@) =~= path_view(before).push(path@));
    }
}

/// `d` is a directory that holds the file at `p`, directly or further down:
/// a leading part of `p` other than `p` itself, with at least the root.
pub open spec fn is_dir_of(d: Seq<Seq<char>>, p: Seq<Seq<char>>) -> bool {
    1 <= d.len() < p.len() && p.subrange(0, d.len() as int) == d
}

/// The total size of the files inside directory `d`.
pub open spec fn dir_total(f: Seq<(Seq<Seq<char>>, usize)>, d: Seq<Seq<char>>) -> int
    decreases f.len(),
{
    if f.len() == 0 {
        0
    } else {
        dir_total(f.drop_last(), d) + if is_dir_of(d, f.last().0) {
            f.last().1 as int
        } else {
            0
        }
    }
}

/// The total size of all files.
pub open spec fn size_total(f: Seq<(Seq<Seq<char>>, usize)>) -> int
    decreases f.len(),
{
    if f.len() == 0 {
        0
    } else {
        size_total(f.drop_last()) + f.last().1
    }
}

proof fn lemma_dir_total_zero(f: Seq<(Seq<Seq<char>>, usize)>, d: Seq<Seq<char>>)
    requires
        forall|j: int| 0 <= j < f.len() ==> !is_dir_of(d, #[trigger] f[j].0),
    ensures
        dir_total(f, d) == 0,
    decreases f.len(),
{
    if f.len() > 0 {
        assert(!is_dir_of(d, f[f.len() - 1].0));
        lemma_dir_total_zero(f.drop_last(), d);
    }
}

proof fn lemma_dir_total_le(f: Seq<(Seq<Seq<char>>, usize)>, d: Seq<Seq<char>>)
    ensures
        0 <= dir_total(f, d) <= size_total(f),
    decreases f.len(),
{
    if f.len() > 0 {
        lemma_dir_total_le(f.drop_last(), d);
    }
}

proof fn lemma_size_prefix(f: Seq<(Seq<Seq<char>>, usize)>, i: int)
    requires
        0 <= i <= f.len(),
    ensures
        size_total(f.subrange(0, i)) <= size_total(f),
    decreases f.len() - i,
{
    if i < f.len() {
        lemma_size_prefix(f, i + 1);
        assert(f.subrange(0, i + 1).drop_last() =~= f.subrange(0, i));
    } else {
        assert(f.subrange(0, i) =~= f);
    }
}

pub open spec fn entries_view(r: Seq<(Vec<String>, usize)>) -> Seq<(Seq<Seq<char>>, usize)> {
    r.map_values(|e: (Vec<String>, usize)| (path_view(e.0@), e.1))
}

/// Every directory of the first `i` files has an entry.
pub open spec fn covers(e: Seq<(Seq<Seq<char>>, usize)>, f: Seq<(Seq<Seq<char>>, usize)>, i: int) -> bool {
    forall|j: int, l: int|
        0 <= j < i && 1 <= l < f[j].0.len() ==> #[trigger] has_entry(e, f[j].0.subrange(0, l))
}

/// Some entry is for directory `d`.
pub open spec fn has_entry(e: Seq<(Seq<Seq<char>>, usize)>, d: Seq<Seq<char>>) -> bool {
    exists|k: int| 0 <= k < e.len() && e[k].0 == d
}

/// The leading parts of `p` shorter than `l`, the root at least, have entries.
pub open spec fn covers_prefixes(e: Seq<(Seq<Seq<char>>, usize)>, p: Seq<Seq<char>>, l: int) -> bool {
    forall|m: int| 1 <= m < l && m < p.len() ==> #[trigger] has_entry(e, p.subrange(0, m))
}

/// Adding entries, or changing their sizes, keeps what is covered.
proof fn lemma_covers_grow(
    e: Seq<(Seq<Seq<char>>, usize)>,
    e2: Seq<(Seq<Seq<char>>, usize)>,
    f: Seq<(Seq<Seq<char>>, usize)>,
    i: int,
    p: Seq<Seq<char>>,
    l: int,
)
    requires
        e.len() <= e2.len(),
        forall|x: int| 0 <= x < e.len() ==> (#[trigger] e2[x]).0 == e[x].0,
    ensures
        covers(e, f, i) ==> covers(e2, f, i),
        covers_prefixes(e, p, l) ==> covers_prefixes(e2, p, l),
{
    assert forall|d: Seq<Seq<char>>| has_entry(e, d) implies #[trigger] has_entry(e2, d) by {
        let k = choose|k: int| 0 <= k < e.len() && e[k].0 == d;
        assert(e2[k].0 == e[k].0);
    }
}

/// The entry whose directory is `d`.
fn find_entry(r: &Vec<(Vec<String>, usize)>, d: &Vec<String>) -> (res: Option<usize>)
    ensures
        match res {
            Some(k) => k < r.len() && entries_view(r@)[k as int].0 == path_view(d@),
            None => forall|x: int| 0 <= x < r.len() ==> entries_view(r@)[x].0 != path_view(d@),
        },
{
    let mut k: usize = 0;
    while k < r.len()
        invariant
            k <= r.len(),
            forall|x: int| 0 <= x < k ==> entries_view(r@)[x].0 != path_view(d@),
        decreases r.len() - k,
    {
        assert(entries_view(r@)[k as int].0 == path_view(r@[k as int].0@));
        if same_path(&r[k].0, d) {
            return Some(k);
        }
        k += 1;
    }
    None
}

impl ElfFs {
    /// Each directory that holds a file, with the total size of the files
    /// inside it, at any depth.
    pub fn dir_sizes(&self) -> (r: Vec<(Vec<String>, usize)>)
        requires
            size_total(files_view(self.file_sizes@)) <= usize::MAX,
        ensures
            ({
                let f = files_view(self.file_sizes@);
                let e = entries_view(r@);
                &&& paths_unique(e)
                &&& forall|k: int|
                    0 <= k < e.len() ==> (#[trigger] e[k]).1 == dir_total(f, e[k].0) && exists|j: int|
                        0 <= j < f.len() && is_dir_of(e[k].0, f[j].0)
                &&& covers(e, f, f.len() as int)
            }),
    {
        let ghost f = files_view(self.file_sizes@);
        let mut r: Vec<(Vec<String>, usize)> = Vec::new();
        let mut i: usize = 0;
        while i < self.file_sizes.len()
            invariant
                f == files_view(self.file_sizes@),
                size_total(f) <= usize::MAX,
                i <= f.len(),
                paths_unique(entries_view(r@)),
                forall|k: int|
                    0 <= k < r.len() ==> (#[trigger] entries_view(r@)[k]).1 == dir_total(
                        f.subrange(0, i as int),
                        entries_view(r@)[k].0,
                    ) && exists|j: int| 0 <= j < i && is_dir_of(entries_view(r@)[k].0, f[j].0),
                covers(entries_view(r@), f, i as int),
            decreases self.file_sizes.len() - i,
        {
            let path = &self.file_sizes[i].0;
            let size = self.file_sizes[i].1;
            let ghost p = f[i as int].0;
            assert(p == path_view(path@));
            proof {
                assert(f.subrange(0, i as int + 1).drop_last() =~= f.subrange(0, i as int));
                lemma_size_prefix(f, i as int + 1);
            }
            let mut l: usize = 1;
            while l < path.len()
                invariant
                    f == files_view(self.file_sizes@),
                    size_total(f) <= usize::MAX,
                    size_total(f.subrange(0, i as int + 1)) <= size_total(f),
                    f.subrange(0, i as int + 1).drop_last() == f.subrange(0, i as int),
                    i < f.len(),
                    p == f[i as int].0,
                    p == path_view(path@),
                    size == f[i as int].1,
                    1 <= l,
                    l <= path.len() || path.len() <= 1,
                    paths_unique(entries_view(r@)),
                    forall|k: int|
                        0 <= k < r.len() ==> (#[trigger] entries_view(r@)[k]).1 == dir_total(
                            f.subrange(0, i as int),
                            entries_view(r@)[k].0,
                        ) + (if is_dir_of(entries_view(r@)[k].0, p) && entries_view(r@)[k].0.len() < l {
                            size as int
                        } else {
                            0
                        }) && exists|j: int| 0 <= j <= i && is_dir_of(entries_view(r@)[k].0, f[j].0),
                    covers(entries_view(r@), f, i as int),
                    covers_prefixes(entries_view(r@), p, l as int),
                decreases path.len() - l,
            {
                let d = copy_path(path, l);
                let ghost dv = p.subrange(0, l as int);
                assert(is_dir_of(dv, p));
                let ghost e = entries_view(r@);
                proof {
                    lemma_dir_total_le(f.subrange(0, i as int + 1), dv);
                }
                match find_entry(&r, &d) {
                    Some(k) => {
                        let old_size = r[k].1;
                        proof {
                            assert(e[k as int].1 == old_size);
                            assert(e[k as int].1 == dir_total(f.subrange(0, i as int), dv));
                            assert(dir_total(f.subrange(0, i as int + 1), dv) == dir_total(
                                f.subrange(0, i as int),
                                dv,
                            ) + size);
                        }
                        let key = copy_path(path, l);
                        r.set(k, (key, old_size + size));
                        proof {
                            let e2 = entries_view(r@);
                            assert(e2 =~= e.update(k as int, (dv, (old_size + size) as usize)));
                            lemma_covers_grow(e, e2, f, i as int, p, l as int);
                            assert(e2[k as int].0 == p.subrange(0, l as int));
                            assert(has_entry(e2, p.subrange(0, l as int)));
                            assert forall|x: int| 0 <= x < r.len() implies (#[trigger] entries_view(r@)[x]).1 == dir_total(
                                f.subrange(0, i as int),
                                entries_view(r@)[x].0,
                            ) + (if is_dir_of(entries_view(r@)[x].0, p) && entries_view(r@)[x].0.len() < l + 1 {
                                size as int
                            } else {
                                0
                            }) && exists|j: int| 0 <= j <= i && is_dir_of(entries_view(r@)[x].0, f[j].0) by {
                                if x != k && is_dir_of(e[x].0, p) && e[x].0.len() == l {
                                    assert(e[x].0 =~= dv);
                                }
                                if x == k {
                                    assert(is_dir_of(dv, f[i as int].0));
                                }
                            }
                        }
                    },
                    None => {
                        proof {
                            assert forall|j: int| 0 <= j < f.subrange(0, i as int).len() implies !is_dir_of(
                                dv,
                                #[trigger] f.subrange(0, i as int)[j].0,
                            ) by {
                                if is_dir_of(dv, f[j].0) {
                                    assert(f[j].0.subrange(0, l as int) =~= dv);
                                    assert(has_entry(e, f[j].0.subrange(0, l as int)));
                                }
                            }
                            lemma_dir_total_zero(f.subrange(0, i as int), dv);
                        }
                        r.push((d, size));
                        proof {
                            let e2 = entries_view(r@);
                            assert(e2 =~= e.push((dv, size)));
                            lemma_covers_grow(e, e2, f, i as int, p, l as int);
                            assert(e2[e.len() as int].0 == p.subrange(0, l as int));
                            assert(has_entry(e2, p.subrange(0, l as int)));
                            assert forall|x: int| 0 <= x < r.len() implies (#[trigger] entries_view(r@)[x]).1 == dir_total(
                                f.subrange(0, i as int),
                                entries_view(r@)[x].0,
                            ) + (if is_dir_of(entries_view(r@)[x].0, p) && entries_view(r@)[x].0.len() < l + 1 {
                                size as int
                            } else {
                                0
                            }) && exists|j: int| 0 <= j <= i && is_dir_of(entries_view(r@)[x].0, f[j].0) by {
                                if x < e.len() && is_dir_of(e[x].0, p) && e[x].0.len() == l {
                                    assert(e[x].0 =~= dv);
                                }
                                if x == e.len() {
                                    assert(is_dir_of(dv, f[i as int].0));
                                }
                            }
                        }
                    },
                }
                l += 1;
            }
            proof {
                let e = entries_view(r@);
                assert forall|k: int| 0 <= k < r.len() implies (#[trigger] entries_view(r@)[k]).1 == dir_total(
                    f.subrange(0, i as int + 1),
                    entries_view(r@)[k].0,
                ) && exists|j: int| 0 <= j < i + 1 && is_dir_of(entries_view(r@)[k].0, f[j].0) by {
                    let ek = entries_view(r@)[k].0;
                    if is_dir_of(ek, p) {
                        assert(ek.len() < l);
                    }
                }
                assert forall|j: int, m: int|
                    0 <= j < i + 1 && 1 <= m < f[j].0.len() implies #[trigger] has_entry(e, f[j].0.subrange(0, m)) by {
                    if j == i {
                        assert(f[j].0.subrange(0, m) == p.subrange(0, m));
                    }
                }
            }
            i += 1;
        }
        proof {
            assert(f.subrange(0, i as int) =~= f);
        }
        r
    }
}

/// A listed entry: a directory (its name), or a file (its name and size).
pub type OutputModel = (bool, Seq<char>, usize);

/// A command: 0 `cd ..`, 1 `cd /`, 2 `cd` into a named directory, 3 `ls`
/// with what it listed.
pub type CmdModel = (int, Seq<char>, Seq<OutputModel>);

pub open spec fn output_model(o: LsCmdOutput) -> OutputModel {
    match o {
        LsCmdOutput::DirOutput(n) => (true, n@, 0),
        LsCmdOutput::FileOutput(n, s) => (false, n@, s),
    }
}

pub open spec fn cmd_model(c: FsCmd) -> CmdModel {
    match c {
        FsCmd::CdParent => (0, Seq::empty(), Seq::empty()),
        FsCmd::CdRoot => (1, Seq::empty(), Seq::empty()),
        FsCmd::Cd(p) => (2, p@, Seq::empty()),
        FsCmd::Ls(outs) => (3, Seq::empty(), outs@.map_values(|o: LsCmdOutput| output_model(o))),
    }
}

/// The line, in words, is a command: it starts with `$`.
pub open spec fn is_cmd_line(w: Seq<Seq<char>>) -> bool {
    w.len() > 0 && w[0] == "$"@
}

/// A line listed by `ls`: `dir <name>`, or `<size> <name>`.
pub open spec fn output_of(w: Seq<Seq<char>>) -> Option<OutputModel> {
    if w.len() != 2 {
        None
    } else if w[0] == "dir"@ {
        Some((true, w[1], 0))
    } else {
        match usize_of(w[0]) {
            Some(s) => Some((false, w[1], s)),
            None => None,
        }
    }
}

/// The lines that `ls` listed from line `i` on, up to the next command or
/// the end, and where they stop.
pub open spec fn outputs_from(ws: Seq<Seq<Seq<char>>>, i: int) -> Option<(Seq<OutputModel>, int)>
    decreases ws.len() - i,
{
    if i < 0 || i > ws.len() {
        None
    } else if i == ws.len() || is_cmd_line(ws[i]) {
        Some((Seq::empty(), i))
    } else {
        match (output_of(ws[i]), outputs_from(ws, i + 1)) {
            (Some(o), Some((rest, end))) => Some((seq![o] + rest, end)),
            _ => None,
        }
    }
}

/// The commands of a session, given as the words of each line, from line
/// `i` on.
pub open spec fn session_from(ws: Seq<Seq<Seq<char>>>, i: int) -> Option<Seq<CmdModel>>
    decreases ws.len() - i,
{
    if i < 0 || i > ws.len() {
        None
    } else if i == ws.len() {
        Some(Seq::empty())
    } else {
        let w = ws[i];
        if w == seq!["$"@, "ls"@] {
            match outputs_from(ws, i + 1) {
                Some((outs, end)) => if i < end <= ws.len() {
                    match session_from(ws, end) {
                        Some(rest) => Some(seq![(3int, Seq::empty(), outs)] + rest),
                        None => None,
                    }
                } else {
                    None
                },
                None => None,
            }
        } else if w.len() == 3 && w[0] == "$"@ && w[1] == "cd"@ {
            let c: CmdModel = if w[2] == "/"@ {
                (1, Seq::empty(), Seq::empty())
            } else if w[2] == ".."@ {
                (0, Seq::empty(), Seq::empty())
            } else {
                (2, w[2], Seq::empty())
            };
            match session_from(ws, i + 1) {
                Some(rest) => Some(seq![c] + rest),
                None => None,
            }
        } else {
            None
        }
    }
}

pub open spec fn line_words(lines: Seq<String>) -> Seq<Seq<Seq<char>>> {
    lines.map_values(|l: String| words(l@))
}

fn word_of<'a>(text: &'a str, b: &Vec<(usize, usize)>, k: usize) -> (r: &'a str)
    requires
        bounds_ok(text@, b@),
        k < b.len(),
    ensures
        r@ == words(text@)[k as int],
{
    assert(b@[k as int] == b[k as int]);
    text.substring_char(b[k].0, b[k].1)
}

fn read_output(line: &str) -> (r: Option<LsCmdOutput>)
    ensures
        match r {
            Some(o) => output_of(words(line@)) == Some(output_model(o)),
            None => output_of(words(line@)) is None,
        },
{
    let b = word_bounds(line);
    if b.len() != 2 {
        return None;
    }
    let first = word_of(line, &b, 0);
    let name = word_of(line, &b, 1).to_owned();
    if is_word(first, "dir") {
        return Some(LsCmdOutput::DirOutput(name));
    }
    match parse_usize(first) {
        Some(size) => Some(LsCmdOutput::FileOutput(name, size)),
        None => None,
    }
}

fn is_cmd(line: &str) -> (r: bool)
    ensures
        r == is_cmd_line(words(line@)),
{
    let b = word_bounds(line);
    b.len() > 0 && is_word(word_of(line, &b, 0), "$")
}

/// Reads the session: `$ cd <dir>` and `$ ls` lines, each `ls` followed by
/// the `dir <name>` and `<size> <name>` lines it listed.
pub fn parse_cmds(lines: &Vec<String>) -> (r: Result<Vec<FsCmd>, String>)
    ensures
        match r {
            Ok(cmds) => session_from(line_words(lines@), 0) == Some(cmds@.map_values(|c: FsCmd| cmd_model(c))),
            Err(_) => session_from(line_words(lines@), 0) is None,
        },
{
    let ghost ws = line_words(lines@);
    let mut cmds: Vec<FsCmd> = Vec::new();
    let mut i: usize = 0;
    while i < lines.len()
        invariant
            ws == line_words(lines@),
            ws.len() == lines.len(),
            i <= lines.len(),
            session_from(ws, 0) == (match session_from(ws, i as int) {
                Some(rest) => Some(cmds@.map_values(|c: FsCmd| cmd_model(c)) + rest),
                None => None,
            }),
        decreases lines.len() - i,
    {
        let line = lines[i].as_str();
        assert(ws[i as int] == words(line@));
        let b = word_bounds(line);
        let ghost before = cmds@.map_values(|c: FsCmd| cmd_model(c));
        if b.len() == 2 && is_word(word_of(line, &b, 0), "$") && is_word(word_of(line, &b, 1), "ls") {
            assert(ws[i as int] =~= seq!["$"@, "ls"@]);
            let mut outs: Vec<LsCmdOutput> = Vec::new();
            let mut j: usize = i + 1;
            while j < lines.len() && !is_cmd(lines[j].as_str())
                invariant
                    ws == line_words(lines@),
                    ws.len() == lines.len(),
                    i < j <= lines.len(),
                    ws[i as int] == seq!["$"@, "ls"@],
                    before == cmds@.map_values(|c: FsCmd| cmd_model(c)),
                    session_from(ws, 0) == (match session_from(ws, i as int) {
                        Some(rest) => Some(before + rest),
                        None => None,
                    }),
                    outputs_from(ws, i as int + 1) == (match outputs_from(ws, j as int) {
                        Some((rest, end)) => Some((outs@.map_values(|o: LsCmdOutput| output_model(o)) + rest, end)),
                        None => None,
                    }),
                decreases lines.len() - j,
            {
                assert(ws[j as int] == words(lines[j as int]@));
                let o = match read_output(lines[j].as_str()) {
                    Some(o) => o,
                    None => {
                        return Err("invalid ls output line".to_owned());
                    },
                };
                let ghost ob = outs@.map_values(|o: LsCmdOutput| output_model(o));
                outs.push(o);
                proof {
                    assert(outs@.map_values(|o: LsCmdOutput| output_model(o)) =~= ob.push(output_model(o)));
                    match outputs_from(ws, j as int + 1) {
                        Some((rest, end)) => {
                            assert(ob + (seq![output_model(o)] + rest) =~= outs@.map_values(
                                |o: LsCmdOutput| output_model(o),
                            ) + rest);
                        },
                        None => {},
                    }
                }
                j += 1;
            }
            proof {
                if j < lines.len() {
                    assert(ws[j as int] == words(lines[j as int]@));
                }
                assert(outs@.map_values(|o: LsCmdOutput| output_model(o)) + Seq::<OutputModel>::empty() =~= outs@.map_values(
                    |o: LsCmdOutput| output_model(o),
                ));
            }
            let ghost om = outs@.map_values(|o: LsCmdOutput| output_model(o));
            cmds.push(FsCmd::Ls(outs));
            proof {
                assert(cmds@.map_values(|c: FsCmd| cmd_model(c)) =~= before.push((3int, Seq::<char>::empty(), om)));
                match session_from(ws, j as int) {
                    Some(rest) => {
                        assert(before + (seq![(3int, Seq::<char>::empty(), om)] + rest) =~= cmds@.map_values(
                            |c: FsCmd| cmd_model(c),
                        ) + rest);
                    },
                    None => {},
                }
            }
            i = j;
        } else if b.len() == 3 && is_word(word_of(line, &b, 0), "$") && is_word(word_of(line, &b, 1), "cd") {
            let target = word_of(line, &b, 2);
            let cmd = if is_word(target, "/") {
                FsCmd::CdRoot
            } else if is_word(target, "..") {
                FsCmd::CdParent
            } else {
                FsCmd::Cd(target.to_owned())
            };
            let ghost cm = cmd_model(cmd);
            cmds.push(cmd);
            proof {
                assert(cmds@.map_values(|c: FsCmd| cmd_model(c)) =~= before.push(cm));
                match session_from(ws, i as int + 1) {
                    Some(rest) => {
                        assert(before + (seq![cm] + rest) =~= cmds@.map_values(|c: FsCmd| cmd_model(c)) + rest);
                    },
                    None => {},
                }
            }
            i += 1;
        } else {
            proof {
                if ws[i as int] == seq!["$"@, "ls"@] {
                    assert(words(line@).len() == 2);
                }
            }
            return Err("expected a cd or ls command".to_owned());
        }
    }
    assert(cmds@.map_values(|c: FsCmd| cmd_model(c)) + Seq::<CmdModel>::empty() =~= cmds@.map_values(
        |c: FsCmd| cmd_model(c),
    ));
    Ok(cmds)
}

/// The sizes of the first `n` entries that are at most `limit`, added up.
pub open spec fn sum_at_most(e: Seq<(Seq<Seq<char>>, usize)>, n: int, limit: int) -> int
    decreases n,
{
    if n <= 0 {
        0
    } else {
        sum_at_most(e, n - 1, limit) + if e[n - 1].1 <= limit { e[n - 1].1 as int } else { 0 }
    }
}

/// The total size of the directories whose size is at most `limit`.
pub fn total_at_most(sizes: &Vec<(Vec<String>, usize)>, limit: usize) -> (r: u64)
    requires
        sizes.len() <= u32::MAX,
        limit <= u32::MAX,
    ensures
        r == sum_at_most(entries_view(sizes@), sizes.len() as int, limit as int),
{
    let ghost e = entries_view(sizes@);
    let mut total: u64 = 0;
    let mut k: usize = 0;
    while k < sizes.len()
        invariant
            e == entries_view(sizes@),
            sizes.len() <= u32::MAX,
            limit <= u32::MAX,
            k <= sizes.len(),
            total == sum_at_most(e, k as int, limit as int),
            total <= k * (limit as int),
        decreases sizes.len() - k,
    {
        assert(e[k as int].1 == sizes[k as int].1);
        if sizes[k].1 <= limit {
            assert(total + sizes[k as int].1 <= (k + 1) * (limit as int)) by (nonlinear_arith)
                requires
                    total <= k * (limit as int),
                    sizes[k as int].1 <= limit,
            ;
            assert((k + 1) * (limit as int) <= 0x1_0000_0000 * 0xFFFF_FFFF) by (nonlinear_arith)
                requires
                    k < 0x1_0000_0000,
                    limit <= 0xFFFF_FFFF,
            ;
            total = total + sizes[k].1 as u64;
        } else {
            assert(total <= (k + 1) * (limit as int)) by (nonlinear_arith)
                requires
                    total <= k * (limit as int),
                    limit >= 0,
            ;
        }
        k += 1;
    }
    total
}

/// The size of the smallest directory of at least `needed`, if there is one.
pub fn smallest_at_least(sizes: &Vec<(Vec<String>, usize)>, needed: usize) -> (r: Option<usize>)
    ensures
        match r {
            Some(s) => s >= needed && (exists|k: int| 0 <= k < sizes.len() && (#[trigger] sizes[k]).1 == s)
                && forall|k: int| 0 <= k < sizes.len() && (#[trigger] sizes[k]).1 >= needed ==> s <= sizes[k].1,
            None => forall|k: int| 0 <= k < sizes.len() ==> (#[trigger] sizes[k]).1 < needed,
        },
{
    let mut best: Option<usize> = None;
    let mut k: usize = 0;
    while k < sizes.len()
        invariant
            k <= sizes.len(),
            match best {
                Some(s) => s >= needed && (exists|j: int| 0 <= j < k && (#[trigger] sizes[j]).1 == s) && forall|j: int|
                    0 <= j < k && (#[trigger] sizes[j]).1 >= needed ==> s <= sizes[j].1,
                None => forall|j: int| 0 <= j < k ==> (#[trigger] sizes[j]).1 < needed,
            },
        decreases sizes.len() - k,
    {
        let s = sizes[k].1;
        if s >= needed {
            match best {
                Some(b) => {
                    if s < b {
                        best = Some(s);
                    }
                },
                None => {
                    best = Some(s);
                },
            }
        }
        k += 1;
    }
    best
}

/// The size of the entry for directory `dir`, if there is one.
pub fn size_of_dir(sizes: &Vec<(Vec<String>, usize)>, dir: &Vec<String>) -> (r: Option<usize>)
    ensures
        match r {
            Some(s) => exists|k: int|
                0 <= k < sizes.len() && entries_view(sizes@)[k] == (path_view(dir@), s),
            None => forall|k: int| 0 <= k < sizes.len() ==> entries_view(sizes@)[k].0 != path_view(dir@),
        },
{
    match find_entry(sizes, dir) {
        Some(k) => {
            assert(entries_view(sizes@)[k as int].1 == sizes[k as int].1);
            Some(sizes[k].1)
        },
        None => None,
    }
}

/// How much space must be freed on a disk of 70000000 of which `used` is
/// taken, so that 30000000 are free.
pub fn space_to_free(used: usize) -> (r: usize)
    requires
        40_000_000 <= used <= 70_000_000,
    ensures
        r == 30_000_000 - (70_000_000 - used),
{
    let free_space = 70_000_000 - used;
    30_000_000 - free_space
}

} // verus!
