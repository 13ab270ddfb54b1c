use crate::files::{join_path, joined, FileSet};
use crate::icon::{all_types, FileType, IconFile};
use crate::theme::{
    closest, dir_distance, dir_matches, first_exact, found_in_base, found_in_bases, found_in_dir,
    icon_file_name, icon_files_of, path_of, DirectoryIndex, ThemeInfo,
};
use vstd::prelude::*;
use vstd::string::StringExecFns;

verus! {

/// `s` is a prefix of `t`.
pub open spec fn is_prefix(s: Seq<(int, int, Seq<char>)>, t: Seq<(int, int, Seq<char>)>) -> bool {
    s.len() <= t.len() && t.subrange(0, s.len() as int) == s
}

/// The first found file, after `acc`, whose directory matches exactly.
pub open spec fn run_exact(
    acc: Option<(int, int, Seq<char>)>,
    t: Seq<(int, int, Seq<char>)>,
    dirs: Seq<DirectoryIndex>,
    size: u32,
    scale: u32,
) -> Option<(int, int, Seq<char>)>
    decreases t.len(),
{
    if t.len() == 0 {
        acc
    } else {
        match run_exact(acc, t.drop_last(), dirs, size, scale) {
            Some(a) => Some(a),
            None => if dir_matches(dirs[t.last().1], size, scale) {
                Some(t.last())
            } else {
                None
            },
        }
    }
}

/// The best file after offering `c` to the best so far `best`.
pub open spec fn better(
    c: (int, int, Seq<char>),
    best: Option<(int, int, Seq<char>)>,
    dirs: Seq<DirectoryIndex>,
    size: u32,
    scale: u32,
) -> Option<(int, int, Seq<char>)> {
    match best {
        None => Some(c),
        Some(b) => if dir_distance(dirs[c.1], size, scale) < dir_distance(dirs[b.1], size, scale) || (
        c.0 == b.0 && c.1 == b.1) {
            Some(c)
        } else {
            Some(b)
        },
    }
}

/// The best file after offering every file of `t`, in order, starting from `best`.
pub open spec fn run_closest(
    best: Option<(int, int, Seq<char>)>,
    t: Seq<(int, int, Seq<char>)>,
    dirs: Seq<DirectoryIndex>,
    size: u32,
    scale: u32,
) -> Option<(int, int, Seq<char>)>
    decreases t.len(),
{
    if t.len() == 0 {
        best
    } else {
        better(t.last(), run_closest(best, t.drop_last(), dirs, size, scale), dirs, size, scale)
    }
}

proof fn lemma_run_exact_concat(
    acc: Option<(int, int, Seq<char>)>,
    s: Seq<(int, int, Seq<char>)>,
    t: Seq<(int, int, Seq<char>)>,
    dirs: Seq<DirectoryIndex>,
    size: u32,
    scale: u32,
)
    ensures
        run_exact(acc, s + t, dirs, size, scale) == run_exact(run_exact(acc, s, dirs, size, scale), t, dirs, size, scale),
    decreases t.len(),
{
    if t.len() == 0 {
        assert(s + t =~= s);
    } else {
        assert((s + t).drop_last() =~= s + t.drop_last());
        lemma_run_exact_concat(acc, s, t.drop_last(), dirs, size, scale);
    }
}

proof fn lemma_run_exact_some(
    x: (int, int, Seq<char>),
    t: Seq<(int, int, Seq<char>)>,
    dirs: Seq<DirectoryIndex>,
    size: u32,
    scale: u32,
)
    ensures
        run_exact(Some(x), t, dirs, size, scale) == Some(x),
    decreases t.len(),
{
    if t.len() > 0 {
        lemma_run_exact_some(x, t.drop_last(), dirs, size, scale);
    }
}

proof fn lemma_run_closest_concat(
    best: Option<(int, int, Seq<char>)>,
    s: Seq<(int, int, Seq<char>)>,
    t: Seq<(int, int, Seq<char>)>,
    dirs: Seq<DirectoryIndex>,
    size: u32,
    scale: u32,
)
    ensures
        run_closest(best, s + t, dirs, size, scale) == run_closest(run_closest(best, s, dirs, size, scale), t, dirs, size, scale),
    decreases t.len(),
{
    if t.len() == 0 {
        assert(s + t =~= s);
    } else {
        assert((s + t).drop_last() =~= s + t.drop_last());
        lemma_run_closest_concat(best, s, t.drop_last(), dirs, size, scale);
    }
}

/// The exact-match fold over a list agrees with `first_exact` on it.
proof fn lemma_exact_index(
    s: Seq<(int, int, Seq<char>)>,
    dirs: Seq<DirectoryIndex>,
    size: u32,
    scale: u32,
    n: nat,
)
    requires
        n <= s.len(),
    ensures
        match first_exact(s, dirs, size, scale, n) {
            Some(j) => 0 <= j < n && run_exact(None, s.subrange(0, n as int), dirs, size, scale) == Some(s[j]),
            None => run_exact(None, s.subrange(0, n as int), dirs, size, scale) is None,
        },
    decreases n,
{
    if n > 0 {
        lemma_exact_index(s, dirs, size, scale, (n - 1) as nat);
        assert(s.subrange(0, n as int).drop_last() =~= s.subrange(0, n - 1));
    }
}

/// The closest-match fold over a list agrees with `closest` on it.
proof fn lemma_closest_index(
    s: Seq<(int, int, Seq<char>)>,
    dirs: Seq<DirectoryIndex>,
    size: u32,
    scale: u32,
    n: nat,
)
    requires
        n <= s.len(),
    ensures
        match closest(s, dirs, size, scale, n) {
            Some(j) => 0 <= j < n && run_closest(None, s.subrange(0, n as int), dirs, size, scale) == Some(s[j]),
            None => run_closest(None, s.subrange(0, n as int), dirs, size, scale) is None,
        },
    decreases n,
{
    if n > 0 {
        lemma_closest_index(s, dirs, size, scale, (n - 1) as nat);
        assert(s.subrange(0, n as int).drop_last() =~= s.subrange(0, n - 1));
    }
}

/// Every file found in one directory lies in that base directory and subdirectory.
proof fn lemma_dir_entries(
    files: FileSet,
    base: int,
    dir: int,
    dir_path: Seq<char>,
    name: Seq<char>,
    e: nat,
)
    ensures
        forall|i: int|
            0 <= i < found_in_dir(files, base, dir, dir_path, name, e).len() ==> (#[trigger] found_in_dir(
                files,
                base,
                dir,
                dir_path,
                name,
                e,
            )[i]).0 == base && found_in_dir(files, base, dir, dir_path, name, e)[i].1 == dir,
    decreases e,
{
    if e > 0 {
        lemma_dir_entries(files, base, dir, dir_path, name, (e - 1) as nat);
        let prev = found_in_dir(files, base, dir, dir_path, name, (e - 1) as nat);
        let cur = found_in_dir(files, base, dir, dir_path, name, e);
        assert forall|i: int| 0 <= i < cur.len() implies (#[trigger] cur[i]).0 == base && cur[i].1 == dir by {
            if i < prev.len() {
                assert(cur[i] == prev[i]);
            }
        }
    }
}

proof fn lemma_exact_skip(
    t: Seq<(int, int, Seq<char>)>,
    dirs: Seq<DirectoryIndex>,
    size: u32,
    scale: u32,
)
    requires
        forall|i: int| 0 <= i < t.len() ==> !dir_matches(dirs[#[trigger] t[i].1], size, scale),
    ensures
        run_exact(None, t, dirs, size, scale) is None,
    decreases t.len(),
{
    if t.len() > 0 {
        assert forall|i: int| 0 <= i < t.drop_last().len() implies !dir_matches(dirs[#[trigger] t.drop_last()[i].1], size, scale) by {
            assert(t.drop_last()[i] == t[i]);
        }
        lemma_exact_skip(t.drop_last(), dirs, size, scale);
        assert(t.last() == t[t.len() - 1]);
    }
}

proof fn lemma_closest_skip(
    b: (int, int, Seq<char>),
    t: Seq<(int, int, Seq<char>)>,
    dirs: Seq<DirectoryIndex>,
    size: u32,
    scale: u32,
)
    requires
        forall|i: int|
            0 <= i < t.len() ==> !((#[trigger] t[i]).0 == b.0 && t[i].1 == b.1) && dir_distance(dirs[t[i].1], size, scale)
                >= dir_distance(dirs[b.1], size, scale),
    ensures
        run_closest(Some(b), t, dirs, size, scale) == Some(b),
    decreases t.len(),
{
    if t.len() > 0 {
        assert forall|i: int| 0 <= i < t.drop_last().len() implies !((#[trigger] t.drop_last()[i]).0 == b.0 && t.drop_last()[i].1 == b.1)
            && dir_distance(dirs[t.drop_last()[i].1], size, scale) >= dir_distance(dirs[b.1], size, scale) by {
            assert(t.drop_last()[i] == t[i]);
        }
        lemma_closest_skip(b, t.drop_last(), dirs, size, scale);
        assert(t.last() == t[t.len() - 1]);
    }
}

proof fn lemma_prefix_trans(a: Seq<(int, int, Seq<char>)>, b: Seq<(int, int, Seq<char>)>, c: Seq<(int, int, Seq<char>)>)
    requires
        is_prefix(a, b),
        is_prefix(b, c),
    ensures
        is_prefix(a, c),
{
    assert(c.subrange(0, a.len() as int) =~= c.subrange(0, b.len() as int).subrange(0, a.len() as int));
}

proof fn lemma_prefix_extend(s: Seq<(int, int, Seq<char>)>, t: Seq<(int, int, Seq<char>)>)
    ensures
        is_prefix(s, s + t),
{
    assert((s + t).subrange(0, s.len() as int) =~= s);
}

proof fn lemma_prefix_left(p: Seq<(int, int, Seq<char>)>, s: Seq<(int, int, Seq<char>)>, t: Seq<(int, int, Seq<char>)>)
    requires
        is_prefix(s, t),
    ensures
        is_prefix(p + s, p + t),
{
    assert((p + t).subrange(0, (p + s).len() as int) =~= p + s);
}

proof fn lemma_prefix_dir(files: FileSet, base: int, dir: int, dp: Seq<char>, name: Seq<char>, e1: nat, e2: nat)
    requires
        e1 <= e2,
    ensures
        is_prefix(found_in_dir(files, base, dir, dp, name, e1), found_in_dir(files, base, dir, dp, name, e2)),
    decreases e2,
{
    if e1 == e2 {
        assert(found_in_dir(files, base, dir, dp, name, e2).subrange(0, found_in_dir(files, base, dir, dp, name, e1).len() as int)
            =~= found_in_dir(files, base, dir, dp, name, e1));
    } else {
        lemma_prefix_dir(files, base, dir, dp, name, e1, (e2 - 1) as nat);
        let prev = found_in_dir(files, base, dir, dp, name, (e2 - 1) as nat);
        let p = joined(dp, icon_file_name(name, all_types()[e2 - 1]));
        let tail = if crate::theme::present(files, p) { seq![(base, dir, p)] } else { seq![] };
        lemma_prefix_extend(prev, tail);
        lemma_prefix_trans(found_in_dir(files, base, dir, dp, name, e1), prev, prev + tail);
    }
}

proof fn lemma_prefix_base(
    files: FileSet,
    base: int,
    bp: Seq<char>,
    dirs: Seq<DirectoryIndex>,
    name: Seq<char>,
    d1: nat,
    d2: nat,
)
    requires
        d1 <= d2 <= dirs.len(),
    ensures
        is_prefix(found_in_base(files, base, bp, dirs, name, d1), found_in_base(files, base, bp, dirs, name, d2)),
    decreases d2,
{
    if d1 == d2 {
        assert(found_in_base(files, base, bp, dirs, name, d2).subrange(0, found_in_base(files, base, bp, dirs, name, d1).len() as int)
            =~= found_in_base(files, base, bp, dirs, name, d1));
    } else {
        lemma_prefix_base(files, base, bp, dirs, name, d1, (d2 - 1) as nat);
        let prev = found_in_base(files, base, bp, dirs, name, (d2 - 1) as nat);
        let tail = found_in_dir(files, base, d2 - 1, joined(bp, dirs[d2 - 1].directory_name@), name, 3);
        lemma_prefix_extend(prev, tail);
        lemma_prefix_trans(found_in_base(files, base, bp, dirs, name, d1), prev, prev + tail);
    }
}

proof fn lemma_prefix_bases(
    files: FileSet,
    bases: Seq<String>,
    dirs: Seq<DirectoryIndex>,
    name: Seq<char>,
    b1: nat,
    b2: nat,
)
    requires
        b1 <= b2 <= bases.len(),
    ensures
        is_prefix(found_in_bases(files, bases, dirs, name, b1), found_in_bases(files, bases, dirs, name, b2)),
    decreases b2,
{
    if b1 == b2 {
        assert(found_in_bases(files, bases, dirs, name, b2).subrange(0, found_in_bases(files, bases, dirs, name, b1).len() as int)
            =~= found_in_bases(files, bases, dirs, name, b1));
    } else {
        lemma_prefix_bases(files, bases, dirs, name, b1, (b2 - 1) as nat);
        let prev = found_in_bases(files, bases, dirs, name, (b2 - 1) as nat);
        let tail = found_in_base(files, b2 - 1, bases[b2 - 1]@, dirs, name, dirs.len());
        lemma_prefix_extend(prev, tail);
        lemma_prefix_trans(found_in_bases(files, bases, dirs, name, b1), prev, prev + tail);
    }
}

/// The files found up to file type `e` of directory `d` of base `b` are a prefix of
/// all files found.
proof fn lemma_progress_prefix(
    files: FileSet,
    bases: Seq<String>,
    dirs: Seq<DirectoryIndex>,
    name: Seq<char>,
    b: nat,
    d: nat,
    e: nat,
)
    requires
        b < bases.len(),
        d < dirs.len(),
        e <= 3,
    ensures
        is_prefix(
            found_in_bases(files, bases, dirs, name, b) + found_in_base(files, b as int, bases[b as int]@, dirs, name, d)
                + found_in_dir(files, b as int, d as int, joined(bases[b as int]@, dirs[d as int].directory_name@), name, e),
            found_in_bases(files, bases, dirs, name, bases.len()),
        ),
{
    let fb = found_in_bases(files, bases, dirs, name, b);
    let bp = bases[b as int]@;
    let fbase = found_in_base(files, b as int, bp, dirs, name, d);
    let dp = joined(bp, dirs[d as int].directory_name@);
    lemma_prefix_dir(files, b as int, d as int, dp, name, e, 3);
    lemma_prefix_left(fbase, found_in_dir(files, b as int, d as int, dp, name, e), found_in_dir(files, b as int, d as int, dp, name, 3));
    lemma_prefix_base(files, b as int, bp, dirs, name, d + 1, dirs.len());
    lemma_prefix_trans(
        fbase + found_in_dir(files, b as int, d as int, dp, name, e),
        found_in_base(files, b as int, bp, dirs, name, d + 1),
        found_in_base(files, b as int, bp, dirs, name, dirs.len()),
    );
    lemma_prefix_left(
        fb,
        fbase + found_in_dir(files, b as int, d as int, dp, name, e),
        found_in_base(files, b as int, bp, dirs, name, dirs.len()),
    );
    assert(fb + fbase + found_in_dir(files, b as int, d as int, dp, name, e) =~= fb + (fbase + found_in_dir(files, b as int, d as int, dp, name, e)));
    lemma_prefix_bases(files, bases, dirs, name, b + 1, bases.len());
    lemma_prefix_trans(
        fb + fbase + found_in_dir(files, b as int, d as int, dp, name, e),
        found_in_bases(files, bases, dirs, name, b + 1),
        found_in_bases(files, bases, dirs, name, bases.len()),
    );
}

/// The icon file at a path of the file set, if the path names one.
fn probe(files: &FileSet, path: &String) -> (r: Option<IconFile>)
    ensures
        r is Some <==> crate::theme::present(*files, path@),
        r matches Some(f) ==> f.wf() && f.path_view() == path@,
{
    if files.contains(path) {
        IconFile::from_path(path.as_str())
    } else {
        None
    }
}

/// The path of the icon of a name and type in a directory.
fn candidate(dir_path: &String, icon_name: &str, t: FileType) -> (r: String)
    ensures
        r@ == joined(dir_path@, icon_file_name(icon_name@, t)),
{
    let mut file_name = icon_name.to_owned();
    proof { reveal_strlit("."); }
    file_name.append(".");
    file_name.append(t.ext());
    join_path(dir_path.as_str(), file_name.as_str())
}

/// The first file, by base directory, then subdirectory, then file type, that lies in
/// a directory matching the size and scale exactly. Only matching directories are
/// probed, and the search stops at the first file found.
pub fn exact_pass(info: &ThemeInfo, icon_name: &str, size: u32, scale: u32, files: &FileSet) -> (r:
    Option<IconFile>)
    ensures
        ({
            let full = icon_files_of(*info, icon_name@, *files);
            match first_exact(full, info.index.directories@, size, scale, full.len()) {
                Some(j) => path_of(r) == Some(full[j].2),
                None => r is None,
            }
        }),
        r matches Some(f) ==> f.wf(),
{
    let bases = &info.base_dirs;
    let dirs = &info.index.directories;
    let types = FileType::types();
    let ghost full = icon_files_of(*info, icon_name@, *files);
    let ghost dv = dirs@;
    let mut b: usize = 0;
    while b < bases.len()
        invariant
            b <= bases@.len(),
            types@ == all_types(),
            full == icon_files_of(*info, icon_name@, *files),
            dv == dirs@,
            bases@ == info.base_dirs@,
            dv == info.index.directories@,
            run_exact(None, found_in_bases(*files, bases@, dv, icon_name@, b as nat), dv, size, scale) is None,
        decreases bases@.len() - b,
    {
        let ghost fb = found_in_bases(*files, bases@, dv, icon_name@, b as nat);
        let mut d: usize = 0;
        while d < dirs.len()
            invariant
                b < bases@.len(),
                d <= dv.len(),
                types@ == all_types(),
                full == icon_files_of(*info, icon_name@, *files),
                dv == dirs@,
                bases@ == info.base_dirs@,
                dv == info.index.directories@,
                fb == found_in_bases(*files, bases@, dv, icon_name@, b as nat),
                run_exact(None, fb + found_in_base(*files, b as int, bases@[b as int]@, dv, icon_name@, d as nat), dv, size, scale) is None,
            decreases dv.len() - d,
        {
            let ghost g0 = fb + found_in_base(*files, b as int, bases@[b as int]@, dv, icon_name@, d as nat);
            let dir_path = join_path(bases[b].as_str(), dirs[d].directory_name.as_str());
            let ghost fd3 = found_in_dir(*files, b as int, d as int, dir_path@, icon_name@, 3);
            proof {
                lemma_dir_entries(*files, b as int, d as int, dir_path@, icon_name@, 3);
                lemma_run_exact_concat(None, g0, fd3, dv, size, scale);
                assert(g0 + fd3 =~= fb + found_in_base(*files, b as int, bases@[b as int]@, dv, icon_name@, (d + 1) as nat));
            }
            if dirs[d].matches_size(size, scale) {
                let mut e: usize = 0;
                while e < 3
                    invariant
                        b < bases@.len(),
                        d < dv.len(),
                        e <= 3,
                        types@ == all_types(),
                        full == icon_files_of(*info, icon_name@, *files),
                        dv == dirs@,
                        bases@ == info.base_dirs@,
                        dv == info.index.directories@,
                        fb == found_in_bases(*files, bases@, dv, icon_name@, b as nat),
                        g0 == fb + found_in_base(*files, b as int, bases@[b as int]@, dv, icon_name@, d as nat),
                        dir_path@ == joined(bases@[b as int]@, dv[d as int].directory_name@),
                        dir_matches(dv[d as int], size, scale),
                        run_exact(None, g0 + found_in_dir(*files, b as int, d as int, dir_path@, icon_name@, e as nat), dv, size, scale) is None,
                    decreases 3 - e,
                {
                    let path = candidate(&dir_path, icon_name, types[e]);
                    let ghost ge = g0 + found_in_dir(*files, b as int, d as int, dir_path@, icon_name@, e as nat);
                    assert(ge + found_in_dir(*files, b as int, d as int, dir_path@, icon_name@, (e + 1) as nat).subrange(
                        found_in_dir(*files, b as int, d as int, dir_path@, icon_name@, e as nat).len() as int,
                        found_in_dir(*files, b as int, d as int, dir_path@, icon_name@, (e + 1) as nat).len() as int,
                    ) =~= g0 + found_in_dir(*files, b as int, d as int, dir_path@, icon_name@, (e + 1) as nat));
                    match probe(files, &path) {
                        Some(file) => {
                            proof {
                                let c = (b as int, d as int, path@);
                                let ge1 = g0 + found_in_dir(*files, b as int, d as int, dir_path@, icon_name@, (e + 1) as nat);
                                assert(ge1 =~= ge.push(c));
                                assert(ge.push(c).drop_last() =~= ge);
                                assert(run_exact(None, ge1, dv, size, scale) == Some(c));
                                lemma_progress_prefix(*files, bases@, dv, icon_name@, b as nat, d as nat, (e + 1) as nat);
                                let rest = full.subrange(ge1.len() as int, full.len() as int);
                                assert(is_prefix(ge1, full));
                                assert(full.subrange(0, ge1.len() as int) == ge1);
                                assert forall|i: int| 0 <= i < full.len() implies full[i] == (ge1 + rest)[i] by {
                                    if i < ge1.len() {
                                        assert(full.subrange(0, ge1.len() as int)[i] == full[i]);
                                    }
                                }
                                assert(full =~= ge1 + rest);
                                lemma_run_exact_concat(None, ge1, rest, dv, size, scale);
                                lemma_run_exact_some(c, rest, dv, size, scale);
                                lemma_exact_index(full, dv, size, scale, full.len());
                                assert(full.subrange(0, full.len() as int) =~= full);
                            }
                            return Some(file);
                        },
                        None => {
                            proof {
                                let ge1 = g0 + found_in_dir(*files, b as int, d as int, dir_path@, icon_name@, (e + 1) as nat);
                                assert(ge1 =~= ge);
                            }
                        },
                    }
                    e = e + 1;
                }
                proof {
                    assert(g0 + found_in_dir(*files, b as int, d as int, dir_path@, icon_name@, 3) =~= fb + found_in_base(*files, b as int, bases@[b as int]@, dv, icon_name@, (d + 1) as nat));
                }
            } else {
                proof {
                    lemma_exact_skip(fd3, dv, size, scale);
                }
            }
            d = d + 1;
        }
        proof {
            assert(fb + found_in_base(*files, b as int, bases@[b as int]@, dv, icon_name@, dv.len()) =~= found_in_bases(*files, bases@, dv, icon_name@, (b + 1) as nat));
        }
        b = b + 1;
    }
    proof {
        lemma_exact_index(full, dv, size, scale, full.len());
        assert(full.subrange(0, full.len() as int) =~= full);
    }
    None
}

/// Whether the best file so far lies before directory `d` of base `b`.
pub open spec fn earlier(x: (int, int, Seq<char>), b: int, d: int) -> bool {
    x.0 < b || (x.0 == b && x.1 < d)
}

/// The file in the closest directory: directories are visited by base directory, then
/// in declaration order, and one is probed only when it is strictly closer than the
/// best so far; a later file type found in the directory of the best so far replaces it.
pub fn closest_pass(info: &ThemeInfo, icon_name: &str, size: u32, scale: u32, files: &FileSet) -> (r:
    Option<IconFile>)
    ensures
        ({
            let full = icon_files_of(*info, icon_name@, *files);
            match closest(full, info.index.directories@, size, scale, full.len()) {
                Some(j) => path_of(r) == Some(full[j].2),
                None => r is None,
            }
        }),
        r matches Some(f) ==> f.wf(),
{
    let bases = &info.base_dirs;
    let dirs = &info.index.directories;
    let types = FileType::types();
    let ghost full = icon_files_of(*info, icon_name@, *files);
    let ghost dv = dirs@;
    let mut best: Option<IconFile> = None;
    let mut min: u64 = 0;
    let ghost mut gb: Option<(int, int, Seq<char>)> = None;
    let mut b: usize = 0;
    while b < bases.len()
        invariant
            b <= bases@.len(),
            types@ == all_types(),
            full == icon_files_of(*info, icon_name@, *files),
            dv == dirs@,
            bases@ == info.base_dirs@,
            dv == info.index.directories@,
            gb == run_closest(None, found_in_bases(*files, bases@, dv, icon_name@, b as nat), dv, size, scale),
            match gb {
                None => best is None,
                Some(x) => best matches Some(f) && f.wf() && f.path_view() == x.2 && 0 <= x.1 < dv.len()
                    && min == dir_distance(dv[x.1], size, scale) && earlier(x, b as int, 0),
            },
        decreases bases@.len() - b,
    {
        let ghost fb = found_in_bases(*files, bases@, dv, icon_name@, b as nat);
        let mut d: usize = 0;
        while d < dirs.len()
            invariant
                b < bases@.len(),
                d <= dv.len(),
                types@ == all_types(),
                full == icon_files_of(*info, icon_name@, *files),
                dv == dirs@,
                bases@ == info.base_dirs@,
                dv == info.index.directories@,
                fb == found_in_bases(*files, bases@, dv, icon_name@, b as nat),
                gb == run_closest(None, fb + found_in_base(*files, b as int, bases@[b as int]@, dv, icon_name@, d as nat), dv, size, scale),
                match gb {
                    None => best is None,
                    Some(x) => best matches Some(f) && f.wf() && f.path_view() == x.2 && 0 <= x.1 < dv.len()
                        && min == dir_distance(dv[x.1], size, scale) && earlier(x, b as int, d as int),
                },
            decreases dv.len() - d,
        {
            let ghost g0 = fb + found_in_base(*files, b as int, bases@[b as int]@, dv, icon_name@, d as nat);
            let dir_path = join_path(bases[b].as_str(), dirs[d].directory_name.as_str());
            let ghost fd3 = found_in_dir(*files, b as int, d as int, dir_path@, icon_name@, 3);
            proof {
                lemma_dir_entries(*files, b as int, d as int, dir_path@, icon_name@, 3);
                lemma_run_closest_concat(None, g0, fd3, dv, size, scale);
                assert(g0 + fd3 =~= fb + found_in_base(*files, b as int, bases@[b as int]@, dv, icon_name@, (d + 1) as nat));
            }
            let distance = dirs[d].size_distance(size, scale);
            if best.is_none() || distance < min {
                let mut e: usize = 0;
                while e < 3
                    invariant
                        b < bases@.len(),
                        d < dv.len(),
                        e <= 3,
                        types@ == all_types(),
                        full == icon_files_of(*info, icon_name@, *files),
                        dv == dirs@,
                        bases@ == info.base_dirs@,
                        dv == info.index.directories@,
                        g0 == fb + found_in_base(*files, b as int, bases@[b as int]@, dv, icon_name@, d as nat),
                        dir_path@ == joined(bases@[b as int]@, dv[d as int].directory_name@),
                        distance == dir_distance(dv[d as int], size, scale),
                        gb == run_closest(None, g0 + found_in_dir(*files, b as int, d as int, dir_path@, icon_name@, e as nat), dv, size, scale),
                        match gb {
                            None => best is None,
                            Some(x) => best matches Some(f) && f.wf() && f.path_view() == x.2 && 0 <= x.1 < dv.len()
                                && min == dir_distance(dv[x.1], size, scale) && (earlier(x, b as int, d as int) || (x.0 == b && x.1 == d))
                                && ((x.0 == b && x.1 == d) || distance < min),
                        },
                    decreases 3 - e,
                {
                    let path = candidate(&dir_path, icon_name, types[e]);
                    let ghost ge = g0 + found_in_dir(*files, b as int, d as int, dir_path@, icon_name@, e as nat);
                    match probe(files, &path) {
                        Some(file) => {
                            proof {
                                let c = (b as int, d as int, path@);
                                let ge1 = g0 + found_in_dir(*files, b as int, d as int, dir_path@, icon_name@, (e + 1) as nat);
                                assert(ge1 =~= ge.push(c));
                                assert(ge.push(c).drop_last() =~= ge);
                                gb = Some(c);
                            }
                            best = Some(file);
                            min = distance;
                        },
                        None => {
                            proof {
                                let ge1 = g0 + found_in_dir(*files, b as int, d as int, dir_path@, icon_name@, (e + 1) as nat);
                                assert(ge1 =~= ge);
                            }
                        },
                    }
                    e = e + 1;
                }
                proof {
                    assert(g0 + found_in_dir(*files, b as int, d as int, dir_path@, icon_name@, 3) =~= fb + found_in_base(*files, b as int, bases@[b as int]@, dv, icon_name@, (d + 1) as nat));
                }
            } else {
                proof {
                    let x = gb->Some_0;
                    lemma_closest_skip(x, fd3, dv, size, scale);
                }
            }
            d = d + 1;
        }
        proof {
            assert(fb + found_in_base(*files, b as int, bases@[b as int]@, dv, icon_name@, dv.len()) =~= found_in_bases(*files, bases@, dv, icon_name@, (b + 1) as nat));
        }
        b = b + 1;
    }
    proof {
        lemma_closest_index(full, dv, size, scale, full.len());
        assert(full.subrange(0, full.len() as int) =~= full);
    }
    best
}

} // verus!
