use crate::files::{join_path, joined, FileSet};
use crate::icon::{all_types, ext_of, icon_path, FileType, IconFile};
use crate::matcher::{closest_pass, exact_pass};
use std::sync::Arc;
use vstd::prelude::*;
use vstd::string::StringExecFns;

verus! {

/// The kind of size matching used by an icon theme subdirectory.
#[derive(Debug, Copy, Clone, PartialEq, Eq, Structural)]
pub enum DirectoryType {
    /// Fixed-size images that may not be scaled to another size.
    Fixed,
    /// Scalable (vector) images, usable between a minimum and a maximum size.
    Scalable,
    /// Fixed-size images that may be scaled within a threshold. The default kind.
    Threshold,
}

impl Default for DirectoryType {
    fn default() -> (r: DirectoryType)
        ensures
            r == DirectoryType::Threshold,
    {
        DirectoryType::Threshold
    }
}

/// The description of one subdirectory of an icon theme: which sizes and scales its
/// icons are meant for.
pub struct DirectoryIndex {
    /// The subdirectory's path relative to the theme's base directories.
    pub directory_name: String,
    /// Whether the directory was listed among the scaled directories.
    pub is_scaled_dir: bool,
    /// Nominal (unscaled) size of the icons in this directory.
    pub size: u32,
    /// Target scale of the icons in this directory.
    pub scale: u32,
    /// The context the icons are normally used in.
    pub context: Option<String>,
    /// How requested sizes are matched against this directory.
    pub directory_type: DirectoryType,
    /// The largest (unscaled) size that the icons may be scaled to.
    pub max_size: u32,
    /// The smallest (unscaled) size that the icons may be scaled to.
    pub min_size: u32,
    /// The largest difference from `size` at which the icons may still be used.
    pub threshold: u32,
}

/// Whether a directory holds icons for a requested size and scale: the scale must be
/// equal, and the size must fit the directory's kind.
pub open spec fn dir_matches(d: DirectoryIndex, size: u32, scale: u32) -> bool {
    d.scale == scale && match d.directory_type {
        DirectoryType::Fixed => d.size == size,
        DirectoryType::Scalable => d.min_size <= size <= d.max_size,
        DirectoryType::Threshold => abs_diff(d.size as int, size as int) <= d.threshold,
    }
}

/// The absolute difference of two integers.
pub open spec fn abs_diff(a: int, b: int) -> int {
    if a >= b {
        a - b
    } else {
        b - a
    }
}

/// How far a directory is from a requested size and scale, measured on sizes
/// multiplied by their scales, before the scale gate is applied.
pub open spec fn product_distance(d: DirectoryIndex, size: u32, scale: u32) -> int {
    let wanted = size as int * scale as int;
    match d.directory_type {
        DirectoryType::Fixed | DirectoryType::Scalable => abs_diff(
            d.size as int * d.scale as int,
            wanted,
        ),
        DirectoryType::Threshold => {
            let lower = (d.size as int - d.threshold as int) * d.scale as int;
            let higher = (d.size as int + d.threshold as int) * d.scale as int;
            if wanted < lower {
                abs_diff(wanted, d.min_size as int * d.scale as int)
            } else if wanted > higher {
                abs_diff(wanted, d.max_size as int * d.scale as int)
            } else {
                0
            }
        },
    }
}

/// How far a directory is from a requested size and scale; 0 means an acceptable
/// fit. The scale must match for that: a directory of another scale lies at distance
/// at least 1, and otherwise at its distance measured on sizes multiplied by scales.
pub open spec fn dir_distance(d: DirectoryIndex, size: u32, scale: u32) -> int {
    let p = product_distance(d, size, scale);
    if d.scale != scale && p == 0 {
        1
    } else {
        p
    }
}

proof fn lemma_product_bound(a: u32, b: u32)
    ensures
        0 <= a as int * b as int <= u64::MAX,
{
    assert(a as int * b as int <= u32::MAX as int * u32::MAX as int) by (nonlinear_arith);
    assert(0 <= a as int * b as int) by (nonlinear_arith);
}

fn mul_wide(a: u32, b: u32) -> (r: u64)
    ensures
        r == a as int * b as int,
{
    proof { lemma_product_bound(a, b); }
    (a as u64) * (b as u64)
}

fn abs_diff_u64(a: u64, b: u64) -> (r: u64)
    ensures
        r == abs_diff(a as int, b as int),
{
    if a >= b {
        a - b
    } else {
        b - a
    }
}

impl DirectoryIndex {
    /// Whether this directory holds icons for `icon_size` at `icon_scale`. The scale must
    /// match exactly; a `Fixed` directory then matches its own size only, a `Scalable` one
    /// every size from `min_size` to `max_size`, and a `Threshold` one every size that
    /// differs from its own by at most `threshold`.
    pub fn matches_size(&self, icon_size: u32, icon_scale: u32) -> (r: bool)
        ensures
            r == dir_matches(*self, icon_size, icon_scale),
    {
        if self.scale != icon_scale {
            return false;
        }
        match self.directory_type {
            DirectoryType::Fixed => self.size == icon_size,
            DirectoryType::Scalable => self.min_size <= icon_size && icon_size <= self.max_size,
            DirectoryType::Threshold => {
                let diff = if self.size >= icon_size {
                    self.size - icon_size
                } else {
                    icon_size - self.size
                };
                diff <= self.threshold
            },
        }
    }

    /// The size distance of this directory to `icon_size` at `icon_scale`, computed on
    /// sizes multiplied by scales; never 0 when the scales differ.
    pub fn size_distance(&self, icon_size: u32, icon_scale: u32) -> (r: u64)
        ensures
            r == dir_distance(*self, icon_size, icon_scale),
    {
        let p = self.product_distance(icon_size, icon_scale);
        if self.scale != icon_scale && p == 0 {
            1
        } else {
            p
        }
    }

    fn product_distance(&self, icon_size: u32, icon_scale: u32) -> (r: u64)
        ensures
            r == product_distance(*self, icon_size, icon_scale),
    {
        let wanted = mul_wide(icon_size, icon_scale);
        match self.directory_type {
            DirectoryType::Fixed | DirectoryType::Scalable => {
                abs_diff_u64(mul_wide(self.size, self.scale), wanted)
            },
            DirectoryType::Threshold => {
                let size = self.size as u128;
                let threshold = self.threshold as u128;
                let scale = self.scale as u128;
                proof {
                    assert((size + threshold) * scale <= 0x2_0000_0000 * 0x1_0000_0000)
                        by (nonlinear_arith)
                        requires
                            size < 0x1_0000_0000,
                            threshold < 0x1_0000_0000,
                            scale < 0x1_0000_0000,
                    ;
                    assert(size >= threshold ==> (size - threshold) * scale <= size * scale)
                        by (nonlinear_arith);
                    assert(size * scale <= 0x1_0000_0000 * 0x1_0000_0000) by (nonlinear_arith)
                        requires
                            size < 0x1_0000_0000,
                            scale < 0x1_0000_0000,
                    ;
                }
                let wide = wanted as u128;
                let lower_ok = size >= threshold && wide < (size - threshold) * scale;
                let upper_ok = wide > (size + threshold) * scale;
                proof {
                    let lower = (self.size as int - self.threshold as int) * self.scale as int;
                    let higher = (self.size as int + self.threshold as int) * self.scale as int;
                    if size < threshold {
                        assert(lower <= 0) by (nonlinear_arith)
                            requires
                                self.size < self.threshold,
                                lower == (self.size as int - self.threshold as int)
                                    * self.scale as int,
                        ;
                    }
                    assert(lower_ok == (wanted < lower));
                    assert(upper_ok == (wanted > higher));
                }
                if lower_ok {
                    abs_diff_u64(wanted, mul_wide(self.min_size, self.scale))
                } else if upper_ok {
                    abs_diff_u64(wanted, mul_wide(self.max_size, self.scale))
                } else {
                    0
                }
            },
        }
    }
}

/// A `Fixed` directory of size 32 at scale 1 matches a request for 32 at scale 1 at
/// distance 0, and does not match a request for 31, which lies at distance 1.
pub proof fn fixed_directory_exactness(d: DirectoryIndex)
    requires
        d.directory_type == DirectoryType::Fixed,
        d.size == 32,
        d.scale == 1,
    ensures
        dir_matches(d, 32, 1),
        dir_distance(d, 32, 1) == 0,
        !dir_matches(d, 31, 1),
        dir_distance(d, 31, 1) == 1,
{
}

/// A directory never fits a request of another scale: it does not match, and its
/// distance is not 0.
pub proof fn other_scale_never_fits(d: DirectoryIndex, size: u32, scale: u32)
    requires
        d.scale != scale,
    ensures
        !dir_matches(d, size, scale),
        dir_distance(d, size, scale) > 0,
{
    assert(product_distance(d, size, scale) >= 0) by {
        assert(d.size as int * d.scale as int >= 0) by (nonlinear_arith);
        assert(d.min_size as int * d.scale as int >= 0) by (nonlinear_arith);
        assert(d.max_size as int * d.scale as int >= 0) by (nonlinear_arith);
        assert(size as int * scale as int >= 0) by (nonlinear_arith);
    }
}

/// A `Threshold` directory of size 32 and threshold 2 matches, at scale 1, exactly the
/// sizes from 30 to 34.
pub proof fn threshold_directory_window(d: DirectoryIndex, size: u32)
    requires
        d.directory_type == DirectoryType::Threshold,
        d.size == 32,
        d.threshold == 2,
        d.scale == 1,
    ensures
        dir_matches(d, size, 1) <==> 30 <= size <= 34,
{
}

/// The description of an icon theme, as its index file gives it.
pub struct ThemeIndex {
    /// Short, human-readable name of the theme.
    pub name: String,
    /// Longer description of the theme.
    pub comment: String,
    /// Internal names of the themes this theme inherits from, in declaration order.
    pub inherits: Vec<String>,
    /// The theme's subdirectories, in declaration order.
    pub directories: Vec<DirectoryIndex>,
    /// Whether the theme should be hidden from theme selection lists.
    pub hidden: bool,
    /// The name of an icon that illustrates the theme.
    pub example: Option<String>,
}

/// An icon theme as found on disk: its internal name, the base directories it is
/// spread over, and its index.
pub struct ThemeInfo {
    /// The name of the directory in which the theme lives.
    pub internal_name: String,
    /// Every directory that holds part of this theme, in search order.
    pub base_dirs: Vec<String>,
    /// The path of the index file that describes the theme.
    pub index_location: String,
    /// The contents of that index file.
    pub index: ThemeIndex,
}

/// An attribute that an index file must give.
#[derive(Debug, Clone, Copy, PartialEq, Eq, Structural)]
pub enum RequiredAttribute {
    /// `Name`, in the theme section.
    Name,
    /// `Directories`, in the theme section.
    Directories,
    /// `Size`, in a directory section.
    Size,
}

impl RequiredAttribute {
    /// The attribute's key in the index file.
    pub fn key(&self) -> (r: &'static str)
        ensures
            r@ == match *self {
                RequiredAttribute::Name => "Name"@,
                RequiredAttribute::Directories => "Directories"@,
                RequiredAttribute::Size => "Size"@,
            },
    {
        match self {
            RequiredAttribute::Name => "Name",
            RequiredAttribute::Directories => "Directories",
            RequiredAttribute::Size => "Size",
        }
    }
}

/// Why a theme could not be loaded.
#[derive(Debug, Clone, Copy, PartialEq, Eq, Structural)]
pub enum ThemeParseError {
    /// No index file, or no "Icon Theme" section in it.
    NotAnIconTheme,
    /// A required attribute is missing.
    MissingRequiredAttribute(RequiredAttribute),
    /// The file is not UTF-8.
    NotUtf8,
    /// A boolean was expected but failed to parse.
    ParseBoolError,
    /// A number was expected but failed to parse.
    ParseNumError,
    /// A directory type was invalid.
    InvalidDirectoryType,
    /// The file is not a well-formed entry file.
    ParseError,
}

/// The name of a theme's index file.
pub open spec fn index_file_name() -> Seq<char> {
    seq!['i', 'n', 'd', 'e', 'x', '.', 't', 'h', 'e', 'm', 'e']
}

/// Position of the first of the first `n` folders that holds an index file.
pub open spec fn first_index(folders: Seq<String>, files: FileSet, n: nat) -> Option<int>
    decreases n,
{
    if n == 0 || n > folders.len() {
        None
    } else {
        match first_index(folders, files, (n - 1) as nat) {
            Some(i) => Some(i),
            None => if files.has(joined(folders[n - 1]@, index_file_name())) {
                Some(n - 1)
            } else {
                None
            },
        }
    }
}

impl ThemeInfo {
    /// The index file of a theme spread over `folders`: the first `index.theme` found,
    /// searching the folders in order.
    pub fn index_location(folders: &Vec<String>, files: &FileSet) -> (r: Option<String>)
        ensures
            r matches Some(p) ==> (first_index(folders@, *files, folders@.len()) matches Some(i)
                && p@ == joined(folders@[i]@, index_file_name())),
            r is None ==> first_index(folders@, *files, folders@.len()) is None,
    {
        let mut i: usize = 0;
        while i < folders.len()
            invariant
                i <= folders@.len(),
                first_index(folders@, *files, i as nat) is None,
            decreases folders@.len() - i,
        {
            proof { reveal_strlit("index.theme"); }
            let p = join_path(folders[i].as_str(), "index.theme");
            assert("index.theme"@ =~= index_file_name());
            if files.contains(&p) {
                assert(first_index(folders@, *files, (i + 1) as nat) == Some(i as int));
                proof { lemma_first_index_stable(folders@, *files, (i + 1) as nat, folders@.len()); }
                return Some(p);
            }
            i = i + 1;
        }
        None
    }

    /// A theme of internal name `internal_name` spread over `folders`, described by
    /// `index`, the parsed contents of its index file; `NotAnIconTheme` when no folder
    /// holds an index file.
    pub fn new_from_folders(
        internal_name: String,
        folders: Vec<String>,
        files: &FileSet,
        index: ThemeIndex,
    ) -> (r: Result<ThemeInfo, ThemeParseError>)
        ensures
            r is Err <==> first_index(folders@, *files, folders@.len()) is None,
            r matches Err(e) ==> e == ThemeParseError::NotAnIconTheme,
            r matches Ok(t) ==> t.internal_name == internal_name && t.base_dirs == folders
                && t.index == index,
            r matches Ok(t) ==> (first_index(folders@, *files, folders@.len()) matches Some(i)
                && t.index_location@ == joined(folders@[i]@, index_file_name())),
    {
        match Self::index_location(&folders, files) {
            Some(index_location) => Ok(ThemeInfo { internal_name, base_dirs: folders, index_location, index }),
            None => Err(ThemeParseError::NotAnIconTheme),
        }
    }
}

proof fn lemma_first_index_stable(folders: Seq<String>, files: FileSet, m: nat, n: nat)
    requires
        m <= n <= folders.len(),
        first_index(folders, files, m) is Some,
    ensures
        first_index(folders, files, n) == first_index(folders, files, m),
    decreases n - m,
{
    if m < n {
        lemma_first_index_stable(folders, files, m, (n - 1) as nat);
    }
}

/// The directory type a name denotes.
pub open spec fn directory_type_named(name: Seq<char>) -> Option<DirectoryType> {
    if name == seq!['F', 'i', 'x', 'e', 'd'] {
        Some(DirectoryType::Fixed)
    } else if name == seq!['S', 'c', 'a', 'l', 'a', 'b', 'l', 'e'] {
        Some(DirectoryType::Scalable)
    } else if name == seq!['T', 'h', 'r', 'e', 's', 'h', 'o', 'l', 'd'] {
        Some(DirectoryType::Threshold)
    } else {
        None
    }
}

impl DirectoryType {
    /// The directory type named "Fixed", "Scalable" or "Threshold".
    pub fn from_name(value: &str) -> (r: Option<DirectoryType>)
        ensures
            r == directory_type_named(value@),
    {
        let v = value.to_owned();
        proof {
            reveal_strlit("Fixed");
            reveal_strlit("Scalable");
            reveal_strlit("Threshold");
        }
        assert("Fixed"@ =~= seq!['F', 'i', 'x', 'e', 'd']);
        assert("Scalable"@ =~= seq!['S', 'c', 'a', 'l', 'a', 'b', 'l', 'e']);
        assert("Threshold"@ =~= seq!['T', 'h', 'r', 'e', 's', 'h', 'o', 'l', 'd']);
        if v == "Fixed".to_owned() {
            Some(DirectoryType::Fixed)
        } else if v == "Scalable".to_owned() {
            Some(DirectoryType::Scalable)
        } else if v == "Threshold".to_owned() {
            Some(DirectoryType::Threshold)
        } else {
            None
        }
    }
}

/// An icon theme linked to the themes it inherits from.
pub struct Theme {
    /// Properties of this theme and of its subdirectories.
    pub info: ThemeInfo,
    /// The themes searched, in order, for an icon that this theme lacks.
    pub inherits_from: Vec<Arc<Theme>>,
}

/// Another shared reference to the same theme.
pub(crate) fn share(t: &Arc<Theme>) -> (r: Arc<Theme>)
    ensures
        r == *t,
{
    t.clone()
}

/// One icon file found in a theme: the base directory and subdirectory (by position)
/// it lies in, and the file.
pub struct IconCandidate {
    /// Position of the base directory in the theme's `base_dirs`.
    pub base: usize,
    /// Position of the subdirectory in the theme's directory list.
    pub dir: usize,
    /// The file found there.
    pub file: IconFile,
}

/// A found file as (base directory, subdirectory, path).
pub open spec fn candidate_view(c: IconCandidate) -> (int, int, Seq<char>) {
    (c.base as int, c.dir as int, c.file.path_view())
}

/// The views of a list of found files.
pub open spec fn candidates_view(v: Seq<IconCandidate>) -> Seq<(int, int, Seq<char>)> {
    v.map_values(|c: IconCandidate| candidate_view(c))
}

/// The file name of an icon of a given type.
pub open spec fn icon_file_name(name: Seq<char>, t: FileType) -> Seq<char> {
    name + seq!['.'] + ext_of(t)
}

/// A path holds an icon when it is in the file set and names an icon file.
pub open spec fn present(files: FileSet, p: Seq<char>) -> bool {
    files.has(p) && icon_path(p)
}

/// The icons of name `name` found in directory `dir` (whose path is `dir_path`) of
/// base directory `base`, trying the first `e` file types in canonical order.
pub open spec fn found_in_dir(
    files: FileSet,
    base: int,
    dir: int,
    dir_path: Seq<char>,
    name: Seq<char>,
    e: nat,
) -> Seq<(int, int, Seq<char>)>
    decreases e,
{
    if e == 0 {
        seq![]
    } else {
        let p = joined(dir_path, icon_file_name(name, all_types()[e - 1]));
        found_in_dir(files, base, dir, dir_path, name, (e - 1) as nat) + if present(files, p) {
            seq![(base, dir, p)]
        } else {
            seq![]
        }
    }
}

/// The icons of name `name` found in the first `n` directories of base directory `base`.
pub open spec fn found_in_base(
    files: FileSet,
    base: int,
    base_path: Seq<char>,
    dirs: Seq<DirectoryIndex>,
    name: Seq<char>,
    n: nat,
) -> Seq<(int, int, Seq<char>)>
    decreases n,
{
    if n == 0 || n > dirs.len() {
        seq![]
    } else {
        found_in_base(files, base, base_path, dirs, name, (n - 1) as nat) + found_in_dir(
            files,
            base,
            n - 1,
            joined(base_path, dirs[n - 1].directory_name@),
            name,
            3,
        )
    }
}

/// The icons of name `name` found in the first `n` base directories.
pub open spec fn found_in_bases(
    files: FileSet,
    bases: Seq<String>,
    dirs: Seq<DirectoryIndex>,
    name: Seq<char>,
    n: nat,
) -> Seq<(int, int, Seq<char>)>
    decreases n,
{
    if n == 0 || n > bases.len() {
        seq![]
    } else {
        found_in_bases(files, bases, dirs, name, (n - 1) as nat) + found_in_base(
            files,
            n - 1,
            bases[n - 1]@,
            dirs,
            name,
            dirs.len(),
        )
    }
}

/// Every icon of name `name` in a theme's own directories, ordered by base directory,
/// then subdirectory, then file type.
pub open spec fn icon_files_of(info: ThemeInfo, name: Seq<char>, files: FileSet) -> Seq<
    (int, int, Seq<char>),
> {
    found_in_bases(files, info.base_dirs@, info.index.directories@, name, info.base_dirs@.len())
}

/// Position of the first of the first `n` found files whose directory matches exactly.
pub open spec fn first_exact(
    found: Seq<(int, int, Seq<char>)>,
    dirs: Seq<DirectoryIndex>,
    size: u32,
    scale: u32,
    n: nat,
) -> Option<int>
    decreases n,
{
    if n == 0 {
        None
    } else {
        match first_exact(found, dirs, size, scale, (n - 1) as nat) {
            Some(j) => Some(j),
            None => if dir_matches(dirs[found[n - 1].1], size, scale) {
                Some(n - 1)
            } else {
                None
            },
        }
    }
}

/// Position of the closest of the first `n` found files. A later file replaces the
/// best so far when its directory is strictly closer, or when it lies in the same
/// base directory and subdirectory as the best so far (a later file type).
pub open spec fn closest(
    found: Seq<(int, int, Seq<char>)>,
    dirs: Seq<DirectoryIndex>,
    size: u32,
    scale: u32,
    n: nat,
) -> Option<int>
    decreases n,
{
    if n == 0 {
        None
    } else {
        let c = found[n - 1];
        match closest(found, dirs, size, scale, (n - 1) as nat) {
            None => Some(n - 1),
            Some(j) => if dir_distance(dirs[c.1], size, scale) < dir_distance(
                dirs[found[j].1],
                size,
                scale,
            ) || (c.0 == found[j].0 && c.1 == found[j].1) {
                Some(n - 1)
            } else {
                Some(j)
            },
        }
    }
}

/// The path chosen among found files: the first one in an exactly matching directory,
/// or else the closest one.
pub open spec fn selected(
    found: Seq<(int, int, Seq<char>)>,
    dirs: Seq<DirectoryIndex>,
    size: u32,
    scale: u32,
) -> Option<Seq<char>> {
    match first_exact(found, dirs, size, scale, found.len()) {
        Some(j) => Some(found[j].2),
        None => match closest(found, dirs, size, scale, found.len()) {
            Some(j) => Some(found[j].2),
            None => None,
        },
    }
}

/// The icon that a theme holds itself for a name, size and scale.
pub open spec fn found_here(
    info: ThemeInfo,
    name: Seq<char>,
    size: u32,
    scale: u32,
    files: FileSet,
) -> Option<Seq<char>> {
    selected(icon_files_of(info, name, files), info.index.directories@, size, scale)
}

/// The icon held by the first of the first `n` ancestors that holds one.
pub open spec fn found_in_ancestors(
    ancestors: Seq<Arc<Theme>>,
    name: Seq<char>,
    size: u32,
    scale: u32,
    files: FileSet,
    n: nat,
) -> Option<Seq<char>>
    decreases n,
{
    if n == 0 || n > ancestors.len() {
        None
    } else {
        match found_in_ancestors(ancestors, name, size, scale, files, (n - 1) as nat) {
            Some(p) => Some(p),
            None => found_here(ancestors[n - 1].info, name, size, scale, files),
        }
    }
}

/// The icon found in a theme or, failing that, in its ancestors in order.
pub open spec fn found_in_theme(
    t: Theme,
    name: Seq<char>,
    size: u32,
    scale: u32,
    files: FileSet,
) -> Option<Seq<char>> {
    match found_here(t.info, name, size, scale, files) {
        Some(p) => Some(p),
        None => found_in_ancestors(t.inherits_from@, name, size, scale, files, t.inherits_from@.len()),
    }
}

/// The path of an optional icon.
pub open spec fn path_of(r: Option<IconFile>) -> Option<Seq<char>> {
    match r {
        Some(f) => Some(f.path_view()),
        None => None,
    }
}

/// An optional icon is either absent or a well-formed icon file.
pub open spec fn opt_wf(r: Option<IconFile>) -> bool {
    r matches Some(f) ==> f.wf()
}

/// A list of found files refers to existing directories and holds well-formed files.
pub open spec fn candidates_wf(v: Seq<IconCandidate>, n_dirs: int) -> bool {
    forall|i: int| #![trigger v[i]] 0 <= i < v.len() ==> v[i].dir < n_dirs && v[i].file.wf()
}

/// Chooses among found files as `selected` says.
pub fn select_icon(
    dirs: &Vec<DirectoryIndex>,
    found: &Vec<IconCandidate>,
    size: u32,
    scale: u32,
) -> (r: Option<IconFile>)
    requires
        candidates_wf(found@, dirs@.len() as int),
    ensures
        path_of(r) == selected(candidates_view(found@), dirs@, size, scale),
        opt_wf(r),
{
    let ghost fv = candidates_view(found@);
    let n = found.len();
    let mut i: usize = 0;
    while i < n
        invariant
            n == found@.len() == fv.len(),
            fv == candidates_view(found@),
            candidates_wf(found@, dirs@.len() as int),
            i <= n,
            first_exact(fv, dirs@, size, scale, i as nat) is None,
        decreases n - i,
    {
        let c = &found[i];
        assert(fv[i as int] == candidate_view(found@[i as int]));
        if dirs[c.dir].matches_size(size, scale) {
            assert(first_exact(fv, dirs@, size, scale, (i + 1) as nat) == Some(i as int));
            proof { lemma_first_exact_stable(fv, dirs@, size, scale, (i + 1) as nat, n as nat); }
            return Some(c.file.copy());
        }
        i = i + 1;
    }
    let mut best: Option<usize> = None;
    let mut best_dist: u64 = 0;
    let mut i: usize = 0;
    while i < n
        invariant
            n == found@.len() == fv.len(),
            fv == candidates_view(found@),
            candidates_wf(found@, dirs@.len() as int),
            i <= n,
            first_exact(fv, dirs@, size, scale, n as nat) is None,
            match best {
                Some(j) => closest(fv, dirs@, size, scale, i as nat) == Some(j as int) && j < i
                    && best_dist == dir_distance(dirs@[fv[j as int].1], size, scale),
                None => closest(fv, dirs@, size, scale, i as nat) is None && i == 0,
            },
        decreases n - i,
    {
        let c = &found[i];
        assert(fv[i as int] == candidate_view(found@[i as int]));
        let d = dirs[c.dir].size_distance(size, scale);
        match best {
            None => {
                best = Some(i);
                best_dist = d;
            },
            Some(j) => {
                assert(fv[j as int] == candidate_view(found@[j as int]));
                if d < best_dist || (c.base == found[j].base && c.dir == found[j].dir) {
                    best = Some(i);
                    best_dist = d;
                }
            },
        }
        i = i + 1;
    }
    match best {
        Some(j) => {
            assert(fv[j as int] == candidate_view(found@[j as int]));
            Some(found[j].file.copy())
        },
        None => None,
    }
}

proof fn lemma_first_exact_stable(
    found: Seq<(int, int, Seq<char>)>,
    dirs: Seq<DirectoryIndex>,
    size: u32,
    scale: u32,
    m: nat,
    n: nat,
)
    requires
        m <= n,
        first_exact(found, dirs, size, scale, m) is Some,
    ensures
        first_exact(found, dirs, size, scale, n) == first_exact(found, dirs, size, scale, m),
    decreases n - m,
{
    if m < n {
        lemma_first_exact_stable(found, dirs, size, scale, m, (n - 1) as nat);
    }
}

impl Theme {
    /// Every icon of the given name in this theme's own directories, with where it was
    /// found: ordered by base directory, then subdirectory in declaration order, then
    /// file type in canonical order.
    pub fn find_icon_files(&self, icon_name: &str, files: &FileSet) -> (r: Vec<IconCandidate>)
        ensures
            candidates_view(r@) == icon_files_of(self.info, icon_name@, *files),
            candidates_wf(r@, self.info.index.directories@.len() as int),
    {
        let bases = &self.info.base_dirs;
        let dirs = &self.info.index.directories;
        let types = FileType::types();
        let mut out: Vec<IconCandidate> = Vec::new();
        let mut b: usize = 0;
        while b < bases.len()
            invariant
                b <= bases@.len(),
                types@ == all_types(),
                candidates_view(out@) == found_in_bases(*files, bases@, dirs@, icon_name@, b as nat),
                candidates_wf(out@, dirs@.len() as int),
            decreases bases@.len() - b,
        {
            let ghost before_base = candidates_view(out@);
            let mut d: usize = 0;
            while d < dirs.len()
                invariant
                    b < bases@.len(),
                    d <= dirs@.len(),
                    types@ == all_types(),
                    candidates_view(out@) == before_base + found_in_base(
                        *files,
                        b as int,
                        bases@[b as int]@,
                        dirs@,
                        icon_name@,
                        d as nat,
                    ),
                    candidates_wf(out@, dirs@.len() as int),
                decreases dirs@.len() - d,
            {
                let ghost before_dir = candidates_view(out@);
                let dir_path = join_path(bases[b].as_str(), dirs[d].directory_name.as_str());
                let mut e: usize = 0;
                while e < 3
                    invariant
                        b < bases@.len(),
                        d < dirs@.len(),
                        e <= 3,
                        types@ == all_types(),
                        dir_path@ == joined(bases@[b as int]@, dirs@[d as int].directory_name@),
                        candidates_view(out@) == before_dir + found_in_dir(
                            *files,
                            b as int,
                            d as int,
                            dir_path@,
                            icon_name@,
                            e as nat,
                        ),
                        candidates_wf(out@, dirs@.len() as int),
                    decreases 3 - e,
                {
                    let mut file_name = icon_name.to_owned();
                    proof { reveal_strlit("."); }
                    file_name.append(".");
                    file_name.append(types[e].ext());
                    let path = join_path(dir_path.as_str(), file_name.as_str());
                    let ghost prev = candidates_view(out@);
                    assert(file_name@ == icon_file_name(icon_name@, all_types()[e as int]));
                    assert(path@ == joined(dir_path@, icon_file_name(icon_name@, all_types()[e as int])));
                    if files.contains(&path) {
                        match IconFile::from_path(path.as_str()) {
                            Some(file) => {
                                let ghost before_push = out@;
                                out.push(IconCandidate { base: b, dir: d, file });
                                assert(out@ =~= before_push.push(out@.last()));
                                assert(candidates_view(out@) =~= prev.push(
                                    (b as int, d as int, path@),
                                ));
                            },
                            None => {},
                        }
                    }
                    assert(candidates_view(out@) =~= before_dir + found_in_dir(
                        *files,
                        b as int,
                        d as int,
                        dir_path@,
                        icon_name@,
                        (e + 1) as nat,
                    ));
                    e = e + 1;
                }
                assert(candidates_view(out@) =~= before_base + found_in_base(
                    *files,
                    b as int,
                    bases@[b as int]@,
                    dirs@,
                    icon_name@,
                    (d + 1) as nat,
                ));
                d = d + 1;
            }
            assert(candidates_view(out@) =~= found_in_bases(
                *files,
                bases@,
                dirs@,
                icon_name@,
                (b + 1) as nat,
            ));
            b = b + 1;
        }
        out
    }

    /// Finds an icon in this theme only: the first file, by base directory, then
    /// subdirectory, then file type, in a directory that matches the size and scale
    /// exactly; or else a file in the closest directory.
    pub fn find_icon_here(&self, icon_name: &str, size: u32, scale: u32, files: &FileSet) -> (r:
        Option<IconFile>)
        ensures
            path_of(r) == found_here(self.info, icon_name@, size, scale, *files),
            opt_wf(r),
    {
        let exact = exact_pass(&self.info, icon_name, size, scale, files);
        if exact.is_some() {
            return exact;
        }
        closest_pass(&self.info, icon_name, size, scale, files)
    }

    /// Finds an icon in this theme or, failing that, in the first of its ancestors, in
    /// order, that holds one.
    pub fn find_icon(&self, icon_name: &str, size: u32, scale: u32, files: &FileSet) -> (r:
        Option<IconFile>)
        ensures
            path_of(r) == found_in_theme(*self, icon_name@, size, scale, *files),
            opt_wf(r),
    {
        let here = self.find_icon_here(icon_name, size, scale, files);
        if here.is_some() {
            return here;
        }
        assert(found_here(self.info, icon_name@, size, scale, *files) is None);
        let mut i: usize = 0;
        while i < self.inherits_from.len()
            invariant
                i <= self.inherits_from@.len(),
                found_here(self.info, icon_name@, size, scale, *files) is None,
                found_in_ancestors(self.inherits_from@, icon_name@, size, scale, *files, i as nat)
                    is None,
            decreases self.inherits_from@.len() - i,
        {
            let r = self.inherits_from[i].find_icon_here(icon_name, size, scale, files);
            assert(found_in_ancestors(self.inherits_from@, icon_name@, size, scale, *files, (i + 1) as nat) == path_of(r));
            if r.is_some() {
                proof {
                    lemma_ancestors_stable(
                        self.inherits_from@,
                        icon_name@,
                        size,
                        scale,
                        *files,
                        (i + 1) as nat,
                        self.inherits_from@.len(),
                    );
                }
                return r;
            }
            i = i + 1;
        }
        None
    }

    /// Like `find_icon`, at scale 1.
    pub fn find_icon_unscaled(&self, icon_name: &str, size: u32, files: &FileSet) -> (r: Option<
        IconFile,
    >)
        ensures
            path_of(r) == found_in_theme(*self, icon_name@, size, 1, *files),
            opt_wf(r),
    {
        self.find_icon(icon_name, size, 1, files)
    }
}

proof fn lemma_ancestors_stable(
    ancestors: Seq<Arc<Theme>>,
    name: Seq<char>,
    size: u32,
    scale: u32,
    files: FileSet,
    m: nat,
    n: nat,
)
    requires
        m <= n <= ancestors.len(),
        found_in_ancestors(ancestors, name, size, scale, files, m) is Some,
    ensures
        found_in_ancestors(ancestors, name, size, scale, files, n) == found_in_ancestors(
            ancestors,
            name,
            size,
            scale,
            files,
            m,
        ),
    decreases n - m,
{
    if m < n {
        lemma_ancestors_stable(ancestors, name, size, scale, files, m, (n - 1) as nat);
    }
}

} // verus!
