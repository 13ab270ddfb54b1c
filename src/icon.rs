use crate::files::FileSet;
use crate::resolve::fallback_name;
use crate::theme::{found_in_theme, opt_wf, path_of, share, Theme};
use std::sync::Arc;
use vstd::prelude::*;
use vstd::string::StrSliceExecFns;

verus! {

/// The extension that `Path::extension` gives for a path, as text.
pub uninterp spec fn path_extension(p: Seq<char>) -> Option<Seq<char>>;

/// The stem that `Path::file_stem` gives for a path, as text.
pub uninterp spec fn path_stem(p: Seq<char>) -> Option<Seq<char>>;

/// Relies on `Path::extension`: the extension of the path's file name, if any. A path
/// given as text has a textual extension, so the conversion back to `str` keeps it.
#[verifier::external_body]
fn extension(path: &str) -> (r: Option<&str>)
    ensures
        r matches Some(e) ==> path_extension(path@) == Some(e@),
        r is None ==> path_extension(path@) is None,
{
    std::path::Path::new(path).extension().and_then(|e| e.to_str())
}

/// Relies on `Path::file_stem`: the file name without its extension, if the path has
/// a file name.
#[verifier::external_body]
fn file_stem(path: &str) -> (r: Option<&str>)
    ensures
        r matches Some(t) ==> path_stem(path@) == Some(t@),
        r is None ==> path_stem(path@) is None,
{
    std::path::Path::new(path).file_stem().and_then(|t| t.to_str())
}

/// `a` equals the lowercase ASCII text `lower` when ASCII case is ignored.
pub open spec fn eq_ignore_ascii_case(a: Seq<char>, lower: Seq<char>) -> bool {
    &&& a.len() == lower.len()
    &&& forall|i: int|
        0 <= i < a.len() ==> (a[i] == lower[i] || (a[i] as u32) + 32 == lower[i] as u32)
}

/// Supported image file formats for icons.
#[derive(Debug, Copy, Clone, PartialEq, Eq, Structural)]
pub enum FileType {
    /// `.png` files (Portable Network Graphics).
    Png,
    /// `.xpm` files (X PixMap).
    Xpm,
    /// `.svg` files (Scalable Vector Graphics).
    Svg,
}

/// The canonical lowercase extension of a file type.
pub open spec fn ext_of(t: FileType) -> Seq<char> {
    match t {
        FileType::Png => seq!['p', 'n', 'g'],
        FileType::Xpm => seq!['x', 'p', 'm'],
        FileType::Svg => seq!['s', 'v', 'g'],
    }
}

/// All file types, in the canonical order in which lookups try them.
pub open spec fn all_types() -> Seq<FileType> {
    seq![FileType::Png, FileType::Xpm, FileType::Svg]
}

/// The file type that an extension denotes, ASCII case ignored.
pub open spec fn type_of_ext(e: Seq<char>) -> Option<FileType> {
    if eq_ignore_ascii_case(e, ext_of(FileType::Png)) {
        Some(FileType::Png)
    } else if eq_ignore_ascii_case(e, ext_of(FileType::Xpm)) {
        Some(FileType::Xpm)
    } else if eq_ignore_ascii_case(e, ext_of(FileType::Svg)) {
        Some(FileType::Svg)
    } else {
        None
    }
}

/// The file type of a path, from its extension.
pub open spec fn type_of_path(p: Seq<char>) -> Option<FileType> {
    match path_extension(p) {
        Some(e) => type_of_ext(e),
        None => None,
    }
}

fn eq_ignore_ascii_case_exec(a: &str, lower: &str) -> (r: bool)
    ensures
        r == eq_ignore_ascii_case(a@, lower@),
{
    let n = a.unicode_len();
    if n != lower.unicode_len() {
        return false;
    }
    let mut i: usize = 0;
    while i < n
        invariant
            n == a@.len() == lower@.len(),
            i <= n,
            forall|j: int|
                0 <= j < i ==> (a@[j] == lower@[j] || (a@[j] as u32) + 32 == lower@[j] as u32),
        decreases n - i,
    {
        let c = a.get_char(i);
        let l = lower.get_char(i);
        if !(c == l || (c as u32) + 32 == l as u32) {
            return false;
        }
        i = i + 1;
    }
    true
}

impl FileType {
    /// The canonical, lowercase file extension of this type ("png", "xpm" or "svg").
    pub fn ext(&self) -> (r: &'static str)
        ensures
            r@ == ext_of(*self),
    {
        proof {
            reveal_strlit("png");
            reveal_strlit("xpm");
            reveal_strlit("svg");
        }
        match self {
            FileType::Png => "png",
            FileType::Xpm => "xpm",
            FileType::Svg => "svg",
        }
    }

    /// All file types that icons may appear as, in canonical lookup order.
    pub fn types() -> (r: [FileType; 3])
        ensures
            r@ == all_types(),
    {
        let r = [FileType::Png, FileType::Xpm, FileType::Svg];
        assert(r@ =~= all_types());
        r
    }

    /// The file type named by a path's extension, ignoring ASCII case; `None` when the
    /// path has no file name, no extension, or an extension of no supported type.
    pub fn from_path_ext(path: &str) -> (r: Option<FileType>)
        ensures
            r == type_of_path(path@),
    {
        let e = match extension(path) {
            Some(e) => e,
            None => return None,
        };
        proof {
            reveal_strlit("png");
            reveal_strlit("xpm");
            reveal_strlit("svg");
        }
        if eq_ignore_ascii_case_exec(e, "png") {
            Some(FileType::Png)
        } else if eq_ignore_ascii_case_exec(e, "xpm") {
            Some(FileType::Xpm)
        } else if eq_ignore_ascii_case_exec(e, "svg") {
            Some(FileType::Svg)
        } else {
            None
        }
    }
}

/// The path to an icon along with its file type, derived from the path's extension.
#[derive(Debug, Clone, PartialEq, Eq)]
pub struct IconFile {
    path: String,
    file_type: FileType,
}

impl IconFile {
    /// The icon's path.
    pub closed spec fn path_view(&self) -> Seq<char> {
        self.path@
    }

    /// The icon's file type.
    pub closed spec fn type_view(&self) -> FileType {
        self.file_type
    }

    /// An icon file holds a path with a file stem whose extension gives its type.
    pub open spec fn wf(&self) -> bool {
        &&& path_stem(self.path_view()) is Some
        &&& type_of_path(self.path_view()) == Some(self.type_view())
    }

    /// The icon's name: the stem of its file name.
    pub fn icon_name(&self) -> (r: &str)
        requires
            self.wf(),
        ensures
            path_stem(self.path_view()) == Some(r@),
    {
        match file_stem(self.path.as_str()) {
            Some(t) => t,
            None => "",
        }
    }

    /// An icon file for a path, or `None` when the path has no file stem or no
    /// extension of a supported type (`png`, `xpm`, `svg`, ASCII case ignored).
    pub fn from_path(path: &str) -> (r: Option<IconFile>)
        ensures
            r is Some <==> icon_path(path@),
            r matches Some(f) ==> f.wf() && f.path_view() == path@ && Some(f.type_view())
                == type_of_path(path@),
    {
        Self::from_path_buf(path.to_owned())
    }

    /// Like `from_path`, taking the path by value.
    pub fn from_path_buf(path_buf: String) -> (r: Option<IconFile>)
        ensures
            r is Some <==> icon_path(path_buf@),
            r matches Some(f) ==> f.wf() && f.path_view() == path_buf@ && Some(f.type_view())
                == type_of_path(path_buf@),
    {
        if file_stem(path_buf.as_str()).is_none() {
            return None;
        }
        let file_type = match FileType::from_path_ext(path_buf.as_str()) {
            Some(t) => t,
            None => return None,
        };
        Some(IconFile { path: path_buf, file_type })
    }

    /// A copy of this icon file.
    pub fn copy(&self) -> (r: IconFile)
        ensures
            r.path_view() == self.path_view(),
            r.type_view() == self.type_view(),
    {
        IconFile { path: self.path.clone(), file_type: self.file_type }
    }

    /// The icon's path.
    pub fn path(&self) -> (r: &str)
        ensures
            r@ == self.path_view(),
    {
        self.path.as_str()
    }

    /// The icon's file type.
    pub fn file_type(&self) -> (r: FileType)
        ensures
            r == self.type_view(),
    {
        self.file_type
    }
}

/// A path can be an icon file: it has an extension of a supported type.
pub open spec fn icon_path(p: Seq<char>) -> bool {
    path_stem(p) is Some && type_of_path(p) is Some
}

/// Position of the first of the first `n` themes whose internal name is `name`.
pub open spec fn first_theme(themes: Seq<Arc<Theme>>, name: Seq<char>, n: nat) -> Option<int>
    decreases n,
{
    if n == 0 || n > themes.len() {
        None
    } else {
        match first_theme(themes, name, (n - 1) as nat) {
            Some(i) => Some(i),
            None => if themes[n - 1].info.internal_name@ == name {
                Some(n - 1)
            } else {
                None
            },
        }
    }
}

/// Position of the last of the first `n` standalone icons whose name is `name`.
pub open spec fn last_standalone(icons: Seq<IconFile>, name: Seq<char>, n: nat) -> Option<int>
    decreases n,
{
    if n == 0 || n > icons.len() {
        None
    } else if path_stem(icons[n - 1].path_view()) == Some(name) {
        Some(n - 1)
    } else {
        last_standalone(icons, name, (n - 1) as nat)
    }
}

/// The standalone icon of a name: the last one listed under that name.
pub open spec fn standalone_of(icons: Icons, name: Seq<char>) -> Option<Seq<char>> {
    match last_standalone(icons.standalone_icons@, name, icons.standalone_icons@.len()) {
        Some(j) => Some(icons.standalone_icons@[j].path_view()),
        None => None,
    }
}

/// The theme a lookup in theme `theme` uses: that theme, or else the fallback theme.
pub open spec fn lookup_theme(icons: Icons, theme: Seq<char>) -> Option<int> {
    match first_theme(icons.themes@, theme, icons.themes@.len()) {
        Some(i) => Some(i),
        None => first_theme(icons.themes@, fallback_name(), icons.themes@.len()),
    }
}

/// The icon a lookup finds: none for an empty name; else the icon found in the theme
/// (or, when no theme has that name, the fallback theme) and its ancestors, or failing
/// that, or when neither theme is known, the standalone icon of that name.
pub open spec fn icons_lookup(
    icons: Icons,
    name: Seq<char>,
    size: u32,
    scale: u32,
    theme: Seq<char>,
    files: FileSet,
) -> Option<Seq<char>> {
    if name.len() == 0 {
        None
    } else {
        match lookup_theme(icons, theme) {
            None => standalone_of(icons, name),
            Some(i) => match found_in_theme(*icons.themes@[i], name, size, scale, files) {
                Some(p) => Some(p),
                None => standalone_of(icons, name),
            },
        }
    }
}

/// The standalone icons and the resolved themes, the starting point of icon lookups.
pub struct Icons {
    /// Icons that belong to no theme.
    pub standalone_icons: Vec<IconFile>,
    /// Every resolved theme.
    pub themes: Vec<Arc<Theme>>,
}

/// The standalone icons are well-formed icon files.
pub open spec fn icons_wf(icons: Icons) -> bool {
    forall|j: int| 0 <= j < icons.standalone_icons@.len() ==> #[trigger] icons.standalone_icons@[j].wf()
}

/// Position of the first theme of a name.
pub(crate) fn theme_position(themes: &Vec<Arc<Theme>>, theme_name: &str) -> (r: Option<usize>)
    ensures
        r matches Some(i) ==> first_theme(themes@, theme_name@, themes@.len()) == Some(i as int),
        r is None ==> first_theme(themes@, theme_name@, themes@.len()) is None,
{
    let key = theme_name.to_owned();
    let mut i: usize = 0;
    while i < themes.len()
        invariant
            i <= themes@.len(),
            key@ == theme_name@,
            first_theme(themes@, theme_name@, i as nat) is None,
        decreases themes@.len() - i,
    {
        if themes[i].info.internal_name == key {
            assert(first_theme(themes@, theme_name@, (i + 1) as nat) == Some(i as int));
            proof { lemma_first_theme_stable(themes@, theme_name@, (i + 1) as nat, themes@.len()); }
            return Some(i);
        }
        i = i + 1;
    }
    None
}

proof fn lemma_first_theme_stable(themes: Seq<Arc<Theme>>, name: Seq<char>, m: nat, n: nat)
    requires
        m <= n <= themes.len(),
        first_theme(themes, name, m) is Some,
    ensures
        first_theme(themes, name, n) == first_theme(themes, name, m),
    decreases n - m,
{
    if m < n {
        lemma_first_theme_stable(themes, name, m, (n - 1) as nat);
    }
}

/// Position of the theme a lookup in `theme` uses.
pub(crate) fn lookup_position(icons: &Icons, theme: &str) -> (r: Option<usize>)
    ensures
        r matches Some(i) ==> lookup_theme(*icons, theme@) == Some(i as int) && i < icons.themes@.len(),
        r is None ==> lookup_theme(*icons, theme@) is None,
{
    let r = match theme_position(&icons.themes, theme) {
        Some(i) => Some(i),
        None => {
            proof { reveal_strlit("hicolor"); }
            let r = theme_position(&icons.themes, "hicolor");
            assert("hicolor"@ =~= fallback_name());
            r
        },
    };
    proof {
        if let Some(i) = r {
            lemma_first_theme_bound(icons.themes@, theme@, icons.themes@.len());
            lemma_first_theme_bound(icons.themes@, fallback_name(), icons.themes@.len());
        }
    }
    r
}

pub(crate) proof fn lemma_first_theme_bound(themes: Seq<Arc<Theme>>, name: Seq<char>, n: nat)
    ensures
        first_theme(themes, name, n) matches Some(i) ==> 0 <= i < n && i < themes.len(),
    decreases n,
{
    if n > 0 && n <= themes.len() {
        lemma_first_theme_bound(themes, name, (n - 1) as nat);
    }
}

impl Icons {
    /// The first theme of the given internal name.
    pub fn theme(&self, theme_name: &str) -> (r: Option<Arc<Theme>>)
        ensures
            r matches Some(t) ==> first_theme(self.themes@, theme_name@, self.themes@.len())
                matches Some(i) && t == self.themes@[i],
            r is None ==> first_theme(self.themes@, theme_name@, self.themes@.len()) is None,
    {
        match theme_position(&self.themes, theme_name) {
            Some(i) => {
                proof { lemma_first_theme_bound(self.themes@, theme_name@, self.themes@.len()); }
                Some(share(&self.themes[i]))
            },
            None => None,
        }
    }

    /// The standalone icon of a name: an icon outside every theme, found by its name
    /// alone; the last one listed when several share the name.
    pub fn find_standalone_icon(&self, icon_name: &str) -> (r: Option<IconFile>)
        requires
            icons_wf(*self),
        ensures
            path_of(r) == standalone_of(*self, icon_name@),
            opt_wf(r),
    {
        let key = icon_name.to_owned();
        let mut i: usize = self.standalone_icons.len();
        while i > 0
            invariant
                i <= self.standalone_icons@.len(),
                key@ == icon_name@,
                icons_wf(*self),
                standalone_of(*self, icon_name@) == match last_standalone(
                    self.standalone_icons@,
                    icon_name@,
                    i as nat,
                ) {
                    Some(j) => Some(self.standalone_icons@[j].path_view()),
                    None => None,
                },
            decreases i,
        {
            let icon = &self.standalone_icons[i - 1];
            assert(icon.wf());
            let name = icon.icon_name().to_owned();
            if name == key {
                return Some(icon.copy());
            }
            i = i - 1;
        }
        None
    }

    /// Looks up an icon by name, size, scale and theme. An empty name finds nothing.
    /// When no theme has the given name the fallback theme is used. The icon found in
    /// that theme or its ancestors is returned, or failing that (or when neither theme
    /// is known) the standalone icon of that name.
    pub fn find_icon(&self, icon_name: &str, size: u32, scale: u32, theme: &str, files: &FileSet) -> (r:
        Option<IconFile>)
        requires
            icons_wf(*self),
        ensures
            path_of(r) == icons_lookup(*self, icon_name@, size, scale, theme@, *files),
            opt_wf(r),
    {
        if icon_name.unicode_len() == 0 {
            return None;
        }
        let i = match lookup_position(self, theme) {
            Some(i) => i,
            None => return self.find_standalone_icon(icon_name),
        };
        let found = self.themes[i].find_icon(icon_name, size, scale, files);
        if found.is_some() {
            return found;
        }
        self.find_standalone_icon(icon_name)
    }

    /// Like `find_icon`, in the fallback theme.
    pub fn find_default_icon(&self, icon_name: &str, size: u32, scale: u32, files: &FileSet) -> (r:
        Option<IconFile>)
        requires
            icons_wf(*self),
        ensures
            path_of(r) == icons_lookup(*self, icon_name@, size, scale, fallback_name(), *files),
            opt_wf(r),
    {
        proof { reveal_strlit("hicolor"); }
        let r = self.find_icon(icon_name, size, scale, "hicolor", files);
        assert("hicolor"@ =~= fallback_name());
        r
    }
}

/// When a theme and its ancestors hold no icon of a name but a standalone icon of that
/// name exists, a lookup in that theme returns the standalone icon, whatever the size
/// and scale.
pub proof fn standalone_fallback(
    icons: Icons,
    name: Seq<char>,
    size: u32,
    scale: u32,
    theme: Seq<char>,
    files: FileSet,
)
    requires
        name.len() > 0,
        lookup_theme(icons, theme) matches Some(i) && found_in_theme(
            *icons.themes@[i],
            name,
            size,
            scale,
            files,
        ) is None,
        standalone_of(icons, name) is Some,
    ensures
        icons_lookup(icons, name, size, scale, theme, files) == standalone_of(icons, name),
{
}

} // verus!
