use crate::files::FileSet;
use crate::theme::{
    candidates_view, candidates_wf, found_here, found_in_ancestors, icon_files_of, opt_wf, path_of,
    select_icon, selected, IconCandidate, Theme,
};
use crate::icon::{icons_lookup, icons_wf, lookup_position, lookup_theme, IconFile, Icons};
use crate::resolve::fallback_name;
use crate::theme::{found_in_theme, share};
use qp_trie::wrapper::BString;
use qp_trie::Trie;
use std::sync::Arc;
use vstd::prelude::*;

verus! {

/// The trie of `qp_trie`, kept opaque: what it holds is read through `trie_entries`.
#[verifier::external_type_specification]
#[verifier::external_body]
#[verifier::reject_recursive_types(K)]
#[verifier::reject_recursive_types(V)]
pub struct ExTrie<K, V>(Trie<K, V>);

/// The string key type of `qp_trie`, kept opaque.
#[verifier::external_type_specification]
#[verifier::external_body]
pub struct ExBString(BString);

/// What a trie keyed by strings holds: each key's characters mapped to its value.
pub uninterp spec fn trie_entries(t: Trie<BString, usize>) -> Map<Seq<char>, usize>;

/// The contents of an empty trie.
pub open spec fn no_entries() -> Map<Seq<char>, usize> {
    Map::empty()
}

/// Relies on `Trie::new`: a new trie holds no entry.
#[verifier::external_body]
fn trie_new() -> (r: Trie<BString, usize>)
    ensures
        trie_entries(r) == no_entries(),
{
    Trie::new()
}

/// Relies on `Trie::get_str`: the value stored under the key, if any.
#[verifier::external_body]
fn trie_get(t: &Trie<BString, usize>, key: &str) -> (r: Option<usize>)
    ensures
        r matches Some(v) ==> trie_entries(*t).contains_key(key@) && trie_entries(*t)[key@] == v,
        r is None ==> !trie_entries(*t).contains_key(key@),
{
    t.get_str(key).copied()
}

/// Relies on `Trie::insert_str`: afterwards the key maps to the value and every other
/// key keeps its entry.
#[verifier::external_body]
fn trie_insert(t: &mut Trie<BString, usize>, key: &str, v: usize)
    ensures
        trie_entries(*final(t)) == trie_entries(*old(t)).insert(key@, v),
{
    t.insert_str(key, v);
}

/// Relies on `Trie::is_empty`: whether the trie holds no entry.
#[verifier::external_body]
fn trie_is_empty(t: &Trie<BString, usize>) -> (r: bool)
    ensures
        r == (trie_entries(*t) == no_entries()),
{
    t.is_empty()
}

/// Relies on `Trie::clear`: afterwards the trie holds no entry.
#[verifier::external_body]
fn trie_clear(t: &mut Trie<BString, usize>)
    ensures
        trie_entries(*final(t)) == no_entries(),
{
    t.clear();
}

/// A theme together with a memo of, for each icon name asked for so far, every file
/// of that name in the theme's own directories.
pub struct ThemeCache {
    theme: Arc<Theme>,
    cache: Trie<BString, usize>,
    entries: Vec<Vec<IconCandidate>>,
}

impl ThemeCache {
    /// The theme this cache serves.
    pub closed spec fn theme_view(&self) -> Theme {
        *self.theme
    }

    /// The memo: for each icon name looked up so far, the files found for it.
    pub closed spec fn memo(&self) -> Map<Seq<char>, Seq<(int, int, Seq<char>)>> {
        Map::new(
            |k: Seq<char>| trie_entries(self.cache).contains_key(k),
            |k: Seq<char>| candidates_view(self.entries@[trie_entries(self.cache)[k] as int]@),
        )
    }

    /// Every memo entry points at a stored list of well-formed files of the theme.
    pub closed spec fn wf(&self) -> bool {
        forall|k: Seq<char>|
            #[trigger] trie_entries(self.cache).contains_key(k) ==> trie_entries(self.cache)[k]
                < self.entries@.len() && candidates_wf(
                self.entries@[trie_entries(self.cache)[k] as int]@,
                self.theme.info.index.directories@.len() as int,
            )
    }

    /// Every memo entry lists exactly the files that `files` holds for its name.
    pub open spec fn agrees_with(&self, files: FileSet) -> bool {
        forall|k: Seq<char>|
            #[trigger] self.memo().contains_key(k) ==> self.memo()[k] == icon_files_of(
                self.theme_view().info,
                k,
                files,
            )
    }

    /// A cache of the theme with an empty memo.
    pub fn from_theme(theme: Arc<Theme>) -> (r: ThemeCache)
        ensures
            r.wf(),
            r.theme_view() == *theme,
            r.memo() == Map::<Seq<char>, Seq<(int, int, Seq<char>)>>::empty(),
    {
        let r = ThemeCache { theme, cache: trie_new(), entries: Vec::new() };
        assert(r.memo() =~= Map::<Seq<char>, Seq<(int, int, Seq<char>)>>::empty());
        r
    }

    /// Whether the memo holds an entry for the name.
    pub fn is_cached(&self, icon_name: &str) -> (r: bool)
        ensures
            r == self.memo().contains_key(icon_name@),
    {
        trie_get(&self.cache, icon_name).is_some()
    }

    /// Whether the memo is empty.
    pub fn is_empty(&self) -> (r: bool)
        ensures
            r == (self.memo() == Map::<Seq<char>, Seq<(int, int, Seq<char>)>>::empty()),
    {
        let r = trie_is_empty(&self.cache);
        proof {
            if r {
                assert(self.memo() =~= Map::<Seq<char>, Seq<(int, int, Seq<char>)>>::empty());
            } else {
                if self.memo() == Map::<Seq<char>, Seq<(int, int, Seq<char>)>>::empty() {
                    assert(trie_entries(self.cache) =~= Map::<Seq<char>, usize>::empty()) by {
                        assert forall|k: Seq<char>| !trie_entries(self.cache).contains_key(k) by {
                            assert(!self.memo().contains_key(k));
                        }
                    }
                }
            }
        }
        r
    }

    /// Empties the memo.
    pub fn clear_cache(&mut self)
        requires
            old(self).wf(),
        ensures
            final(self).wf(),
            final(self).theme_view() == old(self).theme_view(),
            final(self).memo() == Map::<Seq<char>, Seq<(int, int, Seq<char>)>>::empty(),
    {
        trie_clear(&mut self.cache);
        self.entries = Vec::new();
        assert(self.memo() =~= Map::<Seq<char>, Seq<(int, int, Seq<char>)>>::empty());
    }

    /// Finds an icon in this theme only, as `Theme::find_icon_here` does. The first
    /// lookup of a name collects every file of that name in the theme's directories and
    /// keeps them; later lookups of that name choose among the kept files.
    pub fn find_icon_here(&mut self, icon_name: &str, size: u32, scale: u32, files: &FileSet) -> (r:
        Option<IconFile>)
        requires
            old(self).wf(),
        ensures
            final(self).wf(),
            final(self).theme_view() == old(self).theme_view(),
            old(self).memo().contains_key(icon_name@) ==> final(self).memo() == old(self).memo(),
            !old(self).memo().contains_key(icon_name@) ==> final(self).memo() == old(self).memo().insert(
                icon_name@,
                icon_files_of(old(self).theme_view().info, icon_name@, *files),
            ),
            path_of(r) == selected(
                final(self).memo()[icon_name@],
                old(self).theme_view().info.index.directories@,
                size,
                scale,
            ),
            opt_wf(r),
    {
        let slot = match trie_get(&self.cache, icon_name) {
            Some(at) => at,
            None => {
                let found = self.theme.find_icon_files(icon_name, files);
                let at = self.entries.len();
                let ghost before = self.memo();
                let ghost old_entries = self.entries@;
                let ghost old_trie = trie_entries(self.cache);
                self.entries.push(found);
                trie_insert(&mut self.cache, icon_name, at);
                proof {
                    assert forall|k: Seq<char>| #[trigger] old_trie.contains_key(k) implies self.entries@[
                        old_trie[k] as int] == old_entries[old_trie[k] as int] by {}
                    assert(self.memo() =~= before.insert(
                        icon_name@,
                        icon_files_of(self.theme_view().info, icon_name@, *files),
                    ));
                }
                at
            },
        };
        assert(trie_entries(self.cache).contains_key(icon_name@));
        select_icon(&self.theme.info.index.directories, &self.entries[slot], size, scale)
    }
}

impl ThemeCache {
    /// Finds an icon in this theme, through the memo, or else in the first of the
    /// theme's ancestors, in order, that holds one.
    pub fn find_icon(&mut self, icon_name: &str, size: u32, scale: u32, files: &FileSet) -> (r:
        Option<IconFile>)
        requires
            old(self).wf(),
        ensures
            final(self).wf(),
            final(self).theme_view() == old(self).theme_view(),
            old(self).memo().contains_key(icon_name@) ==> final(self).memo() == old(self).memo(),
            !old(self).memo().contains_key(icon_name@) ==> final(self).memo() == old(self).memo().insert(
                icon_name@,
                icon_files_of(old(self).theme_view().info, icon_name@, *files),
            ),
            path_of(r) == match selected(
                final(self).memo()[icon_name@],
                old(self).theme_view().info.index.directories@,
                size,
                scale,
            ) {
                Some(p) => Some(p),
                None => found_in_ancestors(
                    old(self).theme_view().inherits_from@,
                    icon_name@,
                    size,
                    scale,
                    *files,
                    old(self).theme_view().inherits_from@.len(),
                ),
            },
            opt_wf(r),
    {
        let here = self.find_icon_here(icon_name, size, scale, files);
        if here.is_some() {
            return here;
        }
        let ancestors = &self.theme.inherits_from;
        let mut i: usize = 0;
        while i < ancestors.len()
            invariant
                i <= ancestors@.len(),
                ancestors@ == old(self).theme_view().inherits_from@,
                self.wf(),
                self.theme_view() == old(self).theme_view(),
                old(self).memo().contains_key(icon_name@) ==> self.memo() == old(self).memo(),
                !old(self).memo().contains_key(icon_name@) ==> self.memo() == old(self).memo().insert(
                    icon_name@,
                    icon_files_of(old(self).theme_view().info, icon_name@, *files),
                ),
                selected(
                    self.memo()[icon_name@],
                    old(self).theme_view().info.index.directories@,
                    size,
                    scale,
                ) is None,
                found_in_ancestors(ancestors@, icon_name@, size, scale, *files, i as nat) is None,
            decreases ancestors@.len() - i,
        {
            let r = ancestors[i].find_icon_here(icon_name, size, scale, files);
            assert(found_in_ancestors(ancestors@, icon_name@, size, scale, *files, (i + 1) as nat) == path_of(r));
            if r.is_some() {
                proof { lemma_first_ancestor(ancestors@, icon_name@, size, scale, *files, (i + 1) as nat); }
                return r;
            }
            i = i + 1;
        }
        None
    }
}

proof fn lemma_first_ancestor(
    ancestors: Seq<Arc<Theme>>,
    name: Seq<char>,
    size: u32,
    scale: u32,
    files: FileSet,
    m: nat,
)
    requires
        m <= ancestors.len(),
        found_in_ancestors(ancestors, name, size, scale, files, m) is Some,
    ensures
        found_in_ancestors(ancestors, name, size, scale, files, ancestors.len()) == found_in_ancestors(
            ancestors,
            name,
            size,
            scale,
            files,
            m,
        ),
    decreases ancestors.len() - m,
{
    if m < ancestors.len() {
        lemma_first_ancestor(ancestors, name, size, scale, files, m + 1);
    }
}

/// A cached lookup returns what an uncached lookup against the same files returns:
/// when every memo entry of `before` lists the files that `files` holds, and `after` is
/// the cache as a lookup of `name` leaves it, `after`'s memo still agrees with `files`
/// and the file it chooses for `name` is the one `Theme::find_icon_here` chooses. Since
/// `after` then holds `name`, a second lookup leaves the memo as it is and chooses the
/// same file again.
pub proof fn cached_lookup_agrees(
    before: ThemeCache,
    after: ThemeCache,
    files: FileSet,
    name: Seq<char>,
    size: u32,
    scale: u32,
)
    requires
        before.agrees_with(files),
        after.theme_view() == before.theme_view(),
        before.memo().contains_key(name) ==> after.memo() == before.memo(),
        !before.memo().contains_key(name) ==> after.memo() == before.memo().insert(
            name,
            icon_files_of(before.theme_view().info, name, files),
        ),
    ensures
        after.agrees_with(files),
        after.memo().contains_key(name),
        selected(after.memo()[name], after.theme_view().info.index.directories@, size, scale)
            == found_here(after.theme_view().info, name, size, scale, files),
{
    assert forall|k: Seq<char>| #[trigger] after.memo().contains_key(k) implies after.memo()[k]
        == icon_files_of(after.theme_view().info, k, files) by {
        if k != name {
            assert(before.memo().contains_key(k));
        }
    }
}

/// A new cache agrees with every file set.
pub proof fn new_cache_agrees(c: ThemeCache, files: FileSet)
    requires
        c.memo() == Map::<Seq<char>, Seq<(int, int, Seq<char>)>>::empty(),
    ensures
        c.agrees_with(files),
{
}

/// `Icons` with a memo per theme.
pub struct IconsCache {
    icons: Icons,
    themes: Vec<ThemeCache>,
}

impl IconsCache {
    /// The icons this cache serves.
    pub closed spec fn icons_view(&self) -> Icons {
        self.icons
    }

    /// There is one well-formed memo per theme, in the same order.
    pub closed spec fn wf(&self) -> bool {
        &&& icons_wf(self.icons)
        &&& self.themes@.len() == self.icons.themes@.len()
        &&& forall|i: int|
            0 <= i < self.themes@.len() ==> (#[trigger] self.themes@[i]).wf()
                && self.themes@[i].theme_view() == *self.icons.themes@[i]
    }

    /// Every memo agrees with `files`.
    pub closed spec fn agrees_with(&self, files: FileSet) -> bool {
        forall|i: int| 0 <= i < self.themes@.len() ==> (#[trigger] self.themes@[i]).agrees_with(files)
    }

    /// A cache with an empty memo for every theme; it agrees with every file set.
    pub fn from_icons(icons: Icons) -> (r: IconsCache)
        requires
            icons_wf(icons),
        ensures
            r.wf(),
            r.icons_view() == icons,
            forall|files: FileSet| r.agrees_with(files),
    {
        let mut themes: Vec<ThemeCache> = Vec::new();
        let mut i: usize = 0;
        while i < icons.themes.len()
            invariant
                i <= icons.themes@.len(),
                themes@.len() == i,
                forall|j: int|
                    0 <= j < i ==> (#[trigger] themes@[j]).wf() && themes@[j].theme_view() == *icons.themes@[j]
                        && themes@[j].memo() == Map::<Seq<char>, Seq<(int, int, Seq<char>)>>::empty(),
            decreases icons.themes@.len() - i,
        {
            themes.push(ThemeCache::from_theme(share(&icons.themes[i])));
            i = i + 1;
        }
        let r = IconsCache { icons, themes };
        assert forall|files: FileSet| r.agrees_with(files) by {
            assert forall|j: int| 0 <= j < r.themes@.len() implies (#[trigger] r.themes@[j]).agrees_with(files) by {
                new_cache_agrees(r.themes@[j], files);
            }
        }
        r
    }

    /// The icons this cache serves.
    pub fn icons(&self) -> (r: &Icons)
        ensures
            *r == self.icons_view(),
    {
        &self.icons
    }

    /// The memo of the first theme of the given internal name.
    pub fn theme_cache(&self, theme_name: &str) -> (r: Option<&ThemeCache>)
        requires
            self.wf(),
        ensures
            r matches Some(c) ==> crate::icon::first_theme(
                self.icons_view().themes@,
                theme_name@,
                self.icons_view().themes@.len(),
            ) matches Some(i) && c.theme_view() == *self.icons_view().themes@[i],
            r is None ==> crate::icon::first_theme(
                self.icons_view().themes@,
                theme_name@,
                self.icons_view().themes@.len(),
            ) is None,
    {
        match crate::icon::theme_position(&self.icons.themes, theme_name) {
            Some(i) => {
                proof { crate::icon::lemma_first_theme_bound(self.icons.themes@, theme_name@, self.icons.themes@.len()); }
                Some(&self.themes[i])
            },
            None => None,
        }
    }

    /// The standalone icon of a name, as `Icons::find_standalone_icon` gives it.
    pub fn find_standalone_icon(&self, icon_name: &str) -> (r: Option<IconFile>)
        requires
            self.wf(),
        ensures
            path_of(r) == crate::icon::standalone_of(self.icons_view(), icon_name@),
            opt_wf(r),
    {
        self.icons.find_standalone_icon(icon_name)
    }

    /// Looks up an icon as `Icons::find_icon` does, through the memo of the theme used.
    /// When the memos agree with `files`, they still do afterwards and the result is
    /// the one `Icons::find_icon` gives.
    pub fn find_icon(&mut self, icon_name: &str, size: u32, scale: u32, theme: &str, files: &FileSet) -> (r:
        Option<IconFile>)
        requires
            old(self).wf(),
        ensures
            final(self).wf(),
            final(self).icons_view() == old(self).icons_view(),
            old(self).agrees_with(*files) ==> final(self).agrees_with(*files) && path_of(r)
                == icons_lookup(old(self).icons_view(), icon_name@, size, scale, theme@, *files),
            opt_wf(r),
    {
        if icon_name.unicode_len() == 0 {
            return None;
        }
        let i = match lookup_position(&self.icons, theme) {
            Some(i) => i,
            None => return self.icons.find_standalone_icon(icon_name),
        };
        let ghost before = self.themes@[i as int];
        let found = self.themes[i].find_icon(icon_name, size, scale, files);
        let ghost after = self.themes@[i as int];
        proof {
            assert forall|j: int| 0 <= j < self.themes@.len() implies (#[trigger] self.themes@[j]).wf()
                && self.themes@[j].theme_view() == *self.icons.themes@[j] by {
                if j != i {
                    assert(self.themes@[j] == old(self).themes@[j]);
                }
            }
            if old(self).agrees_with(*files) {
                cached_lookup_agrees(before, after, *files, icon_name@, size, scale);
                assert forall|j: int| 0 <= j < self.themes@.len() implies (#[trigger] self.themes@[j]).agrees_with(*files) by {
                    if j != i {
                        assert(self.themes@[j] == old(self).themes@[j]);
                    }
                }
            }
        }
        if found.is_some() {
            return found;
        }
        self.icons.find_standalone_icon(icon_name)
    }

    /// Like `find_icon`, in the fallback theme.
    pub fn find_default_icon(&mut self, icon_name: &str, size: u32, scale: u32, files: &FileSet) -> (r:
        Option<IconFile>)
        requires
            old(self).wf(),
        ensures
            final(self).wf(),
            final(self).icons_view() == old(self).icons_view(),
            old(self).agrees_with(*files) ==> final(self).agrees_with(*files) && path_of(r)
                == icons_lookup(old(self).icons_view(), icon_name@, size, scale, fallback_name(), *files),
            opt_wf(r),
    {
        proof { reveal_strlit("hicolor"); }
        let r = self.find_icon(icon_name, size, scale, "hicolor", files);
        assert("hicolor"@ =~= fallback_name());
        r
    }
}

} // verus!
