use icon::files::join_path;
use icon::resolve::{collect_themes, resolve_themes, theme_chain};
use icon::{DirectoryIndex, DirectoryType, FileSet, FileType, IconFile, ThemeIndex, ThemeInfo, ThemeParseError};

fn dir(size: u32, scale: u32, kind: DirectoryType, min: u32, max: u32, threshold: u32) -> DirectoryIndex {
    DirectoryIndex {
        directory_name: format!("{size}x{size}"),
        is_scaled_dir: scale != 1,
        size,
        scale,
        context: Some("Applications".to_string()),
        directory_type: kind,
        max_size: max,
        min_size: min,
        threshold,
    }
}

fn info(name: &str, inherits: &[&str]) -> ThemeInfo {
    ThemeInfo {
        internal_name: name.to_string(),
        base_dirs: vec![format!("/icons/{name}")],
        index_location: format!("/icons/{name}/index.theme"),
        index: ThemeIndex {
            name: name.to_string(),
            comment: String::new(),
            inherits: inherits.iter().map(|s| s.to_string()).collect(),
            directories: vec![],
            hidden: false,
            example: None,
        },
    }
}

#[test]
fn fixed_directory_exactness() {
    let d = dir(32, 1, DirectoryType::Fixed, 32, 32, 2);
    assert!(d.matches_size(32, 1));
    assert_eq!(d.size_distance(32, 1), 0);
    assert!(!d.matches_size(31, 1));
    assert_eq!(d.size_distance(31, 1), 1);
    assert!(!d.matches_size(32, 2));
    // another scale is never an acceptable fit
    assert_eq!(d.size_distance(16, 2), 1);
    assert_eq!(d.size_distance(20, 2), 8);
}

#[test]
fn threshold_directory_window() {
    let d = dir(32, 1, DirectoryType::Threshold, 32, 32, 2);
    for size in 30..=34 {
        assert!(d.matches_size(size, 1), "{size}");
        assert_eq!(d.size_distance(size, 1), 0);
    }
    assert!(!d.matches_size(29, 1));
    assert!(!d.matches_size(35, 1));
    assert_eq!(d.size_distance(29, 1), 3);
    assert_eq!(d.size_distance(40, 1), 8);
    assert!(!d.matches_size(32, 2));
}

#[test]
fn threshold_distance_uses_min_and_max_sizes() {
    let d = dir(32, 2, DirectoryType::Threshold, 24, 48, 4);
    // window is (28..=36) * 2 = 56..=72
    assert_eq!(d.size_distance(20, 2), 8); // 40 vs min 24*2 = 48
    assert_eq!(d.size_distance(40, 2), 16); // 80 vs max 48*2 = 96
    assert_eq!(d.size_distance(30, 2), 0);
}

#[test]
fn threshold_larger_than_size() {
    let d = dir(2, 1, DirectoryType::Threshold, 2, 2, 5);
    assert!(d.matches_size(0, 1));
    assert!(d.matches_size(7, 1));
    assert!(!d.matches_size(8, 1));
    assert_eq!(d.size_distance(0, 1), 0);
    assert_eq!(d.size_distance(9, 1), 7);
}

#[test]
fn huge_sizes_do_not_overflow() {
    let d = dir(u32::MAX, u32::MAX, DirectoryType::Fixed, 1, u32::MAX, 2);
    assert_eq!(d.size_distance(u32::MAX, u32::MAX), 0);
    assert_eq!(d.size_distance(0, u32::MAX), (u32::MAX as u64) * (u32::MAX as u64));
    let t = dir(u32::MAX, u32::MAX, DirectoryType::Threshold, 1, u32::MAX, u32::MAX);
    // inside the threshold window, but of another scale
    assert_eq!(t.size_distance(1, 1), 1);
    assert!(!t.matches_size(1, 1));
}

#[test]
fn scalable_directory_range() {
    let d = dir(48, 1, DirectoryType::Scalable, 16, 256, 2);
    assert!(d.matches_size(16, 1));
    assert!(d.matches_size(256, 1));
    assert!(!d.matches_size(15, 1));
    assert!(!d.matches_size(257, 1));
    assert_eq!(d.size_distance(64, 1), 16);
}

#[test]
fn directory_type_names() {
    assert_eq!(DirectoryType::from_name("Fixed"), Some(DirectoryType::Fixed));
    assert_eq!(DirectoryType::from_name("Scalable"), Some(DirectoryType::Scalable));
    assert_eq!(DirectoryType::from_name("Threshold"), Some(DirectoryType::Threshold));
    assert_eq!(DirectoryType::from_name("fixed"), None);
    assert_eq!(DirectoryType::default(), DirectoryType::Threshold);
}

#[test]
fn file_types_from_extensions() {
    assert_eq!(FileType::from_path_ext("/a/b/c.png"), Some(FileType::Png));
    assert_eq!(FileType::from_path_ext("/a/b/c.PnG"), Some(FileType::Png));
    assert_eq!(FileType::from_path_ext("c.xpm"), Some(FileType::Xpm));
    assert_eq!(FileType::from_path_ext("x.y.SVG"), Some(FileType::Svg));
    assert_eq!(FileType::from_path_ext("/a/.png"), None);
    assert_eq!(FileType::from_path_ext("/a/b.txt"), None);
    assert_eq!(FileType::from_path_ext("/a.png/b"), None);
    assert_eq!(FileType::from_path_ext("/a/b.png/"), Some(FileType::Png));
    assert_eq!(FileType::from_path_ext("/a/b.png/."), Some(FileType::Png));
    assert_eq!(FileType::from_path_ext(""), None);
    assert_eq!(FileType::Png.ext(), "png");
    assert_eq!(FileType::Xpm.ext(), "xpm");
    assert_eq!(FileType::Svg.ext(), "svg");
    assert_eq!(FileType::types(), [FileType::Png, FileType::Xpm, FileType::Svg]);
}

#[test]
fn icon_files_from_paths() {
    let f = IconFile::from_path("/usr/share/pixmaps/beautiful sunset.xpm").unwrap();
    assert_eq!(f.icon_name(), "beautiful sunset");
    assert_eq!(f.path(), "/usr/share/pixmaps/beautiful sunset.xpm");
    assert_eq!(f.file_type(), FileType::Xpm);
    let g = IconFile::from_path_buf("rel/a.b.svg".to_string()).unwrap();
    assert_eq!(g.icon_name(), "a.b");
    assert_eq!(g.file_type(), FileType::Svg);
    assert!(IconFile::from_path("/x/readme").is_none());
    assert!(IconFile::from_path("/x/.svg").is_none());
    assert!(IconFile::from_path("/x/..").is_none());
}

#[test]
fn index_location_is_the_first_found() {
    let folders = vec!["/a/T".to_string(), "/b/T/".to_string(), "/c/T".to_string()];
    let files = FileSet::new(vec!["/c/T/index.theme".to_string(), "/b/T/index.theme".to_string()]);
    assert_eq!(ThemeInfo::index_location(&folders, &files), Some("/b/T/index.theme".to_string()));
    let none = FileSet::empty();
    assert_eq!(ThemeInfo::index_location(&folders, &none), None);
    let index = info("T", &[]).index;
    let t = ThemeInfo::new_from_folders("T".to_string(), folders.clone(), &files, index).unwrap();
    assert_eq!(t.index_location, "/b/T/index.theme");
    assert_eq!(t.base_dirs.len(), 3);
    let index = info("T", &[]).index;
    assert!(matches!(
        ThemeInfo::new_from_folders("T".to_string(), folders, &none, index),
        Err(ThemeParseError::NotAnIconTheme)
    ));
}

#[test]
fn file_set_membership() {
    let mut set = FileSet::empty();
    assert!(!set.contains(&"/a".to_string()));
    set.insert("/a".to_string());
    assert!(set.contains(&"/a".to_string()));
    assert!(!set.contains(&"/b".to_string()));
}

fn names_of(themes: &[std::sync::Arc<icon::Theme>], name: &str) -> Vec<String> {
    let t = themes.iter().find(|t| t.info.internal_name == name).unwrap();
    t.inherits_from.iter().map(|a| a.info.internal_name.clone()).collect()
}

#[test]
fn resolution_deduplicates_and_ends_with_fallback() {
    // A inherits B and C; B inherits C and hicolor; C inherits hicolor explicitly.
    let infos = vec![
        info("A", &["B", "C", "missing"]),
        info("B", &["hicolor", "C"]),
        info("C", &["hicolor"]),
        info("hicolor", &[]),
        info("Unrelated", &[]),
    ];
    let themes = resolve_themes(infos, &vec!["A".to_string()]);
    let mut all: Vec<String> = themes.iter().map(|t| t.info.internal_name.clone()).collect();
    all.sort();
    assert_eq!(all, vec!["A", "B", "C", "hicolor"]);
    assert_eq!(names_of(&themes, "A"), vec!["B", "C", "hicolor"]);
    assert_eq!(names_of(&themes, "B"), vec!["C", "hicolor"]);
    assert_eq!(names_of(&themes, "C"), vec!["hicolor"]);
    assert!(names_of(&themes, "hicolor").is_empty());
}

#[test]
fn resolution_without_fallback_theme() {
    let infos = vec![info("A", &["B"]), info("B", &[])];
    let themes = resolve_themes(infos, &vec!["A".to_string(), "nothing".to_string()]);
    assert_eq!(themes.len(), 2);
    assert_eq!(names_of(&themes, "A"), vec!["B"]);
}

#[test]
fn cyclic_inheritance_never_lists_a_theme_twice_or_itself() {
    let infos = vec![info("A", &["B"]), info("B", &["A"]), info("hicolor", &["A"])];
    let themes = resolve_themes(infos, &vec!["A".to_string()]);
    assert_eq!(themes.len(), 3);
    for t in &themes {
        let names: Vec<String> = t.inherits_from.iter().map(|a| a.info.internal_name.clone()).collect();
        assert!(!names.contains(&t.info.internal_name));
        let mut dedup = names.clone();
        dedup.sort();
        dedup.dedup();
        assert_eq!(dedup.len(), names.len());
        if t.info.internal_name != "hicolor" {
            assert_eq!(names.last().map(|s| s.as_str()), Some("hicolor"));
        }
    }
}

#[test]
fn resolving_twice_gives_the_same_orderings() {
    let make = || {
        vec![info("A", &["B", "C"]), info("B", &["D"]), info("C", &["D"]), info("D", &[]), info("hicolor", &[])]
    };
    let first = resolve_themes(make(), &vec!["A".to_string()]);
    let second = resolve_themes(make(), &vec!["A".to_string()]);
    for name in ["A", "B", "C", "D", "hicolor"] {
        assert_eq!(names_of(&first, name), names_of(&second, name));
    }
    assert_eq!(names_of(&first, "A"), vec!["B", "C", "D", "hicolor"]);
}

#[test]
fn chains_move_shared_ancestors_last() {
    // 0 -> [1, 2], 1 -> [2], 2 -> [], fallback 3
    let parents = vec![vec![1, 2], vec![2], vec![], vec![]];
    assert_eq!(theme_chain(&parents, 0, Some(3)), vec![0, 1, 2, 3]);
    assert_eq!(theme_chain(&parents, 0, None), vec![0, 1, 2]);
    // 0 -> [2, 1], 1 -> [2]: 2 is moved behind 1
    let parents = vec![vec![2, 1], vec![2], vec![]];
    assert_eq!(theme_chain(&parents, 0, None), vec![0, 1, 2]);
    assert_eq!(theme_chain(&parents, 0, None), theme_chain(&parents, 0, None));
}

#[test]
fn collection_follows_parents_and_adds_fallback() {
    let infos = vec![info("A", &["B"]), info("B", &[]), info("hicolor", &[]), info("Z", &[])];
    let mut c = collect_themes(&infos, &vec!["A".to_string()]);
    c.sort();
    assert_eq!(c, vec![0, 1, 2]);
}

#[test]
fn path_joining() {
    assert_eq!(join_path("/a", "b"), "/a/b");
    assert_eq!(join_path("/a/", "b"), "/a/b");
    assert_eq!(join_path("", "b"), "b");
}

#[test]
fn chains_revisit_themes_moved_from_before_the_cursor() {
    // T(0): A(1), B(2), C(3); B: A; C: D(4)
    let parents = vec![vec![1, 2, 3], vec![], vec![1], vec![4], vec![]];
    assert_eq!(theme_chain(&parents, 0, None), vec![0, 2, 3, 1, 4]);
    // T: A, D, B, C; B: A; C: D -- D ends up after C, which refers to it
    let parents = vec![vec![1, 4, 2, 3], vec![], vec![1], vec![4], vec![]];
    assert_eq!(theme_chain(&parents, 0, None), vec![0, 2, 3, 1, 4]);
}

#[test]
fn breadth_first_before_fallback() {
    let infos = vec![info("T", &["A", "B"]), info("A", &["hicolor"]), info("B", &[]), info("hicolor", &[])];
    let themes = resolve_themes(infos, &vec!["T".to_string()]);
    assert_eq!(names_of(&themes, "T"), vec!["A", "B", "hicolor"]);
    assert_eq!(names_of(&themes, "A"), vec!["hicolor"]);
}

#[test]
fn ancestors_are_the_shared_result_nodes() {
    let infos = vec![
        info("T", &["A", "B", "C"]),
        info("A", &[]),
        info("B", &["A"]),
        info("C", &["D"]),
        info("D", &[]),
        info("hicolor", &[]),
    ];
    let themes = resolve_themes(infos, &vec!["T".to_string()]);
    assert_eq!(names_of(&themes, "T"), vec!["B", "C", "A", "D", "hicolor"]);
    for t in &themes {
        for a in &t.inherits_from {
            let own = themes.iter().find(|n| n.info.internal_name == a.info.internal_name).unwrap();
            assert!(std::sync::Arc::ptr_eq(a, own));
        }
    }
}
