use icon::resolve::resolve_themes;
use icon::{
    DirectoryIndex, DirectoryType, FileSet, FileType, IconFile, Icons, IconsCache, Theme,
    ThemeCache, ThemeIndex, ThemeInfo,
};
use std::sync::Arc;

fn dir(name: &str, size: u32, scale: u32, kind: DirectoryType) -> DirectoryIndex {
    DirectoryIndex {
        directory_name: name.to_string(),
        is_scaled_dir: scale != 1,
        size,
        scale,
        context: None,
        directory_type: kind,
        max_size: size,
        min_size: size,
        threshold: 2,
    }
}

fn info(name: &str, bases: &[&str], inherits: &[&str], dirs: Vec<DirectoryIndex>) -> ThemeInfo {
    ThemeInfo {
        internal_name: name.to_string(),
        base_dirs: bases.iter().map(|b| b.to_string()).collect(),
        index_location: format!("{}/index.theme", bases[0]),
        index: ThemeIndex {
            name: name.to_string(),
            comment: String::new(),
            inherits: inherits.iter().map(|s| s.to_string()).collect(),
            directories: dirs,
            hidden: false,
            example: None,
        },
    }
}

fn files(paths: &[&str]) -> FileSet {
    FileSet::new(paths.iter().map(|p| p.to_string()).collect())
}

fn test_theme_files() -> FileSet {
    files(&[
        "/icons/TestTheme/16x16/happy.png",
        "/icons_alt/TestTheme/32x32/happy.svg",
        "/icons/TestTheme/32x32/sad.png",
        "/icons/OtherTheme/16x16/pixel.xpm",
        "/icons/hicolor/48x48/gear.png",
    ])
}

fn test_icons() -> Icons {
    let infos = vec![
        info(
            "TestTheme",
            &["/icons/TestTheme", "/icons_alt/TestTheme"],
            &["OtherTheme"],
            vec![
                dir("16x16", 16, 1, DirectoryType::Threshold),
                dir("32x32", 32, 1, DirectoryType::Threshold),
            ],
        ),
        info("OtherTheme", &["/icons/OtherTheme"], &[], vec![dir("16x16", 16, 1, DirectoryType::Fixed)]),
        info("hicolor", &["/icons/hicolor"], &[], vec![dir("48x48", 48, 1, DirectoryType::Threshold)]),
    ];
    let requested = vec!["TestTheme".to_string(), "OtherTheme".to_string()];
    Icons {
        standalone_icons: vec![IconFile::from_path("/pixmaps/standalone.png").unwrap()],
        themes: resolve_themes(infos, &requested),
    }
}

#[test]
fn test_icons_cached() {
    let disk = test_theme_files();
    let icons = test_icons();
    let icon_original = icons.find_icon("happy", 16, 1, "TestTheme", &disk).unwrap();
    let mut icons_cache = IconsCache::from_icons(test_icons());
    let icon_cached = icons_cache.find_icon("happy", 16, 1, "TestTheme", &disk).unwrap();

    assert_eq!(icon_original, icon_cached);
}

#[test]
fn test_cached_entry_persists() {
    let disk = test_theme_files();
    let icons = test_icons();
    let theme = icons.theme("TestTheme").unwrap();

    let icon_original = theme.find_icon_here("happy", 16, 1, &disk).unwrap();

    let mut theme_cache = ThemeCache::from_theme(theme);

    assert!(theme_cache.is_empty(), "cache is not yet populated");

    let icon = theme_cache.find_icon_here("happy", 16, 1, &disk).unwrap();
    assert_eq!(icon.icon_name(), "happy");

    assert!(theme_cache.is_cached("happy"), "cache contains happy icon");

    let icon_cached = theme_cache.find_icon_here("happy", 16, 1, &disk).unwrap();

    assert_eq!(icon, icon_cached, "cached icon is the same as the first one");
    assert_eq!(icon_original, icon, "cached icon is the same as the original");
}

fn hicolor_icons() -> (Icons, FileSet) {
    let mut dirs = Vec::new();
    let mut names = Vec::new();
    for size in [16u32, 22, 24, 32, 48, 64, 128, 256] {
        names.push(format!("{size}x{size}/apps"));
    }
    for (name, size) in names.iter().zip([16u32, 22, 24, 32, 48, 64, 128, 256]) {
        dirs.push(dir(name, size, 1, DirectoryType::Threshold));
    }
    let infos = vec![info("hicolor", &["/usr/share/icons/hicolor"], &[], dirs)];
    let icons = Icons { standalone_icons: vec![], themes: resolve_themes(infos, &vec![]) };
    let disk = files(&[
        "/usr/share/icons/hicolor/16x16/apps/firefox.png",
        "/usr/share/icons/hicolor/32x32/apps/firefox.png",
        "/usr/share/icons/hicolor/48x48/apps/firefox.png",
        "/usr/share/icons/hicolor/128x128/apps/firefox.png",
    ]);
    (icons, disk)
}

#[test]
fn test_find_firefox() {
    let (icons, disk) = hicolor_icons();

    let ico = icons.find_default_icon("firefox", 128, 1, &disk).unwrap();

    assert_eq!(ico.path(), "/usr/share/icons/hicolor/128x128/apps/firefox.png");
    assert_eq!(ico.file_type(), FileType::Png);

    for size in (16u32..=64).step_by(8) {
        assert!(icons.find_default_icon("firefox", size, 1, &disk).is_some());
    }

    assert!(icons.find_default_icon("firefox", 64, 2, &disk).is_some());
}

#[test]
fn closest_directory_wins_without_exact_match() {
    let (icons, disk) = hicolor_icons();
    // 40 is within no threshold; 32 and 48 both lie at distance 8, and the earlier directory wins
    let ico = icons.find_default_icon("firefox", 40, 1, &disk).unwrap();
    assert_eq!(ico.path(), "/usr/share/icons/hicolor/32x32/apps/firefox.png");
    let ico = icons.find_default_icon("firefox", 100, 1, &disk).unwrap();
    assert_eq!(ico.path(), "/usr/share/icons/hicolor/128x128/apps/firefox.png");
    // scale 2 matches no directory; 128x128 holds 64 * 2 pixels but, being of another
    // scale, lies at distance 1, still the closest
    let ico = icons.find_default_icon("firefox", 64, 2, &disk).unwrap();
    assert_eq!(ico.path(), "/usr/share/icons/hicolor/128x128/apps/firefox.png");
}

#[test]
fn empty_name_finds_nothing() {
    let (icons, disk) = hicolor_icons();
    assert!(icons.find_default_icon("", 16, 1, &disk).is_none());
}

#[test]
fn unknown_theme_falls_back_to_hicolor() {
    let (icons, disk) = hicolor_icons();
    let ico = icons.find_icon("firefox", 16, 1, "NoSuchTheme", &disk).unwrap();
    assert_eq!(ico.path(), "/usr/share/icons/hicolor/16x16/apps/firefox.png");
}

#[test]
fn standalone_icon_is_the_last_resort() {
    let disk = test_theme_files();
    let icons = test_icons();
    for (size, scale) in [(16u32, 1u32), (48, 1), (7, 3)] {
        let ico = icons.find_icon("standalone", size, scale, "TestTheme", &disk).unwrap();
        assert_eq!(ico.path(), "/pixmaps/standalone.png");
    }
    assert!(icons.find_icon("missing", 16, 1, "TestTheme", &disk).is_none());
    assert_eq!(icons.find_standalone_icon("standalone").unwrap().path(), "/pixmaps/standalone.png");
    assert!(icons.find_standalone_icon("happy").is_none());
}

#[test]
fn ancestor_lookup_in_chain_order() {
    let disk = test_theme_files();
    let icons = test_icons();
    let theme = icons.theme("TestTheme").unwrap();
    let pixel = theme.find_icon("pixel", 16, 1, &disk).unwrap();
    assert_eq!(pixel.path(), "/icons/OtherTheme/16x16/pixel.xpm");
    assert_eq!(pixel.file_type(), FileType::Xpm);
    assert!(theme.find_icon_here("pixel", 16, 1, &disk).is_none());
    let gear = theme.find_icon_unscaled("gear", 16, &disk).unwrap();
    assert_eq!(gear.path(), "/icons/hicolor/48x48/gear.png");
}

#[test]
fn later_base_directory_found_when_first_lacks_file() {
    let disk = test_theme_files();
    let icons = test_icons();
    let theme = icons.theme("TestTheme").unwrap();
    let happy = theme.find_icon_here("happy", 32, 1, &disk).unwrap();
    assert_eq!(happy.path(), "/icons_alt/TestTheme/32x32/happy.svg");
    assert_eq!(happy.file_type(), FileType::Svg);
}

#[test]
fn cache_agrees_with_uncached_lookup() {
    let disk = test_theme_files();
    let icons = test_icons();
    let mut cache = IconsCache::from_icons(test_icons());
    for name in ["happy", "sad", "pixel", "gear", "standalone", "missing"] {
        for size in [8u32, 16, 24, 32, 48, 64] {
            for scale in [1u32, 2] {
                let plain = icons.find_icon(name, size, scale, "TestTheme", &disk);
                let first = cache.find_icon(name, size, scale, "TestTheme", &disk);
                let second = cache.find_icon(name, size, scale, "TestTheme", &disk);
                assert_eq!(plain, first);
                assert_eq!(first, second);
            }
        }
    }
    assert!(cache.theme_cache("TestTheme").unwrap().is_cached("happy"));
    assert!(cache.theme_cache("Nope").is_none());
}

#[test]
fn clearing_the_cache_empties_it() {
    let disk = test_theme_files();
    let icons = test_icons();
    let mut cache = ThemeCache::from_theme(icons.theme("TestTheme").unwrap());
    let first = cache.find_icon("happy", 16, 1, &disk);
    assert!(!cache.is_empty());
    cache.clear_cache();
    assert!(cache.is_empty());
    assert!(!cache.is_cached("happy"));
    assert_eq!(cache.find_icon("happy", 16, 1, &disk), first);
}

#[test]
fn child_parent_fallback_scenario() {
    let infos = vec![
        info("Child", &["/t/Child"], &["Parent"], vec![dir("16x16", 16, 1, DirectoryType::Fixed)]),
        info("Parent", &["/t/Parent"], &[], vec![dir("32x32", 32, 1, DirectoryType::Fixed)]),
        info("hicolor", &["/t/hicolor"], &[], vec![dir("48x48", 48, 1, DirectoryType::Fixed)]),
    ];
    let icons = Icons { standalone_icons: vec![], themes: resolve_themes(infos, &vec!["Child".to_string()]) };
    let child = icons.theme("Child").unwrap();
    let names: Vec<&str> = child.inherits_from.iter().map(|t| t.info.internal_name.as_str()).collect();
    assert_eq!(names, vec!["Parent", "hicolor"]);

    let disk = files(&["/t/Child/16x16/gear.png", "/t/Parent/32x32/gear.png", "/t/hicolor/48x48/gear.png"]);
    assert_eq!(child.find_icon("gear", 16, 1, &disk).unwrap().path(), "/t/Child/16x16/gear.png");
    // Child holds a gear at distance 32: the lookup stops at the first level with any file.
    assert_eq!(child.find_icon("gear", 48, 1, &disk).unwrap().path(), "/t/Child/16x16/gear.png");

    let disk = files(&["/t/Parent/32x32/gear.png", "/t/hicolor/48x48/gear.png"]);
    assert_eq!(child.find_icon("gear", 48, 1, &disk).unwrap().path(), "/t/Parent/32x32/gear.png");

    let disk = files(&["/t/hicolor/48x48/gear.png"]);
    assert_eq!(child.find_icon("gear", 48, 1, &disk).unwrap().path(), "/t/hicolor/48x48/gear.png");
}

#[test]
fn later_file_type_wins_in_closest_directory() {
    let infos = vec![info("hicolor", &["/h"], &[], vec![dir("32x32", 32, 1, DirectoryType::Fixed)])];
    let themes = resolve_themes(infos, &vec![]);
    let disk = files(&["/h/32x32/a.png", "/h/32x32/a.svg"]);
    // exact match: first file type in canonical order
    assert_eq!(themes[0].find_icon_here("a", 32, 1, &disk).unwrap().path(), "/h/32x32/a.png");
    // closest match: the last file type found in the closest directory
    assert_eq!(themes[0].find_icon_here("a", 30, 1, &disk).unwrap().path(), "/h/32x32/a.svg");
}

#[test]
fn find_icon_files_lists_every_candidate_in_order() {
    let disk = test_theme_files();
    let icons = test_icons();
    let theme = icons.theme("TestTheme").unwrap();
    let found = theme.find_icon_files("happy", &disk);
    let seen: Vec<(usize, usize, &str)> = found.iter().map(|c| (c.base, c.dir, c.file.path())).collect();
    assert_eq!(
        seen,
        vec![(0, 0, "/icons/TestTheme/16x16/happy.png"), (1, 1, "/icons_alt/TestTheme/32x32/happy.svg")]
    );
}

#[test]
fn standalone_icon_without_any_theme() {
    let icons = Icons {
        standalone_icons: vec![IconFile::from_path("/pixmaps/alone.svg").unwrap()],
        themes: vec![],
    };
    let disk = files(&[]);
    let found = icons.find_icon("alone", 16, 1, "Missing", &disk).unwrap();
    assert_eq!(found.path(), "/pixmaps/alone.svg");
    let mut cache = IconsCache::from_icons(Icons {
        standalone_icons: vec![IconFile::from_path("/pixmaps/alone.svg").unwrap()],
        themes: vec![],
    });
    assert_eq!(cache.find_icon("alone", 16, 1, "Missing", &disk), Some(found));
    assert!(icons.find_icon("other", 16, 1, "Missing", &disk).is_none());
}
