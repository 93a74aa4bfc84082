use nix_freedesktop_icons::probe::IconProbe;
use nix_freedesktop_icons::theme::directories::{Directory, DirectoryType};
use nix_freedesktop_icons::theme::{get_all_themes, try_build_icon_path, Theme, ThemeDirEntry, ThemePath};

fn theme_at(path: &str) -> Theme {
    Theme {
        path: ThemePath(String::from(path)),
        index: String::from(path) + "/index.theme",
    }
}

fn paths(p: &IconProbe) -> Vec<String> {
    p.candidate_paths().clone()
}

const INDEX: &[u8] = b"[Icon Theme]\nName=T\nDirectories=16x16/apps,22x22/apps,scalable/apps\n\n[16x16/apps]\nSize=16\nType=Fixed\n\n[22x22/apps]\nSize=22\nType=Threshold\n\n[scalable/apps]\nSize=64\nMinSize=8\nMaxSize=512\nType=Scalable\n";

fn dir(type_: DirectoryType, size: i16, min: i16, max: i16, threshold: i16) -> Directory<'static> {
    Directory {
        name: "d",
        size,
        scale: 1,
        type_,
        maxsize: max,
        minsize: min,
        threshold,
    }
}

#[test]
fn match_size_by_type() {
    let fixed = dir(DirectoryType::Fixed, 16, 16, 16, 2);
    assert!(fixed.match_size(16, 1));
    assert!(!fixed.match_size(17, 1));
    assert!(!fixed.match_size(16, 2));
    let scalable = dir(DirectoryType::Scalable, 64, 8, 512, 2);
    assert!(scalable.match_size(8, 1));
    assert!(scalable.match_size(512, 1));
    assert!(!scalable.match_size(513, 1));
    let threshold = dir(DirectoryType::Threshold, 22, 22, 22, 2);
    assert!(threshold.match_size(24, 1));
    assert!(threshold.match_size(20, 1));
    assert!(!threshold.match_size(25, 1));
}

#[test]
fn directory_size_distance_values() {
    let fixed = dir(DirectoryType::Fixed, 16, 16, 16, 2);
    assert_eq!(fixed.directory_size_distance(24, 1), 8);
    assert_eq!(fixed.directory_size_distance(8, 1), 8);
    assert_eq!(fixed.directory_size_distance(16, 1), 0);
    let scalable = dir(DirectoryType::Scalable, 64, 8, 512, 2);
    assert_eq!(scalable.directory_size_distance(4, 1), 4);
    assert_eq!(scalable.directory_size_distance(600, 1), 88);
    assert_eq!(scalable.directory_size_distance(100, 1), 0);
    let threshold = dir(DirectoryType::Threshold, 22, 22, 22, 2);
    assert_eq!(threshold.directory_size_distance(16, 1), 6);
    assert_eq!(threshold.directory_size_distance(30, 1), 8);
    assert_eq!(threshold.directory_size_distance(23, 1), 0);
    assert_eq!(fixed.directory_size_distance(60000, 60000), i16::MAX);
}

#[test]
fn match_size_of_a_theme() {
    let theme = theme_at("/t");
    assert_eq!(theme.match_size(INDEX, 24, 1), vec!["22x22/apps", "scalable/apps"]);
    assert_eq!(theme.match_size(INDEX, 16, 1), vec!["16x16/apps", "scalable/apps"]);
    assert!(theme.match_size(INDEX, 16, 2).is_empty());
}

#[test]
fn closest_match_size_nearest_first() {
    let theme = theme_at("/t");
    let names = theme.closest_match_size(INDEX, 4, 1);
    assert_eq!(names, vec!["scalable/apps", "16x16/apps", "22x22/apps"]);
    let names = theme.closest_match_size(INDEX, 30, 1);
    assert_eq!(names[0], "scalable/apps");
    assert_eq!(names.len(), 3);
}

#[test]
fn pick_icon_prefers_extension_across_all_dirs() {
    let theme = theme_at("/t");
    let probe = theme.pick_icon(&["a", "b/c"], "blueman", false);
    assert_eq!(
        paths(&probe),
        vec![
            "/t/a/blueman.png",
            "/t/b/c/blueman.png",
            "/t/a/blueman.svg",
            "/t/b/c/blueman.svg",
            "/t/a/blueman.xmp",
            "/t/b/c/blueman.xmp",
        ]
    );
    let probe = theme.pick_icon(&["a"], "blueman", true);
    assert_eq!(
        paths(&probe),
        vec!["/t/a/blueman.svg", "/t/a/blueman.png", "/t/a/blueman.xmp"]
    );
}

#[test]
fn try_get_icon_tries_exact_then_closest() {
    let theme = theme_at("/t");
    let probe = theme.try_get_icon(INDEX, "x", 16, 1, false);
    let all = paths(&probe);
    assert_eq!(
        &all[..6],
        &[
            "/t/16x16/apps/x.png",
            "/t/scalable/apps/x.png",
            "/t/16x16/apps/x.svg",
            "/t/scalable/apps/x.svg",
            "/t/16x16/apps/x.xmp",
            "/t/scalable/apps/x.xmp",
        ]
    );
    assert_eq!(all.len(), 6 + 9);
    let exact = theme.try_get_icon_exact_size(INDEX, "x", 16, 1, false);
    assert_eq!(paths(&exact), all[..6].to_vec());
    let closest = theme.try_get_icon_closest_size(INDEX, "x", 16, 1, false);
    assert_eq!(paths(&closest), all[6..].to_vec());
}

#[test]
fn probe_reports_first_existing() {
    let mut probe = IconProbe::new(vec![String::from("a"), String::from("b"), String::from("c")]);
    assert_eq!(probe.current(), Some(&String::from("a")));
    assert_eq!(probe.report(false), None);
    assert_eq!(probe.current(), Some(&String::from("b")));
    assert_eq!(probe.report(true), Some(String::from("b")));
    let mut probe = IconProbe::new(vec![String::from("a")]);
    assert_eq!(probe.report(false), None);
    assert_eq!(probe.current(), None);
}

#[test]
fn try_build_icon_path_candidates() {
    let probe = try_build_icon_path("/usr/share/pixmaps", "steam_tray_mono", false);
    assert_eq!(
        paths(&probe),
        vec![
            "/usr/share/pixmaps/steam_tray_mono.png",
            "/usr/share/pixmaps/steam_tray_mono.svg",
            "/usr/share/pixmaps/steam_tray_mono.xmp",
        ]
    );
    let probe = try_build_icon_path("/p", "a", true);
    assert_eq!(paths(&probe)[0], "/p/a.svg");
}

#[test]
fn from_path_cases() {
    let t = Theme::from_path("/icons/Adwaita", true, true, None).unwrap();
    assert_eq!(t.path.0, "/icons/Adwaita");
    assert_eq!(t.index, "/icons/Adwaita/index.theme");
    let fallback = String::from("/other/Adwaita/index.theme");
    let t = Theme::from_path("/icons/Adwaita", true, false, Some(&fallback)).unwrap();
    assert_eq!(t.index, fallback);
    let t = Theme::from_path("/icons/Adwaita", true, true, Some(&fallback)).unwrap();
    assert_eq!(t.index, fallback);
    assert!(Theme::from_path("/icons/Adwaita", false, true, None).is_none());
    assert!(Theme::from_path("/icons/Adwaita", true, false, None).is_none());
    assert_eq!(theme_at("/q").path(), "/q");
}

fn entry(name: &str, path: &str, is_dir: bool, has_index: bool) -> ThemeDirEntry {
    ThemeDirEntry {
        name: name.as_bytes().to_vec(),
        path: String::from(path),
        is_dir,
        has_index,
    }
}

#[test]
fn get_all_themes_groups_and_falls_back() {
    let entries = vec![
        entry("Adwaita", "/home/u/.icons/Adwaita", true, false),
        entry("hicolor", "/usr/share/icons/hicolor", true, true),
        entry("Adwaita", "/usr/share/icons/Adwaita", true, true),
        entry("Adwaita", "/opt/icons/Adwaita", true, false),
        entry("README", "/usr/share/icons/README", false, false),
        entry("empty", "/usr/share/icons/empty", true, false),
    ];
    let table = get_all_themes(&entries);
    let names: Vec<&[u8]> = table.iter().map(|(n, _)| n.as_slice()).collect();
    assert_eq!(names, vec![&b"hicolor"[..], &b"Adwaita"[..]]);
    let adwaita = &table[1].1;
    let found: Vec<(&str, &str)> = adwaita
        .iter()
        .map(|t| (t.path.0.as_str(), t.index.as_str()))
        .collect();
    assert_eq!(
        found,
        vec![
            ("/usr/share/icons/Adwaita", "/usr/share/icons/Adwaita/index.theme"),
            ("/opt/icons/Adwaita", "/usr/share/icons/Adwaita/index.theme"),
            ("/home/u/.icons/Adwaita", "/usr/share/icons/Adwaita/index.theme"),
        ]
    );
    assert_eq!(table[0].1.len(), 1);
}

fn run_probe(mut probe: IconProbe, existing: &[&str]) -> Option<String> {
    loop {
        let exists = match probe.current() {
            Some(path) => existing.contains(&path.as_str()),
            None => return None,
        };
        if let Some(found) = probe.report(exists) {
            return Some(found);
        }
    }
}

const HICOLOR: &[u8] = b"[Icon Theme]\nName=Hicolor\nDirectories=16x16/apps,22x22/apps,24x24/apps,scalable/apps\n\n[16x16/apps]\nSize=16\nContext=Applications\nType=Threshold\n\n[22x22/apps]\nSize=22\nContext=Applications\nType=Threshold\n\n[24x24/apps]\nSize=24\nContext=Applications\nType=Threshold\n\n[scalable/apps]\nMinSize=1\nSize=128\nMaxSize=256\nContext=Applications\nType=Scalable\n";

const HICOLOR_FILES: &[&str] = &[
    "/usr/share/icons/hicolor/22x22/apps/blueman.png",
    "/usr/share/icons/hicolor/scalable/apps/blueman.svg",
];

#[test]
fn should_get_png() {
    let theme = theme_at("/usr/share/icons/hicolor");
    let probe = theme.try_get_icon_exact_size(HICOLOR, "blueman", 24, 1, false);
    let icon = run_probe(probe, HICOLOR_FILES);
    assert!(icon
        .as_ref()
        .is_some_and(|p| p.ends_with("share/icons/hicolor/22x22/apps/blueman.png")));
}

#[test]
fn should_get_svg() {
    let theme = theme_at("/usr/share/icons/hicolor");
    let probe = theme.try_get_icon_exact_size(HICOLOR, "blueman", 24, 1, true);
    let icon = run_probe(probe, HICOLOR_FILES);
    assert!(icon
        .as_ref()
        .is_some_and(|p| p.ends_with("share/icons/hicolor/scalable/apps/blueman.svg")));
}

#[test]
fn get_one_icon() {
    let adwaita = b"[Icon Theme]\nName=Adwaita\nDirectories=16x16/legacy,symbolic/actions\n\n[16x16/legacy]\nSize=16\nType=Fixed\n\n[symbolic/actions]\nSize=16\nMinSize=8\nMaxSize=512\nType=Scalable\n";
    let theme = theme_at("/usr/share/icons/Adwaita");
    let probe = theme.try_get_icon_exact_size(adwaita, "edit-delete-symbolic", 24, 1, false);
    let icon = run_probe(
        probe,
        &["/usr/share/icons/Adwaita/symbolic/actions/edit-delete-symbolic.svg"],
    );
    assert_eq!(
        icon.as_deref(),
        Some("/usr/share/icons/Adwaita/symbolic/actions/edit-delete-symbolic.svg")
    );
}

#[test]
fn should_get_theme_parents() {
    let arc = b"[Icon Theme]\nName=Arc\nInherits=Moka,Adwaita,gnome,hicolor\nDirectories=16x16/actions\n\n[16x16/actions]\nSize=16\nType=Fixed\n";
    let theme = theme_at("/usr/share/icons/Arc");
    let parents: Vec<&[u8]> = theme.inherits(arc);
    assert!(!parents.contains(&&b"hicolor"[..]));
    assert_eq!(parents, vec![&b"Moka"[..], &b"Adwaita"[..], &b"gnome"[..]]);
}

#[test]
fn exact_size_wins_over_closest() {
    let theme = theme_at("/usr/share/icons/hicolor");
    let probe = theme.try_get_icon(HICOLOR, "blueman", 24, 1, false);
    let files = [
        "/usr/share/icons/hicolor/16x16/apps/blueman.png",
        "/usr/share/icons/hicolor/24x24/apps/blueman.png",
    ];
    assert_eq!(
        run_probe(probe, &files).as_deref(),
        Some("/usr/share/icons/hicolor/24x24/apps/blueman.png")
    );
    let probe = theme.try_get_icon(HICOLOR, "blueman", 40, 1, false);
    assert_eq!(
        run_probe(probe, &files).as_deref(),
        Some("/usr/share/icons/hicolor/24x24/apps/blueman.png")
    );
}

#[test]
fn try_build_icon_path_name_with_slash_goes_deeper() {
    let probe = try_build_icon_path("/p", "a/b", false);
    assert_eq!(
        paths(&probe),
        vec!["/p/a/a/b.png", "/p/a/a/a/b.svg", "/p/a/a/a/a/b.xmp"]
    );
}
