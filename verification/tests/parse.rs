use nix_freedesktop_icons::theme::parse::{icon_theme_section, sections, DirectorySection};
use nix_freedesktop_icons::theme::directories::DirectoryType;
use nix_freedesktop_icons::theme::{Theme, ThemePath};

fn fake_theme() -> Theme {
    Theme {
        path: ThemePath(String::from("/x")),
        index: String::new(),
    }
}

#[test]
fn parses_last_directory_without_trailing_newline() {
    let theme = fake_theme();
    let file = b"[Icon Theme]\nName=X\n[48x48/apps]\nType=Fixed\nSize=48"; // no final '\n'
    let dirs: Vec<(String, i16)> = theme
        .get_all_directories(file)
        .iter()
        .map(|d| (d.name.to_string(), d.size))
        .collect();
    assert!(
        dirs.iter().any(|(n, s)| n == "48x48/apps" && *s == 48),
        "expected 48x48/apps with size 48, got {dirs:?}"
    );
}

#[test]
fn malformed_section_header_is_skipped_without_panic() {
    let theme = fake_theme();
    let file = b"[Icon Theme]\nName=X\n[\nSize=99\n[16x16]\nSize=16\n";
    let dirs: Vec<String> = theme
        .get_all_directories(file)
        .iter()
        .map(|d| d.name.to_string())
        .collect();
    assert!(dirs.iter().any(|n| n == "16x16"), "got {dirs:?}");
}

#[test]
fn inherits_without_trailing_newline() {
    let theme = fake_theme();
    let file = b"[Icon Theme]\nName=X\nInherits=Moka,Adwaita"; // no final '\n'
    let parents: Vec<&[u8]> = theme.inherits(file);
    assert_eq!(parents, vec![&b"Moka"[..], &b"Adwaita"[..]]);
}

#[test]
fn inherits_leaves_out_hicolor_and_keeps_order() {
    let theme = fake_theme();
    let file = b"[Icon Theme]\nInherits=hicolor,Moka,hicolor,Adwaita,gnome\n[16x16]\nSize=16\n";
    let parents: Vec<&[u8]> = theme.inherits(file);
    assert_eq!(parents, vec![&b"Moka"[..], &b"Adwaita"[..], &b"gnome"[..]]);
}

#[test]
fn inherits_takes_the_first_inherits_key() {
    let theme = fake_theme();
    let file = b"[Icon Theme]\nInherits=A\nInherits=B\n";
    assert_eq!(theme.inherits(file), vec![&b"A"[..]]);
}

#[test]
fn inherits_stops_at_the_next_table() {
    let theme = fake_theme();
    let file = b"[Icon Theme]\nName=X\n[Other]\nInherits=A\n";
    assert!(theme.inherits(file).is_empty());
}

#[test]
fn inherits_of_empty_value_is_one_empty_name() {
    let theme = fake_theme();
    let file = b"[Icon Theme]\nInherits=\n";
    assert_eq!(theme.inherits(file), vec![&b""[..]]);
}

#[test]
fn inherits_without_key_is_empty() {
    let theme = fake_theme();
    assert!(theme.inherits(b"[Icon Theme]\nName=X\n").is_empty());
    assert!(theme.inherits(b"").is_empty());
}

#[test]
fn icon_theme_section_reads_until_next_header() {
    let file = b"  [Icon Theme]  \n\n Name = X \nComment=a=b\n[Dir]\nSize=1\n";
    let props = icon_theme_section(file);
    assert_eq!(
        props,
        vec![(&b"Name "[..], &b" X"[..]), (&b"Comment"[..], &b"a=b"[..])]
    );
}

#[test]
fn sections_events_of_a_small_file() {
    let file = b"[Icon Theme]\nName=X\n\n[a]\nSize=16\nnoise\n[]\nK=V";
    let events = sections(file);
    let shown: Vec<String> = events
        .iter()
        .map(|e| match e {
            DirectorySection::Property(k, v) => format!(
                "P({}={})",
                String::from_utf8_lossy(k),
                String::from_utf8_lossy(v)
            ),
            DirectorySection::EndSection => "E".to_string(),
            DirectorySection::Section(n) => format!("S({})", String::from_utf8_lossy(n)),
        })
        .collect();
    assert_eq!(
        shown,
        vec![
            "S(Icon Theme)",
            "S(Icon Theme)",
            "P(Name=X)",
            "E",
            "S(a)",
            "P(Size=16)",
            "E",
            "P(K=V)",
            "E",
        ]
    );
}

#[test]
fn empty_file_has_no_directories() {
    let theme = fake_theme();
    assert!(theme.get_all_directories(b"").is_empty());
    assert_eq!(sections(b"").len(), 1);
}

#[test]
fn directory_defaults_and_keys() {
    let theme = fake_theme();
    let file = b"[Icon Theme]\nDirectories=a,b\n[a]\nSize=32\n[b]\nSize=+16\nScale=2\nType=Scalable\nMinSize=8\nMaxSize=512\nThreshold=-3\n";
    let dirs = theme.get_all_directories(file);
    assert_eq!(dirs.len(), 2);
    assert_eq!(dirs[0].name, "a");
    assert_eq!(dirs[0].size, 32);
    assert_eq!(dirs[0].scale, 1);
    assert_eq!(dirs[0].type_, DirectoryType::Threshold);
    assert_eq!(dirs[0].minsize, 32);
    assert_eq!(dirs[0].maxsize, 32);
    assert_eq!(dirs[0].threshold, 2);
    assert_eq!(dirs[1].name, "b");
    assert_eq!(dirs[1].size, 16);
    assert_eq!(dirs[1].scale, 2);
    assert_eq!(dirs[1].type_, DirectoryType::Scalable);
    assert_eq!(dirs[1].minsize, 8);
    assert_eq!(dirs[1].maxsize, 512);
    assert_eq!(dirs[1].threshold, -3);
}

#[test]
fn directory_without_size_ends_the_list() {
    let theme = fake_theme();
    let file = b"[a]\nSize=16\n[b]\nType=Fixed\n[c]\nSize=8\n";
    let names: Vec<&str> = theme.get_all_directories(file).iter().map(|d| d.name).collect();
    assert_eq!(names, vec!["a"]);
}

#[test]
fn bad_size_value_counts_as_missing() {
    let theme = fake_theme();
    let file = b"[a]\nSize=99999\n[c]\nSize=8\n";
    assert!(theme.get_all_directories(file).is_empty());
}

#[test]
fn non_utf8_section_is_not_a_directory() {
    let theme = fake_theme();
    let file = b"[\xff\xfe]\nSize=16\n[ok]\nSize=8\n";
    let names: Vec<&str> = theme.get_all_directories(file).iter().map(|d| d.name).collect();
    assert_eq!(names, vec!["ok"]);
}

#[test]
fn icon_theme_section_is_not_a_directory() {
    let theme = fake_theme();
    let file = b"[Icon Theme]\nSize=16\n[x]\nSize=8\n";
    let names: Vec<&str> = theme.get_all_directories(file).iter().map(|d| d.name).collect();
    assert_eq!(names, vec!["x"]);
}

#[test]
fn trailing_newline_changes_nothing() {
    let theme = fake_theme();
    let a = b"[Icon Theme]\nInherits=A,B\n[d]\nSize=4";
    let b = b"[Icon Theme]\nInherits=A,B\n[d]\nSize=4\n";
    assert_eq!(sections(a).len(), sections(b).len());
    assert_eq!(theme.inherits(a), theme.inherits(b));
    assert_eq!(theme.get_all_directories(a).len(), theme.get_all_directories(b).len());
}

#[test]
fn carriage_returns_and_edge_blanks_change_nothing() {
    let theme = fake_theme();
    let plain = b"[Icon Theme]\nInherits=Moka,hicolor,Adwaita\n[16x16/apps]\nSize=16\nType=Fixed\n[scalable]\nSize=64\nType=Scalable\n";
    let noisy = b"  [Icon Theme]\t\r\n\tInherits=Moka,hicolor,Adwaita \r\n[16x16/apps]\r\n  Size=16\r\nType=Fixed\x0c\r\n\t[scalable]  \r\nSize=64\r\n Type=Scalable\r\n";
    assert_eq!(theme.inherits(plain), theme.inherits(noisy));
    let a = theme.get_all_directories(plain);
    let b = theme.get_all_directories(noisy);
    assert_eq!(a.len(), 2);
    assert_eq!(a.len(), b.len());
    for (x, y) in a.iter().zip(b.iter()) {
        assert_eq!(x.name, y.name);
        assert_eq!(x.size, y.size);
        assert_eq!(x.scale, y.scale);
        assert_eq!(x.minsize, y.minsize);
        assert_eq!(x.maxsize, y.maxsize);
        assert_eq!(x.threshold, y.threshold);
        assert_eq!(x.type_, y.type_);
    }
    assert_eq!(icon_theme_section(plain), icon_theme_section(noisy));
}
