use tiny_poe2smoother::install::{
    detect_install_layout, ensure_game_not_running, expand_steam_libraries, is_game_running,
    join_path, parse_install_dir, parse_library_folders, program_dirs, publisher_dir,
    push_standalone_candidates_from_program_files, push_unique, resolve_game_dir, steam_game_dir,
    validate_game_dir, wine_program_dirs, ChildDir, DirProbe, FolderFiles, InstallError, InstallLayout,
    ManifestProbe, ProcessInfo, SteamProbe, SteamRoot,
};
use tiny_poe2smoother::paths::with_slashes;
use tiny_poe2smoother::paths::eq_path;

#[test]
fn parses_steam_install_dir() {
    let manifest = "\"AppState\"\n{\n\t\"installdir\"\t\t\"Path of Exile 2\"\n}";
    assert_eq!(
        parse_install_dir(manifest).as_deref(),
        Some("Path of Exile 2")
    );
}

#[test]
fn parses_steam_library_folder_with_app_entry() {
    let vdf = r#"
"libraryfolders"
{
    "0"
    {
        "path"      "C:\\Program Files (x86)\\Steam"
        "apps"
        {
            "123" "1"
        }
    }
    "1"
    {
        "path"      "D:\\SteamLibrary"
        "apps"
        {
            "2694490" "123456"
        }
    }
}
"#;

    assert_eq!(
        parse_library_folders(vdf),
        vec![
            String::from(r"C:\Program Files (x86)\Steam"),
            String::from(r"D:\SteamLibrary")
        ]
    );
}

#[test]
fn parses_legacy_steam_library_folder_entries() {
    let vdf = r#"
"LibraryFolders"
{
    "0" "C:\\Program Files (x86)\\Steam"
    "1" "D:\\SteamLibrary"
}
"#;

    assert_eq!(
        parse_library_folders(vdf),
        vec![
            String::from(r"C:\Program Files (x86)\Steam"),
            String::from(r"D:\SteamLibrary")
        ]
    );
}

#[test]
fn validates_loose_bundle_install() {
    let game = "/tmp/Path of Exile 2";
    assert!(matches!(
        detect_install_layout(game, false, true),
        Ok(InstallLayout::LooseBundles)
    ));
    assert!(matches!(validate_game_dir(game.to_string(), false, true), Ok(dir) if dir == game));
}

#[test]
fn validates_standalone_content_ggpk_install() {
    let game = "/tmp/Path of Exile 2";
    assert!(matches!(
        detect_install_layout(game, true, false),
        Ok(InstallLayout::ContentGgpk)
    ));
    assert!(matches!(validate_game_dir(game.to_string(), true, false), Ok(dir) if dir == game));
}

#[test]
fn content_ggpk_layout_wins_when_overlay_index_exists() {
    assert!(matches!(
        detect_install_layout("/tmp/Path of Exile 2", true, true),
        Ok(InstallLayout::ContentGgpk)
    ));
}

#[test]
fn rejects_unknown_install_layout() {
    let err = match validate_game_dir("/tmp/none".to_string(), false, false) {
        Ok(_) => panic!("accepted"),
        Err(e) => e.message(),
    };
    assert!(err.contains("Bundles2"));
    assert!(err.contains("Content.ggpk"));
}

fn child(program_files: &str, name: &str) -> ChildDir {
    ChildDir {
        path: join_path(&publisher_dir(program_files), name),
        name: name.to_string(),
        is_install: true,
    }
}

fn candidates(program_files: &str, children: Vec<ChildDir>) -> Vec<String> {
    let mut out = Vec::new();
    push_standalone_candidates_from_program_files(&mut out, program_files, &children);
    out
}

#[test]
fn standalone_candidates_include_production_suffix() {
    let out = candidates("/tmp/Program Files (x86)", Vec::new());
    let expected =
        "/tmp/Program Files (x86)/Grinding Gear Games/Path of Exile 2 - poe2_production";
    assert!(out.contains(&expected.to_string()));
}

#[test]
fn standalone_candidates_discover_valid_path_of_exile_children() {
    let dir = "/tmp/Program Files";
    let out = candidates(dir, vec![child(dir, "Path of Exile 2 - test_channel")]);
    let game = "/tmp/Program Files/Grinding Gear Games/Path of Exile 2 - test_channel";
    assert!(out.contains(&game.to_string()));
}

#[test]
fn standalone_candidates_ignore_unrelated_children() {
    let dir = "/tmp/Program Files";
    let unrelated = "/tmp/Program Files/Grinding Gear Games/Path of Exile 1".to_string();
    assert!(!candidates(dir, vec![child(dir, "Path of Exile 1")]).contains(&unrelated));
    // A folder without the game is no candidate either.
    let mut empty = child(dir, "Path of Exile 2 - old");
    empty.is_install = false;
    assert_eq!(candidates(dir, vec![empty]).len(), 2);
}

#[test]
fn standalone_candidates_deduplicate_fixed_and_discovered_paths() {
    let dir = "/tmp/Program Files (x86)";
    let name = "Path of Exile 2 - poe2_production";
    let game = join_path(&publisher_dir(dir), name);
    let out = candidates(dir, vec![child(dir, name)]);
    assert_eq!(out.iter().filter(|path| *path == &game).count(), 1);
}

#[test]
fn mounted_windows_candidates_include_standalone_production_suffix() {
    let name = "Path of Exile 2 - poe2_production";
    let mut out = Vec::new();
    for dir in program_dirs("/mnt/WindowsDrive") {
        let children = vec![child(&dir, name)];
        push_standalone_candidates_from_program_files(&mut out, &dir, &children);
    }
    let game = "/mnt/WindowsDrive/Program Files (x86)/Grinding Gear Games/Path of Exile 2 - poe2_production";
    assert!(out.contains(&game.to_string()));
    assert_eq!(
        wine_program_dirs("/home/me/.wine"),
        [
            "/home/me/.wine/drive_c/Program Files (x86)",
            "/home/me/.wine/drive_c/Program Files"
        ]
    );
}

fn process(name: &str, cmd: &[&str]) -> ProcessInfo {
    ProcessInfo {
        name: name.to_string(),
        cmd: cmd.iter().map(|c| c.to_string()).collect(),
    }
}

#[test]
fn a_running_game_blocks() {
    let other = vec![process("bash", &["bash", "-c", "ls"])];
    assert!(!is_game_running(&other));
    assert!(ensure_game_not_running(&other).is_ok());
    let named = vec![process("PathOfExileSteam.exe", &[])];
    assert!(is_game_running(&named));
    assert!(ensure_game_not_running(&named).is_err());
}

const LOOSE: FolderFiles = FolderFiles {
    content_exists: false,
    index_exists: true,
};
const EMPTY: FolderFiles = FolderFiles {
    content_exists: false,
    index_exists: false,
};

fn dir(path: &str, exists: bool, files: FolderFiles) -> DirProbe {
    DirProbe {
        path: path.to_string(),
        exists,
        files,
    }
}

#[test]
fn the_folder_that_is_taken_has_to_hold_the_game() {
    let unknown = |r: Result<String, InstallError>, at: &str| {
        matches!(r, Err(InstallError::UnknownLayout { path, .. }) if path == at)
    };
    let none = Vec::new();
    let archive = FolderFiles {
        content_exists: true,
        index_exists: false,
    };
    assert!(unknown(
        resolve_game_dir(Some(dir("/x", true, EMPTY)), &none, &vec![dir("/d", true, LOOSE)]),
        "/x"
    ));
    assert!(matches!(
        resolve_game_dir(Some(dir("/x", true, archive)), &none, &Vec::new()),
        Ok(path) if path == "/x"
    ));
    // The first folder that exists is taken, whatever it holds.
    let dirs = vec![dir("/d", true, EMPTY), dir("/e", true, LOOSE)];
    assert!(unknown(resolve_game_dir(None, &none, &dirs), "/d"));
    let steam = vec![SteamProbe {
        library: "/b".to_string(),
        found: ManifestProbe::Text {
            manifest: "\"installdir\" \"Poe\"".to_string(),
            game_dir_exists: true,
            files: EMPTY,
        },
    }];
    assert!(unknown(
        resolve_game_dir(None, &steam, &vec![dir("/e", true, LOOSE)]),
        "/b/steamapps/common/Poe"
    ));
}

#[test]
fn paths_of_the_machine_get_slashes() {
    assert_eq!(with_slashes("C:\\Games\\Poe", true), "C:/Games/Poe");
    assert_eq!(with_slashes("/a\\b", false), "/a\\b");
    assert_eq!(with_slashes("C:/Games", true), "C:/Games");
}

#[test]
fn the_first_folder_that_exists_is_taken() {
    let manifest = "\"installdir\" \"Poe\"".to_string();
    let steam = |exists: bool| {
        vec![
            SteamProbe {
                library: "/a".to_string(),
                found: ManifestProbe::Missing,
            },
            SteamProbe {
                library: "/b".to_string(),
                found: ManifestProbe::Text {
                    manifest: manifest.clone(),
                    game_dir_exists: exists,
                    files: LOOSE,
                },
            },
        ]
    };
    let dirs = vec![
        dir("/c", false, LOOSE),
        dir("/d", true, LOOSE),
    ];
    let chosen = |explicit: Option<&str>, exists: bool| {
        let explicit = explicit.map(|path| dir(path, true, LOOSE));
        match resolve_game_dir(explicit, &steam(exists), &dirs) {
            Ok(path) => path,
            Err(e) => e.message(),
        }
    };
    assert_eq!(chosen(Some("/x"), true), "/x");
    assert_eq!(chosen(None, true), "/b/steamapps/common/Poe");
    assert_eq!(chosen(None, false), "/d");
    assert!(resolve_game_dir(None, &Vec::new(), &Vec::new()).is_err());
    let unreadable = vec![SteamProbe {
        library: "/a".to_string(),
        found: ManifestProbe::Unreadable,
    }];
    assert!(matches!(
        resolve_game_dir(None, &unreadable, &dirs),
        Err(InstallError::ManifestUnreadable { path }) if path == "/a/steamapps/appmanifest_2694490.acf"
    ));
}

#[test]
fn steam_libraries_come_once() {
    let vdf = "\"path\" \"/lib\"\n\"path\" \"/steam\"";
    let roots = vec![
        SteamRoot {
            path: "/steam".to_string(),
            library_folders: Some(vdf.to_string()),
        },
        SteamRoot {
            path: "/lib".to_string(),
            library_folders: None,
        },
    ];
    assert_eq!(expand_steam_libraries(&roots), ["/steam", "/lib"]);
    assert_eq!(steam_game_dir("/steam", ""), "/steam/steamapps/common/Path of Exile 2");
}

#[test]
fn paths_are_the_same_part_by_part() {
    for (a, b) in [
        ("/a/Steam/", "/a/Steam"),
        ("/a//Steam", "/a/Steam"),
        ("/a/./Steam/.", "/a/Steam"),
        ("a/b", "a//b//"),
        ("/", "//"),
        ("./a", "././a"),
    ] {
        assert!(eq_path(a, b), "{a} {b}");
    }
    for (a, b) in [
        ("/a/Steam", "a/Steam"),
        ("/a/Steam", "/a/steam"),
        ("./a", "a"),
        ("/a/..", "/"),
        ("/a/b", "/a/bc"),
        ("", "/"),
    ] {
        assert!(!eq_path(a, b), "{a} {b}");
    }
    let mut out = vec!["/a/Steam/".to_string()];
    push_unique(&mut out, "/a//Steam".to_string());
    assert_eq!(out.len(), 1);
    push_unique(&mut out, "/a/Steam2".to_string());
    assert_eq!(out.len(), 2);
}
