//! Where the game and its files are looked for.

use crate::install::{
    content_path_of, distinct_paths, index_path_of, is_game_process, joined_path, libraries_in,
    law_unique_paths_stay_unique, manifest_path_of, names_game, program_files_candidates,
    publisher_dir_of, steam_game_dir_of, steam_libraries, with_all_unique, with_unique, ChildDir,
    ProcessInfo, SteamRoot,
};
use crate::paths::{lists_path, same_path};
use crate::places::{
    mount_folders, mounted_programs, programs_below, programs_below_all, steam_folders,
    wine_programs, MountRoot,
};
use crate::store::storage_path_of;
use crate::text::{lines_of, lower_all, occurs_at, texts};
use vstd::prelude::*;

verus! {

/// A folder's path without a slash at its end.
pub open spec fn is_folder(dir: Seq<char>) -> bool {
    dir.len() > 0 && dir[dir.len() - 1] != '/'
}

proof fn lemma_joined(dir: Seq<char>, name: Seq<char>)
    requires
        is_folder(dir),
        name.len() > 0,
        name[0] != '/',
        name[name.len() - 1] != '/',
    ensures
        joined_path(dir, name) == dir + seq!['/'] + name,
        is_folder(joined_path(dir, name)),
{
    assert(dir.push('/') + name =~= dir + seq!['/'] + name);
}

/// Where the game's own files lie in its folder.
pub proof fn law_files_of_the_game(dir: Seq<char>, bundle: Seq<char>)
    requires
        is_folder(dir),
    ensures
        content_path_of(dir) == dir + "/Content.ggpk"@,
        index_path_of(dir) == dir + "/Bundles2/_.index.bin"@,
        storage_path_of(bundle) == "Bundles2/"@ + bundle + ".bundle.bin"@,
{
    reveal_strlit("Content.ggpk");
    reveal_strlit("/Content.ggpk");
    reveal_strlit("Bundles2");
    reveal_strlit("_.index.bin");
    reveal_strlit("/Bundles2/_.index.bin");
    lemma_joined(dir, "Content.ggpk"@);
    assert(dir + seq!['/'] + "Content.ggpk"@ =~= dir + "/Content.ggpk"@);
    lemma_joined(dir, "Bundles2"@);
    lemma_joined(joined_path(dir, "Bundles2"@), "_.index.bin"@);
    assert(dir + seq!['/'] + "Bundles2"@ + seq!['/'] + "_.index.bin"@ =~= dir
        + "/Bundles2/_.index.bin"@);
}

/// Where Steam keeps its manifest of the game in a library folder, and where the game
/// lies there, if the manifest names no other folder.
pub proof fn law_places_in_a_library(library: Seq<char>, manifest: Seq<char>)
    requires
        is_folder(library),
        crate::install::first_install_dir(lines_of(manifest), 0) is None,
    ensures
        manifest_path_of(library) == library + "/steamapps/appmanifest_2694490.acf"@,
        steam_game_dir_of(library, manifest) == library + "/steamapps/common/Path of Exile 2"@,
{
    reveal_strlit("steamapps");
    reveal_strlit("common");
    reveal_strlit("Path of Exile 2");
    reveal_strlit("appmanifest_2694490.acf");
    reveal_strlit("/steamapps/appmanifest_2694490.acf");
    reveal_strlit("/steamapps/common/Path of Exile 2");
    lemma_joined(library, "steamapps"@);
    let apps = joined_path(library, "steamapps"@);
    lemma_joined(apps, "appmanifest_2694490.acf"@);
    lemma_joined(apps, "common"@);
    lemma_joined(joined_path(apps, "common"@), "Path of Exile 2"@);
    assert(manifest_path_of(library) =~= library + "/steamapps/appmanifest_2694490.acf"@);
    assert(steam_game_dir_of(library, manifest) =~= library
        + "/steamapps/common/Path of Exile 2"@);
}

/// A manifest that names the game's folder leads to that one.
pub proof fn law_manifest_leads_to_the_game(
    library: Seq<char>,
    manifest: Seq<char>,
    folder: Seq<char>,
)
    requires
        is_folder(library),
        crate::install::first_install_dir(lines_of(manifest), 0) == Some(folder),
        folder.len() > 0,
        folder[0] != '/',
        folder[folder.len() - 1] != '/',
    ensures
        steam_game_dir_of(library, manifest) == library + "/steamapps/common/"@ + folder,
{
    reveal_strlit("steamapps");
    reveal_strlit("common");
    reveal_strlit("/steamapps/common/");
    lemma_joined(library, "steamapps"@);
    let apps = joined_path(library, "steamapps"@);
    lemma_joined(apps, "common"@);
    lemma_joined(joined_path(apps, "common"@), folder);
    assert(steam_game_dir_of(library, manifest) =~= library + "/steamapps/common/"@ + folder);
}

/// Steam is looked for in three folders of the user, and in each program folder.
pub proof fn law_steam_is_looked_for(home: Seq<char>, programs: Seq<Seq<char>>)
    requires
        is_folder(home),
    ensures
        ({
            let r = steam_folders(Some(home), programs);
            &&& r.len() == 3 + programs.len()
            &&& r[0] == home + "/.steam/steam"@
            &&& r[1] == home + "/.local/share/Steam"@
            &&& r[2] == home + "/.var/app/com.valvesoftware.Steam/.local/share/Steam"@
            &&& forall|i: int|
                0 <= i < programs.len() && is_folder(programs[i]) ==> #[trigger] r[3 + i]
                    == programs[i] + "/Steam"@
        }),
{
    reveal_strlit(".steam/steam");
    reveal_strlit(".local/share/Steam");
    reveal_strlit(".var/app/com.valvesoftware.Steam/.local/share/Steam");
    reveal_strlit("/.steam/steam");
    reveal_strlit("/.local/share/Steam");
    reveal_strlit("/.var/app/com.valvesoftware.Steam/.local/share/Steam");
    reveal_strlit("Steam");
    reveal_strlit("/Steam");
    lemma_joined(home, ".steam/steam"@);
    lemma_joined(home, ".local/share/Steam"@);
    lemma_joined(home, ".var/app/com.valvesoftware.Steam/.local/share/Steam"@);
    let r = steam_folders(Some(home), programs);
    assert(r[0] =~= home + "/.steam/steam"@);
    assert(r[1] =~= home + "/.local/share/Steam"@);
    assert(r[2] =~= home + "/.var/app/com.valvesoftware.Steam/.local/share/Steam"@);
    assert forall|i: int| 0 <= i < programs.len() && is_folder(programs[i]) implies #[trigger] r[3
        + i] == programs[i] + "/Steam"@ by {
        lemma_joined(programs[i], "Steam"@);
        assert(r[3 + i] == joined_path(programs[i], "Steam"@));
        assert(r[3 + i] =~= programs[i] + "/Steam"@);
    }
}

/// Both program folders below each of some folders are looked into, in order.
pub proof fn law_program_folders_below(roots: Seq<Seq<char>>, n: nat)
    requires
        n <= roots.len(),
        forall|i: int| 0 <= i < n ==> is_folder(#[trigger] roots[i]),
    ensures
        programs_below_all(roots, n).len() == 2 * n,
        forall|i: int|
            0 <= i < n ==> programs_below_all(roots, n)[2 * i] == #[trigger] roots[i]
                + "/Program Files (x86)"@ && programs_below_all(roots, n)[2 * i + 1] == roots[i]
                + "/Program Files"@,
    decreases n,
{
    if n > 0 {
        let m = (n - 1) as nat;
        law_program_folders_below(roots, m);
        let before = programs_below_all(roots, m);
        let now = programs_below_all(roots, n);
        let root = roots[n - 1];
        reveal_strlit("Program Files (x86)");
        reveal_strlit("/Program Files (x86)");
        reveal_strlit("Program Files");
        reveal_strlit("/Program Files");
        lemma_joined(root, "Program Files (x86)"@);
        lemma_joined(root, "Program Files"@);
        assert(programs_below(root)[0] =~= root + "/Program Files (x86)"@);
        assert(programs_below(root)[1] =~= root + "/Program Files"@);
        assert forall|i: int| 0 <= i < n implies now[2 * i] == #[trigger] roots[i]
            + "/Program Files (x86)"@ && now[2 * i + 1] == roots[i] + "/Program Files"@ by {
            if i < m {
                assert(now[2 * i] == before[2 * i]);
                assert(now[2 * i + 1] == before[2 * i + 1]);
            } else {
                assert(now[2 * i] == programs_below(root)[0]);
                assert(now[2 * i + 1] == programs_below(root)[1]);
            }
        }
    }
}

/// The program folders of a mount folder, and those of each drive in it, are looked
/// into.
pub proof fn law_mounted_drives_are_looked_into(mounts: Seq<MountRoot>, n: nat, i: int)
    requires
        0 <= i < n <= mounts.len(),
    ensures
        forall|p: Seq<char>|
            programs_below(mounts[i].path@).contains(p) ==> #[trigger] mounted_programs(
                mounts,
                n,
            ).contains(p),
        forall|p: Seq<char>|
            programs_below_all(texts(mounts[i].children@), mounts[i].children@.len()).contains(p)
                ==> #[trigger] mounted_programs(mounts, n).contains(p),
    decreases n,
{
    let m = (n - 1) as nat;
    let before = mounted_programs(mounts, m);
    let children = texts(mounts[n - 1].children@);
    let a = programs_below(mounts[n - 1].path@);
    let b = programs_below_all(children, children.len());
    let now = mounted_programs(mounts, n);
    assert(now == before + a + b);
    assert forall|p: Seq<char>| before.contains(p) implies #[trigger] now.contains(p) by {
        let k = choose|k: int| 0 <= k < before.len() && before[k] == p;
        assert(now[k] == p);
    }
    assert forall|p: Seq<char>| a.contains(p) implies #[trigger] now.contains(p) by {
        let k = choose|k: int| 0 <= k < a.len() && a[k] == p;
        assert(now[before.len() + k] == p);
    }
    assert forall|p: Seq<char>| b.contains(p) implies #[trigger] now.contains(p) by {
        let k = choose|k: int| 0 <= k < b.len() && b[k] == p;
        assert(now[before.len() + a.len() + k] == p);
    }
    if i < m {
        law_mounted_drives_are_looked_into(mounts, m, i);
    }
}

/// With Wine, the drives of the prefix and of the user's own come first, then those that
/// are mounted.
pub proof fn law_wine_drives_come_first(
    prefix: Seq<char>,
    home: Seq<char>,
    mounts: Seq<MountRoot>,
)
    requires
        is_folder(prefix),
        is_folder(home),
    ensures
        wine_programs(Some(prefix), Some(home), mounts) == seq![
            prefix + "/drive_c/Program Files (x86)"@,
            prefix + "/drive_c/Program Files"@,
            home + "/.wine/drive_c/Program Files (x86)"@,
            home + "/.wine/drive_c/Program Files"@,
        ] + mounted_programs(mounts, mounts.len()),
        wine_programs(None, None, mounts) == mounted_programs(mounts, mounts.len()),
{
    reveal_strlit("drive_c");
    reveal_strlit(".wine");
    reveal_strlit("Program Files (x86)");
    reveal_strlit("Program Files");
    reveal_strlit("/drive_c/Program Files (x86)");
    reveal_strlit("/drive_c/Program Files");
    reveal_strlit("/.wine/drive_c/Program Files (x86)");
    reveal_strlit("/.wine/drive_c/Program Files");
    let a = joined_path(prefix, "drive_c"@);
    lemma_joined(prefix, "drive_c"@);
    lemma_joined(a, "Program Files (x86)"@);
    lemma_joined(a, "Program Files"@);
    let w = joined_path(home, ".wine"@);
    lemma_joined(home, ".wine"@);
    let b = joined_path(w, "drive_c"@);
    lemma_joined(w, "drive_c"@);
    lemma_joined(b, "Program Files (x86)"@);
    lemma_joined(b, "Program Files"@);
    assert(programs_below(a)[0] =~= prefix + "/drive_c/Program Files (x86)"@);
    assert(programs_below(a)[1] =~= prefix + "/drive_c/Program Files"@);
    assert(programs_below(b)[0] =~= home + "/.wine/drive_c/Program Files (x86)"@);
    assert(programs_below(b)[1] =~= home + "/.wine/drive_c/Program Files"@);
    assert(wine_programs(Some(prefix), Some(home), mounts) =~= seq![
        prefix + "/drive_c/Program Files (x86)"@,
        prefix + "/drive_c/Program Files"@,
        home + "/.wine/drive_c/Program Files (x86)"@,
        home + "/.wine/drive_c/Program Files"@,
    ] + mounted_programs(mounts, mounts.len()));
    assert(wine_programs(None, None, mounts) =~= mounted_programs(mounts, mounts.len()));
}

/// Drives are mounted below two folders of the user and one of all.
pub proof fn law_drives_are_mounted(user: Seq<char>)
    requires
        user.len() > 0,
        user[0] != '/',
        user[user.len() - 1] != '/',
    ensures
        mount_folders(Some(user)) == seq!["/run/media/"@ + user, "/media/"@ + user, "/mnt"@],
        mount_folders(None) == seq!["/mnt"@],
{
    reveal_strlit("/run/media");
    reveal_strlit("/run/media/");
    reveal_strlit("/media");
    reveal_strlit("/media/");
    lemma_joined("/run/media"@, user);
    lemma_joined("/media"@, user);
    assert(joined_path("/run/media"@, user) =~= "/run/media/"@ + user);
    assert(joined_path("/media"@, user) =~= "/media/"@ + user);
    assert(mount_folders(Some(user)) =~= seq!["/run/media/"@ + user, "/media/"@ + user, "/mnt"@]);
}

/// In a program folder the game is looked for in the two folders that its installer
/// makes, before what else is there.
pub proof fn law_installer_folders_come_first(program_files: Seq<char>, children: Seq<ChildDir>)
    requires
        is_folder(program_files),
    ensures
        ({
            let r = program_files_candidates(program_files, children);
            &&& publisher_dir_of(program_files) == program_files + "/Grinding Gear Games"@
            &&& r.len() >= 2
            &&& r[0] == program_files + "/Grinding Gear Games/Path of Exile 2"@
            &&& r[1] == program_files
                + "/Grinding Gear Games/Path of Exile 2 - poe2_production"@
            &&& r.subrange(2, r.len() as int) == crate::install::game_children(
                children,
                children.len(),
            )
        }),
{
    reveal_strlit("Grinding Gear Games");
    reveal_strlit("/Grinding Gear Games");
    reveal_strlit("Path of Exile 2");
    reveal_strlit("Path of Exile 2 - poe2_production");
    reveal_strlit("/Grinding Gear Games/Path of Exile 2");
    reveal_strlit("/Grinding Gear Games/Path of Exile 2 - poe2_production");
    let dir = publisher_dir_of(program_files);
    lemma_joined(program_files, "Grinding Gear Games"@);
    assert(dir =~= program_files + "/Grinding Gear Games"@);
    lemma_joined(dir, "Path of Exile 2"@);
    lemma_joined(dir, "Path of Exile 2 - poe2_production"@);
    let r = program_files_candidates(program_files, children);
    assert(r[0] =~= program_files + "/Grinding Gear Games/Path of Exile 2"@);
    assert(r[1] =~= program_files + "/Grinding Gear Games/Path of Exile 2 - poe2_production"@);
    assert(r.subrange(2, r.len() as int) =~= crate::install::game_children(
        children,
        children.len(),
    ));
}

/// A process is the game if its name, or one of its arguments, has the game's name in it
/// in whatever case, as one word or as three.
pub proof fn law_game_is_known_by_its_name(
    p: ProcessInfo,
    front: Seq<char>,
    name: Seq<char>,
    behind: Seq<char>,
    i: int,
)
    requires
        lower_all(name) == "pathofexile"@ || lower_all(name) == "path of exile"@,
        p.name@ == front + name + behind || (0 <= i < p.cmd@.len() && p.cmd@[i]@ == front + name
            + behind),
    ensures
        is_game_process(p),
{
    let t = front + name + behind;
    let s = lower_all(t);
    let n = lower_all(name);
    assert(s.subrange(front.len() as int, (front.len() + n.len()) as int) =~= n);
    assert(occurs_at(s, front.len() as int, n));
    assert(names_game(t));
}

proof fn lemma_listed(out: Seq<Seq<char>>, path: Seq<char>)
    ensures
        lists_path(with_unique(out, path), path),
        forall|p: Seq<char>| lists_path(out, p) ==> #[trigger] lists_path(with_unique(out, path), p),
        distinct_paths(out) ==> distinct_paths(with_unique(out, path)),
{
    let now = with_unique(out, path);
    if !lists_path(out, path) {
        assert(same_path(now[out.len() as int], path));
        assert forall|p: Seq<char>| lists_path(out, p) implies #[trigger] lists_path(now, p) by {
            let i = choose|i: int| 0 <= i < out.len() && same_path(#[trigger] out[i], p);
            assert(now[i] == out[i]);
        }
    }
    if distinct_paths(out) {
        law_unique_paths_stay_unique(out, path);
    }
}

proof fn lemma_all_listed(out: Seq<Seq<char>>, more: Seq<Seq<char>>, n: nat)
    requires
        n <= more.len(),
    ensures
        ({
            let r = with_all_unique(out, more, n);
            &&& forall|p: Seq<char>| lists_path(out, p) ==> #[trigger] lists_path(r, p)
            &&& forall|i: int| 0 <= i < n ==> lists_path(r, #[trigger] more[i])
            &&& distinct_paths(out) ==> distinct_paths(r)
        }),
    decreases n,
{
    if n > 0 {
        let m = (n - 1) as nat;
        lemma_all_listed(out, more, m);
        let before = with_all_unique(out, more, m);
        lemma_listed(before, more[n - 1]);
        let r = with_all_unique(out, more, n);
        assert forall|i: int| 0 <= i < n implies lists_path(r, #[trigger] more[i]) by {
            if i < m {
                assert(lists_path(before, more[i]));
            }
        }
    }
}

/// Each Steam folder is looked into, and each library folder that its list names, in
/// whatever way a path is written; none of them twice.
pub proof fn law_every_library_is_looked_into(roots: Seq<SteamRoot>, n: nat, i: int)
    requires
        0 <= i < n <= roots.len(),
    ensures
        ({
            let r = steam_libraries(roots, n);
            &&& lists_path(r, roots[i].path@)
            &&& match roots[i].library_folders {
                Some(text) => forall|k: int|
                    0 <= k < libraries_in(lines_of(text@), lines_of(text@).len()).len()
                        ==> lists_path(
                        r,
                        #[trigger] libraries_in(lines_of(text@), lines_of(text@).len())[k],
                    ),
                None => true,
            }
            &&& distinct_paths(r)
        }),
    decreases n,
{
    let m = (n - 1) as nat;
    let before = steam_libraries(roots, m);
    let root = roots[n - 1];
    lemma_libraries_distinct(roots, m);
    lemma_listed(before, root.path@);
    let with_root = with_unique(before, root.path@);
    if let Some(text) = root.library_folders {
        let found = libraries_in(lines_of(text@), lines_of(text@).len());
        lemma_all_listed(with_root, found, found.len());
    }
    if i < m {
        law_every_library_is_looked_into(roots, m, i);
    }
}

proof fn lemma_libraries_distinct(roots: Seq<SteamRoot>, n: nat)
    requires
        n <= roots.len(),
    ensures
        distinct_paths(steam_libraries(roots, n)),
    decreases n,
{
    if n > 0 {
        let m = (n - 1) as nat;
        lemma_libraries_distinct(roots, m);
        let before = steam_libraries(roots, m);
        let root = roots[n - 1];
        lemma_listed(before, root.path@);
        if let Some(text) = root.library_folders {
            let found = libraries_in(lines_of(text@), lines_of(text@).len());
            lemma_all_listed(with_unique(before, root.path@), found, found.len());
        }
    }
}

} // verus!
