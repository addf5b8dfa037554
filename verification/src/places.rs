//! Where to look for the game: the folders of Steam, and the program folders of
//! Windows drives and Wine prefixes.

use crate::install::{
    distinct_paths, join_path, joined_path, program_dirs, program_files_candidates,
    push_standalone_candidates_from_program_files, wine_program_dirs, with_all_unique, ChildDir,
};
use crate::paths::lists_path;
use crate::text::texts;
use vstd::prelude::*;

verus! {

pub open spec fn text_of(t: Option<&str>) -> Option<Seq<char>> {
    match t {
        Some(t) => Some(t@),
        None => None,
    }
}

/// The Steam folders: three of the user, and one in each of some program
/// folders.
pub open spec fn steam_folders(home: Option<Seq<char>>, programs: Seq<Seq<char>>) -> Seq<
    Seq<char>,
> {
    let of_user = match home {
        Some(home) => seq![
            joined_path(home, ".steam/steam"@),
            joined_path(home, ".local/share/Steam"@),
            joined_path(home, ".var/app/com.valvesoftware.Steam/.local/share/Steam"@),
        ],
        None => Seq::empty(),
    };
    of_user + programs.map_values(|p: Seq<char>| joined_path(p, "Steam"@))
}

/// The Steam folders, where the user's folder is `home`. `programs` are the
/// program folders of a Windows system; elsewhere there are none.
pub fn steam_candidates(home: Option<&str>, programs: &Vec<String>) -> (r: Vec<String>)
    ensures
        texts(r@) == steam_folders(text_of(home), texts(programs@)),
{
    let ghost all = steam_folders(text_of(home), texts(programs@));
    let mut r: Vec<String> = Vec::new();
    match home {
        Some(home) => {
            r.push(join_path(home, ".steam/steam"));
            r.push(join_path(home, ".local/share/Steam"));
            r.push(join_path(home, ".var/app/com.valvesoftware.Steam/.local/share/Steam"));
        },
        None => {},
    }
    let ghost base = r@.len();
    let n: usize = programs.len();
    let mut i: usize = 0;
    assert(texts(r@) =~= all.take(r@.len() as int));
    while i < n
        invariant
            i <= n == programs@.len(),
            all == steam_folders(text_of(home), texts(programs@)),
            all.len() == base + n,
            base == (if home is Some {
                3int
            } else {
                0
            }),
            r@.len() == base + i,
            texts(r@) == all.take(r@.len() as int),
        decreases n - i,
    {
        let ghost before = texts(r@);
        let path = join_path(programs[i].as_str(), "Steam");
        let ghost text = path@;
        r.push(path);
        assert(texts(programs@)[i as int] == programs@[i as int]@);
        assert(all[base + i] == text);
        assert(texts(r@) =~= before.push(text));
        assert(texts(r@) =~= all.take(r@.len() as int));
        i = i + 1;
    }
    assert(texts(r@) =~= all);
    r
}

/// The folders below which drives are mounted.
pub open spec fn mount_folders(user: Option<Seq<char>>) -> Seq<Seq<char>> {
    match user {
        Some(user) => seq![
            joined_path("/run/media"@, user),
            joined_path("/media"@, user),
            "/mnt"@,
        ],
        None => seq!["/mnt"@],
    }
}

/// The folders below which drives are mounted. `user` is the user's name, if
/// there is one.
pub fn mount_roots(user: Option<&str>) -> (r: Vec<String>)
    ensures
        texts(r@) == mount_folders(text_of(user)),
{
    let mut r: Vec<String> = Vec::new();
    match user {
        Some(user) => {
            r.push(join_path("/run/media", user));
            r.push(join_path("/media", user));
        },
        None => {},
    }
    r.push("/mnt".to_owned());
    assert(texts(r@) =~= mount_folders(text_of(user)));
    r
}

/// A folder below which drives are mounted, and what lies in it.
pub struct MountRoot {
    pub path: String,
    pub children: Vec<String>,
}

/// The two program folders below a folder.
pub open spec fn programs_below(root: Seq<char>) -> Seq<Seq<char>> {
    seq![joined_path(root, "Program Files (x86)"@), joined_path(root, "Program Files"@)]
}

/// The program folders below the first `n` of some folders.
pub open spec fn programs_below_all(roots: Seq<Seq<char>>, n: nat) -> Seq<Seq<char>>
    decreases n,
{
    if n == 0 {
        Seq::empty()
    } else {
        programs_below_all(roots, (n - 1) as nat) + programs_below(roots[n - 1])
    }
}

/// The program folders of the first `n` mount folders: a mount folder may be a
/// drive itself, or hold some.
pub open spec fn mounted_programs(mounts: Seq<MountRoot>, n: nat) -> Seq<Seq<char>>
    decreases n,
{
    if n == 0 {
        Seq::empty()
    } else {
        let children = texts(mounts[n - 1].children@);
        mounted_programs(mounts, (n - 1) as nat) + programs_below(mounts[n - 1].path@)
            + programs_below_all(children, children.len())
    }
}

/// The program folders of a system with Wine: those of the prefix, if one is
/// set, those of the user's own, and those of mounted drives.
pub open spec fn wine_programs(
    prefix: Option<Seq<char>>,
    home: Option<Seq<char>>,
    mounts: Seq<MountRoot>,
) -> Seq<Seq<char>> {
    let of_prefix = match prefix {
        Some(prefix) => programs_below(joined_path(prefix, "drive_c"@)),
        None => Seq::empty(),
    };
    let of_home = match home {
        Some(home) => programs_below(joined_path(joined_path(home, ".wine"@), "drive_c"@)),
        None => Seq::empty(),
    };
    of_prefix + of_home + mounted_programs(mounts, mounts.len())
}

fn push_texts(out: &mut Vec<String>, more: Vec<String>)
    ensures
        texts(final(out)@) == texts(old(out)@) + texts(more@),
{
    let ghost start = texts(out@);
    let n: usize = more.len();
    let mut i: usize = 0;
    assert(texts(out@) =~= start + texts(more@).take(0));
    while i < n
        invariant
            i <= n == more@.len(),
            texts(out@) == start + texts(more@).take(i as int),
        decreases n - i,
    {
        let ghost before = texts(out@);
        assert(texts(more@)[i as int] == more@[i as int]@);
        out.push(more[i].clone());
        i = i + 1;
        assert(texts(out@) =~= before.push(more@[i - 1]@));
        assert(texts(out@) =~= start + texts(more@).take(i as int));
    }
    assert(texts(more@).take(n as int) =~= texts(more@));
}

/// The program folders to look into on a system with Wine.
pub fn standalone_program_dirs(
    wine_prefix: Option<&str>,
    home: Option<&str>,
    mounts: &Vec<MountRoot>,
) -> (r: Vec<String>)
    ensures
        texts(r@) == wine_programs(text_of(wine_prefix), text_of(home), mounts@),
{
    let mut r: Vec<String> = Vec::new();
    assert(texts(r@) =~= Seq::<Seq<char>>::empty());
    match wine_prefix {
        Some(prefix) => push_texts(&mut r, wine_program_dirs(prefix)),
        None => {},
    }
    match home {
        Some(home) => {
            let own = join_path(home, ".wine");
            push_texts(&mut r, wine_program_dirs(own.as_str()));
        },
        None => {},
    }
    let ghost base = texts(r@);
    let n: usize = mounts.len();
    let mut i: usize = 0;
    assert(texts(r@) =~= base + mounted_programs(mounts@, 0));
    while i < n
        invariant
            i <= n == mounts@.len(),
            texts(r@) == base + mounted_programs(mounts@, i as nat),
        decreases n - i,
    {
        let mount = &mounts[i];
        push_texts(&mut r, program_dirs(mount.path.as_str()));
        let ghost start = texts(r@);
        let ghost children = texts(mount.children@);
        let m: usize = mount.children.len();
        let mut k: usize = 0;
        assert(texts(r@) =~= start + programs_below_all(children, 0));
        while k < m
            invariant
                k <= m == mount.children@.len(),
                children == texts(mount.children@),
                texts(r@) == start + programs_below_all(children, k as nat),
            decreases m - k,
        {
            assert(children[k as int] == mount.children@[k as int]@);
            push_texts(&mut r, program_dirs(mount.children[k].as_str()));
            k = k + 1;
            assert(texts(r@) =~= start + programs_below_all(children, k as nat));
        }
        i = i + 1;
        assert(texts(r@) =~= base + mounted_programs(mounts@, i as nat));
    }
    assert(texts(r@) =~= wine_programs(text_of(wine_prefix), text_of(home), mounts@));
    r
}

/// A program folder and the folders inside its publisher's folder; none if that
/// cannot be listed.
pub struct ProgramDir {
    pub path: String,
    pub children: Vec<ChildDir>,
}

/// The candidates of the first `n` program folders, in order and each once.
pub open spec fn candidates_in(dirs: Seq<ProgramDir>, n: nat) -> Seq<Seq<char>>
    decreases n,
{
    if n == 0 {
        Seq::empty()
    } else {
        let more = program_files_candidates(dirs[n - 1].path@, dirs[n - 1].children@);
        with_all_unique(candidates_in(dirs, (n - 1) as nat), more, more.len())
    }
}

/// The folders in which the standalone game may be installed, in the order in
/// which they are tried.
pub fn standalone_candidates(dirs: &Vec<ProgramDir>) -> (r: Vec<String>)
    ensures
        texts(r@) == candidates_in(dirs@, dirs@.len()),
{
    let mut r: Vec<String> = Vec::new();
    let n: usize = dirs.len();
    let mut i: usize = 0;
    assert(texts(r@) =~= candidates_in(dirs@, 0));
    while i < n
        invariant
            i <= n == dirs@.len(),
            texts(r@) == candidates_in(dirs@, i as nat),
        decreases n - i,
    {
        push_standalone_candidates_from_program_files(
            &mut r,
            dirs[i].path.as_str(),
            &dirs[i].children,
        );
        i = i + 1;
    }
    r
}

proof fn lemma_all_unique(out: Seq<Seq<char>>, more: Seq<Seq<char>>, n: nat)
    requires
        distinct_paths(out),
        n <= more.len(),
    ensures
        distinct_paths(with_all_unique(out, more, n)),
        forall|p: Seq<char>| lists_path(out, p) ==> lists_path(with_all_unique(out, more, n), p),
        forall|k: int|
            0 <= k < n ==> lists_path(with_all_unique(out, more, n), #[trigger] more[k]),
    decreases n,
{
    if n > 0 {
        lemma_all_unique(out, more, (n - 1) as nat);
        crate::install::law_unique_paths_stay_unique(
            with_all_unique(out, more, (n - 1) as nat),
            more[n - 1],
        );
    }
}

/// Each candidate is tried once, and every program folder contributes its own.
pub proof fn law_every_candidate_is_tried_once(dirs: Seq<ProgramDir>, n: nat)
    requires
        n <= dirs.len(),
    ensures
        distinct_paths(candidates_in(dirs, n)),
        forall|i: int, k: int|
            0 <= i < n && 0 <= k < program_files_candidates(
                dirs[i].path@,
                dirs[i].children@,
            ).len() ==> lists_path(
                candidates_in(dirs, n),
                #[trigger] program_files_candidates(dirs[i].path@, dirs[i].children@)[k],
            ),
    decreases n,
{
    if n > 0 {
        law_every_candidate_is_tried_once(dirs, (n - 1) as nat);
        let more = program_files_candidates(dirs[n - 1].path@, dirs[n - 1].children@);
        lemma_all_unique(candidates_in(dirs, (n - 1) as nat), more, more.len());
    }
}

} // verus!
