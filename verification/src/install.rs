//! Where the game is installed, in which layout, and whether it is running.
//!
//! Paths are texts with `/` between their parts. The functions here take what
//! is found on disk as arguments.

use crate::paths::{contains_path, lists_path, same_path};
use crate::text::{
    char_seqs, chars_of, contains_text, has_prefix, has_text, is_blank,
    lemma_index_of_char, lines_of, lower_all, lower_chars, replace_chars, replaced, same_chars,
    split_chars, split_lines, split_on, starts_with, string_of, texts,
};
use vstd::prelude::*;

verus! {

/// How the game's files are stored.
#[derive(Debug, Clone, Copy, PartialEq, Eq, Structural)]
pub enum InstallLayout {
    LooseBundles,
    ContentGgpk,
}

impl InstallLayout {
    /// What the layout is called.
    pub fn label(self) -> (r: &'static str)
        ensures
            r@ == (match self {
                InstallLayout::LooseBundles => "loose Bundles2"@,
                InstallLayout::ContentGgpk => "standalone Content.ggpk"@,
            }),
    {
        match self {
            InstallLayout::LooseBundles => "loose Bundles2",
            InstallLayout::ContentGgpk => "standalone Content.ggpk",
        }
    }
}

/// Why there is no game to work on.
#[derive(Debug)]
pub enum InstallError {
    /// The folder holds neither layout: the folder, the missing index and the
    /// missing archive.
    UnknownLayout { path: String, index: String, content: String },
    /// The game is running.
    GameRunning,
    /// Steam's manifest of the game cannot be read.
    ManifestUnreadable { path: String },
    /// No folder of the game was found.
    NotFound,
}

/// `base/name`; `name` alone where that is an absolute path.
pub open spec fn joined_path(base: Seq<char>, name: Seq<char>) -> Seq<char> {
    if name.len() > 0 && name[0] == '/' {
        name
    } else if base.len() == 0 || base.last() == '/' {
        base + name
    } else {
        base.push('/') + name
    }
}

/// `base/name`; `name` alone where that is an absolute path.
pub fn join_path(base: &str, name: &str) -> (r: String)
    ensures
        r@ == joined_path(base@, name@),
{
    let front = chars_of(name);
    if front.len() > 0 && front[0] == '/' {
        return name.to_owned();
    }
    let chars = chars_of(base);
    let mut r = base.to_owned();
    if chars.len() > 0 && chars[chars.len() - 1] != '/' {
        r.push('/');
    }
    r.append(name);
    r
}

/// The text of the error for a folder that holds neither layout.
pub open spec fn unknown_layout_text(
    path: Seq<char>,
    index: Seq<char>,
    content: Seq<char>,
) -> Seq<char> {
    path + " does not look like a POE2 install; missing "@ + index + " or "@ + content
}

impl InstallError {
    /// What the error says.
    pub fn message(&self) -> (r: String)
        ensures
            r@ == (match *self {
                InstallError::UnknownLayout { path, index, content } => unknown_layout_text(
                    path@,
                    index@,
                    content@,
                ),
                InstallError::GameRunning =>
                    "Path of Exile 2 appears to be running;\nclose the game (and Steam if needed) before apply/restore"@,
                InstallError::ManifestUnreadable { path } => "failed to read "@ + path@,
                InstallError::NotFound =>
                    "could not autodetect Path of Exile 2;\nuse Browse to choose the game folder, or verify Steam/standalone install paths\nSearched default Steam folders, configured Steam libraries, and standalone locations"@,
            }),
    {
        match self {
            InstallError::UnknownLayout { path, index, content } => {
                let mut r = path.clone();
                r.append(" does not look like a POE2 install; missing ");
                r.append(index.as_str());
                r.append(" or ");
                r.append(content.as_str());
                r
            },
            InstallError::GameRunning =>
                "Path of Exile 2 appears to be running;\nclose the game (and Steam if needed) before apply/restore".to_owned(),
            InstallError::ManifestUnreadable { path } => {
                let mut r = "failed to read ".to_owned();
                r.append(path.as_str());
                r
            },
            InstallError::NotFound =>
                "could not autodetect Path of Exile 2;\nuse Browse to choose the game folder, or verify Steam/standalone install paths\nSearched default Steam folders, configured Steam libraries, and standalone locations".to_owned(),
        }
    }
}

/// The archive of the standalone layout.
pub open spec fn content_path_of(path: Seq<char>) -> Seq<char> {
    joined_path(path, "Content.ggpk"@)
}

/// The index of the loose layout.
pub open spec fn index_path_of(path: Seq<char>) -> Seq<char> {
    joined_path(joined_path(path, "Bundles2"@), "_.index.bin"@)
}

/// Whether the error says that the folder `path` holds neither layout.
pub open spec fn is_unknown_layout(e: InstallError, path: Seq<char>) -> bool {
    match e {
        InstallError::UnknownLayout { path: p, index, content } => {
            p@ == path && index@ == index_path_of(path) && content@ == content_path_of(path)
        },
        _ => false,
    }
}

/// The archive of the standalone layout.
pub fn content_path(path: &str) -> (r: String)
    ensures
        r@ == content_path_of(path@),
{
    join_path(path, "Content.ggpk")
}

/// The index of the loose layout.
pub fn index_path(path: &str) -> (r: String)
    ensures
        r@ == index_path_of(path@),
{
    let bundles = join_path(path, "Bundles2");
    join_path(bundles.as_str(), "_.index.bin")
}

/// The layout of the folder `path`, given whether `content_path(path)` and
/// `index_path(path)` exist. The archive wins where both do.
pub fn detect_install_layout(path: &str, content_exists: bool, index_exists: bool) -> (r: Result<
    InstallLayout,
    InstallError,
>)
    ensures
        match r {
            Ok(layout) => (content_exists || index_exists) && layout == if content_exists {
                InstallLayout::ContentGgpk
            } else {
                InstallLayout::LooseBundles
            },
            Err(e) => !content_exists && !index_exists && is_unknown_layout(e, path@),
        },
{
    if content_exists {
        return Ok(InstallLayout::ContentGgpk);
    }
    if index_exists {
        return Ok(InstallLayout::LooseBundles);
    }
    Err(
        InstallError::UnknownLayout {
            path: path.to_owned(),
            index: index_path(path),
            content: content_path(path),
        },
    )
}

/// Hands the folder back if it holds the game.
pub fn validate_game_dir(path: String, content_exists: bool, index_exists: bool) -> (r: Result<
    String,
    InstallError,
>)
    ensures
        match r {
            Ok(p) => (content_exists || index_exists) && p == path,
            Err(e) => !content_exists && !index_exists && is_unknown_layout(e, path@),
        },
{
    match detect_install_layout(path.as_str(), content_exists, index_exists) {
        Ok(_) => Ok(path),
        Err(e) => Err(e),
    }
}

/// A running process: its name and its command line.
pub struct ProcessInfo {
    pub name: String,
    pub cmd: Vec<String>,
}

/// Whether a process name or a command line argument names the game, in any
/// case of its ASCII letters.
pub open spec fn names_game(s: Seq<char>) -> bool {
    contains_text(lower_all(s), "pathofexile"@) || contains_text(lower_all(s), "path of exile"@)
}

/// Whether a process is the game: by its name, or by an argument, since under
/// Proton and Wine the name is often only that of a thread.
pub open spec fn is_game_process(p: ProcessInfo) -> bool {
    names_game(p.name@) || exists|i: int|
        0 <= i < p.cmd@.len() && names_game((#[trigger] p.cmd@[i])@)
}

fn text_names_game(s: &str) -> (r: bool)
    ensures
        r == names_game(s@),
{
    let chars = chars_of(s);
    let low = lower_chars(chars.as_slice());
    let a = chars_of("pathofexile");
    let b = chars_of("path of exile");
    has_text(low.as_slice(), a.as_slice()) || has_text(low.as_slice(), b.as_slice())
}

/// Whether the game is among the running processes.
pub fn is_game_running(processes: &Vec<ProcessInfo>) -> (r: bool)
    ensures
        r == exists|i: int| 0 <= i < processes@.len() && is_game_process(#[trigger] processes@[i]),
{
    let n: usize = processes.len();
    let mut i: usize = 0;
    while i < n
        invariant
            i <= n == processes@.len(),
            forall|k: int| 0 <= k < i ==> !is_game_process(#[trigger] processes@[k]),
        decreases n - i,
    {
        let process = &processes[i];
        if text_names_game(process.name.as_str()) {
            assert(is_game_process(processes@[i as int]));
            return true;
        }
        let m: usize = process.cmd.len();
        let mut j: usize = 0;
        while j < m
            invariant
                j <= m == process.cmd@.len(),
                i < processes@.len(),
                *process == processes@[i as int],
                forall|k: int| 0 <= k < j ==> !names_game((#[trigger] process.cmd@[k])@),
            decreases m - j,
        {
            if text_names_game(process.cmd[j].as_str()) {
                assert(names_game(process.cmd@[j as int]@));
                assert(is_game_process(processes@[i as int]));
                return true;
            }
            j = j + 1;
        }
        i = i + 1;
    }
    false
}

/// Refuses to go on while the game is running.
pub fn ensure_game_not_running(processes: &Vec<ProcessInfo>) -> (r: Result<(), InstallError>)
    ensures
        r is Err <==> exists|i: int|
            0 <= i < processes@.len() && is_game_process(#[trigger] processes@[i]),
        r matches Err(e) ==> e is GameRunning,
{
    if is_game_running(processes) {
        Err(InstallError::GameRunning)
    } else {
        Ok(())
    }
}

/// The parts of `parts` that are not blank.
pub open spec fn nonblank(parts: Seq<Seq<char>>) -> Seq<Seq<char>> {
    parts.filter(|p: Seq<char>| !crate::text::blank(p))
}

/// The install folder that a line of Steam's manifest names.
pub open spec fn install_dir_in_line(line: Seq<char>) -> Option<Seq<char>> {
    let parts = nonblank(split_on(line, '"'));
    if parts.len() >= 2 && parts[0] == "installdir"@ {
        Some(parts[1])
    } else {
        None
    }
}

/// The install folder that the first of some lines names.
pub open spec fn first_install_dir(lines: Seq<Seq<char>>, i: int) -> Option<Seq<char>>
    decreases lines.len() - i,
{
    if i < 0 || i >= lines.len() {
        None
    } else {
        match install_dir_in_line(lines[i]) {
            Some(v) => Some(v),
            None => first_install_dir(lines, i + 1),
        }
    }
}

fn nonblank_parts(parts: &Vec<Vec<char>>) -> (r: Vec<Vec<char>>)
    ensures
        char_seqs(r@) == nonblank(char_seqs(parts@)),
{
    let n: usize = parts.len();
    let mut r: Vec<Vec<char>> = Vec::new();
    let mut i: usize = 0;
    let ghost all = char_seqs(parts@);
    let ghost keep = |p: Seq<char>| !crate::text::blank(p);
    assert(all.take(0).filter(keep) =~= char_seqs(r@)) by {
        reveal(Seq::filter);
    }
    while i < n
        invariant
            i <= n == parts@.len(),
            all == char_seqs(parts@),
            keep == (|p: Seq<char>| !crate::text::blank(p)),
            char_seqs(r@) == all.take(i as int).filter(keep),
        decreases n - i,
    {
        proof {
            assert(all.take(i + 1).drop_last() =~= all.take(i as int));
            reveal(Seq::filter);
        }
        if !is_blank(parts[i].as_slice()) {
            let part = char_range_all(parts[i].as_slice());
            let ghost before = r@;
            r.push(part);
            assert(char_seqs(r@) =~= char_seqs(before).push(all[i as int]));
        }
        i = i + 1;
    }
    assert(all.take(n as int) =~= all);
    r
}

fn char_range_all(s: &[char]) -> (r: Vec<char>)
    ensures
        r@ == s@,
{
    vstd::slice::slice_to_vec(s)
}

fn line_install_dir(line: &[char]) -> (r: Option<String>)
    ensures
        match r {
            Some(v) => install_dir_in_line(line@) == Some(v@),
            None => install_dir_in_line(line@) is None,
        },
{
    let all = split_chars(line, '"');
    let parts = nonblank_parts(&all);
    let key = chars_of("installdir");
    assert(char_seqs(parts@).len() == parts@.len());
    if parts.len() >= 2 {
        assert(char_seqs(parts@)[0] == parts@[0]@);
        assert(char_seqs(parts@)[1] == parts@[1]@);
        if same_chars(parts[0].as_slice(), key.as_slice()) {
            return Some(string_of(parts[1].as_slice()));
        }
    }
    None
}

/// The install folder that Steam's manifest of the game names.
pub fn parse_install_dir(manifest: &str) -> (r: Option<String>)
    ensures
        match r {
            Some(v) => first_install_dir(lines_of(manifest@), 0) == Some(v@),
            None => first_install_dir(lines_of(manifest@), 0) is None,
        },
{
    let chars = chars_of(manifest);
    let lines = split_lines(chars.as_slice());
    let ghost all = lines_of(manifest@);
    let n: usize = lines.len();
    let mut i: usize = 0;
    while i < n
        invariant
            i <= n == lines@.len(),
            all == char_seqs(lines@),
            first_install_dir(all, 0) == first_install_dir(all, i as int),
            all == lines_of(manifest@),
        decreases n - i,
    {
        assert(all[i as int] == lines@[i as int]@);
        match line_install_dir(lines[i].as_slice()) {
            Some(v) => return Some(v),
            None => {},
        }
        i = i + 1;
    }
    None
}

/// Every second part, from the second on: what stands between quotes.
pub open spec fn odd_parts(parts: Seq<Seq<char>>) -> Seq<Seq<char>> {
    Seq::new(parts.len() / 2, |i: int| parts[2 * i + 1])
}

/// The fields of a line that stand between quotes.
pub fn quoted_fields(line: &str) -> (r: Vec<String>)
    ensures
        texts(r@) == odd_parts(split_on(line@, '"')),
{
    let chars = chars_of(line);
    quoted_fields_of(chars.as_slice())
}

fn quoted_fields_of(line: &[char]) -> (r: Vec<String>)
    ensures
        texts(r@) == odd_parts(split_on(line@, '"')),
{
    let parts = split_chars(line, '"');
    let ghost all = split_on(line@, '"');
    let n: usize = parts.len();
    assert(all.len() == parts@.len());
    let mut r: Vec<String> = Vec::new();
    let mut i: usize = 0;
    while i < n / 2
        invariant
            i <= n / 2,
            n == parts@.len(),
            all == char_seqs(parts@),
            r@.len() == i,
            forall|k: int| 0 <= k < i ==> (#[trigger] r@[k])@ == all[2 * k + 1],
        decreases n / 2 - i,
    {
        assert(all[2 * i + 1] == parts@[2 * i + 1]@);
        r.push(string_of(parts[2 * i + 1].as_slice()));
        i = i + 1;
    }
    assert(texts(r@) =~= odd_parts(all));
    r
}

/// Whether a text holds ASCII digits only.
pub open spec fn all_digits(s: Seq<char>) -> bool {
    forall|i: int| 0 <= i < s.len() ==> '0' <= #[trigger] s[i] <= '9'
}

fn is_all_digits(s: &[char]) -> (r: bool)
    ensures
        r == all_digits(s@),
{
    let n: usize = s.len();
    let mut i: usize = 0;
    while i < n
        invariant
            i <= n == s@.len(),
            forall|k: int| 0 <= k < i ==> '0' <= #[trigger] s@[k] <= '9',
        decreases n - i,
    {
        let c: char = s[i];
        if !('0' <= c && c <= '9') {
            return false;
        }
        i = i + 1;
    }
    true
}

/// A path as it is meant, where the file writes each backslash twice.
pub open spec fn unescaped(s: Seq<char>) -> Seq<char> {
    replaced(s, "\\\\"@, "\\"@)
}

/// The library folder that a line of Steam's list names. Newer files have a
/// `path` key; older ones number the folders, which are told from other numbered
/// values by a colon, a slash or a doubled backslash.
pub open spec fn library_in_line(line: Seq<char>) -> Option<Seq<char>> {
    let fields = odd_parts(split_on(line, '"'));
    if fields.len() != 2 {
        None
    } else if fields[0] == "path"@ {
        Some(unescaped(fields[1]))
    } else if all_digits(fields[0]) && (fields[1].contains(':') || fields[1].contains('/')
        || contains_text(fields[1], "\\\\"@)) {
        Some(unescaped(fields[1]))
    } else {
        None
    }
}

/// The library folders that the first `n` lines name.
pub open spec fn libraries_in(lines: Seq<Seq<char>>, n: nat) -> Seq<Seq<char>>
    decreases n,
{
    if n == 0 {
        Seq::empty()
    } else {
        let before = libraries_in(lines, (n - 1) as nat);
        match library_in_line(lines[n - 1]) {
            Some(v) => before.push(v),
            None => before,
        }
    }
}

fn has_char(s: &[char], c: char) -> (r: bool)
    ensures
        r == s@.contains(c),
{
    proof {
        lemma_index_of_char(s@, c, 0);
    }
    let i: usize = crate::text::position_of_char(s, c, 0);
    proof {
        if i < s@.len() {
            assert(s@[i as int] == c);
        }
    }
    i < s.len()
}

fn line_library(line: &[char]) -> (r: Option<String>)
    ensures
        match r {
            Some(v) => library_in_line(line@) == Some(v@),
            None => library_in_line(line@) is None,
        },
{
    let fields = quoted_fields_of(line);
    let ghost all = odd_parts(split_on(line@, '"'));
    assert(all.len() == fields@.len());
    if fields.len() != 2 {
        return None;
    }
    assert(all[0] == fields@[0]@ && all[1] == fields@[1]@);
    let key = chars_of(fields[0].as_str());
    let value = chars_of(fields[1].as_str());
    let path = chars_of("path");
    let doubled = chars_of("\\\\");
    let single = chars_of("\\");
    proof {
        reveal_strlit("\\\\");
    }
    if same_chars(key.as_slice(), path.as_slice()) {
        let v = replace_chars(value.as_slice(), doubled.as_slice(), single.as_slice());
        return Some(string_of(v.as_slice()));
    }
    if is_all_digits(key.as_slice()) && (has_char(value.as_slice(), ':') || has_char(
        value.as_slice(),
        '/',
    ) || has_text(value.as_slice(), doubled.as_slice())) {
        let v = replace_chars(value.as_slice(), doubled.as_slice(), single.as_slice());
        return Some(string_of(v.as_slice()));
    }
    None
}

/// The library folders that Steam's list names.
pub fn parse_library_folders(vdf: &str) -> (r: Vec<String>)
    ensures
        texts(r@) == libraries_in(lines_of(vdf@), lines_of(vdf@).len()),
{
    let chars = chars_of(vdf);
    let lines = split_lines(chars.as_slice());
    let ghost all = lines_of(vdf@);
    let n: usize = lines.len();
    let mut r: Vec<String> = Vec::new();
    let mut i: usize = 0;
    assert(texts(r@) =~= libraries_in(all, 0));
    while i < n
        invariant
            i <= n == lines@.len(),
            all == char_seqs(lines@),
            texts(r@) == libraries_in(all, i as nat),
        decreases n - i,
    {
        assert(all[i as int] == lines@[i as int]@);
        let ghost before = r@;
        match line_library(lines[i].as_slice()) {
            Some(v) => {
                r.push(v);
                assert(texts(r@) =~= texts(before).push(v@));
            },
            None => {},
        }
        i = i + 1;
    }
    r
}

/// Some paths with one more, unless it is there already.
pub open spec fn with_unique(out: Seq<Seq<char>>, path: Seq<char>) -> Seq<Seq<char>> {
    if lists_path(out, path) {
        out
    } else {
        out.push(path)
    }
}

/// Some paths with more, each unless it is there already.
pub open spec fn with_all_unique(
    out: Seq<Seq<char>>,
    more: Seq<Seq<char>>,
    n: nat,
) -> Seq<Seq<char>>
    decreases n,
{
    if n == 0 {
        out
    } else {
        with_unique(with_all_unique(out, more, (n - 1) as nat), more[n - 1])
    }
}

/// Adds a path, unless it is there already.
pub fn push_unique(out: &mut Vec<String>, path: String)
    ensures
        texts(final(out)@) == with_unique(texts(old(out)@), path@),
{
    let ghost before = out@;
    if !contains_path(out, path.as_str()) {
        let ghost text = path@;
        out.push(path);
        assert(texts(out@) =~= texts(before).push(text));
    }
}

/// Whether no path occurs twice, in whatever way it is written.
pub open spec fn distinct_paths(v: Seq<Seq<char>>) -> bool {
    forall|i: int, j: int| 0 <= i < j < v.len() ==> !same_path(#[trigger] v[i], #[trigger] v[j])
}

/// A list of paths in which none occurs twice stays one.
pub proof fn law_unique_paths_stay_unique(out: Seq<Seq<char>>, path: Seq<char>)
    requires
        distinct_paths(out),
    ensures
        distinct_paths(with_unique(out, path)),
        lists_path(with_unique(out, path), path),
        forall|p: Seq<char>| lists_path(out, p) ==> lists_path(with_unique(out, path), p),
{
    let r = with_unique(out, path);
    if !lists_path(out, path) {
        assert(same_path(r[out.len() as int], path));
        assert forall|p: Seq<char>| lists_path(out, p) implies lists_path(r, p) by {
            let i = choose|i: int| 0 <= i < out.len() && same_path(#[trigger] out[i], p);
            assert(same_path(r[i], p));
        }
    }
}

/// A folder inside the publisher's folder: its path, its name, and whether it
/// holds the game in one of the layouts.
pub struct ChildDir {
    pub path: String,
    pub name: String,
    pub is_install: bool,
}

/// The paths of the children that are installs of the game.
pub open spec fn game_children(children: Seq<ChildDir>, n: nat) -> Seq<Seq<char>>
    decreases n,
{
    if n == 0 {
        Seq::empty()
    } else {
        let before = game_children(children, (n - 1) as nat);
        let child = children[n - 1];
        if starts_with(child.name@, "Path of Exile 2"@) && child.is_install {
            before.push(child.path@)
        } else {
            before
        }
    }
}

/// The publisher's folder in a program folder.
pub open spec fn publisher_dir_of(program_files: Seq<char>) -> Seq<char> {
    joined_path(program_files, "Grinding Gear Games"@)
}

/// The publisher's folder in a program folder.
pub fn publisher_dir(program_files: &str) -> (r: String)
    ensures
        r@ == publisher_dir_of(program_files@),
{
    join_path(program_files, "Grinding Gear Games")
}

/// The candidates of one program folder: the two folders that the installer
/// makes, then what else is found there.
pub open spec fn program_files_candidates(
    program_files: Seq<char>,
    children: Seq<ChildDir>,
) -> Seq<Seq<char>> {
    let dir = publisher_dir_of(program_files);
    seq![
        joined_path(dir, "Path of Exile 2"@),
        joined_path(dir, "Path of Exile 2 - poe2_production"@),
    ] + game_children(children, children.len())
}

/// Adds the candidates of one program folder. `children` are the folders inside
/// its `publisher_dir`; none if that cannot be listed.
pub fn push_standalone_candidates_from_program_files(
    out: &mut Vec<String>,
    program_files: &str,
    children: &Vec<ChildDir>,
)
    ensures
        texts(final(out)@) == with_all_unique(
            texts(old(out)@),
            program_files_candidates(program_files@, children@),
            program_files_candidates(program_files@, children@).len(),
        ),
{
    let ghost all = program_files_candidates(program_files@, children@);
    let ghost start = texts(out@);
    let dir = publisher_dir(program_files);
    let name = chars_of("Path of Exile 2");
    proof {
        reveal_with_fuel(with_all_unique, 3);
        lemma_game_children_at(children@, children@.len(), children@.len());
    }
    push_unique(out, join_path(dir.as_str(), "Path of Exile 2"));
    push_unique(out, join_path(dir.as_str(), "Path of Exile 2 - poe2_production"));
    let n: usize = children.len();
    let mut i: usize = 0;
    while i < n
        invariant
            i <= n == children@.len(),
            name@ == "Path of Exile 2"@,
            all == program_files_candidates(program_files@, children@),
            texts(out@) == with_all_unique(
                start,
                all,
                (2 + game_children(children@, i as nat).len()) as nat,
            ),
        decreases n - i,
    {
        let child = &children[i];
        let child_name = chars_of(child.name.as_str());
        if child.is_install && has_prefix(child_name.as_slice(), name.as_slice()) {
            proof {
                lemma_game_children_at(children@, (i + 1) as nat, children@.len());
                let m = game_children(children@, i as nat).len() as int;
                assert(game_children(children@, (i + 1) as nat)[m] == child.path@);
                assert(all[2 + m] == child.path@);
            }
            push_unique(out, child.path.clone());
        }
        i = i + 1;
    }
}

proof fn lemma_game_children_at(children: Seq<ChildDir>, i: nat, n: nat)
    requires
        i <= n,
    ensures
        game_children(children, i).len() <= game_children(children, n).len(),
        game_children(children, n).take(game_children(children, i).len() as int) == game_children(
            children,
            i,
        ),
        forall|k: int|
            0 <= k < game_children(children, i).len() ==> #[trigger] game_children(children, i)[k]
                == game_children(children, n)[k],
    decreases n,
{
    if i < n {
        lemma_game_children_at(children, i, (n - 1) as nat);
        assert(game_children(children, n).take(game_children(children, i).len() as int)
            =~= game_children(children, i));
    } else {
        assert(game_children(children, n).take(game_children(children, n).len() as int)
            =~= game_children(children, n));
    }
}

/// The two program folders below `root`.
pub fn program_dirs(root: &str) -> (r: Vec<String>)
    ensures
        texts(r@) == seq![
            joined_path(root@, "Program Files (x86)"@),
            joined_path(root@, "Program Files"@),
        ],
{
    let mut r: Vec<String> = Vec::new();
    r.push(join_path(root, "Program Files (x86)"));
    r.push(join_path(root, "Program Files"));
    assert(texts(r@) =~= seq![
        joined_path(root@, "Program Files (x86)"@),
        joined_path(root@, "Program Files"@),
    ]);
    r
}

/// The two program folders of a Wine prefix.
pub fn wine_program_dirs(prefix: &str) -> (r: Vec<String>)
    ensures
        texts(r@) == seq![
            joined_path(joined_path(prefix@, "drive_c"@), "Program Files (x86)"@),
            joined_path(joined_path(prefix@, "drive_c"@), "Program Files"@),
        ],
{
    let drive = join_path(prefix, "drive_c");
    program_dirs(drive.as_str())
}

/// A Steam folder and the text of its list of library folders, if there is one.
pub struct SteamRoot {
    pub path: String,
    pub library_folders: Option<String>,
}

/// The Steam folders and the library folders that they list, in order and each
/// once.
pub open spec fn steam_libraries(roots: Seq<SteamRoot>, n: nat) -> Seq<Seq<char>>
    decreases n,
{
    if n == 0 {
        Seq::empty()
    } else {
        let root = roots[n - 1];
        let with_root = with_unique(steam_libraries(roots, (n - 1) as nat), root.path@);
        match root.library_folders {
            Some(text) => {
                let found = libraries_in(lines_of(text@), lines_of(text@).len());
                with_all_unique(with_root, found, found.len())
            },
            None => with_root,
        }
    }
}

/// The Steam folders and the library folders that they list, in order and each
/// once.
pub fn expand_steam_libraries(roots: &Vec<SteamRoot>) -> (r: Vec<String>)
    ensures
        texts(r@) == steam_libraries(roots@, roots@.len()),
{
    let mut out: Vec<String> = Vec::new();
    let n: usize = roots.len();
    let mut i: usize = 0;
    assert(texts(out@) =~= steam_libraries(roots@, 0));
    while i < n
        invariant
            i <= n == roots@.len(),
            texts(out@) == steam_libraries(roots@, i as nat),
        decreases n - i,
    {
        let root = &roots[i];
        push_unique(&mut out, root.path.clone());
        match &root.library_folders {
            Some(text) => {
                let found = parse_library_folders(text.as_str());
                let ghost start = texts(out@);
                let m: usize = found.len();
                let mut j: usize = 0;
                while j < m
                    invariant
                        j <= m == found@.len(),
                        texts(out@) == with_all_unique(start, texts(found@), j as nat),
                    decreases m - j,
                {
                    push_unique(&mut out, found[j].clone());
                    j = j + 1;
                }
            },
            None => {},
        }
        i = i + 1;
    }
    out
}

/// Where Steam keeps its manifest of the game in a library folder.
pub open spec fn manifest_path_of(library: Seq<char>) -> Seq<char> {
    joined_path(joined_path(library, "steamapps"@), "appmanifest_2694490.acf"@)
}

/// Where Steam keeps its manifest of the game in a library folder.
pub fn manifest_path(library: &str) -> (r: String)
    ensures
        r@ == manifest_path_of(library@),
{
    let apps = join_path(library, "steamapps");
    join_path(apps.as_str(), "appmanifest_2694490.acf")
}

/// The game's folder in a library folder: the one that the manifest names, else
/// the usual one.
pub open spec fn steam_game_dir_of(library: Seq<char>, manifest: Seq<char>) -> Seq<char> {
    let dir = match first_install_dir(lines_of(manifest), 0) {
        Some(v) => v,
        None => "Path of Exile 2"@,
    };
    joined_path(joined_path(joined_path(library, "steamapps"@), "common"@), dir)
}

/// The game's folder in a library folder.
pub fn steam_game_dir(library: &str, manifest: &str) -> (r: String)
    ensures
        r@ == steam_game_dir_of(library@, manifest@),
{
    let dir = match parse_install_dir(manifest) {
        Some(v) => v,
        None => "Path of Exile 2".to_owned(),
    };
    let apps = join_path(library, "steamapps");
    let common = join_path(apps.as_str(), "common");
    join_path(common.as_str(), dir.as_str())
}

/// Whether a folder holds the archive and the index of the game.
#[derive(Debug, Clone, Copy, PartialEq, Eq, Structural)]
pub struct FolderFiles {
    pub content_exists: bool,
    pub index_exists: bool,
}

/// Whether a folder holds the game, in one of its layouts.
pub open spec fn holds_game(files: FolderFiles) -> bool {
    files.content_exists || files.index_exists
}

/// What was found of Steam's manifest of the game in a library folder.
pub enum ManifestProbe {
    /// There is none.
    Missing,
    /// It cannot be read.
    Unreadable,
    /// It was read; the rest tells of the folder that it leads to.
    Text { manifest: String, game_dir_exists: bool, files: FolderFiles },
}

/// A library folder and what was found there.
pub struct SteamProbe {
    pub library: String,
    pub found: ManifestProbe,
}

/// A folder, whether it exists, and what it holds.
pub struct DirProbe {
    pub path: String,
    pub exists: bool,
    pub files: FolderFiles,
}

/// The folder to take among the Steam libraries from `i` on, and what it holds:
/// `Some(Err(..))` is a manifest that cannot be read, `None` neither.
pub open spec fn steam_choice(probes: Seq<SteamProbe>, i: int) -> Option<
    Result<(Seq<char>, FolderFiles), Seq<char>>,
>
    decreases probes.len() - i,
{
    if i < 0 || i >= probes.len() {
        None
    } else {
        match probes[i].found {
            ManifestProbe::Missing => steam_choice(probes, i + 1),
            ManifestProbe::Unreadable => Some(Err(manifest_path_of(probes[i].library@))),
            ManifestProbe::Text { manifest, game_dir_exists, files } => if game_dir_exists {
                Some(Ok((steam_game_dir_of(probes[i].library@, manifest@), files)))
            } else {
                steam_choice(probes, i + 1)
            },
        }
    }
}

/// The first folder from `i` on that exists, and what it holds.
pub open spec fn first_existing(dirs: Seq<DirProbe>, i: int) -> Option<(Seq<char>, FolderFiles)>
    decreases dirs.len() - i,
{
    if i < 0 || i >= dirs.len() {
        None
    } else if dirs[i].exists {
        Some((dirs[i].path@, dirs[i].files))
    } else {
        first_existing(dirs, i + 1)
    }
}

/// The folder that a search for the game settles on, and what it holds: an
/// explicit one if there is one; else the first that a Steam library leads to;
/// else the first of the standalone candidates that exists. An error holds the
/// manifest that cannot be read, if that is why there is none.
pub open spec fn chosen_dir(
    explicit: Option<DirProbe>,
    steam: Seq<SteamProbe>,
    standalone: Seq<DirProbe>,
) -> Result<(Seq<char>, FolderFiles), Option<Seq<char>>> {
    match explicit {
        Some(probe) => Ok((probe.path@, probe.files)),
        None => match steam_choice(steam, 0) {
            Some(Ok(choice)) => Ok(choice),
            Some(Err(manifest)) => Err(Some(manifest)),
            None => match first_existing(standalone, 0) {
                Some(choice) => Ok(choice),
                None => Err(None),
            },
        },
    }
}

fn choose_dir(
    explicit: Option<DirProbe>,
    steam: &Vec<SteamProbe>,
    standalone: &Vec<DirProbe>,
) -> (r: Result<(String, FolderFiles), InstallError>)
    ensures
        match r {
            Ok((path, files)) => chosen_dir(explicit, steam@, standalone@) == Ok::<
                (Seq<char>, FolderFiles),
                Option<Seq<char>>,
            >((path@, files)),
            Err(InstallError::ManifestUnreadable { path }) => chosen_dir(
                explicit,
                steam@,
                standalone@,
            ) == Err::<(Seq<char>, FolderFiles), Option<Seq<char>>>(Some(path@)),
            Err(e) => e is NotFound && chosen_dir(explicit, steam@, standalone@) == Err::<
                (Seq<char>, FolderFiles),
                Option<Seq<char>>,
            >(None),
        },
{
    match explicit {
        Some(probe) => return Ok((probe.path, probe.files)),
        None => {},
    }
    let n: usize = steam.len();
    let mut i: usize = 0;
    while i < n
        invariant
            i <= n == steam@.len(),
            explicit is None,
            steam_choice(steam@, 0) == steam_choice(steam@, i as int),
        decreases n - i,
    {
        let probe = &steam[i];
        match &probe.found {
            ManifestProbe::Missing => {},
            ManifestProbe::Unreadable => {
                return Err(
                    InstallError::ManifestUnreadable { path: manifest_path(probe.library.as_str()) },
                );
            },
            ManifestProbe::Text { manifest, game_dir_exists, files } => {
                if *game_dir_exists {
                    let path = steam_game_dir(probe.library.as_str(), manifest.as_str());
                    return Ok((path, *files));
                }
            },
        }
        i = i + 1;
    }
    let m: usize = standalone.len();
    let mut j: usize = 0;
    while j < m
        invariant
            j <= m == standalone@.len(),
            explicit is None,
            steam_choice(steam@, 0) is None,
            first_existing(standalone@, 0) == first_existing(standalone@, j as int),
        decreases m - j,
    {
        let probe = &standalone[j];
        if probe.exists {
            return Ok((probe.path.clone(), probe.files));
        }
        j = j + 1;
    }
    Err(InstallError::NotFound)
}

/// The game's folder: the one that a search settles on, if it holds the game.
pub fn resolve_game_dir(
    explicit: Option<DirProbe>,
    steam: &Vec<SteamProbe>,
    standalone: &Vec<DirProbe>,
) -> (r: Result<String, InstallError>)
    ensures
        match (r, chosen_dir(explicit, steam@, standalone@)) {
            (Ok(path), Ok((dir, files))) => holds_game(files) && path@ == dir,
            (Err(InstallError::ManifestUnreadable { path }), Err(Some(manifest))) => path@
                == manifest,
            (Err(InstallError::NotFound), Err(None)) => true,
            (Err(e), Ok((dir, files))) => !holds_game(files) && is_unknown_layout(e, dir),
            _ => false,
        },
{
    match choose_dir(explicit, steam, standalone) {
        Ok((path, files)) => validate_game_dir(path, files.content_exists, files.index_exists),
        Err(e) => Err(e),
    }
}

/// A path as it is shown.
pub fn display_path(path: &str) -> (r: String)
    ensures
        r@ == path@,
{
    path.to_owned()
}

} // verus!
