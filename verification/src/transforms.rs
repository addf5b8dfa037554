//! What the patches make of the files.

use crate::blocks::{client_stripped, emptied, empty_named_blocks, str_views, strip_client_blocks};
use crate::bytes::copy_range;
use crate::edits::{array_emptied, calls_removed, remove_function_calls, replace_array_property};
use crate::index::{normalize_chars, normalized};
use crate::lines::{find_line, first_with, join_text, joined_by, split_by, split_text};
use crate::patches::{eq_ignore_ascii_case, same_name, PatchId};
use crate::targets::{
    ending, is_startup_scene_protected, patch_applies_path, patch_targets_path, startup_scene,
    targets, under,
};
use crate::text::{
    char_range, char_seqs, chars_of, contains_text, ends_with, has_prefix, has_suffix, has_text,
    push_chars, replace_chars, replaced, string_of,
};
use crate::utf16::{
    byte_units, bytes_to_units, decode_units, encode_units, law_utf16_round_trip,
    lemma_unit_bytes, unit_bytes, units_to_bytes, utf16_text, utf16_units,
};
use vstd::prelude::*;
use vstd::utf8::{decode_utf8, encode_utf8, valid_utf8};

verus! {

/// Why a file cannot be patched.
#[derive(Debug, Clone, Copy, PartialEq, Eq, Structural)]
pub enum TransformError {
    /// The file has an odd number of bytes.
    OddLength,
    /// The file is not UTF-16.
    InvalidUtf16,
}

/// A text without the byte order marks at its beginning.
pub open spec fn without_marks(t: Seq<char>) -> Seq<char>
    decreases t.len(),
{
    if t.len() > 0 && t[0] == '\u{feff}' {
        without_marks(t.subrange(1, t.len() as int))
    } else {
        t
    }
}

/// The text of a UTF-16 file, lowest byte first.
pub open spec fn utf16_file_text(bytes: Seq<u8>) -> Result<Seq<char>, TransformError> {
    if bytes.len() % 2 != 0 {
        Err(TransformError::OddLength)
    } else {
        match utf16_text(byte_units(bytes)) {
            Some(t) => Ok(without_marks(t)),
            None => Err(TransformError::InvalidUtf16),
        }
    }
}

/// A text as a UTF-16 file with a byte order mark.
pub open spec fn utf16_file(t: Seq<char>) -> Seq<u8> {
    seq![0xffu8, 0xfe] + unit_bytes(utf16_units(t))
}

fn drop_marks(t: Vec<char>) -> (r: Vec<char>)
    ensures
        r@ == without_marks(t@),
{
    let n: usize = t.len();
    let mut i: usize = 0;
    assert(t@.subrange(0, n as int) =~= t@);
    while i < n && t[i] == '\u{feff}'
        invariant
            i <= n == t@.len(),
            without_marks(t@) == without_marks(t@.subrange(i as int, n as int)),
        decreases n - i,
    {
        let ghost rest = t@.subrange(i as int, n as int);
        assert(rest.subrange(1, rest.len() as int) =~= t@.subrange(i + 1, n as int));
        i = i + 1;
    }
    char_range(t.as_slice(), i, n)
}

/// The text of a UTF-16 file, lowest byte first.
pub fn decode_utf16(bytes: &[u8]) -> (r: Result<Vec<char>, TransformError>)
    ensures
        match r {
            Ok(t) => utf16_file_text(bytes@) == Ok::<Seq<char>, TransformError>(t@),
            Err(e) => utf16_file_text(bytes@) == Err::<Seq<char>, TransformError>(e),
        },
{
    if bytes.len() % 2 != 0 {
        return Err(TransformError::OddLength);
    }
    let units = bytes_to_units(bytes);
    match decode_units(units.as_slice()) {
        Some(t) => Ok(drop_marks(t)),
        None => Err(TransformError::InvalidUtf16),
    }
}

/// The text of a UTF-16 file, if it is one.
pub fn decode_utf16_lossless(bytes: &[u8]) -> (r: Option<Vec<char>>)
    ensures
        match r {
            Some(t) => utf16_file_text(bytes@) == Ok::<Seq<char>, TransformError>(t@),
            None => utf16_file_text(bytes@) is Err,
        },
{
    match decode_utf16(bytes) {
        Ok(t) => Some(t),
        Err(_) => None,
    }
}

/// A text as a UTF-16 file with a byte order mark.
pub fn encode_utf16_bom(t: &[char]) -> (r: Vec<u8>)
    ensures
        r@ == utf16_file(t@),
{
    let mut out: Vec<u8> = Vec::new();
    out.push(0xff);
    out.push(0xfe);
    let units = encode_units(t);
    let bytes = units_to_bytes(units.as_slice());
    crate::bytes::push_all(&mut out, bytes.as_slice());
    assert(out@ =~= utf16_file(t@));
    out
}

fn same_file(bytes: &[u8]) -> (r: Vec<u8>)
    ensures
        r@ == bytes@,
{
    let r = copy_range(bytes, 0, bytes.len());
    assert(r@ =~= bytes@);
    r
}

fn encode_str(t: &str) -> (r: Vec<u8>)
    ensures
        r@ == utf16_file(t@),
{
    let chars = chars_of(t);
    encode_utf16_bom(chars.as_slice())
}

/// Texts with pairs of what to look for and what to put in its place.
pub open spec fn pair_views(pairs: Seq<(&str, &str)>) -> Seq<(Seq<char>, Seq<char>)> {
    pairs.map_values(|p: (&str, &str)| (p.0@, p.1@))
}

/// The text after the first `n` replacements, one after the other.
pub open spec fn pairs_replaced(
    t: Seq<char>,
    pairs: Seq<(Seq<char>, Seq<char>)>,
    n: nat,
) -> Seq<char>
    decreases n,
{
    if n == 0 {
        t
    } else {
        replaced(pairs_replaced(t, pairs, (n - 1) as nat), pairs[n - 1].0, pairs[n - 1].1)
    }
}

fn replace_pairs(t: Vec<char>, pairs: &[(&str, &str)]) -> (r: Vec<char>)
    ensures
        r@ == pairs_replaced(t@, pair_views(pairs@), pairs@.len()),
{
    let ghost views = pair_views(pairs@);
    let n: usize = pairs.len();
    let mut text = t;
    let ghost start = text@;
    let mut i: usize = 0;
    while i < n
        invariant
            i <= n == pairs@.len(),
            views == pair_views(pairs@),
            text@ == pairs_replaced(start, views, i as nat),
        decreases n - i,
    {
        assert(views[i as int] == (pairs@[i as int].0@, pairs@[i as int].1@));
        let from = chars_of(pairs[i].0);
        let to = chars_of(pairs[i].1);
        text = replace_chars(text.as_slice(), from.as_slice(), to.as_slice());
        i = i + 1;
    }
    text
}

/// What a change of its text makes of a UTF-16 file.
pub open spec fn rewritten(bytes: Seq<u8>, change: spec_fn(Seq<char>) -> Seq<char>) -> Result<
    Seq<u8>,
    TransformError,
> {
    match utf16_file_text(bytes) {
        Ok(t) => Ok(utf16_file(change(t))),
        Err(e) => Err(e),
    }
}

/// Replaces texts in a UTF-16 file, one pair after the other.
pub fn replace_utf16(bytes: &[u8], pairs: &[(&str, &str)]) -> (r: Result<Vec<u8>, TransformError>)
    ensures
        bytes_result(r) == rewritten(
            bytes@,
            |t: Seq<char>| pairs_replaced(t, pair_views(pairs@), pairs@.len()),
        ),
{
    match decode_utf16(bytes) {
        Ok(t) => {
            let t = replace_pairs(t, pairs);
            Ok(encode_utf16_bom(t.as_slice()))
        },
        Err(e) => Err(e),
    }
}

/// What a result says.
pub open spec fn bytes_result(r: Result<Vec<u8>, TransformError>) -> Result<
    Seq<u8>,
    TransformError,
> {
    match r {
        Ok(b) => Ok(b@),
        Err(e) => Err(e),
    }
}

/// The pattern for the value of `rain_intensity` with what stands before it and
/// a comma behind it.
pub open spec fn rain_pattern() -> Seq<char> {
    "(\"rain_intensity\":\\s*)([^,\\r\\n}]+)(,?)"@
}

/// The pattern for the value of `clouds_intensity` with what stands before it and
/// a comma behind it.
pub open spec fn clouds_pattern() -> Seq<char> {
    "(\"clouds_intensity\":\\s*)([^,\\r\\n}]+)(,?)"@
}

/// What puts zero in place of the value.
pub open spec fn zero_value() -> Seq<char> {
    "${1}0.0${3}"@
}

/// What `Regex::replace_all` makes of a text: each match of the pattern replaced,
/// with the numbered groups of the match put into the replacement.
pub uninterp spec fn regex_replaced(
    pattern: Seq<char>,
    text: Seq<char>,
    replacement: Seq<char>,
) -> Seq<char>;

/// `regex::Regex::new` and `Regex::replace_all`. The two patterns are patterns of
/// the crate and far below its size limit, so that compiling them does not fail.
/// What matches a pattern is left to the crate.
#[verifier::external_body]
fn regex_replace_all(pattern: &str, text: &str, replacement: &str) -> (r: String)
    requires
        pattern@ == rain_pattern() || pattern@ == clouds_pattern(),
    ensures
        r@ == regex_replaced(pattern@, text@, replacement@),
{
    regex::Regex::new(pattern).unwrap().replace_all(text, replacement).into_owned()
}

/// A text with the rain intensity set to zero.
pub open spec fn rain_stopped(t: Seq<char>) -> Seq<char> {
    regex_replaced(rain_pattern(), t, zero_value())
}

/// A text with the cloud intensity set to zero.
pub open spec fn clouds_gone(t: Seq<char>) -> Seq<char> {
    regex_replaced(clouds_pattern(), t, zero_value())
}

fn stop_rain(t: &[char]) -> (r: Vec<char>)
    ensures
        r@ == rain_stopped(t@),
{
    let text = string_of(t);
    let out = regex_replace_all(
        "(\"rain_intensity\":\\s*)([^,\\r\\n}]+)(,?)",
        text.as_str(),
        "${1}0.0${3}",
    );
    chars_of(out.as_str())
}

fn clear_clouds(t: &[char]) -> (r: Vec<char>)
    ensures
        r@ == clouds_gone(t@),
{
    let text = string_of(t);
    let out = regex_replace_all(
        "(\"clouds_intensity\":\\s*)([^,\\r\\n}]+)(,?)",
        text.as_str(),
        "${1}0.0${3}",
    );
    chars_of(out.as_str())
}

/// The functions that move the camera.
pub open spec fn camera_functions() -> Seq<Seq<char>> {
    seq![
        "CreateCameraZoomNode"@,
        "ClearCameraZoomNodes"@,
        "CreateCameraLookAtNode"@,
        "CreateCameraPanNode"@,
        "ClearCameraPanNode"@,
        "ClearCameraPanNodes"@,
        "SetCustomCameraSpeed"@,
        "RemoveCustomCameraSpeed"@,
        "FaceCamera"@,
    ]
}

/// The text without the calls of the first `n` functions.
pub open spec fn without_calls(t: Seq<char>, functions: Seq<Seq<char>>, n: nat) -> Seq<char>
    decreases n,
{
    if n == 0 {
        t
    } else {
        calls_removed(without_calls(t, functions, (n - 1) as nat), functions[n - 1], 0)
    }
}

/// The line that sets the zoom.
pub open spec fn zoom_line(zoom: Seq<char>) -> Seq<char> {
    "\ton_initial_position_set = {CreateCameraZoomNode(5000.0, 5000.0, "@ + zoom + ");} "@
}

/// The character's script with the zoom set: in place of the first line that
/// sets it, or else behind the line of the team.
pub open spec fn zoomed(t: Seq<char>, zoom: Seq<char>) -> Seq<char> {
    let lines = split_by(t, seq!['\r', '\n']);
    let changed = match first_with(lines, "CreateCameraZoomNode"@, 0) {
        Some(i) => lines.update(i, zoom_line(zoom)),
        None => match first_with(lines, "team = 1"@, 0) {
            Some(i) => lines.insert(i + 1, zoom_line(zoom)),
            None => lines,
        },
    };
    joined_by(changed, seq!['\r', '\n'], changed.len())
}

/// Whether one of the first `n` texts stands in `t`.
pub open spec fn has_one_of(t: Seq<char>, parts: Seq<Seq<char>>) -> bool {
    exists|i: int| 0 <= i < parts.len() && contains_text(t, #[trigger] parts[i])
}

/// What the camera patch makes of a script.
pub open spec fn camera_patched(path: Seq<char>, bytes: Seq<u8>, zoom: Seq<char>) -> Result<
    Seq<u8>,
    TransformError,
> {
    match utf16_file_text(bytes) {
        Err(e) => Err(e),
        Ok(t) => if same_name(path, "metadata/characters/character.ot"@) {
            Ok(utf16_file(zoomed(t, zoom)))
        } else if !has_one_of(t, camera_functions()) {
            Ok(bytes)
        } else {
            Ok(utf16_file(without_calls(t, camera_functions(), camera_functions().len())))
        },
    }
}

fn set_zoom(t: &[char], zoom: &str) -> (r: Vec<char>)
    ensures
        r@ == zoomed(t@, zoom@),
{
    let mut sep: Vec<char> = Vec::new();
    sep.push('\r');
    sep.push('\n');
    assert(sep@ =~= seq!['\r', '\n']);
    let mut line = chars_of("\ton_initial_position_set = {CreateCameraZoomNode(5000.0, 5000.0, ");
    let value = chars_of(zoom);
    let end = chars_of(");} ");
    push_chars(&mut line, value.as_slice());
    push_chars(&mut line, end.as_slice());
    assert(line@ == zoom_line(zoom@));
    let mut lines = split_text(t, sep.as_slice());
    let ghost before = char_seqs(lines@);
    let node = chars_of("CreateCameraZoomNode");
    let team = chars_of("team = 1");
    match find_line(&lines, node.as_slice()) {
        Some(i) => {
            lines.set(i, line);
            assert(char_seqs(lines@) =~= before.update(i as int, zoom_line(zoom@)));
        },
        None => match find_line(&lines, team.as_slice()) {
            Some(i) => {
                let total: usize = lines.len();
                assert(i < total);
                lines.insert(i + 1, line);
                assert(char_seqs(lines@) =~= before.insert(i + 1, zoom_line(zoom@)));
            },
            None => {},
        },
    }
    join_text(&lines, sep.as_slice())
}

fn has_any(t: &[char], parts: &[&str]) -> (r: bool)
    ensures
        r == has_one_of(t@, str_views(parts@)),
{
    let n: usize = parts.len();
    let mut i: usize = 0;
    while i < n
        invariant
            i <= n == parts@.len(),
            forall|k: int| 0 <= k < i ==> !contains_text(t@, #[trigger] str_views(parts@)[k]),
        decreases n - i,
    {
        assert(str_views(parts@)[i as int] == parts@[i as int]@);
        let part = chars_of(parts[i]);
        if has_text(t, part.as_slice()) {
            return true;
        }
        i = i + 1;
    }
    false
}

fn remove_calls(t: Vec<char>, functions: &[&str]) -> (r: Vec<char>)
    ensures
        r@ == without_calls(t@, str_views(functions@), functions@.len()),
{
    let n: usize = functions.len();
    let ghost start = t@;
    let mut text = t;
    let mut i: usize = 0;
    while i < n
        invariant
            i <= n == functions@.len(),
            text@ == without_calls(start, str_views(functions@), i as nat),
        decreases n - i,
    {
        assert(str_views(functions@)[i as int] == functions@[i as int]@);
        let func = chars_of(functions[i]);
        text = remove_function_calls(text.as_slice(), func.as_slice());
        i = i + 1;
    }
    text
}

/// The camera patch: sets the zoom in the character's script, and takes the
/// calls that move the camera out of the others. `zoom` is the zoom as it is to
/// be written.
pub fn camera(path: &str, bytes: &[u8], zoom: &str) -> (r: Result<Vec<u8>, TransformError>)
    ensures
        bytes_result(r) == camera_patched(path@, bytes@, zoom@),
{
    let t = match decode_utf16(bytes) {
        Ok(t) => t,
        Err(e) => return Err(e),
    };
    if eq_ignore_ascii_case(path, "metadata/characters/character.ot") {
        let t = set_zoom(t.as_slice(), zoom);
        return Ok(encode_utf16_bom(t.as_slice()));
    }
    let functions: Vec<&str> = vec![
        "CreateCameraZoomNode",
        "ClearCameraZoomNodes",
        "CreateCameraLookAtNode",
        "CreateCameraPanNode",
        "ClearCameraPanNode",
        "ClearCameraPanNodes",
        "SetCustomCameraSpeed",
        "RemoveCustomCameraSpeed",
        "FaceCamera",
    ];
    assert(str_views(functions@) =~= camera_functions());
    if !has_any(t.as_slice(), functions.as_slice()) {
        return Ok(same_file(bytes));
    }
    let t = remove_calls(t, functions.as_slice());
    Ok(encode_utf16_bom(t.as_slice()))
}

/// What `String::from_utf8_lossy` makes of bytes that are not UTF-8.
pub uninterp spec fn utf8_lossy(bytes: Seq<u8>) -> Seq<char>;

/// `String::from_utf8_lossy`: the text of UTF-8 bytes. Where the bytes are not
/// UTF-8, what is put in place of the bad ones is left to the standard library.
#[verifier::external_body]
fn from_utf8_lossy(bytes: &[u8]) -> (r: String)
    ensures
        r@ == utf8_lossy(bytes@),
        valid_utf8(bytes@) ==> r@ == decode_utf8(bytes@),
{
    String::from_utf8_lossy(bytes).into_owned()
}

/// What replaces the colors of walkable ground.
pub open spec fn blending_pairs() -> Seq<(Seq<char>, Seq<char>)> {
    seq![
        (
            "float4 walkable_color = float4(1.0f, 1.0f, 1.0f, 0.01f);"@,
            "float4 walkable_color = float4(0.0f, 0.0f, 0.0f, 0.3f);"@,
        ),
        (
            "float4 walkability_map_color = lerp(walkable_color, float4(0.5f, 0.5f, 1.0f, 0.5f), walkable_to_edge_ratio);"@,
            "float4 walkability_map_color = lerp(walkable_color, float4(12.0f, 12.0f, 12.0f, 0.1f), walkable_to_edge_ratio);"@,
        ),
    ]
}

/// The shader with a floor under the visibility, unless it has one.
pub open spec fn visibility_raised(t: Seq<char>) -> Seq<char> {
    if contains_text(t, "res_color = max(res_color, 0.18f);"@) {
        t
    } else {
        let lines = split_by(t, seq!['\r', '\n']);
        match first_with(lines, "res_color = float4(1.0f, 0.0f, 0.0f, 1.0f);"@, 0) {
            None => t,
            Some(i) => {
                let changed = lines.insert(i + 1, "\tres_color = max(res_color, 0.18f);"@);
                joined_by(changed, seq!['\r', '\n'], changed.len())
            },
        }
    }
}

/// What the minimap patch makes of the text of a shader.
pub open spec fn minimap_text(path: Seq<char>, t: Seq<char>) -> Seq<char> {
    if ends_with(path, "minimap_visibility_pixel.hlsl"@) {
        visibility_raised(t)
    } else if ends_with(path, "minimap_blending_pixel.hlsl"@) {
        pairs_replaced(t, blending_pairs(), blending_pairs().len())
    } else {
        t
    }
}

fn raise_visibility(t: Vec<char>) -> (r: Vec<char>)
    ensures
        r@ == visibility_raised(t@),
{
    let floor = chars_of("res_color = max(res_color, 0.18f);");
    if has_text(t.as_slice(), floor.as_slice()) {
        return t;
    }
    let mut sep: Vec<char> = Vec::new();
    sep.push('\r');
    sep.push('\n');
    assert(sep@ =~= seq!['\r', '\n']);
    let mut lines = split_text(t.as_slice(), sep.as_slice());
    let ghost before = char_seqs(lines@);
    let red = chars_of("res_color = float4(1.0f, 0.0f, 0.0f, 1.0f);");
    match find_line(&lines, red.as_slice()) {
        None => t,
        Some(i) => {
            let line = chars_of("\tres_color = max(res_color, 0.18f);");
            let ghost view = line@;
            let total: usize = lines.len();
            assert(i < total);
            lines.insert(i + 1, line);
            assert(char_seqs(lines@) =~= before.insert(i + 1, view));
            join_text(&lines, sep.as_slice())
        },
    }
}

/// What the minimap patch makes of the text of a shader.
pub fn patch_minimap_text(path: &str, t: Vec<char>) -> (r: Vec<char>)
    ensures
        r@ == minimap_text(path@, t@),
{
    let p = chars_of(path);
    let visibility = chars_of("minimap_visibility_pixel.hlsl");
    let blending = chars_of("minimap_blending_pixel.hlsl");
    if has_suffix(p.as_slice(), visibility.as_slice()) {
        raise_visibility(t)
    } else if has_suffix(p.as_slice(), blending.as_slice()) {
        let pairs: Vec<(&str, &str)> = vec![
            (
                "float4 walkable_color = float4(1.0f, 1.0f, 1.0f, 0.01f);",
                "float4 walkable_color = float4(0.0f, 0.0f, 0.0f, 0.3f);",
            ),
            (
                "float4 walkability_map_color = lerp(walkable_color, float4(0.5f, 0.5f, 1.0f, 0.5f), walkable_to_edge_ratio);",
                "float4 walkability_map_color = lerp(walkable_color, float4(12.0f, 12.0f, 12.0f, 0.1f), walkable_to_edge_ratio);",
            ),
        ];
        assert(pair_views(pairs@) =~= blending_pairs());
        replace_pairs(t, pairs.as_slice())
    } else {
        t
    }
}

/// The minimap patch: reveals more of the minimap.
pub fn minimap(path: &str, bytes: &[u8]) -> (r: Vec<u8>)
    ensures
        r@ == encode_utf8(minimap_text(path@, utf8_lossy(bytes@))),
        valid_utf8(bytes@) ==> r@ == encode_utf8(minimap_text(path@, decode_utf8(bytes@))),
{
    let text = from_utf8_lossy(bytes);
    let t = chars_of(text.as_str());
    let t = patch_minimap_text(path, t);
    let text = string_of(t.as_slice());
    vstd::slice::slice_to_vec(text.as_str().as_bytes())
}

/// What the Atlas patch makes of a graph.
pub open spec fn atlas_patched(bytes: Seq<u8>) -> Result<Seq<u8>, TransformError> {
    match utf16_file_text(bytes) {
        Err(e) => Err(e),
        Ok(t) => Ok(utf16_file(array_emptied(array_emptied(t, "nodes"@), "links"@))),
    }
}

/// The Atlas patch: takes nodes and links out of a graph.
pub fn atlas_fog(bytes: &[u8]) -> (r: Result<Vec<u8>, TransformError>)
    ensures
        bytes_result(r) == atlas_patched(bytes@),
{
    let t = match decode_utf16(bytes) {
        Ok(t) => t,
        Err(e) => return Err(e),
    };
    let nodes = chars_of("nodes");
    let links = chars_of("links");
    let t = replace_array_property(t.as_slice(), nodes.as_slice());
    let t = replace_array_property(t.as_slice(), links.as_slice());
    Ok(encode_utf16_bom(t.as_slice()))
}

pub open spec fn fog_pairs() -> Seq<(Seq<char>, Seq<char>)> {
    seq![
        ("\"fog\""@, "\"xog\""@),
    ]
}

pub open spec fn shadow_pairs() -> Seq<(Seq<char>, Seq<char>)> {
    seq![
        ("\"shadows_enabled\": true"@, "\"shadows_enabled\": false"@),
    ]
}

pub open spec fn light_pairs() -> Seq<(Seq<char>, Seq<char>)> {
    seq![
        ("\"directional_light\""@, "\"xirectional_light\""@),
        ("\"player_light\""@, "\"xlayer_light\""@),
        ("\"environment_mapping\""@, "\"xnvironment_mapping\""@),
        ("\"global_illumination\""@, "\"xlobal_illumination\""@),
    ]
}

pub open spec fn environment_pairs() -> Seq<(Seq<char>, Seq<char>)> {
    seq![
        ("\"area\""@, "\"xrea\""@),
        ("\"fog\""@, "\"xog\""@),
        ("\"screenspace_fog\""@, "\"xcreenspace_fog\""@),
        ("\"effect_spawner\""@, "\"xffect_spawner\""@),
        ("\"post_processing\""@, "\"xost_processing\""@),
    ]
}

/// The environment's settings without particles and what belongs to them.
pub open spec fn environment_text(t: Seq<char>) -> Seq<char> {
    clouds_gone(rain_stopped(pairs_replaced(t, environment_pairs(), environment_pairs().len())))
}

/// Replaces the names of environment settings, so that the game does not find
/// them.
pub fn rename_environment_settings(t: Vec<char>) -> (r: Vec<char>)
    ensures
        r@ == pairs_replaced(t@, environment_pairs(), environment_pairs().len()),
{
    let pairs: Vec<(&str, &str)> = vec![
        ("\"area\"", "\"xrea\""),
        ("\"fog\"", "\"xog\""),
        ("\"screenspace_fog\"", "\"xcreenspace_fog\""),
        ("\"effect_spawner\"", "\"xffect_spawner\""),
        ("\"post_processing\"", "\"xost_processing\""),
    ];
    assert(pair_views(pairs@) =~= environment_pairs());
    replace_pairs(t, pairs.as_slice())
}

/// The patch of environment particles.
pub fn env_particles(bytes: &[u8]) -> (r: Result<Vec<u8>, TransformError>)
    ensures
        bytes_result(r) == rewritten(bytes@, |t: Seq<char>| environment_text(t)),
{
    let t = match decode_utf16(bytes) {
        Ok(t) => t,
        Err(e) => return Err(e),
    };
    let t = rename_environment_settings(t);
    let t = stop_rain(t.as_slice());
    let t = clear_clouds(t.as_slice());
    Ok(encode_utf16_bom(t.as_slice()))
}

/// The rain patch: sets the rain intensity to zero.
pub fn rain(bytes: &[u8]) -> (r: Result<Vec<u8>, TransformError>)
    ensures
        bytes_result(r) == rewritten(bytes@, |t: Seq<char>| rain_stopped(t)),
{
    match decode_utf16(bytes) {
        Ok(t) => {
            let t = stop_rain(t.as_slice());
            Ok(encode_utf16_bom(t.as_slice()))
        },
        Err(e) => Err(e),
    }
}

/// The cloud patch: sets the cloud intensity to zero.
pub fn clouds(bytes: &[u8]) -> (r: Result<Vec<u8>, TransformError>)
    ensures
        bytes_result(r) == rewritten(bytes@, |t: Seq<char>| clouds_gone(t)),
{
    match decode_utf16(bytes) {
        Ok(t) => {
            let t = clear_clouds(t.as_slice());
            Ok(encode_utf16_bom(t.as_slice()))
        },
        Err(e) => Err(e),
    }
}

/// What the delirium patch makes of an effect: the least that an object of its
/// kind can hold.
pub open spec fn delirium_text(t: Seq<char>) -> Seq<char> {
    if contains_text(t, "Metadata/FmtParent"@) {
        if !contains_text(t, "AnimatedRender"@) {
            "version 3\nextends \"Metadata/FmtParent\""@
        } else {
            "version 3\nextends \"Metadata/FmtParent\"\n\nclient\n{\n\tAnimatedRender\n\t{\n\t\tcannot_be_disabled = true\n\t}\n}"@
        }
    } else if contains_text(t, "Metadata/Parent"@) {
        "version 3\nextends \"Metadata/Parent\"\n\nBaseAnimationEvents\n{\n}\n\nAnimationController\n{\n\tmetadata = \"Art/Models/Effects/enviro_effects/weather_attachments/generic_rig/weather_rig.amd\"\n}\n\nclient\n{\n    ClientAnimationController\n    {\n        skeleton = \"Art/Models/Effects/enviro_effects/weather_attachments/generic_rig/weather_rig.ast\"\n    }\n\n    BoneGroups\n    {\n        bone_group = \"box false aux_box1 aux_box2 aux_box3 \"\n    }\n}"@
    } else {
        t
    }
}

/// The delirium patch.
pub fn delirium(bytes: &[u8]) -> (r: Result<Vec<u8>, TransformError>)
    ensures
        bytes_result(r) == rewritten(bytes@, |t: Seq<char>| delirium_text(t)),
{
    let t = match decode_utf16(bytes) {
        Ok(t) => t,
        Err(e) => return Err(e),
    };
    let fmt_parent = chars_of("Metadata/FmtParent");
    let parent = chars_of("Metadata/Parent");
    let render = chars_of("AnimatedRender");
    if has_text(t.as_slice(), fmt_parent.as_slice()) {
        if !has_text(t.as_slice(), render.as_slice()) {
            Ok(
                encode_str(
                    "version 3\nextends \"Metadata/FmtParent\"",
                ),
            )
        } else {
            Ok(
                encode_str(
                    "version 3\nextends \"Metadata/FmtParent\"\n\nclient\n{\n\tAnimatedRender\n\t{\n\t\tcannot_be_disabled = true\n\t}\n}",
                ),
            )
        }
    } else if has_text(t.as_slice(), parent.as_slice()) {
        Ok(
            encode_str(
                "version 3\nextends \"Metadata/Parent\"\n\nBaseAnimationEvents\n{\n}\n\nAnimationController\n{\n\tmetadata = \"Art/Models/Effects/enviro_effects/weather_attachments/generic_rig/weather_rig.amd\"\n}\n\nclient\n{\n    ClientAnimationController\n    {\n        skeleton = \"Art/Models/Effects/enviro_effects/weather_attachments/generic_rig/weather_rig.ast\"\n    }\n\n    BoneGroups\n    {\n        bone_group = \"box false aux_box1 aux_box2 aux_box3 \"\n    }\n}",
            ),
        )
    } else {
        Ok(encode_utf16_bom(t.as_slice()))
    }
}

/// Whether a path begins with one of the prefixes.
pub open spec fn under_one_of(path: Seq<char>, prefixes: Seq<Seq<char>>) -> bool {
    exists|i: int| 0 <= i < prefixes.len() && under(path, #[trigger] prefixes[i])
}

fn is_under_one_of(path: &str, prefixes: &[&str]) -> (r: bool)
    ensures
        r == under_one_of(path@, str_views(prefixes@)),
{
    let p = normalize_chars(path);
    let n: usize = prefixes.len();
    let mut i: usize = 0;
    while i < n
        invariant
            i <= n == prefixes@.len(),
            p@ == normalized(path@),
            forall|k: int| 0 <= k < i ==> !under(path@, #[trigger] str_views(prefixes@)[k]),
        decreases n - i,
    {
        assert(str_views(prefixes@)[i as int] == prefixes@[i as int]@);
        let prefix = chars_of(prefixes[i]);
        if has_prefix(p.as_slice(), prefix.as_slice()) {
            return true;
        }
        i = i + 1;
    }
    false
}

/// The particles that must stay.
pub open spec fn protected_particles() -> Seq<Seq<char>> {
    seq![
        "metadata/particles/monster_effects/league_legion/rewardsystem"@,
        "metadata/particles/monster_effects/league_legion/endgame"@,
        "metadata/particles/monster_effects/league_delve/general"@,
        "metadata/particles/monster_effects/atlasexiles/adjudicator"@,
        "metadata/particles/monster_effects/atlasexiles/adjudicatormonsters"@,
        "metadata/particles/enviro_effects/act3/blood_temple"@,
        "metadata/particles/ground_effects_v2/smoke_blind_chimera"@,
        "metadata/particles/monster_effects/atlasofworldsbosses/chimera"@,
        "metadata/particles/monster_effects/atlasexiles/orion"@,
    ]
}

/// The effects that must stay.
pub open spec fn protected_effects() -> Seq<Seq<char>> {
    seq![
        "metadata/effects/spells/monsters_effects/league_expedition/dynamic_marker"@,
        "metadata/effects/spells/monsters_effects/atlasofworldsbosses"@,
        "metadata/effects/spells/monsters_effects/league_azmeri/guiding_light"@,
        "metadata/effects/spells/monsters_effects/league_azmeri/monster_fx"@,
        "metadata/effects/spells/monsters_effects/league_azmeri/resources/affecting_area"@,
        "metadata/effects/spells/monsters_effects/league_azmeri/resources/feature_room_dust"@,
        "metadata/effects/spells/monsters_effects/league_azmeri/resources/guiding_light"@,
        "metadata/effects/spells/monsters_effects/league_azmeri/resources/wisp_doodads"@,
        "metadata/effects/spells/monsters_effects/league_legion/rewardsystem"@,
        "metadata/effects/spells/monsters_effects/league_blight/rewardsystem"@,
        "metadata/effects/spells/monsters_effects/league_archnemesis"@,
        "metadata/effects/spells/monsters_effects/league_ritual/cold_ritual"@,
        "metadata/effects/spells/monsters_effects/league_ultimatum/mechanics/fx/arena_limit.pet"@,
        "metadata/effects/spells/monsters_effects/league_sanctum"@,
        "metadata/effects/spells/monsters_effects/league_hellscape/mechanics"@,
        "metadata/effects/spells/monsters_effects/atlasofworldsbosses/maven"@,
        "metadata/effects/spells/monsters_effects/atlasexiles/adjudicator"@,
        "metadata/effects/spells/ground_effects/chimera_smoke"@,
        "metadata/effects/spells/ground_effects/evil"@,
        "metadata/effects/spells/ground_effects_v2/smoke_blind_chimera"@,
        "metadata/effects/spells/monsters_effects/atlasofworldsbosses/chimera"@,
        "metadata/effects/spells/monsters_effects/atlasexiles/orion"@,
        "metadata/effects/spells/monsters_effects/prophecy_league"@,
        "metadata/effects/spells/ground_effects/caustic"@,
        "metadata/effects/spells/ground_effects_v2/caustic_arrow_ground"@,
        "metadata/effects/spells/ground_effects_v2/desecrated"@,
        "metadata/effects/spells/ground_effects_v2/desecrated_maligaro"@,
        "metadata/effects/spells/ground_effects_v2/desecrated_red"@,
        "metadata/effects/spells/ground_effects_v3/caustic"@,
    ]
}

fn is_protected_effect(path: &str) -> (r: bool)
    ensures
        r == under_one_of(path@, protected_effects()),
{
    let prefixes: Vec<&str> = vec![
        "metadata/effects/spells/monsters_effects/league_expedition/dynamic_marker",
        "metadata/effects/spells/monsters_effects/atlasofworldsbosses",
        "metadata/effects/spells/monsters_effects/league_azmeri/guiding_light",
        "metadata/effects/spells/monsters_effects/league_azmeri/monster_fx",
        "metadata/effects/spells/monsters_effects/league_azmeri/resources/affecting_area",
        "metadata/effects/spells/monsters_effects/league_azmeri/resources/feature_room_dust",
        "metadata/effects/spells/monsters_effects/league_azmeri/resources/guiding_light",
        "metadata/effects/spells/monsters_effects/league_azmeri/resources/wisp_doodads",
        "metadata/effects/spells/monsters_effects/league_legion/rewardsystem",
        "metadata/effects/spells/monsters_effects/league_blight/rewardsystem",
        "metadata/effects/spells/monsters_effects/league_archnemesis",
        "metadata/effects/spells/monsters_effects/league_ritual/cold_ritual",
        "metadata/effects/spells/monsters_effects/league_ultimatum/mechanics/fx/arena_limit.pet",
        "metadata/effects/spells/monsters_effects/league_sanctum",
        "metadata/effects/spells/monsters_effects/league_hellscape/mechanics",
        "metadata/effects/spells/monsters_effects/atlasofworldsbosses/maven",
        "metadata/effects/spells/monsters_effects/atlasexiles/adjudicator",
        "metadata/effects/spells/ground_effects/chimera_smoke",
        "metadata/effects/spells/ground_effects/evil",
        "metadata/effects/spells/ground_effects_v2/smoke_blind_chimera",
        "metadata/effects/spells/monsters_effects/atlasofworldsbosses/chimera",
        "metadata/effects/spells/monsters_effects/atlasexiles/orion",
        "metadata/effects/spells/monsters_effects/prophecy_league",
        "metadata/effects/spells/ground_effects/caustic",
        "metadata/effects/spells/ground_effects_v2/caustic_arrow_ground",
        "metadata/effects/spells/ground_effects_v2/desecrated",
        "metadata/effects/spells/ground_effects_v2/desecrated_maligaro",
        "metadata/effects/spells/ground_effects_v2/desecrated_red",
        "metadata/effects/spells/ground_effects_v3/caustic",
    ];
    assert(str_views(prefixes@) =~= protected_effects());
    is_under_one_of(path, prefixes.as_slice())
}

/// What the particle patch makes of a file.
pub open spec fn particles_patched(path: Seq<char>, bytes: Seq<u8>) -> Seq<u8> {
    if under_one_of(path, protected_particles()) {
        bytes
    } else {
        utf16_file("0"@)
    }
}

/// The particle patch: blanks particle files.
pub fn particles(path: &str, bytes: &[u8]) -> (r: Vec<u8>)
    ensures
        r@ == particles_patched(path@, bytes@),
{
    let prefixes: Vec<&str> = vec![
        "metadata/particles/monster_effects/league_legion/rewardsystem",
        "metadata/particles/monster_effects/league_legion/endgame",
        "metadata/particles/monster_effects/league_delve/general",
        "metadata/particles/monster_effects/atlasexiles/adjudicator",
        "metadata/particles/monster_effects/atlasexiles/adjudicatormonsters",
        "metadata/particles/enviro_effects/act3/blood_temple",
        "metadata/particles/ground_effects_v2/smoke_blind_chimera",
        "metadata/particles/monster_effects/atlasofworldsbosses/chimera",
        "metadata/particles/monster_effects/atlasexiles/orion",
    ];
    assert(str_views(prefixes@) =~= protected_particles());
    if is_under_one_of(path, prefixes.as_slice()) {
        return same_file(bytes);
    }
    encode_str("0")
}

/// The blocks of an effect that stay.
pub open spec fn kept_effect_blocks() -> Seq<Seq<char>> {
    seq![
        "ClientAnimationController"@,
        "SoundEvents"@,
        "BoneGroups"@,
        "AnimatedRender"@,
        "SkinMesh"@,
    ]
}

/// What the effect patch makes of a file.
pub open spec fn effects_patched(path: Seq<char>, bytes: Seq<u8>) -> Result<
    Seq<u8>,
    TransformError,
> {
    if startup_scene(path) || under_one_of(path, protected_effects()) {
        Ok(bytes)
    } else {
        rewritten(bytes, |t: Seq<char>| client_stripped(t, kept_effect_blocks()))
    }
}

/// The effect patch: takes those blocks out of the client part that are not
/// essential.
pub fn effects(path: &str, bytes: &[u8]) -> (r: Result<Vec<u8>, TransformError>)
    ensures
        bytes_result(r) == effects_patched(path@, bytes@),
{
    if is_startup_scene_protected(path) || is_protected_effect(path) {
        return Ok(same_file(bytes));
    }
    let t = match decode_utf16(bytes) {
        Ok(t) => t,
        Err(e) => return Err(e),
    };
    let keep: Vec<&str> = vec![
        "ClientAnimationController",
        "SoundEvents",
        "BoneGroups",
        "AnimatedRender",
        "SkinMesh",
    ];
    assert(str_views(keep@) =~= kept_effect_blocks());
    let t = strip_client_blocks(t.as_slice(), keep.as_slice());
    Ok(encode_utf16_bom(t.as_slice()))
}

/// The blocks that hold sounds.
pub open spec fn sound_blocks() -> Seq<Seq<char>> {
    seq!["SoundEvents"@, "SoundParams"@]
}

/// What the sound patches make of a file. What is not UTF-16 stays as it is.
pub open spec fn sounds_patched(path: Seq<char>, bytes: Seq<u8>) -> Seq<u8> {
    if startup_scene(path) || under_one_of(path, protected_effects()) {
        bytes
    } else {
        match utf16_file_text(bytes) {
            Ok(t) => utf16_file(emptied(t, sound_blocks(), 0)),
            Err(_) => bytes,
        }
    }
}

/// The sound patches: empty the blocks that hold sounds.
pub fn strip_sounds(path: &str, bytes: &[u8]) -> (r: Vec<u8>)
    ensures
        r@ == sounds_patched(path@, bytes@),
{
    if is_startup_scene_protected(path) || is_protected_effect(path) {
        return same_file(bytes);
    }
    match decode_utf16_lossless(bytes) {
        None => same_file(bytes),
        Some(t) => {
            let names: Vec<&str> = vec!["SoundEvents", "SoundParams"];
            assert(str_views(names@) =~= sound_blocks());
            let t = empty_named_blocks(t.as_slice(), names.as_slice());
            encode_utf16_bom(t.as_slice())
        },
    }
}

/// What the patch of microtransactions makes of a file: effect packs are
/// emptied, particles and trails are blanked, and animations stay.
pub open spec fn mtx_patched(path: Seq<char>, bytes: Seq<u8>) -> Seq<u8> {
    if startup_scene(path) {
        bytes
    } else if ending(path, ".epk"@) {
        utf16_file(""@)
    } else if ending(path, ".pet"@) || ending(path, ".trl"@) {
        utf16_file("0"@)
    } else {
        bytes
    }
}

/// The patch of microtransactions.
pub fn mtx_soft(path: &str, bytes: &[u8]) -> (r: Vec<u8>)
    ensures
        r@ == mtx_patched(path@, bytes@),
{
    if is_startup_scene_protected(path) {
        return same_file(bytes);
    }
    let p = normalize_chars(path);
    let epk = chars_of(".epk");
    let pet = chars_of(".pet");
    let trl = chars_of(".trl");
    if has_suffix(p.as_slice(), epk.as_slice()) {
        return encode_str("");
    }
    if has_suffix(p.as_slice(), pet.as_slice()) || has_suffix(p.as_slice(), trl.as_slice()) {
        return encode_str("0");
    }
    same_file(bytes)
}

/// What a patch makes of a file. `zoom` is the camera's zoom as it is to be
/// written. A patch whose files are not known leaves every file as it is.
pub open spec fn transformed(
    patch: PatchId,
    path: Seq<char>,
    bytes: Seq<u8>,
    zoom: Seq<char>,
) -> Result<Seq<u8>, TransformError> {
    match patch {
        PatchId::Camera => camera_patched(path, bytes, zoom),
        PatchId::Minimap => Ok(encode_utf8(minimap_text(path, utf8_lossy(bytes)))),
        PatchId::AtlasFog => atlas_patched(bytes),
        PatchId::Fog => rewritten(
            bytes,
            |t: Seq<char>| pairs_replaced(t, fog_pairs(), fog_pairs().len()),
        ),
        PatchId::Rain => rewritten(bytes, |t: Seq<char>| rain_stopped(t)),
        PatchId::Clouds => rewritten(bytes, |t: Seq<char>| clouds_gone(t)),
        PatchId::EnvParticles => rewritten(bytes, |t: Seq<char>| environment_text(t)),
        PatchId::Shadow => rewritten(
            bytes,
            |t: Seq<char>| pairs_replaced(t, shadow_pairs(), shadow_pairs().len()),
        ),
        PatchId::Light => rewritten(
            bytes,
            |t: Seq<char>| pairs_replaced(t, light_pairs(), light_pairs().len()),
        ),
        PatchId::Delirium => rewritten(bytes, |t: Seq<char>| delirium_text(t)),
        PatchId::Particles => Ok(particles_patched(path, bytes)),
        PatchId::Effects => effects_patched(path, bytes),
        PatchId::DisableSounds | PatchId::SkillSounds | PatchId::MonsterSounds => Ok(
            sounds_patched(path, bytes),
        ),
        PatchId::MtxSoft => Ok(mtx_patched(path, bytes)),
        PatchId::BlackScreen | PatchId::ColorMods | PatchId::MonsterHpBar => Ok(bytes),
    }
}

/// What a patch makes of a file. `zoom` is the camera's zoom as it is to be
/// written.
pub fn transform(patch: PatchId, path: &str, bytes: &[u8], zoom: &str) -> (r: Result<
    Vec<u8>,
    TransformError,
>)
    ensures
        bytes_result(r) == transformed(patch, path@, bytes@, zoom@),
{
    match patch {
        PatchId::Camera => camera(path, bytes, zoom),
        PatchId::Minimap => Ok(minimap(path, bytes)),
        PatchId::AtlasFog => atlas_fog(bytes),
        PatchId::Fog => {
            let pairs: Vec<(&str, &str)> = vec![("\"fog\"", "\"xog\"")];
            assert(pair_views(pairs@) =~= fog_pairs());
            replace_utf16(bytes, pairs.as_slice())
        },
        PatchId::Rain => rain(bytes),
        PatchId::Clouds => clouds(bytes),
        PatchId::EnvParticles => env_particles(bytes),
        PatchId::Shadow => {
            let pairs: Vec<(&str, &str)> = vec![
        ("\"shadows_enabled\": true", "\"shadows_enabled\": false"),
            ];
            assert(pair_views(pairs@) =~= shadow_pairs());
            replace_utf16(bytes, pairs.as_slice())
        },
        PatchId::Light => {
            let pairs: Vec<(&str, &str)> = vec![
        ("\"directional_light\"", "\"xirectional_light\""),
        ("\"player_light\"", "\"xlayer_light\""),
        ("\"environment_mapping\"", "\"xnvironment_mapping\""),
        ("\"global_illumination\"", "\"xlobal_illumination\""),
            ];
            assert(pair_views(pairs@) =~= light_pairs());
            replace_utf16(bytes, pairs.as_slice())
        },
        PatchId::Delirium => delirium(bytes),
        PatchId::Particles => Ok(particles(path, bytes)),
        PatchId::Effects => effects(path, bytes),
        PatchId::DisableSounds | PatchId::SkillSounds | PatchId::MonsterSounds => Ok(
            strip_sounds(path, bytes),
        ),
        PatchId::MtxSoft => Ok(mtx_soft(path, bytes)),
        PatchId::BlackScreen | PatchId::ColorMods | PatchId::MonsterHpBar => Ok(same_file(bytes)),
    }
}

/// What a patch would write for a file, if it is for it. The zoom is that of the
/// defaults.
pub fn audit_transform(patch: PatchId, path: &str, bytes: &[u8]) -> (r: Option<
    Result<Vec<u8>, TransformError>,
>)
    ensures
        match r {
            Some(out) => targets(patch, path@) && bytes_result(out) == transformed(
                patch,
                path@,
                bytes@,
                "2.4"@,
            ),
            None => !targets(patch, path@),
        },
{
    proof {
        if targets(patch, path@) {
            crate::targets::law_targets_are_patched(patch, path@);
        }
    }
    if !patch_targets_path(patch, path) || !patch_applies_path(patch, path) {
        return None;
    }
    Some(transform(patch, path, bytes, "2.4"))
}

/// A text written as a UTF-16 file reads back, without the byte order marks at
/// its beginning.
pub proof fn law_utf16_file_reads_back(t: Seq<char>)
    ensures
        utf16_file_text(utf16_file(t)) == Ok::<Seq<char>, TransformError>(without_marks(t)),
{
    let marked = seq!['\u{feff}'] + t;
    let units = utf16_units(marked);
    assert(marked[0] == '\u{feff}');
    assert(marked.subrange(1, marked.len() as int) =~= t);
    assert(crate::utf16::char_units('\u{feff}') =~= seq![0xfeffu16]);
    assert(units =~= seq![0xfeffu16] + utf16_units(t));
    lemma_unit_bytes(units);
    lemma_mark_bytes(utf16_units(t));
    assert(unit_bytes(units) == utf16_file(t));
    law_utf16_round_trip(marked);
}

/// The byte order mark in front of the bytes of some units.
proof fn lemma_mark_bytes(u: Seq<u16>)
    ensures
        unit_bytes(seq![0xfeffu16] + u) == seq![0xffu8, 0xfe] + unit_bytes(u),
    decreases u.len(),
{
    let all = seq![0xfeffu16] + u;
    if u.len() == 0 {
        assert(all =~= seq![0xfeffu16]);
        assert(all.drop_last() =~= Seq::<u16>::empty());
        reveal_with_fuel(crate::bytes::le_bytes, 3);
        assert(crate::bytes::u16_bytes(0xfeff) =~= seq![0xffu8, 0xfe]);
        assert(unit_bytes(all) == unit_bytes(all.drop_last()) + crate::bytes::u16_bytes(0xfeff));
        assert(unit_bytes(Seq::<u16>::empty()) =~= Seq::<u8>::empty());
        assert(unit_bytes(u) =~= Seq::<u8>::empty());
        assert(unit_bytes(all) =~= seq![0xffu8, 0xfe] + unit_bytes(u));
    } else {
        assert(all.drop_last() =~= seq![0xfeffu16] + u.drop_last());
        lemma_mark_bytes(u.drop_last());
        assert(all.last() == u.last());
        assert(unit_bytes(u) == unit_bytes(u.drop_last()) + crate::bytes::u16_bytes(u.last()));
        assert(unit_bytes(all) == unit_bytes(all.drop_last()) + crate::bytes::u16_bytes(
            all.last(),
        ));
        assert(unit_bytes(all) =~= seq![0xffu8, 0xfe] + unit_bytes(u));
    }
}

/// Files of the scene at startup, and protected effects and particles, are left
/// as they are.
pub proof fn law_protected_files_are_unchanged(
    patch: PatchId,
    path: Seq<char>,
    bytes: Seq<u8>,
    zoom: Seq<char>,
)
    requires
        match patch {
            PatchId::Particles => under_one_of(path, protected_particles()),
            PatchId::Effects
            | PatchId::DisableSounds
            | PatchId::SkillSounds
            | PatchId::MonsterSounds => startup_scene(path) || under_one_of(
                path,
                protected_effects(),
            ),
            PatchId::MtxSoft => startup_scene(path),
            _ => false,
        },
    ensures
        transformed(patch, path, bytes, zoom) == Ok::<Seq<u8>, TransformError>(bytes),
{
}

/// What a patch writes into a UTF-16 file can be read by the next patch.
pub proof fn law_patched_files_can_be_read(
    patch: PatchId,
    path: Seq<char>,
    bytes: Seq<u8>,
    zoom: Seq<char>,
)
    requires
        patch != PatchId::Minimap,
        utf16_file_text(bytes) is Ok,
        transformed(patch, path, bytes, zoom) is Ok,
    ensures
        utf16_file_text(transformed(patch, path, bytes, zoom)->Ok_0) is Ok,
{
    let out = transformed(patch, path, bytes, zoom)->Ok_0;
    let t = utf16_file_text(bytes)->Ok_0;
    match patch {
        PatchId::Camera => {
            law_utf16_file_reads_back(zoomed(t, zoom));
            law_utf16_file_reads_back(
                without_calls(t, camera_functions(), camera_functions().len()),
            );
        },
        PatchId::AtlasFog => {
            law_utf16_file_reads_back(array_emptied(array_emptied(t, "nodes"@), "links"@));
        },
        PatchId::Fog => law_utf16_file_reads_back(
            pairs_replaced(t, fog_pairs(), fog_pairs().len()),
        ),
        PatchId::Rain => law_utf16_file_reads_back(rain_stopped(t)),
        PatchId::Clouds => law_utf16_file_reads_back(clouds_gone(t)),
        PatchId::EnvParticles => law_utf16_file_reads_back(environment_text(t)),
        PatchId::Shadow => law_utf16_file_reads_back(
            pairs_replaced(t, shadow_pairs(), shadow_pairs().len()),
        ),
        PatchId::Light => law_utf16_file_reads_back(
            pairs_replaced(t, light_pairs(), light_pairs().len()),
        ),
        PatchId::Delirium => law_utf16_file_reads_back(delirium_text(t)),
        PatchId::Effects => law_utf16_file_reads_back(client_stripped(t, kept_effect_blocks())),
        PatchId::DisableSounds | PatchId::SkillSounds | PatchId::MonsterSounds => {
            law_utf16_file_reads_back(emptied(t, sound_blocks(), 0));
        },
        PatchId::Particles | PatchId::MtxSoft => {
            law_utf16_file_reads_back("0"@);
            law_utf16_file_reads_back(""@);
        },
        PatchId::Minimap | PatchId::BlackScreen | PatchId::ColorMods | PatchId::MonsterHpBar => {},
    }
}

pub proof fn lemma_without_marks(t: Seq<char>)
    ensures
        without_marks(t).len() > 0 ==> without_marks(t)[0] != '\u{feff}',
    decreases t.len(),
{
    if t.len() > 0 && t[0] == '\u{feff}' {
        lemma_without_marks(t.subrange(1, t.len() as int));
    }
}

proof fn lemma_emptied_begins_alike(t: Seq<char>, names: Seq<Seq<char>>)
    ensures
        emptied(t, names, 0).len() > 0 ==> t.len() > 0 && emptied(t, names, 0)[0] == t[0],
{
    crate::blocks::lemma_next_block(t, 0);
    match crate::blocks::next_block(t, 0) {
        None => {},
        Some(b) => {
            crate::blocks::lemma_matching_brace(t, b.open + 1, 1);
        },
    }
}

/// The sound patches leave no sounds in the blocks that hold them, as far as they
/// are closed; and what the patches of sounds, particles and microtransactions
/// make of a file they do not change any more.
pub proof fn law_silenced_files_stay(
    patch: PatchId,
    path: Seq<char>,
    bytes: Seq<u8>,
    zoom: Seq<char>,
)
    requires
        patch is DisableSounds || patch is SkillSounds || patch is MonsterSounds
            || patch is Particles || patch is MtxSoft,
    ensures
        transformed(patch, path, bytes, zoom) is Ok,
        ({
            let out = transformed(patch, path, bytes, zoom)->Ok_0;
            &&& transformed(patch, path, out, zoom) == Ok::<Seq<u8>, TransformError>(out)
            &&& !(patch is Particles || patch is MtxSoft) && !startup_scene(path)
                && !under_one_of(path, protected_effects()) && utf16_file_text(bytes) is Ok
                ==> utf16_file_text(out) is Ok && crate::block_laws::quiet(
                utf16_file_text(out)->Ok_0,
                sound_blocks(),
                0,
            )
        }),
{
    if !(patch is Particles || patch is MtxSoft) && utf16_file_text(bytes) is Ok {
        let t = utf16_file_text(bytes)->Ok_0;
        let e = emptied(t, sound_blocks(), 0);
        lemma_without_marks(utf16_text(byte_units(bytes))->0);
        lemma_emptied_begins_alike(t, sound_blocks());
        assert(without_marks(e) == e);
        law_utf16_file_reads_back(e);
        crate::block_laws::law_emptying_is_complete(t, sound_blocks());
    }
}

} // verus!
