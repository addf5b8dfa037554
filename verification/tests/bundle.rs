use std::collections::HashMap;
use tiny_poe2smoother::compression::{
    chunk_ranges, decompress_bundle, decompress_bundle_slices, needed_chunks,
    pack_uncompressed_bundle, parse_bundle_head, BundleError, BUNDLE_CHUNK_SIZE,
    OODLE_MERMAID_COMPRESSOR,
};
use tiny_poe2smoother::hashing::filepath_hash;
use tiny_poe2smoother::index::{build_paths, BundleFile, BundleIndex, IndexError};
use tiny_poe2smoother::install::InstallLayout;
use tiny_poe2smoother::replacements::{
    after_loose_write, apply_bundle_replacements, slice_file, sort_edits_by_index_order,
    write_report, AfterLooseWrite, LooseWrite, SliceExceedsBundle,
};
use tiny_poe2smoother::text::replace_chars;

/// A codec that leaves its input as it is.
fn pieces(data: &[u8]) -> Vec<Vec<u8>> {
    data.chunks(BUNDLE_CHUNK_SIZE as usize).map(|c| c.to_vec()).collect()
}

fn pack(data: &[u8]) -> Vec<u8> {
    pack_uncompressed_bundle(data, &pieces(data)).unwrap()
}

fn decoded(packed: &[u8]) -> Vec<Vec<u8>> {
    let head = parse_bundle_head(packed).unwrap();
    chunk_ranges(&head, packed)
        .iter()
        .map(|(start, end)| packed[*start..*end].to_vec())
        .collect()
}

fn unpack(packed: &[u8]) -> Result<Vec<u8>, BundleError> {
    decompress_bundle(packed, &decoded(packed))
}

#[test]
fn compression_uncompressed_bundle_round_trip() {
    let data = b"hello poe2".repeat(100_000);
    let packed = pack(&data);
    let unpacked = unpack(&packed).unwrap();
    assert_eq!(unpacked, data);
}

#[test]
fn bundle_uncompressed_bundle_round_trip() {
    let data = b"hello poe2".repeat(100_000);
    let packed = pack(&data);
    let unpacked = unpack(&packed).unwrap();
    assert_eq!(unpacked, data);
    assert_eq!(unpack(&pack(b"")).unwrap(), b"");
}

fn multi_chunk_data() -> Vec<u8> {
    let len = 2 * BUNDLE_CHUNK_SIZE as usize + 12_345;
    let mut state = 0x2545F491_u32;
    (0..len)
        .map(|_| {
            state = state.wrapping_mul(1664525).wrapping_add(1013904223);
            (state >> 24) as u8
        })
        .collect()
}

#[test]
fn partial_decompression_matches_full_decompression() {
    let data = multi_chunk_data();
    let packed = pack(&data);
    let total = u32::try_from(data.len()).unwrap();
    let chunk = u32::try_from(BUNDLE_CHUNK_SIZE).unwrap();
    let spans: [(u32, u32); 7] = [
        (0, 10),
        (chunk + 100, 500),
        (chunk - 3, 7),
        (total - 5, 5),
        (chunk, chunk),
        (0, total),
        (1234, 0),
    ];
    let slices = decompress_bundle_slices(&packed, &spans, &decoded(&packed)).unwrap();
    assert_eq!(slices.len(), spans.len());
    for (&(offset, size), slice) in spans.iter().zip(&slices) {
        let (offset, size) = (offset as usize, size as usize);
        assert_eq!(slice, &data[offset..offset + size], "span {offset}+{size}");
    }
}

#[test]
fn partial_decompression_needs_only_the_chunks_of_its_spans() {
    let data = multi_chunk_data();
    let packed = pack(&data);
    let head = parse_bundle_head(&packed).unwrap();
    let chunk = u32::try_from(BUNDLE_CHUNK_SIZE).unwrap();
    let spans = [(chunk + 1, 3)];
    assert_eq!(needed_chunks(&head, &spans), [false, true, false]);
    let mut chunks = decoded(&packed);
    chunks[0].clear();
    chunks[2].clear();
    let slices = decompress_bundle_slices(&packed, &spans, &chunks).unwrap();
    assert_eq!(slices[0], &data[BUNDLE_CHUNK_SIZE as usize + 1..][..3]);
    chunks[1].pop();
    assert_eq!(
        decompress_bundle_slices(&packed, &spans, &chunks).unwrap_err(),
        BundleError::ChunkSize
    );
}

#[test]
fn partial_decompression_rejects_out_of_range_span() {
    let data = b"span check".repeat(1_000);
    let packed = pack(&data);
    let total = u32::try_from(data.len()).unwrap();
    let chunks = decoded(&packed);
    assert_eq!(
        decompress_bundle_slices(&packed, &[(total - 1, 2)], &chunks).unwrap_err(),
        BundleError::SpanExceedsBundle
    );
    assert!(decompress_bundle_slices(&packed, &[(0, 1)], &chunks).is_ok());
}

fn header_matches(data: &[u8]) {
    let packed = pack(data);
    let u32_at = |i: usize| u32::from_le_bytes(packed[i..i + 4].try_into().unwrap());
    let u64_at = |i: usize| u64::from_le_bytes(packed[i..i + 8].try_into().unwrap());
    let uncompressed_size = u32_at(0) as usize;
    let compressed_size = u32_at(4) as usize;
    let head_size = u32_at(8) as usize;
    let compressor = u32_at(12);
    let unknown = u32_at(16);
    let uncompressed_size_long = u64_at(20) as usize;
    let compressed_size_long = u64_at(28) as usize;
    let chunk_count = u32_at(36) as usize;

    assert_eq!(uncompressed_size, data.len());
    assert_eq!(uncompressed_size_long, data.len());
    assert_eq!(compressed_size, compressed_size_long);
    assert_eq!(head_size, 48 + 4 * chunk_count);
    assert_eq!(12 + head_size + compressed_size, packed.len());
    assert_eq!(compressor, OODLE_MERMAID_COMPRESSOR);
    assert_eq!(unknown, 1);
}

#[test]
fn compression_packed_bundle_header_matches_libbundle_layout() {
    header_matches(&b"header check".repeat(100_000));
}

#[test]
fn bundle_packed_bundle_header_matches_libbundle_layout() {
    header_matches(&b"header check".repeat(100_000));
}

#[test]
fn bundle_filepath_hash_is_case_insensitive() {
    assert_eq!(
        filepath_hash("Metadata/Foo.ot"),
        filepath_hash("metadata/foo.ot")
    );
}

#[test]
fn broken_bundles_are_refused() {
    let data = multi_chunk_data();
    let packed = pack(&data);
    let chunks = decoded(&packed);
    let fails = |bytes: &[u8], chunks: &Vec<Vec<u8>>| decompress_bundle(bytes, chunks).unwrap_err();
    assert_eq!(fails(&packed[..10], &chunks), BundleError::Truncated);
    assert_eq!(
        fails(&packed[..packed.len() - 1], &chunks),
        BundleError::ChunkExceedsSource
    );
    let mut small = packed.clone();
    small[8..12].copy_from_slice(&48u32.to_le_bytes());
    assert_eq!(fails(&small, &chunks), BundleError::HeadTooSmall);
    let mut zero = packed.clone();
    zero[40..44].copy_from_slice(&[0; 4]);
    assert_eq!(fails(&zero, &chunks), BundleError::ZeroChunkSize);
    let mut short = chunks.clone();
    short[0].pop();
    assert_eq!(fails(&packed, &short), BundleError::ChunkSize);
}

fn file(hash: u64, bundle_name: &str, size: u32) -> BundleFile {
    BundleFile {
        hash,
        bundle_index: 0,
        bundle_name: bundle_name.to_string(),
        offset: 0,
        size,
        record_pos: 0,
    }
}

fn sorts_by_order() {
    let mut edits = vec![
        (file(30, "a", 1), b"third".to_vec()),
        (file(10, "a", 1), b"first".to_vec()),
        (file(20, "a", 1), b"second".to_vec()),
    ];
    let order = HashMap::from([(10, 0), (20, 1), (30, 2)]);

    sort_edits_by_index_order(&mut edits, &order);

    let hashes = edits
        .into_iter()
        .map(|(file, _)| file.hash)
        .collect::<Vec<_>>();
    assert_eq!(hashes, vec![10, 20, 30]);
}

#[test]
fn replacements_replacement_edits_sort_by_index_order_map() {
    sorts_by_order();
}

#[test]
fn bundle_replacement_edits_sort_by_index_order_map() {
    sorts_by_order();
}

#[test]
fn edits_without_a_place_come_last_and_keep_their_order() {
    let mut edits = vec![
        (file(7, "a", 1), b"x".to_vec()),
        (file(20, "a", 1), b"2".to_vec()),
        (file(8, "a", 1), b"y".to_vec()),
        (file(10, "a", 1), b"1".to_vec()),
        (file(20, "a", 1), b"3".to_vec()),
    ];
    let order = HashMap::from([(10, 0), (20, 1)]);
    sort_edits_by_index_order(&mut edits, &order);
    let bytes: Vec<Vec<u8>> = edits.into_iter().map(|e| e.1).collect();
    assert_eq!(bytes.concat(), b"123xy");
}

fn index_bytes(bundles: &[&str], hashes: &[u64]) -> Vec<u8> {
    let mut raw = Vec::new();
    raw.extend_from_slice(&(bundles.len() as u32).to_le_bytes());
    for name in bundles {
        raw.extend_from_slice(&(name.len() as u32).to_le_bytes());
        raw.extend_from_slice(name.as_bytes());
        raw.extend_from_slice(&9u32.to_le_bytes());
    }
    raw.extend_from_slice(&(hashes.len() as u32).to_le_bytes());
    for (i, hash) in hashes.iter().enumerate() {
        raw.extend_from_slice(&hash.to_le_bytes());
        for number in [0u32, i as u32 * 3, 3] {
            raw.extend_from_slice(&number.to_le_bytes());
        }
    }
    raw.extend_from_slice(&1u32.to_le_bytes());
    raw.extend_from_slice(&0x07E47507B4A92E53u64.to_le_bytes());
    raw.extend_from_slice(&[0; 12]);
    raw
}

#[test]
fn replaced_files_are_found_in_the_new_bundle() {
    let mut index = BundleIndex::parse(index_bytes(&["Base", "TinyPoe2Smoother/0"], &[5, 6, 7])).unwrap();
    assert!(index.has_valid_positions());
    let edits = vec![
        (file(7, "Base", 3), b"seven".to_vec()),
        (file(5, "Base", 3), b"".to_vec()),
        (file(7, "Base", 3), b"SEVEN".to_vec()),
    ];
    let bundle = apply_bundle_replacements(&mut index, InstallLayout::LooseBundles, edits).unwrap();
    assert_eq!(bundle.name, "TinyPoe2Smoother/1");
    assert_eq!(bundle.bundle_index, 2);
    assert_eq!(bundle.data, b"sevenSEVEN");
    // What the bytes of the index say is what the index says.
    let again = BundleIndex::parse(index.raw_decompressed.clone()).unwrap();
    let seven = &again.files[&7];
    assert_eq!(seven.bundle_name, "TinyPoe2Smoother/1");
    assert_eq!(slice_file(&bundle.data, seven).unwrap(), b"SEVEN");
    assert_eq!(slice_file(&bundle.data, &again.files[&5]).unwrap(), b"");
    assert_eq!(again.files[&6].bundle_name, "Base");
    assert_eq!(again.files[&6].offset, 3);
    assert_eq!(again.bundles[2].uncompressed_size, 10);
    assert_eq!(again.bundles[0].uncompressed_size, 9);
    assert_eq!(
        index.packed_bytes(&pieces(&index.raw_decompressed)).unwrap(),
        pack(&index.raw_decompressed)
    );
}

#[test]
fn files_that_the_index_does_not_have_cannot_be_replaced() {
    let mut index = BundleIndex::parse(index_bytes(&["Base"], &[5])).unwrap();
    let edits = vec![(file(8, "Base", 3), b"x".to_vec())];
    let result = apply_bundle_replacements(&mut index, InstallLayout::ContentGgpk, edits);
    assert!(matches!(result, Err(IndexError::UnknownHash(8))));
    assert_eq!(index.bundles[1].name, "TinyPoe2Smoother_0");
    assert_eq!(
        slice_file(b"ab", &file(1, "", 3)).unwrap_err(),
        SliceExceedsBundle
    );
}

#[test]
fn broken_indexes_are_refused() {
    let raw = index_bytes(&["Base"], &[5]);
    let fails = |bytes: &[u8]| match BundleIndex::parse(bytes.to_vec()) {
        Ok(_) => panic!("parsed"),
        Err(e) => e,
    };
    assert_eq!(fails(&raw[..3]), IndexError::Truncated);
    let mut bad = raw.clone();
    bad[8] = 0xff;
    assert_eq!(fails(&bad), IndexError::NameNotUtf8);
    let mut bad = raw.clone();
    bad[28] = 1;
    assert_eq!(fails(&bad), IndexError::InvalidBundleIndex(1));
    let mut bad = raw.clone();
    bad[44] = 0;
    assert!(matches!(fails(&bad), IndexError::UnsupportedSentinel(_)));
    let mut bad = raw;
    bad[40] = 0;
    assert_eq!(fails(&bad), IndexError::NoDirectories);
}

#[test]
fn loose_files_are_written_in_order() {
    assert_eq!(after_loose_write(LooseWrite::Bundle, true), AfterLooseWrite::WriteIndex);
    assert_eq!(after_loose_write(LooseWrite::Bundle, false), AfterLooseWrite::Fail);
    assert_eq!(after_loose_write(LooseWrite::Index, true), AfterLooseWrite::Done);
    assert_eq!(
        after_loose_write(LooseWrite::Index, false),
        AfterLooseWrite::RemoveBundleAndFail
    );
    let report = |layout| {
        write_report(layout, "b".to_string(), "i".to_string(), "c".to_string()).touched_paths
    };
    assert_eq!(report(InstallLayout::LooseBundles), ["b", "i"]);
    assert_eq!(report(InstallLayout::ContentGgpk), ["c"]);
}

#[test]
fn paths_in_front_of_a_fault_stay() {
    let mut data = Vec::new();
    data.extend_from_slice(&1u32.to_le_bytes());
    data.extend_from_slice(b"a.txt\0");
    data.extend_from_slice(&1u32.to_le_bytes());
    data.extend_from_slice(b"b");
    let mut out = vec!["first".to_string()];
    assert_eq!(build_paths(&data, &mut out), Err(IndexError::PathTruncated));
    assert_eq!(out, ["first", "a.txt"]);
    data.extend_from_slice(b"\xff\0");
    assert_eq!(build_paths(&data, &mut out), Err(IndexError::PathNotUtf8));
    assert_eq!(out, ["first", "a.txt", "a.txt"]);
    data.truncate(10);
    assert_eq!(build_paths(&data, &mut out), Ok(()));
    assert_eq!(out.len(), 4);
}

#[test]
fn a_predicate_may_keep_a_count() {
    let mut index = BundleIndex::parse(index_bytes(&["b"], &[7])).unwrap();
    index.paths = Some(vec!["x".to_string(), "y".to_string()]);
    let mut asked = Vec::new();
    let found = index
        .matching_paths_by(&Vec::new(), |path: &str| {
            asked.push(path.to_string());
            true
        })
        .unwrap();
    assert!(found.is_empty());
    assert_eq!(asked, ["x", "y"]);
}

#[test]
fn texts_are_replaced_as_by_std() {
    for (text, from, to) in [
        ("abc", "", "x"),
        ("", "", "x"),
        ("aaa", "aa", "b"),
        ("abab", "ab", "ba"),
        ("abc", "d", "x"),
        ("\u{e9}a", "", "-"),
    ] {
        let chars = |s: &str| s.chars().collect::<Vec<char>>();
        let replaced = replace_chars(&chars(text), &chars(from), &chars(to));
        let replaced: String = replaced.into_iter().collect();
        assert_eq!(replaced, text.replace(from, to), "{text} {from}");
    }
}
