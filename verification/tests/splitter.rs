use bundler::scan::FileKind;
use bundler::splitter::{
    chunk_file_content, generate_random_name, plan_chunk_names, write_manifest, Chunk,
};

fn b(s: &str) -> Vec<u8> {
    s.as_bytes().to_vec()
}

#[test]
fn test_chunk_file_content_sizes() {
    let chunks = chunk_file_content(&b("abcdefg"), 3);
    assert_eq!(chunks, vec![b("abc"), b("def"), b("g")]);
}

#[test]
fn test_chunk_file_content_round_trip() {
    let content = b("the quick brown fox jumps over the lazy dog");
    let chunks = chunk_file_content(&content, 5);
    let joined: Vec<u8> = chunks.concat();
    assert_eq!(joined, content);
}

#[test]
fn test_chunk_file_content_empty() {
    assert!(chunk_file_content(&Vec::new(), 4).is_empty());
}

#[test]
fn test_generate_random_name_shape() {
    // The generator must produce names of the asked length over letters
    // and digits; equal input does not mean equal output here, so only
    // the shape is checked.
    let name = generate_random_name(12);
    assert_eq!(name.len(), 12);
    assert!(name.iter().all(|c| c.is_ascii_alphanumeric()));
    let other = generate_random_name(0);
    assert!(other.is_empty());
}

#[test]
fn test_plan_chunk_names_assigns_per_kind() {
    let kinds = vec![FileKind::Js, FileKind::Css];
    let suffixes = vec![b("aaa111"), b("bbb222")];
    let names = plan_chunk_names(&kinds, &suffixes).expect("distinct names");
    assert_eq!(names, vec![b("chunk_aaa111.js"), b("chunk_bbb222.css")]);
}

#[test]
fn test_plan_chunk_names_detects_collision() {
    // Equal suffixes for equal kinds collide, which the build treats as
    // fatal.
    let kinds = vec![FileKind::Js, FileKind::Js];
    let suffixes = vec![b("same00"), b("same00")];
    assert!(plan_chunk_names(&kinds, &suffixes).is_none());
}

#[test]
fn test_write_manifest_lines() {
    let chunks = vec![
        Chunk { name: b("chunk_a.js"), path: b("dist/js/chunk_a.js"), content: b("x") },
        Chunk { name: b("chunk_b.css"), path: b("dist/css/chunk_b.css"), content: b("y") },
    ];
    let manifest = write_manifest(&chunks);
    let expected = "chunk_a.js: dist/js/chunk_a.js\nchunk_b.css: dist/css/chunk_b.css\n";
    assert_eq!(manifest, b(expected));
}
