use bundler::sourcemap::{
    compress_source_map, generate_mappings_string, generate_source_map, merge_source_maps,
    validate_source_map, JsonValue, Mapping, SourceMap, SourceMapError, SourceMapGenerator,
};

fn b(s: &str) -> Vec<u8> {
    s.as_bytes().to_vec()
}

fn str_field(key: &str, value: &str) -> (Vec<u8>, JsonValue) {
    (b(key), JsonValue::Str(b(value)))
}

fn arr_field(key: &str, values: &[&str]) -> (Vec<u8>, JsonValue) {
    (b(key), JsonValue::Arr(values.iter().map(|v| JsonValue::Str(b(v))).collect()))
}

fn valid_doc() -> Vec<(Vec<u8>, JsonValue)> {
    vec![
        (b("version"), JsonValue::Num(Some(3))),
        str_field("file", "out.js"),
        arr_field("sources", &["a.js", "b.js"]),
        arr_field("sourcesContent", &["aa", "bb"]),
        arr_field("names", &["n1"]),
        str_field("mappings", "AAAA"),
    ]
}

#[test]
fn test_validate_accepts_well_formed_document() {
    let doc = JsonValue::Obj(valid_doc());
    let sm = validate_source_map(&doc).expect("document is well formed");
    assert_eq!(sm.version, 3);
    assert_eq!(sm.file, b("out.js"));
    assert_eq!(sm.sources, vec![b("a.js"), b("b.js")]);
    assert_eq!(sm.sources_content, vec![b("aa"), b("bb")]);
    assert_eq!(sm.names, vec![b("n1")]);
    assert_eq!(sm.mappings, b("AAAA"));
}

#[test]
fn test_validate_rejects_missing_mappings() {
    // A source map lacking the mappings field fails validation.
    let mut fields = valid_doc();
    fields.retain(|(k, _)| k != &b("mappings"));
    let doc = JsonValue::Obj(fields);
    assert_eq!(validate_source_map(&doc), Err(SourceMapError::MalformedSourceMap));
}

#[test]
fn test_validate_rejects_wrong_types() {
    let mut fields = valid_doc();
    fields[0].1 = JsonValue::Str(b("3"));
    assert_eq!(
        validate_source_map(&JsonValue::Obj(fields)),
        Err(SourceMapError::MalformedSourceMap)
    );
    let mut fields = valid_doc();
    fields[2].1 = JsonValue::Str(b("not-an-array"));
    assert_eq!(
        validate_source_map(&JsonValue::Obj(fields)),
        Err(SourceMapError::MalformedSourceMap)
    );
    assert_eq!(
        validate_source_map(&JsonValue::Null),
        Err(SourceMapError::MalformedSourceMap)
    );
}

#[test]
fn test_validate_accepts_version_two() {
    let mut fields = valid_doc();
    fields[0].1 = JsonValue::Num(Some(2));
    assert!(validate_source_map(&JsonValue::Obj(fields)).is_ok());
}

fn small_map(sources: &[&str], names: &[&str], mappings: &str) -> SourceMap {
    SourceMap {
        version: 3,
        file: b("out.js"),
        sources: sources.iter().map(|s| b(s)).collect(),
        sources_content: sources.iter().map(|s| b(s)).collect(),
        names: names.iter().map(|s| b(s)).collect(),
        mappings: b(mappings),
    }
}

#[test]
fn test_merge_unions_and_concatenates() {
    // Merging two valid maps: sources and names are the set union of the
    // inputs; mappings concatenate in input order.
    let m1 = small_map(&["a.js", "b.js"], &["x"], "AAAA");
    let m2 = small_map(&["b.js", "c.js"], &["x", "y"], ";BBBB");
    let merged = merge_source_maps(&vec![m1, m2]);
    assert_eq!(merged.version, 3);
    assert_eq!(merged.file, b("merged.js"));
    assert_eq!(merged.sources, vec![b("a.js"), b("b.js"), b("c.js")]);
    assert_eq!(merged.names, vec![b("x"), b("y")]);
    assert_eq!(merged.mappings, b("AAAA;BBBB"));
}

#[test]
fn test_compress_collapses_empty_groups() {
    let m = small_map(&["a.js"], &[], "AA;;;;BB;;CC;DD");
    let c = compress_source_map(&m);
    assert_eq!(c.mappings, b("AA;BB;CC;DD"));
    assert_eq!(c.sources, m.sources);
}

fn mapping(ol: usize, oc: usize, gl: usize, gc: usize, ni: Option<usize>) -> Mapping {
    Mapping {
        original_line: ol,
        original_column: oc,
        generated_line: gl,
        generated_column: gc,
        name_index: ni,
    }
}

#[test]
fn test_generate_mappings_string_groups_by_line() {
    let mappings = vec![
        mapping(1, 0, 1, 0, Some(0)),
        mapping(2, 5, 2, 10, Some(1)),
        mapping(3, 1, 2, 12, None),
    ];
    // Lines 0..=2: line 0 empty, line 1 one segment, line 2 two segments.
    let text = generate_mappings_string(&mappings);
    assert_eq!(text, b(";1:0,0,0;2:5,10,1,3:1,12,0"));
    assert_eq!(generate_mappings_string(&Vec::new()), b(""));
}

#[test]
fn test_generate_source_map_document() {
    let sources = vec![b("a.js")];
    let contents = vec![b("aa")];
    let names: Vec<Vec<u8>> = Vec::new();
    let mappings = vec![mapping(0, 0, 0, 0, None)];
    let doc = generate_source_map(&sources, &b("out.js"), &contents, &mappings, &names);
    let expected = "{\"version\":3,\"file\":\"out.js\",\"sources\":[\"a.js\"],\
\"sourcesContent\":[\"aa\"],\"names\":[],\"mappings\":\"0:0,0,0\"}";
    assert_eq!(doc, b(expected));
}

#[test]
fn test_json_escaping_in_document() {
    let sources = vec![b("a\"b.js")];
    let contents = vec![b("line\nnext")];
    let names: Vec<Vec<u8>> = Vec::new();
    let mappings: Vec<Mapping> = Vec::new();
    let doc = generate_source_map(&sources, &b("o.js"), &contents, &mappings, &names);
    let text = String::from_utf8(doc).expect("the document is valid text");
    assert!(text.contains("a\\\"b.js"));
    assert!(text.contains("line\\nnext"));
}

#[test]
fn test_generator_accumulates_modules() {
    let mut g = SourceMapGenerator::new();
    g.add_mapping(&b("a.js"), &b("one();\n"));
    g.add_mapping(&b("b.js"), &b("two();\n"));
    let doc = g.generate();
    let text = String::from_utf8(doc).expect("valid text");
    assert!(text.starts_with("{\"version\":3,\"file\":\"out.js\""));
    assert!(text.contains("\"sources\":[\"a.js\",\"b.js\"]"));
    // The second module starts after the first module's header line,
    // content line and trailing newline: generated line 3.
    assert!(text.contains("\"mappings\":\"0:0,0,0;;;0:0,0,0\""));
}
