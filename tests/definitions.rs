use noir_lsp::cache::{BuildStatus, CompilationCache};
use noir_lsp::codec::CodecError;
use noir_lsp::index::{DefinitionIndex, Location};
use noir_lsp::resolver::{
    file_path_of_uri, resolve_definition, DefinitionTarget, FileSet, ResolveError,
};
use noir_lsp::text::{Position, Range, Span};

const MAIN: &str = "fn foo(x: Field) -> Field {\n    x\n}\n\nfn main() {\n    let _ = foo(1);\n}\n";

fn loc(file: usize, start: usize, end: usize) -> Location {
    Location { file, span: Span { start, end } }
}

fn pos(line: u32, character: u32) -> Position {
    Position { line, character }
}

fn package() -> (FileSet, DefinitionIndex) {
    let mut files = FileSet::new();
    let main = files.add_file("src/main.nr".to_string(), MAIN);
    let lib = files.add_file("src/lib.nr".to_string(), "pub fn 黑() {}\n");
    let mut index = DefinitionIndex::new();
    // `foo` in the call `foo(1)` refers to the declaration `foo`
    index.add_reference(loc(main, 61, 64), loc(main, 3, 6));
    // `x` in the body refers to the parameter
    index.add_reference(loc(main, 32, 33), loc(main, 7, 8));
    // a reference into the second file
    index.add_reference(loc(main, 53, 54), loc(lib, 7, 10));
    (files, index)
}

#[test]
fn call_site_resolves_to_declaration() {
    let (files, index) = package();
    let path = "src/main.nr".to_string();
    let expected = DefinitionTarget { file: 0, range: Range { start: pos(0, 3), end: pos(0, 6) } };
    assert_eq!(resolve_definition(&files, &index, &path, &pos(5, 12)), Ok(Some(expected)));
    assert_eq!(resolve_definition(&files, &index, &path, &pos(5, 13)), Ok(Some(expected)));
    assert_eq!(resolve_definition(&files, &index, &path, &pos(5, 14)), Ok(Some(expected)));
    assert_eq!(
        resolve_definition(&files, &index, &path, &pos(1, 4)),
        Ok(Some(DefinitionTarget { file: 0, range: Range { start: pos(0, 7), end: pos(0, 8) } }))
    );
}

#[test]
fn definition_in_another_file_has_utf16_range() {
    let (files, index) = package();
    let path = "src/main.nr".to_string();
    assert_eq!(
        resolve_definition(&files, &index, &path, &pos(5, 4)),
        Ok(Some(DefinitionTarget { file: 1, range: Range { start: pos(0, 7), end: pos(0, 8) } }))
    );
    assert_eq!(files.path(1).map(|p| p.as_str()), Some("src/lib.nr"));
}

#[test]
fn whitespace_and_punctuation_have_no_definition() {
    let (files, index) = package();
    let path = "src/main.nr".to_string();
    assert_eq!(resolve_definition(&files, &index, &path, &pos(5, 0)), Ok(None));
    assert_eq!(resolve_definition(&files, &index, &path, &pos(5, 15)), Ok(None));
    assert_eq!(resolve_definition(&files, &index, &path, &pos(3, 0)), Ok(None));
}

#[test]
fn resolution_errors() {
    let (files, index) = package();
    let path = "src/main.nr".to_string();
    assert_eq!(
        resolve_definition(&files, &index, &"src/other.nr".to_string(), &pos(0, 0)),
        Err(ResolveError::FileNotIndexed)
    );
    assert_eq!(
        resolve_definition(&files, &index, &path, &pos(9, 0)),
        Err(ResolveError::InvalidPosition(CodecError::LineOutOfRange { requested: 9, max: 8 }))
    );
    assert_eq!(
        resolve_definition(&files, &index, &path, &pos(1, 6)),
        Err(ResolveError::InvalidPosition(CodecError::ColumnOutOfRange { requested: 6, max: 5 }))
    );
}

#[test]
fn unresolvable_targets_are_errors() {
    let (files, _) = package();
    let path = "src/main.nr".to_string();
    let mut index = DefinitionIndex::new();
    index.add_reference(loc(0, 0, 2), loc(7, 0, 1));
    index.add_reference(loc(1, 0, 3), loc(1, 8, 9));
    assert_eq!(
        resolve_definition(&files, &index, &path, &pos(0, 1)),
        Err(ResolveError::TargetFileUnresolvable)
    );
    let lib = "src/lib.nr".to_string();
    assert_eq!(
        resolve_definition(&files, &index, &lib, &pos(0, 1)),
        Err(ResolveError::InvalidTargetSpan(CodecError::InvalidByteBoundary { given: 8 }))
    );
}

#[test]
fn earlier_reference_wins_where_spans_overlap() {
    let mut index = DefinitionIndex::new();
    index.add_reference(loc(0, 10, 20), loc(0, 1, 2));
    index.add_reference(loc(0, 12, 14), loc(0, 3, 4));
    assert_eq!(index.definition_at(0, 13), Some(loc(0, 1, 2)));
    assert_eq!(index.definition_at(0, 20), None);
    assert_eq!(index.definition_at(1, 13), None);
    assert_eq!(index.definition_at(0, 10), Some(loc(0, 1, 2)));
}

#[test]
fn adding_a_known_path_keeps_its_id() {
    let mut files = FileSet::new();
    assert_eq!(files.add_file("a.nr".to_string(), "x"), 0);
    assert_eq!(files.add_file("b.nr".to_string(), "y"), 1);
    assert_eq!(files.add_file("a.nr".to_string(), "z\nz"), 0);
    assert_eq!(files.file_id(&"b.nr".to_string()), Some(1));
    assert_eq!(files.file_id(&"c.nr".to_string()), None);
    assert_eq!(files.text(0).map(|t| t.line_count()), Some(1));
    assert!(files.text(2).is_none());
}

#[test]
fn concurrent_resolutions_share_one_build() {
    let mut cache = CompilationCache::new();
    let root = "/work/pkg".to_string();
    assert_eq!(cache.begin(&root), BuildStatus::Started);
    assert_eq!(cache.begin(&root), BuildStatus::InFlight);
    assert!(cache.get(&root).is_none());
    let mut index = DefinitionIndex::new();
    index.add_reference(loc(0, 1, 2), loc(0, 5, 6));
    cache.finish(&root, Some(index));
    assert_eq!(cache.begin(&root), BuildStatus::Cached);
    assert_eq!(cache.get(&root).and_then(|ix| ix.definition_at(0, 1)), Some(loc(0, 5, 6)));
}

#[test]
fn failed_build_is_not_cached() {
    let mut cache = CompilationCache::new();
    let root = "/work/pkg".to_string();
    assert_eq!(cache.begin(&root), BuildStatus::Started);
    cache.finish(&root, None);
    assert!(cache.get(&root).is_none());
    assert_eq!(cache.begin(&root), BuildStatus::Started);
}

#[test]
fn packages_build_independently() {
    let mut cache = CompilationCache::new();
    let a = "/work/a".to_string();
    let b = "/work/b".to_string();
    assert_eq!(cache.begin(&a), BuildStatus::Started);
    assert_eq!(cache.begin(&b), BuildStatus::Started);
    cache.finish(&b, Some(DefinitionIndex::new()));
    assert_eq!(cache.begin(&a), BuildStatus::InFlight);
    assert_eq!(cache.begin(&b), BuildStatus::Cached);
    cache.finish(&a, None);
    assert_eq!(cache.begin(&b), BuildStatus::Cached);
    assert_eq!(cache.begin(&a), BuildStatus::Started);
}

#[test]
fn only_file_uris_name_local_files() {
    assert_eq!(
        file_path_of_uri("file", Some("/work/src/main.nr".to_string())),
        Ok("/work/src/main.nr".to_string())
    );
    assert_eq!(
        file_path_of_uri("https", Some("/work/src/main.nr".to_string())),
        Err(ResolveError::InvalidUri)
    );
    assert_eq!(file_path_of_uri("file", None), Err(ResolveError::InvalidUri));
}
