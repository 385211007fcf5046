//! Dependency resolution, module keys, the visited set and output paths.

use manifestpp::orchestrate::depth_schedule;
use manifestpp::resolver::{
    collect_imports, filter_source_files, output_path, parse_import_line, resolve_import_exec,
    with_py_extension,
};
use manifestpp::visited::{module_key, VisitedSet};
use manifestpp::MAX_DEPTH;

#[test]
fn empty_text_has_no_imports() {
    let imports = collect_imports(&Vec::new(), &b"m.py".to_vec());
    assert!(imports.is_empty());
}

#[test]
fn plain_import_resolves_beside_document() {
    let text = b"import os\nx = 1\n".to_vec();
    let path = b"src/main.py".to_vec();
    let imports = collect_imports(&text, &path);
    assert_eq!(imports, vec![b"src/os".to_vec()]);
}

#[test]
fn from_import_resolves_beside_document() {
    let text = b"from helpers import thing\n".to_vec();
    let path = b"src/main.py".to_vec();
    let imports = collect_imports(&text, &path);
    assert_eq!(imports, vec![b"src/helpers".to_vec()]);
}

#[test]
fn dotted_import_resolves_from_working_root() {
    let text = b"import pkg.sub.mod\n".to_vec();
    let path = b"src/main.py".to_vec();
    let imports = collect_imports(&text, &path);
    assert_eq!(imports, vec![b"pkg/sub/mod".to_vec()]);
}

#[test]
fn root_document_import_is_bare() {
    let text = b"import util".to_vec();
    let path = b"main.py".to_vec();
    let imports = collect_imports(&text, &path);
    assert_eq!(imports, vec![b"util".to_vec()]);
}

#[test]
fn root_directory_document_resolves_beside_root() {
    // The parent of "/main.py" is the root directory itself, and the
    // candidate is the directory joined to the name by a separator.
    let text = b"import util\n".to_vec();
    let path = b"/main.py".to_vec();
    let imports = collect_imports(&text, &path);
    assert_eq!(imports, vec![b"//util".to_vec()]);
}

#[test]
fn imports_collected_in_document_order() {
    let text = b"import one\nprint(1)\nfrom two import x\r\nimport a.b\n\n".to_vec();
    let path = b"d/f.py".to_vec();
    let imports = collect_imports(&text, &path);
    assert_eq!(
        imports,
        vec![b"d/one".to_vec(), b"d/two".to_vec(), b"a/b".to_vec()]
    );
}

#[test]
fn non_import_lines_yield_nothing() {
    let text = b"x = 1\n  import_spaced = 2\nimporter os\n".to_vec();
    let path = b"m.py".to_vec();
    let imports = collect_imports(&text, &path);
    assert!(imports.is_empty());
}

#[test]
fn keyword_without_module_name_is_skipped() {
    let text = b"import\nfrom\n".to_vec();
    let path = b"m.py".to_vec();
    let imports = collect_imports(&text, &path);
    assert!(imports.is_empty());
}

#[test]
fn indented_import_still_counts() {
    let line = b"   import   dep   ".to_vec();
    let path = b"a/b.py".to_vec();
    let r = parse_import_line(&line, &path);
    assert_eq!(r, Some(b"a/dep".to_vec()));
}

#[test]
fn resolve_prefers_dots_over_document_directory() {
    let name = b"p.q".to_vec();
    let path = b"deep/dir/file.py".to_vec();
    assert_eq!(resolve_import_exec(&name, &path), b"p/q".to_vec());
}

#[test]
fn directory_expansion_keeps_only_source_files() {
    let entries = vec![
        b"d/a.py".to_vec(),
        b"d/readme.txt".to_vec(),
        b"d/b.py".to_vec(),
        b"d/.py".to_vec(),
        b"d/c.pyc".to_vec(),
    ];
    let kept = filter_source_files(&entries);
    assert_eq!(kept, vec![b"d/a.py".to_vec(), b"d/b.py".to_vec()]);
}

#[test]
fn candidate_file_gets_source_extension() {
    assert_eq!(with_py_extension(&b"src/os".to_vec()), b"src/os.py".to_vec());
}

#[test]
fn module_key_strips_extension() {
    let key = module_key(3, &b"src/os.py".to_vec());
    assert_eq!(key.depth, 3);
    assert_eq!(key.path, b"src/os".to_vec());
}

#[test]
fn visited_set_marks_each_key_once() {
    let mut visited = VisitedSet::new();
    let first = visited.mark(module_key(5, &b"a/b.py".to_vec()));
    let second = visited.mark(module_key(5, &b"a/b.py".to_vec()));
    assert!(first);
    assert!(!second);
}

#[test]
fn visited_set_distinguishes_depths_and_paths() {
    let mut visited = VisitedSet::new();
    assert!(visited.mark(module_key(5, &b"a/b.py".to_vec())));
    assert!(visited.mark(module_key(4, &b"a/b.py".to_vec())));
    assert!(visited.mark(module_key(5, &b"a/c.py".to_vec())));
    assert!(!visited.mark(module_key(4, &b"a/b.py".to_vec())));
}

#[test]
fn output_path_mirrors_under_output_root() {
    assert_eq!(
        output_path(&b"sub/f.py".to_vec(), false),
        b"output/sub/f.py".to_vec()
    );
}

#[test]
fn output_path_overwrites_in_place() {
    assert_eq!(
        output_path(&b"output/sub/f.py".to_vec(), true),
        b"output/sub/f.py".to_vec()
    );
}

#[test]
fn schedule_descends_from_outer_depth() {
    let plan = depth_schedule(&b"main.py".to_vec());
    assert_eq!(plan.len(), MAX_DEPTH);
    assert_eq!(plan[0].depth, MAX_DEPTH);
    assert_eq!(plan[0].source, b"main.py".to_vec());
    assert!(!plan[0].overwrite);
    for (i, pass) in plan.iter().enumerate().skip(1) {
        assert_eq!(pass.depth, MAX_DEPTH - i);
        assert_eq!(pass.source, b"output/main.py".to_vec());
        assert!(pass.overwrite);
    }
}
