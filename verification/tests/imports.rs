use context_brain::collections::NameSet;
use context_brain::indexer::import_extractor::{
    build_import_counts, extract_imports, resolve_import,
};

fn set(names: &[&str]) -> NameSet {
    let list: Vec<String> = names.iter().map(|n| n.to_string()).collect();
    NameSet::from_list(&list)
}

fn file(path: &str, ext: &str, content: &str) -> (String, String, String) {
    (path.to_string(), ext.to_string(), content.to_string())
}

#[test]
fn test_js_import_extraction() {
    let source = r#"
import { foo } from './utils';
import bar from "../lib/bar";
const baz = require('./baz');
export { qux } from './qux';
import React from 'react';
"#;
    let imports = extract_imports(source, "js");
    assert!(imports.contains(&"./utils".to_string()), "missing './utils' in {:?}", imports);
    assert!(imports.contains(&"../lib/bar".to_string()), "missing '../lib/bar' in {:?}", imports);
    assert!(imports.contains(&"./baz".to_string()), "missing './baz' in {:?}", imports);
    assert!(imports.contains(&"./qux".to_string()), "missing './qux' in {:?}", imports);
    assert!(imports.contains(&"react".to_string()), "missing 'react' in {:?}", imports);
}

#[test]
fn test_python_import_extraction() {
    let imports = extract_imports(
        "from foo.bar import baz\nimport os, sys\nimport json as j\n", "py"
    );
    assert!(imports.contains(&"foo.bar".to_string()));
    assert!(imports.contains(&"os".to_string()));
    assert!(imports.contains(&"sys".to_string()));
    assert!(imports.contains(&"json".to_string()));
}

#[test]
fn test_rust_import_extraction() {
    let imports = extract_imports("use crate::db::schema;\nmod tools;\n", "rs");
    assert!(imports.contains(&"db".to_string()), "missing 'db' in {:?}", imports);
    assert!(imports.contains(&"tools".to_string()), "missing 'tools' in {:?}", imports);
}

#[test]
fn test_c_include_extraction() {
    let imports = extract_imports(
        "#include \"header.h\"\n#include <stdio.h>\n#include \"utils/math.h\"\n", "c"
    );
    assert!(imports.contains(&"header.h".to_string()));
    assert!(imports.contains(&"utils/math.h".to_string()));
    // System includes should NOT be extracted
    assert!(!imports.iter().any(|i| i.contains("stdio")));
}

#[test]
fn test_import_resolution_js() {
    let known = set(&["src/utils.ts", "src/lib/bar.js"]);
    let counts = build_import_counts(
        &[file("src/main.ts", "ts", "import { foo } from './utils';\nimport bar from './lib/bar';")],
        &known,
    );
    assert_eq!(counts.get("src/utils.ts").unwrap_or(0), 1);
    assert_eq!(counts.get("src/lib/bar.js").unwrap_or(0), 1);
}

#[test]
fn test_import_counts_accumulate() {
    let known = set(&["src/shared.ts"]);
    let files = vec![
        file("src/a.ts", "ts", "import x from './shared';"),
        file("src/b.ts", "ts", "import y from './shared';"),
        file("src/c.ts", "ts", "import z from './shared';"),
    ];
    let counts = build_import_counts(&files, &known);
    assert_eq!(counts.get("src/shared.ts").unwrap_or(0), 3);
}

#[test]
fn test_js_imports_skip_comments() {
    let source = r#"
// import { hidden } from './secret';
/* import { also_hidden } from './other'; */
import { real } from './utils';
"#;
    let imports = extract_imports(source, "js");
    assert!(imports.contains(&"./utils".to_string()));
    assert!(!imports.iter().any(|i| i.contains("secret")));
    assert!(!imports.iter().any(|i| i.contains("other")));
}

#[test]
fn test_python_imports_skip_comments() {
    let source = "# import hidden\nimport real_module\n";
    let imports = extract_imports(source, "py");
    assert!(imports.contains(&"real_module".to_string()));
    assert!(!imports.iter().any(|i| i.contains("hidden")));
}

#[test]
fn a_file_counts_once_for_each_other_file_that_imports_it() {
    let known = set(&["src/a.ts", "src/shared.ts"]);
    let files = vec![
        file("src/a.ts", "ts", "import x from './shared';\nimport y from './shared';"),
        file("src/shared.ts", "ts", "import self from './shared';"),
    ];
    let counts = build_import_counts(&files, &known);
    assert_eq!(counts.get("src/shared.ts"), Some(1));
    assert_eq!(counts.get("src/a.ts"), None);
}

#[test]
fn unknown_files_are_not_counted() {
    let known = set(&["src/a.ts"]);
    let counts = build_import_counts(&[file("src/b.ts", "ts", "import x from './missing';")], &known);
    assert_eq!(counts.len(), 0);
}

#[test]
fn go_and_unknown_languages() {
    let source = "import (\n\t\"fmt\"\n\t\"example.com/app/store\"\n)\n";
    let imports = extract_imports(source, "go");
    assert!(imports.iter().any(|i| i.contains("store")), "{:?}", imports);
    assert!(extract_imports("import x", "txt").is_empty());
}

#[test]
fn go_packages_are_found_by_their_directory() {
    let known = set(&["pkg/auth/login.go", "pkg/oauth/login.go", "main.go"]);
    assert_eq!(
        resolve_import("main.go", "myproject/pkg/auth", "go", &known),
        Some("pkg/auth/login.go".to_string())
    );
    assert_eq!(resolve_import("main.go", "fmt", "go", &known), None);
}
