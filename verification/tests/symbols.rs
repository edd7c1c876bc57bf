use context_brain::indexer::symbol_extractor::{
    abbreviate_kind, extract_inner_symbols, extract_symbols, ExtractError, Symbol, SymbolKind,
};

fn names(symbols: &[Symbol]) -> Vec<&str> {
    symbols.iter().map(|s| s.name.as_str()).collect()
}

fn places(symbols: &[Symbol]) -> Vec<(&str, usize, usize)> {
    symbols.iter().map(|s| (s.name.as_str(), s.start_line, s.end_line)).collect()
}

#[test]
fn test_js_symbol_extraction() {
    let source = r#"
function greet(name) {
    return "hello " + name;
}

class UserService {
    constructor() {}
}

const helper = (x) => x * 2;
"#;
    let symbols = extract_symbols(source, "js").unwrap();
    let names = names(&symbols);
    assert!(names.contains(&"greet"), "missing 'greet' in {:?}", names);
    assert!(names.contains(&"UserService"), "missing 'UserService' in {:?}", names);
    assert!(names.contains(&"helper"), "missing 'helper' in {:?}", names);
}

#[test]
fn test_ts_symbol_extraction() {
    let source = r#"
export interface Config { host: string; }
export type UserId = string;
export enum Status { Active, Inactive }
export function process(c: Config): void {}
"#;
    let symbols = extract_symbols(source, "ts").unwrap();
    let names = names(&symbols);
    assert!(names.contains(&"Config"), "missing 'Config' in {:?}", names);
    assert!(names.contains(&"UserId"), "missing 'UserId' in {:?}", names);
    assert!(names.contains(&"Status"), "missing 'Status' in {:?}", names);
    assert!(names.contains(&"process"), "missing 'process' in {:?}", names);
}

#[test]
fn test_python_symbol_extraction() {
    let source = r#"
def hello(name):
    return f"hello {name}"

class Database:
    def __init__(self):
        pass
"#;
    let symbols = extract_symbols(source, "py").unwrap();
    let names = names(&symbols);
    assert!(names.contains(&"hello"), "missing 'hello' in {:?}", names);
    assert!(names.contains(&"Database"), "missing 'Database' in {:?}", names);
}

#[test]
fn test_rust_symbol_extraction() {
    let source = r#"
pub fn process() -> Result<()> { Ok(()) }
pub struct Config { host: String }
pub enum Status { Active, Inactive }
pub trait Handler { fn handle(&self); }
"#;
    let symbols = extract_symbols(source, "rs").unwrap();
    let names = names(&symbols);
    assert!(names.contains(&"process"), "missing 'process' in {:?}", names);
    assert!(names.contains(&"Config"), "missing 'Config' in {:?}", names);
    assert!(names.contains(&"Status"), "missing 'Status' in {:?}", names);
    assert!(names.contains(&"Handler"), "missing 'Handler' in {:?}", names);
}

#[test]
fn test_go_symbol_extraction() {
    let source = r#"
package main

func Hello(name string) string { return "hello " + name }

type Config struct { Host string }
"#;
    match extract_symbols(source, "go") {
        Ok(symbols) => {
            let names = names(&symbols);
            assert!(names.contains(&"Hello"), "missing 'Hello' in {:?}", names);
            assert!(names.contains(&"Config"), "missing 'Config' in {:?}", names);
        }
        Err(e) if e.message().contains("Incompatible language version") => {
            println!("Skipping Go test: {}", e.message());
        }
        Err(e) => panic!("Unexpected error: {}", e.message()),
    }
}

#[test]
fn test_unsupported_language_returns_error() {
    assert!(extract_symbols("fn main() {}", "xyz").is_err());
}

#[test]
fn test_empty_source_returns_empty() {
    let symbols = extract_symbols("", "js").unwrap();
    assert!(symbols.is_empty());
}

#[test]
fn the_error_names_the_extension() {
    match extract_symbols("fn main() {}", "xyz") {
        Err(ExtractError::UnsupportedLanguage { extension }) => assert_eq!(extension, "xyz"),
        _ => panic!("expected an unsupported language"),
    }
    let e = extract_symbols("", "xyz").unwrap_err();
    assert_eq!(e.message(), "Unsupported language: .xyz");
}

#[test]
fn symbols_have_lines_kind_and_signature() {
    let source = "/// Doc.\nfn add(a: u32) -> u32 {\n    a + 1\n}\n\nstruct Größe { x: u8 }\n";
    let symbols = extract_symbols(source, "rs").unwrap();
    let add = symbols.iter().find(|s| s.name == "add").unwrap();
    assert_eq!(add.kind, SymbolKind::Function);
    assert_eq!(add.start_line, 2);
    assert_eq!(add.end_line, 4);
    assert_eq!(add.signature, "fn add(a: u32) -> u32 {");
    assert_eq!(add.code, "fn add(a: u32) -> u32 {\n    a + 1\n}");
    let size = symbols.iter().find(|s| s.name == "Größe").unwrap();
    assert_eq!(size.kind, SymbolKind::Struct);
    assert_eq!(size.start_line, 6);
}

#[test]
fn c_and_cpp_have_symbols() {
    let c = extract_symbols("int main(void) {\n    return 0;\n}\n", "c").unwrap();
    assert!(names(&c).contains(&"main"), "{:?}", names(&c));
    let cpp = extract_symbols("struct Shape {\n    int sides;\n};\nint *find(Shape s) { return nullptr; }\n", "cpp").unwrap();
    assert_eq!(names(&cpp), vec!["Shape", "find"]);
}

#[test]
fn inner_symbols_are_one_per_line() {
    let code = "function outer() {\n  const a = () => 1;\n  const b = function () { return 2; };\n  app.get('/users', (req) => req);\n}\n";
    let symbols = extract_inner_symbols(code, 10);
    assert_eq!(places(&symbols), vec![("outer", 10, 14), ("a", 11, 11), ("b", 12, 12)]);
    for (i, s) in symbols.iter().enumerate() {
        for t in &symbols[i + 1..] {
            assert!(s.start_line < t.start_line);
        }
        assert!(s.start_line >= 10);
    }
}

#[test]
fn kinds_have_names() {
    assert_eq!(SymbolKind::AsyncFunction.label(), "async function");
    assert_eq!(SymbolKind::Constant.label(), "const");
    assert_eq!(abbreviate_kind(SymbolKind::Function.label()), SymbolKind::Function.short());
    assert_eq!(abbreviate_kind("something else"), "something else");
}

#[test]
fn inner_symbols_of_the_tree_span_their_lines() {
    let code = "const load = () => {\n  go();\n};\nuseEffect(() => {\n  load();\n});\nif (x) {\n  function late() {\n  }\n}\nconst [n, setN] = useState(0);\n";
    let symbols = extract_inner_symbols(code, 10);
    assert_eq!(
        places(&symbols),
        vec![
            ("load", 10, 12),
            ("useEffect(...)", 13, 15),
            ("late", 17, 18),
            ("[n, setN] = useState(...)", 20, 20),
        ]
    );
    assert_eq!(symbols[0].signature, "const load = () => {");
}

#[test]
fn every_text_with_a_grammar_has_symbols() {
    for ext in ["js", "jsx", "mjs", "cjs", "ts", "tsx", "py", "pyi", "rs", "go", "c", "h", "cpp", "hpp"] {
        for source in ["", "\u{feff}", "}{ )(", "\u{0}", "größe = \"\u{1f600}\"\r\n\t\u{2003}x", "`${"] {
            assert!(extract_symbols(source, ext).is_ok(), "{:?} as {}", source, ext);
        }
    }
}

#[test]
fn lines_of_symbols_count_line_feeds() {
    let source = "// ä\r\n\n\u{1f600}\nfunction f() {\r\n}\n\nfunction g() {}";
    let symbols = extract_symbols(source, "js").unwrap();
    let found: Vec<(&str, usize, usize)> =
        places(&symbols).into_iter().filter(|p| p.0 == "f" || p.0 == "g").collect();
    assert_eq!(found, vec![("f", 4, 5), ("g", 7, 7)]);
}
