use forgeindex::parser::{
    detect_language, flatten_symbols, language_for_extension, parse_file, symbol_source, ParseError, ParsedFile, Symbol,
    SymbolKind, Visibility,
};
use std::path::Path;

fn parse(name: &str, source: &str) -> ParsedFile {
    match parse_file(Path::new(name), source) {
        Ok(p) => p,
        Err(e) => panic!("{}", e.message()),
    }
}

fn find<'a>(symbols: &'a [Symbol], name: &str) -> &'a Symbol {
    symbols.iter().find(|s| s.name == name).unwrap_or_else(|| panic!("missing {name}"))
}

#[test]
fn test_detect_language() {
    assert_eq!(detect_language(Path::new("foo.py")), Some("python".into()));
    assert_eq!(detect_language(Path::new("bar.ts")), Some("typescript".into()));
    assert_eq!(detect_language(Path::new("baz.rs")), Some("rust".into()));
    assert_eq!(detect_language(Path::new("qux.go")), Some("go".into()));
    assert_eq!(detect_language(Path::new("main.java")), Some("java".into()));
    assert_eq!(detect_language(Path::new("lib.c")), Some("c".into()));
    assert_eq!(detect_language(Path::new("lib.cpp")), Some("cpp".into()));
    assert_eq!(detect_language(Path::new("gem.rb")), Some("ruby".into()));
    assert_eq!(detect_language(Path::new("readme.md")), None);
}

#[test]
fn extensions_name_their_languages() {
    assert_eq!(language_for_extension("tsx"), Some("tsx".to_string()));
    assert_eq!(language_for_extension("mjs"), Some("javascript".to_string()));
    assert_eq!(language_for_extension("hpp"), Some("cpp".to_string()));
    assert_eq!(language_for_extension("h"), Some("c".to_string()));
    assert_eq!(language_for_extension("swift"), Some("swift".to_string()));
    assert_eq!(language_for_extension("txt"), None);
    assert_eq!(detect_language(Path::new("Makefile")), None);
}

#[test]
fn symbol_kinds_read_and_write_their_names() {
    assert_eq!(SymbolKind::from_str_opt("interface"), Some(SymbolKind::Interface));
    assert_eq!(SymbolKind::from_str_opt("module"), Some(SymbolKind::Module));
    assert_eq!(SymbolKind::from_str_opt("Class"), None);
    assert_eq!(SymbolKind::Const.as_str(), "const");
    assert_eq!(Visibility::Internal.as_str(), "internal");
}

#[test]
fn unsupported_and_swift_files_are_refused() {
    match parse_file(Path::new("notes.txt"), "hello") {
        Err(ParseError::UnsupportedFile(p)) => assert_eq!(p, "notes.txt"),
        other => panic!("unexpected {:?}", other.map(|p| p.path)),
    }
    match parse_file(Path::new("app.swift"), "let x = 1") {
        Err(e) => assert_eq!(e.message(), "Swift parsing not yet supported"),
        Ok(_) => panic!("swift parsed"),
    }
}

const PYTHON: &str = r#"import os, sys as system
from pkg.util import helper

MAX_RETRIES = 3
lower_case = 4

class Application:
    """Main application.

    More text."""
    def __init__(self):
        pass

    @staticmethod
    def run():
        return 1

def create_app():
    return Application()

def _private_helper():
    pass
"#;

#[test]
fn python_symbols_and_imports() {
    let parsed = parse("src\\main.py", PYTHON);
    assert_eq!(parsed.path, "src/main.py");
    assert_eq!(parsed.language, "python");
    let names: Vec<&str> = parsed.symbols.iter().map(|s| s.name.as_str()).collect();
    assert_eq!(names, vec!["MAX_RETRIES", "Application", "create_app", "_private_helper"]);

    let constant = find(&parsed.symbols, "MAX_RETRIES");
    assert_eq!(constant.kind, SymbolKind::Const);
    assert_eq!(constant.signature, "MAX_RETRIES = 3");

    let app = find(&parsed.symbols, "Application");
    assert_eq!(app.kind, SymbolKind::Class);
    assert_eq!(app.signature, "class Application:");
    assert_eq!(app.docstring.as_deref(), Some("Main application."));
    let methods: Vec<&str> = app.children.iter().map(|s| s.name.as_str()).collect();
    assert_eq!(methods, vec!["__init__", "run"]);
    assert_eq!(app.children[0].kind, SymbolKind::Method);
    assert_eq!(app.children[0].visibility, Visibility::Private);
    assert_eq!(app.children[1].visibility, Visibility::Public);

    let create = find(&parsed.symbols, "create_app");
    assert_eq!(create.kind, SymbolKind::Function);
    assert_eq!(create.signature, "def create_app():");
    assert_eq!(create.visibility, Visibility::Public);
    assert_eq!(find(&parsed.symbols, "_private_helper").visibility, Visibility::Private);

    assert_eq!(parsed.imports.len(), 2);
    assert_eq!(parsed.imports[0].raw_text, "import os, sys as system");
    assert_eq!(parsed.imports[0].imported_names, vec!["os", "sys"]);
    assert_eq!(parsed.imports[0].source_module.as_deref(), Some("os"));
    assert_eq!(parsed.imports[1].source_module.as_deref(), Some("pkg.util"));
    assert!(parsed.imports[1].imported_names.contains(&"helper".to_string()));

    let flat: Vec<&str> = flatten_symbols(&parsed.symbols).iter().map(|s| s.name.as_str()).collect();
    assert_eq!(flat, vec!["MAX_RETRIES", "Application", "__init__", "run", "create_app", "_private_helper"]);
    assert_eq!(symbol_source(create, PYTHON), "def create_app():\n    return Application()");
}

#[test]
fn parsing_is_deterministic_and_hashes_the_source() {
    let a = parse("a.py", PYTHON);
    let b = parse("a.py", PYTHON);
    assert_eq!(a.hash, b.hash);
    let c = parse("a.py", "x = 1\n");
    assert_ne!(a.hash, c.hash);
    assert_eq!(c.hash, xxhash_rust::xxh3::xxh3_64(b"x = 1\n"));
}

const TYPESCRIPT: &str = r#"import { foo } from './lib';
export interface User {
  name: string;
}
export type Id = string;
export function greet(u: User): string {
  return u.name;
}
class Service {
  count = 1;
  run(): number {
    return this.count;
  }
}
const LIMIT = 10;
let counter = 0;
"#;

#[test]
fn typescript_symbols_and_exports() {
    let parsed = parse("types.ts", TYPESCRIPT);
    let user = find(&parsed.symbols, "User");
    assert_eq!(user.kind, SymbolKind::Interface);
    assert_eq!(user.visibility, Visibility::Public);
    assert_eq!(find(&parsed.symbols, "Id").kind, SymbolKind::Type);
    let greet = find(&parsed.symbols, "greet");
    assert_eq!(greet.kind, SymbolKind::Function);
    assert_eq!(greet.visibility, Visibility::Public);
    assert_eq!(greet.signature, "function greet(u: User): string");
    let service = find(&parsed.symbols, "Service");
    assert_eq!(service.kind, SymbolKind::Class);
    assert_eq!(service.visibility, Visibility::Internal);
    let members: Vec<&str> = service.children.iter().map(|s| s.name.as_str()).collect();
    assert_eq!(members, vec!["count", "run"]);
    assert_eq!(find(&parsed.symbols, "LIMIT").kind, SymbolKind::Const);
    assert_eq!(find(&parsed.symbols, "counter").kind, SymbolKind::Function);
    assert_eq!(parsed.imports.len(), 1);
    assert_eq!(parsed.imports[0].source_module.as_deref(), Some("./lib"));
}

#[test]
fn javascript_has_no_interfaces() {
    let parsed = parse("a.js", "function f() {}\nclass A {}\n");
    let names: Vec<&str> = parsed.symbols.iter().map(|s| s.name.as_str()).collect();
    assert_eq!(names, vec!["f", "A"]);
}

const RUST: &str = r#"use std::collections::HashMap;

pub struct Point {
    x: i32,
}

enum Color {
    Red,
}

pub trait Shape {
    fn area(&self) -> u32 {
        0
    }
}

impl Point {
    pub fn new() -> Self {
        Point { x: 0 }
    }
}

pub const MAX: u32 = 5;
type Alias = u32;

pub fn entry() {}
"#;

#[test]
fn rust_items_and_impl_methods() {
    let parsed = parse("lib.rs", RUST);
    let names: Vec<&str> = parsed.symbols.iter().map(|s| s.name.as_str()).collect();
    assert_eq!(names, vec!["Point", "Color", "Shape", "Point::new", "MAX", "Alias", "entry"]);
    let point = find(&parsed.symbols, "Point");
    assert_eq!(point.kind, SymbolKind::Type);
    assert_eq!(point.visibility, Visibility::Public);
    assert_eq!(point.signature, "pub struct Point {");
    assert_eq!(find(&parsed.symbols, "Color").visibility, Visibility::Private);
    let shape = find(&parsed.symbols, "Shape");
    assert_eq!(shape.kind, SymbolKind::Interface);
    assert_eq!(shape.children.len(), 1);
    assert_eq!(shape.children[0].name, "area");
    let new = find(&parsed.symbols, "Point::new");
    assert_eq!(new.kind, SymbolKind::Method);
    assert_eq!(new.signature, "pub fn new() -> Self");
    assert_eq!(find(&parsed.symbols, "Alias").signature, "type Alias = u32;");
    assert_eq!(parsed.imports.len(), 1);
    assert_eq!(parsed.imports[0].source_module.as_deref(), Some("std::collections::HashMap"));
}

#[test]
fn rust_visibility_is_the_items_own_modifier() {
    let parsed = parse("v.rs", "struct S { pub x: i32 }\npub(crate) fn f() {}\nfn g() { let pub_ = 1; }\n");
    assert_eq!(find(&parsed.symbols, "S").visibility, Visibility::Private);
    assert_eq!(find(&parsed.symbols, "f").visibility, Visibility::Public);
    assert_eq!(find(&parsed.symbols, "g").visibility, Visibility::Private);
}

const GO: &str = r#"package main

import "fmt"
import "os"

type Router struct {
	name string
}

type Handler interface {
	Serve()
}

func (r *Router) Handle() {
	fmt.Println(r.name)
}

func helper() {}
"#;

#[test]
fn go_types_methods_and_imports() {
    let parsed = parse("main.go", GO);
    let names: Vec<&str> = parsed.symbols.iter().map(|s| s.name.as_str()).collect();
    assert_eq!(names, vec!["Router", "Handler", "Router.Handle", "helper"]);
    assert_eq!(find(&parsed.symbols, "Router").kind, SymbolKind::Type);
    assert_eq!(find(&parsed.symbols, "Handler").kind, SymbolKind::Interface);
    assert_eq!(find(&parsed.symbols, "Router.Handle").visibility, Visibility::Public);
    assert_eq!(find(&parsed.symbols, "helper").visibility, Visibility::Private);
    assert_eq!(parsed.imports.len(), 2);
    assert_eq!(parsed.imports[0].imported_names, vec!["fmt"]);
    assert_eq!(parsed.imports[1].source_module.as_deref(), Some("os"));
}

const JAVA: &str = r#"import java.util.List;

public class Store {
    public static final int LIMIT = 3;
    private int count;

    public Store() {}

    private void reset() {}
}
"#;

#[test]
fn java_classes_members_and_imports() {
    let parsed = parse("Store.java", JAVA);
    let store = find(&parsed.symbols, "Store");
    assert_eq!(store.kind, SymbolKind::Class);
    assert_eq!(store.visibility, Visibility::Public);
    let members: Vec<&str> = store.children.iter().map(|s| s.name.as_str()).collect();
    assert_eq!(members, vec!["LIMIT", "Store", "reset"]);
    assert_eq!(store.children[0].kind, SymbolKind::Const);
    assert_eq!(store.children[2].visibility, Visibility::Private);
    assert_eq!(parsed.imports[0].source_module.as_deref(), Some("java.util.List"));
    assert_eq!(parsed.imports[0].imported_names, vec!["List"]);
}

const C_SOURCE: &str = r#"#include <stdio.h>
#include "util.h"

const int LIMIT = 10;

struct point {
    int x;
};

typedef unsigned long size_type;

static int *make(int n) {
    return 0;
}
"#;

#[test]
fn c_declarations_and_includes() {
    let parsed = parse("lib.c", C_SOURCE);
    let names: Vec<&str> = parsed.symbols.iter().map(|s| s.name.as_str()).collect();
    assert_eq!(names, vec!["LIMIT", "point", "size_type", "make"]);
    assert_eq!(find(&parsed.symbols, "make").kind, SymbolKind::Function);
    assert_eq!(find(&parsed.symbols, "size_type").kind, SymbolKind::Type);
    let modules: Vec<Option<String>> = parsed.imports.iter().map(|i| i.source_module.clone()).collect();
    assert_eq!(modules, vec![Some("stdio.h".to_string()), Some("util.h".to_string())]);
}

const CPP: &str = r#"namespace app {
class Widget {
public:
    void draw() {}
};
int run() { return 0; }
}
"#;

#[test]
fn cpp_namespaces_classes_and_methods() {
    let parsed = parse("w.cpp", CPP);
    let names: Vec<&str> = parsed.symbols.iter().map(|s| s.name.as_str()).collect();
    assert_eq!(names, vec!["app", "Widget", "run"]);
    assert_eq!(find(&parsed.symbols, "app").kind, SymbolKind::Module);
    assert_eq!(find(&parsed.symbols, "app").signature, "namespace app");
    let widget = find(&parsed.symbols, "Widget");
    assert_eq!(widget.signature, "class Widget");
    assert_eq!(widget.kind, SymbolKind::Class);
}

const RUBY: &str = r#"require 'json'

module Tools
end

class Greeter
  def hello
    'hi'
  end
end

def self.build
end

def top
end
"#;

#[test]
fn ruby_classes_modules_and_requires() {
    let parsed = parse("gem.rb", RUBY);
    let names: Vec<&str> = parsed.symbols.iter().map(|s| s.name.as_str()).collect();
    assert_eq!(names, vec!["Tools", "Greeter", "self.build", "top"]);
    let greeter = find(&parsed.symbols, "Greeter");
    assert_eq!(greeter.children.len(), 1);
    assert_eq!(greeter.children[0].name, "hello");
    assert_eq!(parsed.imports.len(), 1);
    assert_eq!(parsed.imports[0].source_module.as_deref(), Some("json"));
}

#[test]
fn content_hash_is_the_xxh3_of_the_text() {
    assert_eq!(forgeindex::parser::content_hash("x = 1\n"), xxhash_rust::xxh3::xxh3_64(b"x = 1\n"));
    assert_ne!(forgeindex::parser::content_hash("a"), forgeindex::parser::content_hash("b"));
}

fn node(name: &str, children: Vec<Symbol>) -> Symbol {
    Symbol {
        name: name.to_string(),
        kind: SymbolKind::Class,
        visibility: Visibility::Public,
        signature: String::new(),
        docstring: None,
        byte_start: 0,
        byte_end: 0,
        children,
    }
}

#[test]
fn flattening_reaches_every_depth() {
    let forest = vec![node("a", vec![node("b", vec![node("c", vec![])])]), node("d", vec![])];
    let flat: Vec<&str> = flatten_symbols(&forest).iter().map(|s| s.name.as_str()).collect();
    assert_eq!(flat, vec!["a", "b", "c", "d"]);
}
