//! Project configuration: its sections, their defaults, where the files of
//! an index live, and the upgrade of language lists written by older versions.
use vstd::prelude::*;
use std::path::{Path, PathBuf};
use crate::parser::spec_path_text;
use crate::text::{str_eq, to_owned, views};

verus! {

#[verifier::external_type_specification]
#[verifier::external_body]
pub struct ExPath(Path);

#[verifier::external_type_specification]
#[verifier::external_body]
pub struct ExPathBuf(PathBuf);

/// The text of a path buffer, as `Path::to_string_lossy` gives it.
pub uninterp spec fn spec_buf_text(p: PathBuf) -> Seq<char>;

/// The text of the path that `PathBuf::push` makes of a path with text
/// `base` and the component `part`.
pub uninterp spec fn spec_push_text(base: Seq<char>, part: Seq<char>) -> Seq<char>;

/// `Path::to_path_buf`: an owned copy of `p`, with the same text.
#[verifier::external_body]
fn path_buf(p: &Path) -> (r: PathBuf)
    ensures
        spec_buf_text(r) == spec_path_text(p),
{
    p.to_path_buf()
}

/// `PathBuf::push` of a component: the new text is named by
/// `spec_push_text` of the text before the call and the component.
#[verifier::external_body]
fn push_part(p: &mut PathBuf, part: &str)
    ensures
        spec_buf_text(*final(p)) == spec_push_text(spec_buf_text(*old(p)), part@),
{
    p.push(part)
}

/// The text of the directory, under a project root, that holds the index files.
pub open spec fn index_dir_text(root: &Path) -> Seq<char> {
    spec_push_text(spec_path_text(root), ".forgeindex"@)
}

pub open spec fn default_languages_spec() -> Seq<Seq<char>> {
    seq![
        "python"@,
        "typescript"@,
        "tsx"@,
        "javascript"@,
        "rust"@,
        "go"@,
        "java"@,
        "c"@,
        "cpp"@,
        "ruby"@,
    ]
}

/// The language list that versions without TSX support wrote by default.
pub open spec fn legacy_languages_spec() -> Seq<Seq<char>> {
    seq!["python"@, "typescript"@, "javascript"@, "rust"@, "go"@, "java"@, "c"@, "cpp"@, "ruby"@]
}

pub open spec fn default_exclude_patterns_spec() -> Seq<Seq<char>> {
    seq![
        "**/node_modules/**"@,
        "**/dist/**"@,
        "**/*.min.js"@,
        "**/target/**"@,
        "**/.git/**"@,
        "**/vendor/**"@,
        "**/build/**"@,
        "**/__pycache__/**"@,
        "**/.venv/**"@,
    ]
}

pub open spec fn default_hook_types_spec() -> Seq<Seq<char>> {
    seq!["post-commit"@, "post-checkout"@]
}

/// Owned copies of string slices, in order.
fn owned_all(items: &[&str]) -> (r: Vec<String>)
    ensures
        r@.len() == items@.len(),
        forall|i: int| 0 <= i < items@.len() ==> #[trigger] r@[i]@ == items@[i]@,
{
    let mut r: Vec<String> = Vec::new();
    let mut i: usize = 0;
    while i < items.len()
        invariant
            i <= items@.len(),
            r@.len() == i,
            forall|j: int| 0 <= j < i ==> #[trigger] r@[j]@ == items@[j]@,
        decreases items@.len() - i,
    {
        r.push(to_owned(items[i]));
        i = i + 1;
    }
    r
}

fn default_languages() -> (r: Vec<String>)
    ensures
        views(r@) == default_languages_spec(),
{
    let items = ["python", "typescript", "tsx", "javascript", "rust", "go", "java", "c", "cpp", "ruby"];
    let r = owned_all(&items);
    proof {
        assert(views(r@) =~= default_languages_spec());
    }
    r
}

fn default_exclude_patterns() -> (r: Vec<String>)
    ensures
        views(r@) == default_exclude_patterns_spec(),
{
    let items = [
        "**/node_modules/**",
        "**/dist/**",
        "**/*.min.js",
        "**/target/**",
        "**/.git/**",
        "**/vendor/**",
        "**/build/**",
        "**/__pycache__/**",
        "**/.venv/**",
    ];
    let r = owned_all(&items);
    proof {
        assert(views(r@) =~= default_exclude_patterns_spec());
    }
    r
}

fn default_hook_types() -> (r: Vec<String>)
    ensures
        views(r@) == default_hook_types_spec(),
{
    let items = ["post-commit", "post-checkout"];
    let r = owned_all(&items);
    proof {
        assert(views(r@) =~= default_hook_types_spec());
    }
    r
}

/// The whole configuration of a project.
#[derive(Clone, Debug)]
pub struct Config {
    pub index: IndexConfig,
    pub compression: CompressionConfig,
    pub watcher: WatcherConfig,
    pub git_hooks: GitHooksConfig,
    pub server: ServerConfig,
}

/// What gets indexed.
#[derive(Clone, Debug)]
pub struct IndexConfig {
    pub languages: Vec<String>,
    pub exclude_patterns: Vec<String>,
    pub include_tests: bool,
    pub max_file_size_kb: u64,
}

/// How context is compressed.
#[derive(Clone, Debug)]
pub struct CompressionConfig {
    pub default_token_budget: usize,
    pub skeleton_collapse_threshold_lines: usize,
    pub aggregate_imports: bool,
    pub strip_comments: bool,
    pub strip_docstrings_beyond_first_line: bool,
}

/// How file changes are watched.
#[derive(Clone, Debug)]
pub struct WatcherConfig {
    pub enabled: bool,
    pub debounce_ms: u64,
    pub respect_gitignore: bool,
}

/// Which git hooks keep the index fresh.
#[derive(Clone, Debug)]
pub struct GitHooksConfig {
    pub auto_install: bool,
    pub hook_types: Vec<String>,
}

/// How the tool server talks and logs.
#[derive(Clone, Debug)]
pub struct ServerConfig {
    pub transport: String,
    pub sse_port: u16,
    pub log_level: String,
    pub log_file: String,
}

impl IndexConfig {
    pub open spec fn is_default(self) -> bool {
        &&& views(self.languages@) == default_languages_spec()
        &&& views(self.exclude_patterns@) == default_exclude_patterns_spec()
        &&& !self.include_tests
        &&& self.max_file_size_kb == 512
    }
}

impl CompressionConfig {
    pub open spec fn is_default(self) -> bool {
        &&& self.default_token_budget == 4000
        &&& self.skeleton_collapse_threshold_lines == 3
        &&& self.aggregate_imports
        &&& self.strip_comments
        &&& self.strip_docstrings_beyond_first_line
    }
}

impl WatcherConfig {
    pub open spec fn is_default(self) -> bool {
        &&& self.enabled
        &&& self.debounce_ms == 200
        &&& self.respect_gitignore
    }
}

impl GitHooksConfig {
    pub open spec fn is_default(self) -> bool {
        &&& self.auto_install
        &&& views(self.hook_types@) == default_hook_types_spec()
    }
}

impl ServerConfig {
    pub open spec fn is_default(self) -> bool {
        &&& self.transport@ == "stdio"@
        &&& self.sse_port == 3945
        &&& self.log_level@ == "warn"@
        &&& self.log_file@ == ".forgeindex/forge.log"@
    }
}

impl Config {
    pub open spec fn is_default(self) -> bool {
        &&& self.index.is_default()
        &&& self.compression.is_default()
        &&& self.watcher.is_default()
        &&& self.git_hooks.is_default()
        &&& self.server.is_default()
    }
}

impl Default for IndexConfig {
    fn default() -> (c: Self)
        ensures
            c.is_default(),
    {
        IndexConfig {
            languages: default_languages(),
            exclude_patterns: default_exclude_patterns(),
            include_tests: false,
            max_file_size_kb: 512,
        }
    }
}

impl Default for CompressionConfig {
    fn default() -> (c: Self)
        ensures
            c.is_default(),
    {
        CompressionConfig {
            default_token_budget: 4000,
            skeleton_collapse_threshold_lines: 3,
            aggregate_imports: true,
            strip_comments: true,
            strip_docstrings_beyond_first_line: true,
        }
    }
}

impl Default for WatcherConfig {
    fn default() -> (c: Self)
        ensures
            c.is_default(),
    {
        WatcherConfig { enabled: true, debounce_ms: 200, respect_gitignore: true }
    }
}

impl Default for GitHooksConfig {
    fn default() -> (c: Self)
        ensures
            c.is_default(),
    {
        GitHooksConfig { auto_install: true, hook_types: default_hook_types() }
    }
}

impl Default for ServerConfig {
    fn default() -> (c: Self)
        ensures
            c.is_default(),
    {
        ServerConfig {
            transport: to_owned("stdio"),
            sse_port: 3945,
            log_level: to_owned("warn"),
            log_file: to_owned(".forgeindex/forge.log"),
        }
    }
}

impl Default for Config {
    fn default() -> (c: Self)
        ensures
            c.is_default(),
    {
        Config {
            index: IndexConfig::default(),
            compression: CompressionConfig::default(),
            watcher: WatcherConfig::default(),
            git_hooks: GitHooksConfig::default(),
            server: ServerConfig::default(),
        }
    }
}

/// The first position of `x` in `s`, if any.
pub open spec fn first_index(s: Seq<Seq<char>>, x: Seq<char>) -> Option<int>
    decreases s.len(),
{
    if s.len() == 0 {
        None
    } else {
        match first_index(s.drop_last(), x) {
            Some(i) => Some(i),
            None => if s.last() == x {
                Some(s.len() - 1)
            } else {
                None
            },
        }
    }
}

/// A language list after the upgrade: where it names TypeScript but not
/// TSX, `tsx` is added right after the first `typescript`.
pub open spec fn migrated_languages(langs: Seq<Seq<char>>) -> Seq<Seq<char>> {
    match first_index(langs, "typescript"@) {
        Some(i) => if langs.contains("tsx"@) {
            langs
        } else {
            langs.insert(i + 1, "tsx"@)
        },
        None => langs,
    }
}

proof fn lemma_first_index(s: Seq<Seq<char>>, x: Seq<char>)
    ensures
        first_index(s, x) matches Some(i) ==> 0 <= i < s.len() && s[i] == x && forall|j: int|
            0 <= j < i ==> s[j] != x,
        first_index(s, x) is None <==> !s.contains(x),
    decreases s.len(),
{
    if s.len() > 0 {
        lemma_first_index(s.drop_last(), x);
        if s.contains(x) && !s.drop_last().contains(x) {
            let w = choose|w: int| 0 <= w < s.len() && s[w] == x;
            if w < s.len() - 1 {
                assert(s.drop_last()[w] == x);
            }
        }
        if s.drop_last().contains(x) {
            let w = choose|w: int| 0 <= w < s.drop_last().len() && s.drop_last()[w] == x;
            assert(s[w] == x);
        }
        match first_index(s.drop_last(), x) {
            Some(i) => {
                assert forall|j: int| 0 <= j < i implies s[j] != x by {
                    assert(s.drop_last()[j] == s[j]);
                }
                assert(s.drop_last()[i] == s[i]);
            },
            None => {
                assert forall|j: int| 0 <= j < s.len() - 1 implies s[j] != x by {
                    assert(s.drop_last()[j] == s[j]);
                }
            },
        }
        if first_index(s, x) is None {
            assert forall|w: int| 0 <= w < s.len() implies s[w] != x by {
                if w < s.len() - 1 {
                    assert(s.drop_last()[w] == s[w]);
                }
            }
        }
    }
}

/// The first position of `x` in `v`, if any.
fn position_of(v: &Vec<String>, x: &str) -> (r: Option<usize>)
    ensures
        r matches Some(i) ==> first_index(views(v@), x@) == Some(i as int),
        r is None ==> first_index(views(v@), x@) is None,
{
    let ghost vs = views(v@);
    let mut i: usize = 0;
    while i < v.len()
        invariant
            i <= v@.len(),
            vs == views(v@),
            forall|j: int| 0 <= j < i ==> v@[j]@ != x@,
        decreases v@.len() - i,
    {
        if str_eq(v[i].as_str(), x) {
            proof {
                lemma_first_index(vs, x@);
                if let Some(k) = first_index(vs, x@) {
                    if k < i {
                        assert(vs[k] == v@[k]@);
                    }
                    if k > i {
                        assert(vs[i as int] == x@);
                    }
                }
            }
            return Some(i);
        }
        i = i + 1;
    }
    proof {
        lemma_first_index(vs, x@);
        assert forall|w: int| 0 <= w < vs.len() implies vs[w] != x@ by {
            assert(vs[w] == v@[w]@);
        }
    }
    None
}

impl IndexConfig {
    /// Upgrade a language list written before TSX had a language of its
    /// own: where `typescript` is listed and `tsx` is not, `tsx` is added
    /// right after the first `typescript`; any other list stays as it is.
    pub fn migrate_legacy_languages(&mut self)
        ensures
            views(final(self).languages@) == migrated_languages(views(old(self).languages@)),
            final(self).exclude_patterns@ == old(self).exclude_patterns@,
            final(self).include_tests == old(self).include_tests,
            final(self).max_file_size_kb == old(self).max_file_size_kb,
    {
        let ghost before = views(self.languages@);
        match position_of(&self.languages, "typescript") {
            Some(i) => {
                if position_of(&self.languages, "tsx").is_none() {
                    let n = self.languages.len();
                    proof {
                        lemma_first_index(before, "tsx"@);
                        lemma_first_index(before, "typescript"@);
                        assert(before.len() == n);
                    }
                    self.languages.insert(i + 1, to_owned("tsx"));
                    proof {
                        assert(views(self.languages@) =~= before.insert(i + 1, "tsx"@));
                    }
                } else {
                    proof {
                        lemma_first_index(before, "tsx"@);
                    }
                }
            },
            None => {},
        }
    }
}

impl Config {
    /// Where the configuration file of the project at `root` lives:
    /// `<root>/.forgeindex/config.toml`.
    pub fn config_path(root: &Path) -> (p: PathBuf)
        ensures
            spec_buf_text(p) == spec_push_text(index_dir_text(root), "config.toml"@),
    {
        let mut p = path_buf(root);
        push_part(&mut p, ".forgeindex");
        push_part(&mut p, "config.toml");
        p
    }

    /// Where the index database of the project at `root` lives:
    /// `<root>/.forgeindex/index.db`.
    pub fn db_path(root: &Path) -> (p: PathBuf)
        ensures
            spec_buf_text(p) == spec_push_text(index_dir_text(root), "index.db"@),
    {
        let mut p = path_buf(root);
        push_part(&mut p, ".forgeindex");
        push_part(&mut p, "index.db");
        p
    }

    /// Bring a configuration read from disk up to date with this version
    /// (see `IndexConfig::migrate_legacy_languages`).
    pub fn migrate(&mut self)
        ensures
            views(final(self).index.languages@) == migrated_languages(views(old(self).index.languages@)),
            final(self).index.exclude_patterns@ == old(self).index.exclude_patterns@,
            final(self).compression == old(self).compression,
            final(self).watcher == old(self).watcher,
            final(self).git_hooks == old(self).git_hooks,
            final(self).server == old(self).server,
    {
        self.index.migrate_legacy_languages();
    }
}

/// Upgrading the language list that older versions wrote by default gives
/// the current default list.
pub proof fn lemma_legacy_default_migrates_to_default()
    ensures
        migrated_languages(legacy_languages_spec()) == default_languages_spec(),
{
    let l = legacy_languages_spec();
    assert(first_index(l, "typescript"@) == Some(1int)) by {
        reveal_strlit("python");
        reveal_strlit("typescript");
        lemma_first_index(l, "typescript"@);
        assert("python"@.len() == 6);
        assert("typescript"@.len() == 10);
        assert(l[0] != "typescript"@);
        assert(l.contains("typescript"@)) by {
            assert(l[1] == "typescript"@);
        }
    }
    assert(!l.contains("tsx"@)) by {
        reveal_strlit("python");
        reveal_strlit("typescript");
        reveal_strlit("javascript");
        reveal_strlit("rust");
        reveal_strlit("go");
        reveal_strlit("java");
        reveal_strlit("c");
        reveal_strlit("cpp");
        reveal_strlit("ruby");
        reveal_strlit("tsx");
        assert forall|i: int| 0 <= i < l.len() implies l[i] != "tsx"@ by {
            assert(l[i].len() != 3 || l[i][0] != 't');
        }
    }
    assert(l.insert(2, "tsx"@) =~= default_languages_spec());
}

/// Upgrading twice is upgrading once.
pub proof fn lemma_migrate_idempotent(langs: Seq<Seq<char>>)
    ensures
        migrated_languages(migrated_languages(langs)) == migrated_languages(langs),
{
    let m = migrated_languages(langs);
    lemma_first_index(langs, "typescript"@);
    if let Some(i) = first_index(langs, "typescript"@) {
        if !langs.contains("tsx"@) {
            assert(m[i + 1] == "tsx"@);
            assert(m.contains("tsx"@));
            lemma_first_index(m, "typescript"@);
            assert(m[i] == "typescript"@);
        }
    }
}

} // verus!
