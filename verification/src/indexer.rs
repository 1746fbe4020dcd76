//! Which files of a project get indexed, and the tally of a walk over it.
use vstd::prelude::*;
use std::path::Path;
use globset::{Glob, GlobSet, GlobSetBuilder};
use crate::config::Config;
use crate::parser::{detect_language, file_language, forward_slashes, forward_slashes_of, opt_view, path_text, spec_path_text};
use crate::text::{chars_of, ends_with, lowercase, push_str, spec_lowercase, starts_with, str_ends_with, str_eq, str_starts_with, to_owned, u64_to_string, decimal, views};

verus! {

#[verifier::external_type_specification]
#[verifier::external_body]
pub struct ExGlobSet(GlobSet);

#[verifier::external_type_specification]
#[verifier::external_body]
pub struct ExGlobSetBuilder(GlobSetBuilder);

/// Whether a glob set matches a path (`GlobSet::is_match`).
pub uninterp spec fn spec_glob_set_match(set: GlobSet, path: Seq<char>) -> bool;

/// The patterns a glob set builder holds, in the order they were added.
pub uninterp spec fn spec_builder_patterns(builder: GlobSetBuilder) -> Seq<Seq<char>>;

/// Whether `Glob::new` accepts a pattern.
pub uninterp spec fn spec_glob_parses(pattern: Seq<char>) -> bool;

/// Whether the glob of a pattern matches a path.
pub uninterp spec fn spec_glob_matches(pattern: Seq<char>, path: Seq<char>) -> bool;

/// Whether `GlobSetBuilder::build` succeeds for a list of patterns.
pub uninterp spec fn spec_set_builds(patterns: Seq<Seq<char>>) -> bool;

/// What a set built from `patterns` matches: nothing where building
/// failed, else the paths some pattern's glob matches.
pub open spec fn set_matches(patterns: Seq<Seq<char>>, path: Seq<char>) -> bool {
    spec_set_builds(patterns) && exists|i: int| 0 <= i < patterns.len() && spec_glob_matches(#[trigger] patterns[i], path)
}

/// The patterns `Glob::new` accepts, in order.
pub open spec fn valid_patterns(patterns: Seq<Seq<char>>) -> Seq<Seq<char>> {
    patterns.filter(|p: Seq<char>| spec_glob_parses(p))
}

/// The file name of a path as text (`Path::file_name`, `to_string_lossy`).
pub uninterp spec fn spec_file_name(path: &Path) -> Option<Seq<char>>;

/// The extension of a path as text (`Path::extension`, `to_string_lossy`).
pub uninterp spec fn spec_extension_lossy(path: &Path) -> Option<Seq<char>>;

/// A list of strings as `Debug` writes it.
pub uninterp spec fn spec_debug_list(items: Seq<Seq<char>>) -> Seq<char>;

/// `GlobSetBuilder::new`: a builder holding no pattern.
#[verifier::external_body]
fn glob_builder() -> (r: GlobSetBuilder)
    ensures
        spec_builder_patterns(r) == Seq::<Seq<char>>::empty(),
{
    GlobSetBuilder::new()
}

/// `GlobSetBuilder::add` of the pattern, converted to a `Glob` by
/// `Glob::new`; a pattern that `Glob::new` refuses is not added. Which
/// patterns parse is named by `spec_glob_parses`.
#[verifier::external_body]
fn add_glob(builder: &mut GlobSetBuilder, pattern: &str)
    ensures
        spec_builder_patterns(*final(builder)) == if spec_glob_parses(pattern@) {
            spec_builder_patterns(*old(builder)).push(pattern@)
        } else {
            spec_builder_patterns(*old(builder))
        },
{
    if let Ok(glob) = Glob::new(pattern) {
        builder.add(glob);
    }
}

/// `GlobSetBuilder::build`, or `GlobSet::empty` (which matches nothing)
/// where building fails. As globset documents, a built set matches a path
/// where any of its globs does; whether building succeeds and what one glob
/// matches are named (`spec_set_builds`, `spec_glob_matches`).
#[verifier::external_body]
fn build_globs(builder: &GlobSetBuilder) -> (r: GlobSet)
    ensures
        forall|path: Seq<char>| #[trigger] spec_glob_set_match(r, path) == (spec_set_builds(spec_builder_patterns(*builder))
            && exists|i: int| 0 <= i < spec_builder_patterns(*builder).len()
                && spec_glob_matches(#[trigger] spec_builder_patterns(*builder)[i], path)),
{
    match builder.build() {
        Ok(set) => set,
        Err(_) => GlobSet::empty(),
    }
}

/// `GlobSet::is_match`; the result is named.
#[verifier::external_body]
fn glob_set_matches(set: &GlobSet, path: &str) -> (r: bool)
    ensures
        r == spec_glob_set_match(*set, path@),
{
    set.is_match(path)
}

/// `Path::file_name` as text; the result is named.
#[verifier::external_body]
fn file_name_text(path: &Path) -> (r: Option<String>)
    ensures
        opt_view(r) == spec_file_name(path),
{
    path.file_name().map(|n| n.to_string_lossy().into_owned())
}

/// `Path::extension` as text; the result is named.
#[verifier::external_body]
fn extension_lossy(path: &Path) -> (r: Option<String>)
    ensures
        opt_view(r) == spec_extension_lossy(path),
{
    path.extension().map(|e| e.to_string_lossy().into_owned())
}

/// `Debug` of a list of strings; the result is named.
#[verifier::external_body]
fn debug_list(items: &Vec<String>) -> (r: String)
    ensures
        r@ == spec_debug_list(views(items@)),
{
    format!("{:?}", items)
}

/// The exclusion patterns compiled into one set; invalid patterns are left
/// out. The set matches a path where one of the valid patterns does (and
/// nothing where the set could not be built).
pub fn build_exclude_set(patterns: &[String]) -> (r: GlobSet)
    ensures
        forall|path: Seq<char>| #[trigger] spec_glob_set_match(r, path) == set_matches(valid_patterns(patterns@.map_values(|p: String| p@)), path),
{
    let ghost ps = patterns@.map_values(|p: String| p@);
    let mut builder = glob_builder();
    let mut i: usize = 0;
    proof {
        assert(ps.take(0) =~= Seq::<Seq<char>>::empty());
        reveal(Seq::filter);
        assert(valid_patterns(ps.take(0)) =~= Seq::<Seq<char>>::empty());
    }
    while i < patterns.len()
        invariant
            i <= patterns@.len(),
            ps == patterns@.map_values(|p: String| p@),
            spec_builder_patterns(builder) == valid_patterns(ps.take(i as int)),
        decreases patterns@.len() - i,
    {
        add_glob(&mut builder, patterns[i].as_str());
        proof {
            assert(ps.take(i + 1) =~= ps.take(i as int).push(ps[i as int]));
            ps.take(i as int).lemma_filter_push(ps[i as int], |p: Seq<char>| spec_glob_parses(p));
        }
        i = i + 1;
    }
    proof {
        assert(ps.take(i as int) =~= ps);
    }
    build_globs(&builder)
}

/// Directories never descended into.
pub open spec fn skipped_dir_names() -> Seq<Seq<char>> {
    seq![
        "node_modules"@, ".git"@, ".hg"@, ".svn"@, "dist"@, "build"@, "target"@, "__pycache__"@, ".venv"@,
        "venv"@, ".next"@, ".turbo"@, ".nuxt"@, ".output"@, "coverage"@, ".tox"@, ".mypy_cache"@,
        ".pytest_cache"@, ".cargo"@, ".forgeindex"@,
    ]
}

/// Whether a directory is never descended into.
pub fn should_skip_dir(dir_name: &str) -> (r: bool)
    ensures
        r == skipped_dir_names().contains(dir_name@),
{
    let names = [
        "node_modules", ".git", ".hg", ".svn", "dist", "build", "target", "__pycache__", ".venv", "venv", ".next",
        ".turbo", ".nuxt", ".output", "coverage", ".tox", ".mypy_cache", ".pytest_cache", ".cargo", ".forgeindex",
    ];
    let ghost sv = skipped_dir_names();
    proof {
        assert forall|k: int| 0 <= k < names@.len() implies #[trigger] names@[k]@ == sv[k] by {}
    }
    let mut k: usize = 0;
    while k < names.len()
        invariant
            k <= names@.len() == sv.len(),
            sv == skipped_dir_names(),
            forall|q: int| 0 <= q < names@.len() ==> #[trigger] names@[q]@ == sv[q],
            forall|q: int| 0 <= q < k ==> sv[q] != dir_name@,
        decreases names@.len() - k,
    {
        if str_eq(names[k], dir_name) {
            proof {
                assert(sv[k as int] == dir_name@);
            }
            return true;
        }
        k = k + 1;
    }
    false
}

/// A path component is hidden when it starts with a dot.
pub fn is_hidden_component(component: &str) -> (r: bool)
    ensures
        r == starts_with(component@, "."@),
{
    str_starts_with(component, ".")
}

/// Why a file under these path components (relative to the root) is not
/// indexed: `(true, reason)` for the first hidden component, `(false,
/// reason)` for the first directory never descended into.
pub open spec fn component_exclusion(components: Seq<Seq<char>>, from: int) -> Option<(bool, Seq<char>)>
    decreases components.len() - from,
{
    if from < 0 || from >= components.len() {
        None
    } else if starts_with(components[from], "."@) {
        Some((true, "hidden component: "@ + components[from]))
    } else if skipped_dir_names().contains(components[from]) {
        Some((false, "excluded dir: "@ + components[from]))
    } else {
        component_exclusion(components, from + 1)
    }
}

/// Why the path components exclude a file, if they do.
pub fn excluded_by_components(components: &[String]) -> (r: Option<(bool, String)>)
    ensures
        match component_exclusion(views(components@), 0) {
            Some((h, why)) => r matches Some((x, y)) && x == h && y@ == why,
            None => r is None,
        },
{
    let ghost cs = views(components@);
    let mut i: usize = 0;
    while i < components.len()
        invariant
            i <= components@.len(),
            cs == views(components@),
            component_exclusion(cs, 0) == component_exclusion(cs, i as int),
        decreases components@.len() - i,
    {
        let c = components[i].as_str();
        if is_hidden_component(c) {
            let mut why = to_owned("hidden component: ");
            push_str(&mut why, c);
            return Some((true, why));
        }
        if should_skip_dir(c) {
            let mut why = to_owned("excluded dir: ");
            push_str(&mut why, c);
            return Some((false, why));
        }
        i = i + 1;
    }
    None
}

/// The endings that mark a (lowercased) file name as a test.
pub open spec fn test_suffixes() -> Seq<Seq<char>> {
    seq![
        "_test.py"@, ".test.ts"@, ".test.tsx"@, ".test.js"@, ".test.jsx"@, ".spec.ts"@, ".spec.tsx"@, ".spec.js"@,
        ".spec.jsx"@, "_test.go"@, "_test.rs"@,
    ]
}

pub open spec fn is_test_name(name: Seq<char>) -> bool {
    starts_with(name, "test_"@) || exists|k: int| 0 <= k < test_suffixes().len() && ends_with(name, #[trigger] test_suffixes()[k])
}

/// Whether a lowercased file name names a test.
pub fn is_test_file_name(name: &str) -> (r: bool)
    ensures
        r == is_test_name(name@),
{
    if str_starts_with(name, "test_") {
        return true;
    }
    let suffixes = [
        "_test.py", ".test.ts", ".test.tsx", ".test.js", ".test.jsx", ".spec.ts", ".spec.tsx", ".spec.js", ".spec.jsx",
        "_test.go", "_test.rs",
    ];
    let ghost sv = test_suffixes();
    proof {
        assert forall|k: int| 0 <= k < suffixes@.len() implies #[trigger] suffixes@[k]@ == sv[k] by {}
    }
    let mut k: usize = 0;
    while k < suffixes.len()
        invariant
            k <= suffixes@.len() == sv.len(),
            sv == test_suffixes(),
            !starts_with(name@, "test_"@),
            forall|q: int| 0 <= q < suffixes@.len() ==> #[trigger] suffixes@[q]@ == sv[q],
            forall|q: int| 0 <= q < k ==> !ends_with(name@, sv[q]),
        decreases suffixes@.len() - k,
    {
        if str_ends_with(name, suffixes[k]) {
            proof {
                assert(ends_with(name@, sv[k as int]));
            }
            return true;
        }
        k = k + 1;
    }
    false
}

/// Why a file is not indexed, checked in order: a language for its
/// extension, Swift, the configured languages, its size (where known), the
/// exclusion patterns on its relative path, and (unless tests are
/// included) a test file name.
pub open spec fn skip_reason_of(
    rel_text: Seq<char>,
    full_path: &Path,
    file_size: Option<u64>,
    config: Config,
    excludes: GlobSet,
) -> Option<Seq<char>> {
    match file_language(full_path) {
        None => Some(
            "unsupported extension: ."@ + match spec_extension_lossy(full_path) {
                Some(e) => e,
                None => "none"@,
            },
        ),
        Some(lang) => if lang == "swift"@ {
            Some("swift not yet supported"@)
        } else if !views(config.index.languages@).contains(lang) {
            Some("language '"@ + lang + "' not in config languages list "@ + spec_debug_list(views(config.index.languages@)))
        } else if file_size matches Some(size) && size > config.index.max_file_size_kb * 1024 {
            Some(
                "file too large: "@ + decimal((file_size->0 / 1024) as nat) + " KB > "@ + decimal(
                    config.index.max_file_size_kb as nat,
                ) + " KB limit"@,
            )
        } else if spec_glob_set_match(excludes, rel_text) {
            Some("matched exclude pattern (rel: "@ + rel_text + ")"@)
        } else if !config.index.include_tests && is_test_name(
            spec_lowercase(
                match spec_file_name(full_path) {
                    Some(n) => n,
                    None => seq![],
                },
            ),
        ) {
            Some(
                "test file: "@ + spec_lowercase(
                    match spec_file_name(full_path) {
                        Some(n) => n,
                        None => seq![],
                    },
                ),
            )
        } else {
            None
        }
    }
}

fn contains_string(v: &Vec<String>, s: &str) -> (r: bool)
    ensures
        r == views(v@).contains(s@),
{
    let mut i: usize = 0;
    while i < v.len()
        invariant
            i <= v@.len(),
            forall|q: int| 0 <= q < i ==> v@[q]@ != s@,
        decreases v@.len() - i,
    {
        if str_eq(v[i].as_str(), s) {
            proof {
                assert(views(v@)[i as int] == s@);
            }
            return true;
        }
        i = i + 1;
    }
    proof {
        assert forall|q: int| 0 <= q < views(v@).len() implies views(v@)[q] != s@ by {
            assert(views(v@)[q] == v@[q]@);
        }
    }
    false
}

/// What becomes of a walked entry before the file filter is asked, in the
/// order the walk checks: a non-file; a file outside the root (it has no
/// components relative to the root); a file under a hidden or never
/// descended directory, with the reason. `None` where the entry goes on to
/// the filter.
pub open spec fn early_outcome(is_file: bool, components: Option<Seq<Seq<char>>>) -> Option<(EntryOutcome, Seq<char>)> {
    if !is_file {
        Some((EntryOutcome::NotFile, seq![]))
    } else {
        match components {
            None => Some((EntryOutcome::NotUnderRoot, seq![])),
            Some(cs) => match component_exclusion(cs, 0) {
                Some((true, why)) => Some((EntryOutcome::Hidden, why)),
                Some((false, why)) => Some((EntryOutcome::ExcludedDir, why)),
                None => None,
            },
        }
    }
}

/// Classifies a walked entry as `early_outcome` does.
pub fn classify_entry(is_file: bool, components: Option<&Vec<String>>) -> (r: Option<(EntryOutcome, String)>)
    ensures
        match early_outcome(is_file, match components { Some(c) => Some(views(c@)), None => None }) {
            Some((o, why)) => r matches Some((x, y)) && x == o && y@ == why,
            None => r is None,
        },
{
    if !is_file {
        return Some((EntryOutcome::NotFile, String::new()));
    }
    match components {
        None => Some((EntryOutcome::NotUnderRoot, String::new())),
        Some(cs) => match excluded_by_components(cs.as_slice()) {
            Some((true, why)) => Some((EntryOutcome::Hidden, why)),
            Some((false, why)) => Some((EntryOutcome::ExcludedDir, why)),
            None => None,
        },
    }
}

/// Whether the filter gets as far as comparing the file's size with the
/// limit: the size is known and the file's language is supported and
/// configured.
pub open spec fn reaches_size_check(full_path: &Path, file_size: Option<u64>, config: Config) -> bool {
    &&& file_size is Some
    &&& match file_language(full_path) {
        Some(lang) => lang != "swift"@ && views(config.index.languages@).contains(lang),
        None => false,
    }
}

/// Whether the filter would compute a size limit in bytes past `u64::MAX`
/// for this file.
pub fn size_limit_overflows(full_path: &Path, file_size: Option<u64>, config: &Config) -> (r: bool)
    ensures
        r == (reaches_size_check(full_path, file_size, *config) && config.index.max_file_size_kb * 1024 > u64::MAX),
{
    if file_size.is_none() {
        return false;
    }
    let lang = match detect_language(full_path) {
        Some(l) => l,
        None => return false,
    };
    proof {
        reveal_strlit("swift");
    }
    if str_eq(lang.as_str(), "swift") || !contains_string(&config.index.languages, lang.as_str()) {
        return false;
    }
    config.index.max_file_size_kb.checked_mul(1024).is_none()
}

/// Why a file is not indexed (see `skip_reason_of`); `None` where it is.
/// `rel_path` is the file's path relative to the root, `file_size` its
/// size in bytes where it could be read.
pub fn skip_reason(rel_path: &Path, full_path: &Path, file_size: Option<u64>, config: &Config, excludes: &GlobSet) -> (r: Option<String>)
    requires
        reaches_size_check(full_path, file_size, *config) ==> config.index.max_file_size_kb * 1024 <= u64::MAX,
    ensures
        opt_view(r) == skip_reason_of(forward_slashes(spec_path_text(rel_path)), full_path, file_size, *config, *excludes),
{
    let lang = match detect_language(full_path) {
        Some(l) => l,
        None => {
            let ext = match extension_lossy(full_path) {
                Some(e) => e,
                None => to_owned("none"),
            };
            let mut why = to_owned("unsupported extension: .");
            push_str(&mut why, ext.as_str());
            return Some(why);
        },
    };
    if str_eq(lang.as_str(), "swift") {
        return Some(to_owned("swift not yet supported"));
    }
    if !contains_string(&config.index.languages, lang.as_str()) {
        let mut why = to_owned("language '");
        push_str(&mut why, lang.as_str());
        push_str(&mut why, "' not in config languages list ");
        let list = debug_list(&config.index.languages);
        push_str(&mut why, list.as_str());
        return Some(why);
    }
    match file_size {
        Some(size) => {
            if size > config.index.max_file_size_kb * 1024 {
                let mut why = to_owned("file too large: ");
                let kb = u64_to_string(size / 1024);
                push_str(&mut why, kb.as_str());
                push_str(&mut why, " KB > ");
                let limit = u64_to_string(config.index.max_file_size_kb);
                push_str(&mut why, limit.as_str());
                push_str(&mut why, " KB limit");
                return Some(why);
            }
        },
        None => {},
    }
    let raw_rel = path_text(rel_path);
    let rel = forward_slashes_of(raw_rel.as_str());
    if glob_set_matches(excludes, rel.as_str()) {
        let mut why = to_owned("matched exclude pattern (rel: ");
        push_str(&mut why, rel.as_str());
        push_str(&mut why, ")");
        return Some(why);
    }
    if !config.index.include_tests {
        let raw = match file_name_text(full_path) {
            Some(n) => n,
            None => String::new(),
        };
        let name = lowercase(raw.as_str());
        if is_test_file_name(name.as_str()) {
            let mut why = to_owned("test file: ");
            push_str(&mut why, name.as_str());
            return Some(why);
        }
    }
    None
}

/// Whether a file's stored hash is that of its current content.
pub fn hash_unchanged(stored: Option<&str>, hash: u64) -> (r: bool)
    ensures
        r == (stored matches Some(s) && s@ == decimal(hash as nat)),
{
    match stored {
        Some(s) => {
            let h = u64_to_string(hash);
            str_eq(s, h.as_str())
        },
        None => false,
    }
}

/// The tally of a walk over a project.
#[derive(Debug, Clone, Copy, PartialEq, Eq, Structural)]
pub struct IndexSummary {
    pub indexed: usize,
    pub unchanged: usize,
    pub total_entries: usize,
    pub total_files: usize,
    pub skipped_hidden: usize,
    pub skipped_excluded_dir: usize,
    pub skipped_filter: usize,
    pub walk_errors: usize,
}

impl Default for IndexSummary {
    fn default() -> (s: Self)
        ensures
            s == (IndexSummary {
                indexed: 0,
                unchanged: 0,
                total_entries: 0,
                total_files: 0,
                skipped_hidden: 0,
                skipped_excluded_dir: 0,
                skipped_filter: 0,
                walk_errors: 0,
            }),
    {
        IndexSummary {
            indexed: 0,
            unchanged: 0,
            total_entries: 0,
            total_files: 0,
            skipped_hidden: 0,
            skipped_excluded_dir: 0,
            skipped_filter: 0,
            walk_errors: 0,
        }
    }
}

/// What became of one entry of a walk.
#[derive(Debug, Clone, Copy, PartialEq, Eq, Structural)]
pub enum EntryOutcome {
    /// The walk could not read the entry.
    WalkError,
    /// A directory or other non-file.
    NotFile,
    /// A file outside the root.
    NotUnderRoot,
    /// A file under a hidden directory.
    Hidden,
    /// A file under a directory never descended into.
    ExcludedDir,
    /// A file that `skip_reason` leaves out.
    Filtered,
    /// A file parsed and stored.
    Indexed,
    /// A file whose content has not changed.
    Unchanged,
    /// A file that could not be read, parsed or stored.
    IndexError,
}

impl IndexSummary {
    /// The tally after one more entry.
    pub open spec fn after(self, o: EntryOutcome) -> IndexSummary {
        let s = IndexSummary { total_entries: (self.total_entries + 1) as usize, ..self };
        let f = if o is WalkError || o is NotFile {
            s
        } else {
            IndexSummary { total_files: (s.total_files + 1) as usize, ..s }
        };
        match o {
            EntryOutcome::WalkError => IndexSummary { walk_errors: (f.walk_errors + 1) as usize, ..f },
            EntryOutcome::Hidden => IndexSummary { skipped_hidden: (f.skipped_hidden + 1) as usize, ..f },
            EntryOutcome::ExcludedDir => IndexSummary { skipped_excluded_dir: (f.skipped_excluded_dir + 1) as usize, ..f },
            EntryOutcome::Filtered => IndexSummary { skipped_filter: (f.skipped_filter + 1) as usize, ..f },
            EntryOutcome::Indexed => IndexSummary { indexed: (f.indexed + 1) as usize, ..f },
            EntryOutcome::Unchanged => IndexSummary { unchanged: (f.unchanged + 1) as usize, ..f },
            EntryOutcome::IndexError => IndexSummary { walk_errors: (f.walk_errors + 1) as usize, ..f },
            _ => f,
        }
    }

    /// Count one more entry of the walk.
    pub fn record(&mut self, o: EntryOutcome)
        requires
            old(self).total_entries < usize::MAX,
            old(self).total_files < usize::MAX,
            old(self).walk_errors < usize::MAX,
            old(self).skipped_hidden < usize::MAX,
            old(self).skipped_excluded_dir < usize::MAX,
            old(self).skipped_filter < usize::MAX,
            old(self).indexed < usize::MAX,
            old(self).unchanged < usize::MAX,
        ensures
            *final(self) == old(self).after(o),
    {
        self.total_entries = self.total_entries + 1;
        match o {
            EntryOutcome::WalkError | EntryOutcome::NotFile => {},
            _ => {
                self.total_files = self.total_files + 1;
            },
        }
        match o {
            EntryOutcome::WalkError => {
                self.walk_errors = self.walk_errors + 1;
            },
            EntryOutcome::Hidden => {
                self.skipped_hidden = self.skipped_hidden + 1;
            },
            EntryOutcome::ExcludedDir => {
                self.skipped_excluded_dir = self.skipped_excluded_dir + 1;
            },
            EntryOutcome::Filtered => {
                self.skipped_filter = self.skipped_filter + 1;
            },
            EntryOutcome::Indexed => {
                self.indexed = self.indexed + 1;
            },
            EntryOutcome::Unchanged => {
                self.unchanged = self.unchanged + 1;
            },
            EntryOutcome::IndexError => {
                self.walk_errors = self.walk_errors + 1;
            },
            _ => {},
        }
    }

    /// Whether the walk found files but indexed none of them.
    pub fn nothing_indexed(&self) -> (r: bool)
        ensures
            r == (self.indexed == 0 && self.unchanged == 0 && self.total_files > 0),
    {
        self.indexed == 0 && self.unchanged == 0 && self.total_files > 0
    }
}

} // verus!
