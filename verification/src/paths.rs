//! Path strings.
//!
//! Paths are carried as `String`s and read by `std::path`, as the platform
//! reads them: joining, components, file names, extensions and suffix
//! matching go through small wrappers whose results are named, and the
//! checks built on them are verified here.

use vstd::prelude::*;

verus! {

/// What `Path::join` gives for a base path and a path joined onto it.
pub uninterp spec fn spec_join(base: Seq<char>, rel: Seq<char>) -> Seq<char>;

/// What `Path::components` gives for a path, each component as text.
pub uninterp spec fn spec_components(p: Seq<char>) -> Seq<Seq<char>>;

/// `p` holds a `..` component, as the platform splits it into components.
pub open spec fn has_parent_component(p: Seq<char>) -> bool {
    spec_components(p).contains(seq!['.', '.'])
}

/// `s` holds a path separator (`/`, or `\\` as on Windows).
pub open spec fn has_separator(s: Seq<char>) -> bool {
    s.contains('/') || s.contains('\\')
}

/// `s` is the component `..`.
pub open spec fn is_parent_name(s: Seq<char>) -> bool {
    s.len() == 2 && s[0] == '.' && s[1] == '.'
}

/// `n` is a single normal path component: not empty, without `/`, and not
/// `..`.
#[verifier::opaque]
pub open spec fn is_single_name(n: Seq<char>) -> bool {
    n.len() > 0 && !n.contains('/') && !is_parent_name(n)
}

/// What `Path::file_name` gives for a path.
pub uninterp spec fn spec_file_name(path: Seq<char>) -> Option<Seq<char>>;

/// What `Path::extension` gives for a path.
pub uninterp spec fn spec_extension(path: Seq<char>) -> Option<Seq<char>>;

/// What `Path::file_stem` gives for a path.
pub uninterp spec fn spec_file_stem(path: Seq<char>) -> Option<Seq<char>>;

/// What `Path::parent` gives for a path.
pub uninterp spec fn spec_parent(path: Seq<char>) -> Option<Seq<char>>;

/// What `Path::with_extension` gives for a path and an extension.
pub uninterp spec fn spec_with_extension(path: Seq<char>, ext: Seq<char>) -> Seq<char>;

/// What `Path::with_added_extension` gives for a path and an extension.
pub uninterp spec fn spec_with_added_extension(path: Seq<char>, ext: Seq<char>) -> Seq<char>;

/// What `Path::ends_with` answers for a path and a suffix made of whole
/// components.
pub uninterp spec fn spec_ends_with(path: Seq<char>, child: Seq<char>) -> bool;

/// What `str::to_lowercase` gives for a string.
pub uninterp spec fn spec_to_lowercase(s: Seq<char>) -> Seq<char>;

/// Calls `std::path::Path::file_name`. Its result is named by
/// `spec_file_name`; besides, as documented, a file name is the final
/// normal component of the path: it is not empty, holds no `/`, is never
/// `..` (a path ending in `..` has none), and read as a path on its own it
/// has no `..` component.
#[verifier::external_body]
pub(crate) fn path_file_name(path: &str) -> (r: Option<String>)
    ensures
        match r {
            Some(n) => spec_file_name(path@) == Some(n@) && is_single_name(n@) && !has_parent_component(n@),
            None => spec_file_name(path@) is None,
        },
{
    std::path::Path::new(path).file_name().map(|n| n.to_string_lossy().to_string())
}

/// Calls `std::path::Path::extension`. Its result is named by
/// `spec_extension`.
#[verifier::external_body]
pub(crate) fn path_extension(path: &str) -> (r: Option<String>)
    ensures
        match r {
            Some(e) => spec_extension(path@) == Some(e@),
            None => spec_extension(path@) is None,
        },
{
    std::path::Path::new(path).extension().map(|e| e.to_string_lossy().to_string())
}

/// Calls `std::path::Path::file_stem`. Its result is named by
/// `spec_file_stem`.
#[verifier::external_body]
pub(crate) fn path_file_stem(path: &str) -> (r: Option<String>)
    ensures
        match r {
            Some(e) => spec_file_stem(path@) == Some(e@),
            None => spec_file_stem(path@) is None,
        },
{
    std::path::Path::new(path).file_stem().map(|e| e.to_string_lossy().to_string())
}

/// Calls `std::path::Path::parent`. Its result is named by `spec_parent`.
#[verifier::external_body]
pub(crate) fn path_parent(path: &str) -> (r: Option<String>)
    ensures
        match r {
            Some(n) => spec_parent(path@) == Some(n@),
            None => spec_parent(path@) is None,
        },
{
    std::path::Path::new(path).parent().map(|n| n.to_string_lossy().to_string())
}

/// Calls `std::path::Path::with_extension`. Its result is named by
/// `spec_with_extension`. It panics on an extension holding a path
/// separator, so such extensions are left out.
#[verifier::external_body]
pub(crate) fn path_with_extension(path: &str, ext: &str) -> (r: String)
    requires
        !has_separator(ext@),
    ensures
        r@ == spec_with_extension(path@, ext@),
{
    std::path::Path::new(path).with_extension(ext).to_string_lossy().to_string()
}

/// Calls `std::path::Path::with_added_extension`. Its result is named by
/// `spec_with_added_extension`. It panics on an extension holding a path
/// separator, so such extensions are left out.
#[verifier::external_body]
pub(crate) fn path_with_added_extension(path: &str, ext: &str) -> (r: String)
    requires
        !has_separator(ext@),
    ensures
        r@ == spec_with_added_extension(path@, ext@),
{
    std::path::Path::new(path).with_added_extension(ext).to_string_lossy().to_string()
}

/// Calls `std::path::Path::ends_with`, which compares whole components.
/// Its answer is named by `spec_ends_with`.
#[verifier::external_body]
pub(crate) fn path_ends_with(path: &str, child: &str) -> (r: bool)
    ensures
        r == spec_ends_with(path@, child@),
{
    std::path::Path::new(path).ends_with(child)
}

/// Calls `str::to_lowercase`. Its result is named by `spec_to_lowercase`.
#[verifier::external_body]
pub(crate) fn to_lowercase(s: &str) -> (r: String)
    ensures
        r@ == spec_to_lowercase(s@),
{
    s.to_lowercase()
}

/// Tells whether `s` holds a path separator.
pub fn contains_separator(s: &str) -> (r: bool)
    ensures
        r == has_separator(s@),
{
    let n = s.unicode_len();
    let mut i: usize = 0;
    while i < n
        invariant
            n == s@.len(),
            i <= n,
            forall|k: int| 0 <= k < i ==> s@[k] != '/' && s@[k] != '\\',
        decreases n - i,
    {
        let c = s.get_char(i);
        if c == '/' || c == '\\' {
            assert(s@[i as int] == c);
            return true;
        }
        i = i + 1;
    }
    false
}

/// Compares two strings character by character.
pub fn str_eq(a: &str, b: &str) -> (r: bool)
    ensures
        r == (a@ == b@),
{
    let n = a.unicode_len();
    let m = b.unicode_len();
    if n != m {
        return false;
    }
    let mut i: usize = 0;
    while i < n
        invariant
            n == a@.len(),
            m == b@.len(),
            n == m,
            i <= n,
            forall|k: int| 0 <= k < i ==> a@[k] == b@[k],
        decreases n - i,
    {
        if a.get_char(i) != b.get_char(i) {
            return false;
        }
        i = i + 1;
    }
    assert(a@ =~= b@);
    true
}

/// Calls `std::path::Path::join`. Its result is named by `spec_join`.
#[verifier::external_body]
pub(crate) fn join_path(base: &str, rel: &str) -> (r: String)
    ensures
        r@ == spec_join(base@, rel@),
{
    std::path::Path::new(base).join(rel).to_string_lossy().to_string()
}

/// Calls `std::path::Path::components`, each component converted to its
/// text. Its result is named by `spec_components`.
#[verifier::external_body]
pub(crate) fn path_components(p: &str) -> (r: Vec<String>)
    ensures
        r.deep_view() == spec_components(p@),
{
    std::path::Path::new(p).components().map(|c| c.as_os_str().to_string_lossy().to_string()).collect()
}

/// Tells whether `p` holds a `..` component.
pub fn contains_parent_component(p: &str) -> (r: bool)
    ensures
        r == has_parent_component(p@),
{
    let parts = path_components(p);
    let ghost cs = parts.deep_view();
    let parent = "..";
    proof {
        reveal_strlit("..");
        assert(parent@ =~= seq!['.', '.']);
    }
    let mut i: usize = 0;
    while i < parts.len()
        invariant
            cs == parts.deep_view(),
            cs == spec_components(p@),
            i <= parts@.len(),
            parent@ == seq!['.', '.'],
            forall|k: int| 0 <= k < i ==> #[trigger] cs[k] != seq!['.', '.'],
        decreases parts.len() - i,
    {
        assert(cs[i as int] == parts@[i as int]@);
        if str_eq(parts[i].as_str(), parent) {
            assert(cs[i as int] == seq!['.', '.']);
            return true;
        }
        i = i + 1;
    }
    false
}

} // verus!
