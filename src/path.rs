use vstd::prelude::*;
use vstd::string::*;
use vstd::utf8::*;

use crate::errors::PathSanitizationError;

verus! {

/// The path that `clean_path::clean` makes of `path`: `.` components
/// dropped, `..` components resolved against what precedes them, repeated
/// separators merged.
pub uninterp spec fn clean_of(path: Seq<char>) -> Seq<char>;

/// Relies on `clean_path::clean`, which cleans a path lexically; its result
/// depends on the path alone and is never empty (an empty result is
/// returned as `.`).
#[verifier::external_body]
fn clean(path: &str) -> (r: String)
    ensures
        r@ == clean_of(path@),
        r@.len() > 0,
{
    clean_path::clean(path).to_string_lossy().into_owned()
}

/// `p` starts at the root.
pub open spec fn is_rooted(p: Seq<char>) -> bool {
    p.len() > 0 && p[0] == '/'
}

/// The path of `name` inside the directory `prefix`: `name` alone when it is
/// rooted or `prefix` is empty, else the two joined by one separator.
pub open spec fn joined(prefix: Seq<char>, name: Seq<char>) -> Seq<char> {
    if is_rooted(name) || prefix.len() == 0 {
        name
    } else if prefix.last() == '/' {
        prefix + name
    } else {
        prefix + seq!['/'] + name
    }
}

/// `c` is a path separator: `/`, or `\` where it separates too.
pub open spec fn is_separator(c: char) -> bool {
    c == '/' || c == '\\'
}

/// `b` is the UTF-8 byte of a path separator, `/` (47) or `\` (92).
pub open spec fn is_separator_byte(b: u8) -> bool {
    b == 47 || b == 92
}

/// A component of the path with UTF-8 bytes `p` starts at `i` with `..`
/// (46, 46): it may climb to the parent directory.
pub open spec fn climbs_at(p: Seq<u8>, i: int) -> bool {
    0 <= i && i + 1 < p.len() && p[i] == 46 && p[i + 1] == 46 && (i == 0 || is_separator_byte(
        p[i - 1],
    ))
}

/// Why the path with UTF-8 bytes `p` is not safe to join to a destination
/// directory, if it is not: it starts at a root, a component may climb to
/// the parent, or it starts with a drive (its second byte is `:`, 58).
/// Both `/` and `\` count as separators here.
pub open spec fn path_refusal(p: Seq<u8>) -> Option<PathSanitizationError> {
    if p.len() > 0 && is_separator_byte(p[0]) {
        Some(PathSanitizationError::Rooted)
    } else if exists|i: int| climbs_at(p, i) {
        Some(PathSanitizationError::ParentComponent)
    } else if p.len() >= 2 && p[1] == 58 {
        Some(PathSanitizationError::DrivePrefix)
    } else {
        None
    }
}

/// The path `p` stays inside any directory it is joined to.
pub open spec fn is_contained(p: Seq<char>) -> bool {
    path_refusal(encode_utf8(p)) is None
}

/// `c` without one leading separator, if it has one.
pub open spec fn unrooted(c: Seq<char>) -> Seq<char> {
    if c.len() > 0 && is_separator(c[0]) {
        c.drop_first()
    } else {
        c
    }
}

/// What making the cleaned path `c` relative gives: `c` without its root,
/// or the reason it is refused.
pub open spec fn relative_of(c: Seq<char>) -> Result<Seq<char>, PathSanitizationError> {
    match path_refusal(encode_utf8(unrooted(c))) {
        Some(e) => Err(e),
        None => Ok(unrooted(c)),
    }
}

/// What `trim_clean` gives for `path`: the path cleaned as if it began at
/// the root, then made relative.
pub open spec fn trimmed(path: Seq<char>) -> Result<Seq<char>, PathSanitizationError> {
    relative_of(clean_of(seq!['/'] + path))
}

/// The path, relative to a destination directory, that the entry `name`
/// under `prefix` is extracted to, or why it cannot be.
pub open spec fn sanitized(prefix: Seq<char>, name: Seq<char>) -> Result<
    Seq<char>,
    PathSanitizationError,
> {
    trimmed(joined(prefix, name))
}

/// Joins `prefix` and `name` as pushing both onto an empty path does.
pub fn join_path(prefix: &str, name: &str) -> (r: String)
    ensures
        r@ == joined(prefix@, name@),
{
    let name_len = name.unicode_len();
    let prefix_len = prefix.unicode_len();
    if (name_len > 0 && name.get_char(0) == '/') || prefix_len == 0 {
        return name.to_owned();
    }
    let mut r = prefix.to_owned();
    if prefix.get_char(prefix_len - 1) != '/' {
        let sep = "/";
        proof {
            reveal_strlit("/");
        }
        r.append(sep);
    }
    r.append(name);
    r
}

/// `cleaned` without one leading separator (`/` or `\`), if it has one.
pub fn strip_root(cleaned: &str) -> (r: String)
    ensures
        r@ == unrooted(cleaned@),
{
    let n = cleaned.unicode_len();
    if n > 0 && (cleaned.get_char(0) == '/' || cleaned.get_char(0) == '\\') {
        let rest = cleaned.substring_char(1, n);
        rest.to_owned()
    } else {
        cleaned.to_owned()
    }
}

/// Tells whether the path `p` stays inside any directory it is joined to,
/// and if not, why.
pub fn check_contained(p: &str) -> (r: Result<(), PathSanitizationError>)
    ensures
        match path_refusal(encode_utf8(p@)) {
            Some(e) => r == Err::<(), PathSanitizationError>(e),
            None => r is Ok,
        },
{
    let b = p.as_bytes();
    let n = b.len();
    if n > 0 && (b[0] == 47 || b[0] == 92) {
        return Err(PathSanitizationError::Rooted);
    }
    let mut i: usize = 0;
    while i < n
        invariant
            b@ == encode_utf8(p@),
            n == b@.len(),
            i <= n,
            !(n > 0 && is_separator_byte(b@[0])),
            forall|k: int| 0 <= k < i ==> !climbs_at(b@, k),
        decreases n - i,
    {
        if i + 1 < n && b[i] == 46 && b[i + 1] == 46 && (i == 0 || b[i - 1] == 47 || b[i - 1]
            == 92) {
            assert(climbs_at(b@, i as int));
            assert(path_refusal(encode_utf8(p@)) == Some(PathSanitizationError::ParentComponent));
            return Err(PathSanitizationError::ParentComponent);
        }
        i = i + 1;
    }
    assert(forall|k: int| !climbs_at(b@, k)) by {
        assert forall|k: int| !climbs_at(b@, k) by {
            if 0 <= k < i {
            }
        }
    }
    if n >= 2 && b[1] == 58 {
        return Err(PathSanitizationError::DrivePrefix);
    }
    Ok(())
}

/// Makes the cleaned path `cleaned` relative: strips one leading
/// separator, and refuses the rest unless it stays inside any directory it
/// is joined to.
pub fn relative_path(cleaned: &str) -> (r: Result<String, PathSanitizationError>)
    ensures
        match relative_of(cleaned@) {
            Ok(s) => r is Ok && r->Ok_0@ == s,
            Err(e) => r is Err && r->Err_0 == e,
        },
        r is Ok ==> is_contained(r->Ok_0@),
{
    let stripped = strip_root(cleaned);
    match check_contained(stripped.as_str()) {
        Ok(()) => Ok(stripped),
        Err(e) => Err(e),
    }
}

/// The path that `path` names relative to a destination directory: `path`
/// is cleaned as if it began at the root, so that no `..` can climb above
/// it, and the root is then stripped. A result that could still leave the
/// directory it is joined to, under `/` or `\` as separator, is refused.
pub fn trim_clean(path: &str) -> (r: Result<String, PathSanitizationError>)
    ensures
        match trimmed(path@) {
            Ok(s) => r is Ok && r->Ok_0@ == s,
            Err(e) => r is Err && r->Err_0 == e,
        },
        r is Ok ==> is_contained(r->Ok_0@),
{
    let root = "/";
    proof {
        reveal_strlit("/");
    }
    let rooted = root.to_owned().concat(path);
    assert(rooted@ == seq!['/'] + path@);
    let cleaned = clean(rooted.as_str());
    relative_path(cleaned.as_str())
}

/// The path, relative to the destination directory, that the entry `name`
/// under `prefix` is extracted to: the two joined and passed through
/// `trim_clean`. Joined to a destination, an accepted path stays inside it.
pub fn entry_path(prefix: &str, name: &str) -> (r: Result<String, PathSanitizationError>)
    ensures
        match sanitized(prefix@, name@) {
            Ok(s) => r is Ok && r->Ok_0@ == s,
            Err(e) => r is Err && r->Err_0 == e,
        },
        r is Ok ==> is_contained(r->Ok_0@),
{
    let full = join_path(prefix, name);
    trim_clean(full.as_str())
}

} // verus!
