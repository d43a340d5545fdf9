//! Repository location resolving: parse a remote URL into a
//! `{host, owner, name}` triple and map it, together with a root directory,
//! to an absolute destination path.
//!
//! Two URL forms are accepted: a scheme form `scheme://[user@]host[:port]/
//! owner/.../name` and an ssh form `user@host:owner/.../name`. The host is
//! the authority with any user information and port stripped, the owner is
//! the first path segment, and the name is the final path segment with any
//! trailing `.git` suffix stripped.

use vstd::prelude::*;

use crate::errors::{ParseError, ResolveError};
use crate::paths::{is_absolute_path, is_clean_abs_path, join_seq};
use path_absolutize::Absolutize;

verus! {

/// A parsed remote repository location. After a successful parse, `host`
/// and `owner` are non-empty and `name` is the final path segment of the
/// URL with any version-control suffix stripped.
#[derive(Debug)]
pub struct RepositoryLocation {
    /// The host (fully qualified domain name or address) of the remote.
    pub host: String,
    /// The owner (account) segment of the remote path.
    pub owner: String,
    /// The repository name, without a trailing `.git` suffix.
    pub name: String,
}

/// The first position at or after `i` where `c` occurs, or the text's
/// length when it does not.
pub open spec fn find_char_from(s: Seq<char>, c: char, i: int) -> int
    decreases s.len() - i,
    when 0 <= i <= s.len()
{
    if i >= s.len() {
        i
    } else if s[i] == c {
        i
    } else {
        find_char_from(s, c, i + 1)
    }
}

/// The first position at or after `i` where `://` begins, or the text's
/// length when it occurs nowhere.
pub open spec fn find_scheme_sep(s: Seq<char>, i: int) -> int
    decreases s.len() - i,
    when 0 <= i <= s.len()
{
    if i + 3 > s.len() {
        s.len() as int
    } else if s[i] == ':' && s[i + 1] == '/' && s[i + 2] == '/' {
        i
    } else {
        find_scheme_sep(s, i + 1)
    }
}

/// The last position before `e` where `c` occurs, or `-1` when it occurs
/// nowhere before `e`.
pub open spec fn rfind_char_before(s: Seq<char>, c: char, e: int) -> int
    decreases e,
    when 0 <= e <= s.len()
{
    if e <= 0 {
        -1
    } else if s[e - 1] == c {
        e - 1
    } else {
        rfind_char_before(s, c, e - 1)
    }
}

/// `rfind_char_before` stays below `e`.
proof fn lemma_rfind_char_before_bounds(s: Seq<char>, c: char, e: int)
    requires
        0 <= e <= s.len(),
    ensures
        -1 <= rfind_char_before(s, c, e) < e,
    decreases e,
{
    if e > 0 && s[e - 1] != c {
        lemma_rfind_char_before_bounds(s, c, e - 1);
    }
}

/// The name with every trailing `.git` suffix stripped.
pub open spec fn strip_git_suffix(s: Seq<char>) -> Seq<char>
    decreases s.len(),
{
    if s.len() >= 4 && s.subrange(s.len() - 4, s.len() as int) == seq!['.', 'g', 'i', 't'] {
        strip_git_suffix(s.subrange(0, s.len() - 4))
    } else {
        s
    }
}

/// The host, owner and name found at and after position `path_start` of
/// `url`, given the already-extracted `host`: the owner is the first path
/// segment, the name the last (one trailing separator tolerated), and at
/// least two segments must be there.
pub open spec fn parse_path_spec(url: Seq<char>, host: Seq<char>, path_start: int) -> Result<
    (Seq<char>, Seq<char>, Seq<char>),
    ParseError,
> {
    let n = url.len() as int;
    if host.len() == 0 {
        Result::Err(ParseError::MissingHost)
    } else {
        let pe = if path_start < n && url[n - 1] == '/' {
            n - 1
        } else {
            n
        };
        let s1 = find_char_from(url, '/', path_start);
        if s1 >= pe {
            Result::Err(ParseError::Unparsable)
        } else if s1 == path_start {
            Result::Err(ParseError::MissingOwner)
        } else {
            let owner = url.subrange(path_start, s1);
            let ls = rfind_char_before(url, '/', pe);
            let name = strip_git_suffix(url.subrange(ls + 1, pe));
            Result::Ok((host, owner, name))
        }
    }
}

/// What parsing a remote URL yields: the `{host, owner, name}` triple for a
/// well-formed URL of either accepted form, and the reason otherwise.
pub open spec fn parse_url_spec(url: Seq<char>) -> Result<
    (Seq<char>, Seq<char>, Seq<char>),
    ParseError,
> {
    let n = url.len() as int;
    let p = find_scheme_sep(url, 0);
    if p < n {
        // scheme form: authority up to the first `/`, then the path
        let auth_start = p + 3;
        let slash = find_char_from(url, '/', auth_start);
        if slash >= n {
            Result::Err(ParseError::Unparsable)
        } else {
            let at = find_char_from(url, '@', auth_start);
            let host_start = if at < slash {
                at + 1
            } else {
                auth_start
            };
            let colon = find_char_from(url, ':', host_start);
            let host_end = if colon < slash {
                colon
            } else {
                slash
            };
            parse_path_spec(url, url.subrange(host_start, host_end), slash + 1)
        }
    } else {
        // ssh form: `user@host:path`
        let at = find_char_from(url, '@', 0);
        if at >= n {
            Result::Err(ParseError::Unparsable)
        } else {
            let colon = find_char_from(url, ':', at + 1);
            if colon >= n {
                Result::Err(ParseError::Unparsable)
            } else {
                parse_path_spec(url, url.subrange(at + 1, colon), colon + 1)
            }
        }
    }
}

/// Find `c` at or after `i`, as `find_char_from` says.
fn find_char_at(s: &str, n: usize, c: char, i: usize) -> (r: usize)
    requires
        n as int == s@.len(),
        i <= n,
    ensures
        r as int == find_char_from(s@, c, i as int),
        i <= r <= n,
        r < n ==> s@[r as int] == c,
    decreases n - i,
{
    if i >= n {
        i
    } else if s.get_char(i) == c {
        i
    } else {
        find_char_at(s, n, c, i + 1)
    }
}

/// Find `://` at or after `i`, as `find_scheme_sep` says.
fn find_scheme_sep_at(s: &str, n: usize, i: usize) -> (r: usize)
    requires
        n as int == s@.len(),
        i <= n,
    ensures
        r as int == find_scheme_sep(s@, i as int),
        i <= r <= n,
        r < n ==> r + 3 <= n,
    decreases n - i,
{
    if n - i < 3 {
        n
    } else if s.get_char(i) == ':' && s.get_char(i + 1) == '/' && s.get_char(i + 2) == '/' {
        i
    } else {
        find_scheme_sep_at(s, n, i + 1)
    }
}

/// Find the last `c` before `e`, as `rfind_char_before` says; `e` itself
/// means none.
fn rfind_char_at(s: &str, n: usize, c: char, e: usize) -> (r: usize)
    requires
        n as int == s@.len(),
        e <= n,
    ensures
        (r == e && rfind_char_before(s@, c, e as int) == -1) || (r < e && r as int
            == rfind_char_before(s@, c, e as int)),
    decreases e,
{
    if e == 0 {
        e
    } else if s.get_char(e - 1) == c {
        e - 1
    } else {
        let r = rfind_char_at(s, n, c, e - 1);
        if r == e - 1 {
            e
        } else {
            r
        }
    }
}

/// Copy out `s[a..b]` with every trailing `.git` suffix stripped.
fn strip_git_at(s: &str, n: usize, a: usize, b: usize) -> (r: String)
    requires
        n as int == s@.len(),
        a <= b <= n,
    ensures
        r@ == strip_git_suffix(s@.subrange(a as int, b as int)),
    decreases b - a,
{
    if b - a >= 4 && s.get_char(b - 4) == '.' && s.get_char(b - 3) == 'g' && s.get_char(b - 2)
        == 'i' && s.get_char(b - 1) == 't' {
        let r = strip_git_at(s, n, a, b - 4);
        proof {
            let part = s@.subrange(a as int, b as int);
            assert(part.subrange(part.len() - 4, part.len() as int) =~= seq!['.', 'g', 'i', 't']);
            assert(part.subrange(0, part.len() - 4) =~= s@.subrange(a as int, b - 4));
        }
        r
    } else {
        proof {
            let part = s@.subrange(a as int, b as int);
            if part.len() >= 4 {
                assert(part[part.len() - 4] == s@[b - 4]);
                assert(part[part.len() - 3] == s@[b - 3]);
                assert(part[part.len() - 2] == s@[b - 2]);
                assert(part[part.len() - 1] == s@[b - 1]);
            }
        }
        s.substring_char(a, b).to_owned()
    }
}

/// Parse the path part and build the location, as `parse_path_spec` says.
fn parse_path(s: &str, n: usize, host: String, path_start: usize) -> (r: Result<
    RepositoryLocation,
    ParseError,
>)
    requires
        n as int == s@.len(),
        path_start <= n,
    ensures
        match parse_path_spec(s@, host@, path_start as int) {
            Result::Ok((h, o, nm)) => r matches Ok(loc) && loc.host@ == h && loc.owner@ == o
                && loc.name@ == nm,
            Result::Err(e) => r == Result::<RepositoryLocation, ParseError>::Err(e),
        },
        r matches Ok(loc) ==> loc.host@.len() > 0 && loc.owner@.len() > 0,
{
    if host.as_str().unicode_len() == 0 {
        return Err(ParseError::MissingHost);
    }
    let pe = if path_start < n && s.get_char(n - 1) == '/' {
        n - 1
    } else {
        n
    };
    let s1 = find_char_at(s, n, '/', path_start);
    if s1 >= pe {
        return Err(ParseError::Unparsable);
    }
    if s1 == path_start {
        return Err(ParseError::MissingOwner);
    }
    let owner = s.substring_char(path_start, s1).to_owned();
    let ls = rfind_char_at(s, n, '/', pe);
    proof {
        lemma_rfind_char_before_bounds(s@, '/', pe as int);
        assert(rfind_char_before(s@, '/', pe as int) >= s1 as int >= 0) by {
            assert(s@[s1 as int] == '/');
            lemma_rfind_ge(s@, '/', pe as int, s1 as int);
        }
    }
    let name = strip_git_at(s, n, ls + 1, pe);
    Ok(RepositoryLocation { host, owner, name })
}

/// A position holding `c` below `e` bounds the last occurrence from below.
proof fn lemma_rfind_ge(s: Seq<char>, c: char, e: int, w: int)
    requires
        0 <= w < e <= s.len(),
        s[w] == c,
    ensures
        rfind_char_before(s, c, e) >= w,
    decreases e,
{
    if s[e - 1] != c {
        lemma_rfind_ge(s, c, e - 1, w);
    }
}

/// Parse a remote URL into a repository location.
///
/// Succeeds exactly when the URL is of one of the two accepted forms and
/// names a non-empty host, a non-empty owner and a repository name; the
/// error says what was missing. In particular the triple of a parsed
/// location always has a non-empty host and a non-empty owner.
pub fn parse_url(url: &str) -> (r: Result<RepositoryLocation, ParseError>)
    ensures
        match parse_url_spec(url@) {
            Result::Ok((h, o, nm)) => r matches Ok(loc) && loc.host@ == h && loc.owner@ == o
                && loc.name@ == nm,
            Result::Err(e) => r == Result::<RepositoryLocation, ParseError>::Err(e),
        },
        r matches Ok(loc) ==> loc.host@.len() > 0 && loc.owner@.len() > 0,
{
    let n = url.unicode_len();
    let p = find_scheme_sep_at(url, n, 0);
    if p < n {
        let auth_start = p + 3;
        let slash = find_char_at(url, n, '/', auth_start);
        if slash >= n {
            return Err(ParseError::Unparsable);
        }
        let at = find_char_at(url, n, '@', auth_start);
        let host_start = if at < slash {
            at + 1
        } else {
            auth_start
        };
        let colon = find_char_at(url, n, ':', host_start);
        let host_end = if colon < slash {
            colon
        } else {
            slash
        };
        let host = url.substring_char(host_start, host_end).to_owned();
        parse_path(url, n, host, slash + 1)
    } else {
        let at = find_char_at(url, n, '@', 0);
        if at >= n {
            return Err(ParseError::Unparsable);
        }
        let colon = find_char_at(url, n, ':', at + 1);
        if colon >= n {
            return Err(ParseError::Unparsable);
        }
        let host = url.substring_char(at + 1, colon).to_owned();
        parse_path(url, n, host, colon + 1)
    }
}

/// Relies on `path_absolutize::Absolutize::absolutize` for `Path`: it
/// resolves `.` and `..` segments and doubled separators, prepending the
/// process working directory when the path is relative; an absolute path is
/// resolved without consulting the working directory, so on an absolute
/// input it cannot fail, and one already in normal form comes back
/// unchanged. A failure to read the working directory, or a resolved path
/// that is not valid UTF-8, is reported as `None`.
#[verifier::external_body]
fn absolutize_str(p: &str) -> (r: Option<String>)
    ensures
        match r {
            Option::Some(s) => (is_absolute_path(p@) ==> is_absolute_path(s@)) && (
            is_clean_abs_path(p@) ==> s@ == p@),
            Option::None => !is_absolute_path(p@),
        },
{
    match std::path::Path::new(p).absolutize() {
        Ok(cow) => match cow.to_str() {
            Some(s) => Some(s.to_string()),
            None => None,
        },
        Err(_) => None,
    }
}

/// The destination path for a location under a root, before absolute-path
/// resolution: `root`, `host`, `owner` and `name` joined in order.
pub open spec fn dest_seq(
    root: Seq<char>,
    host: Seq<char>,
    owner: Seq<char>,
    name: Seq<char>,
) -> Seq<char> {
    join_seq(join_seq(join_seq(root, host), owner), name)
}

/// Resolving is exact and deterministic over a normal-form absolute root:
/// the destination for plain host, owner and name segments is itself in
/// normal form (and in particular absolute), so `url_to_path` is owed
/// success and returns exactly the root joined with the three segments —
/// the same output for the same inputs, every time.
pub proof fn lemma_resolve_shape(root: Seq<char>, h: Seq<char>, o: Seq<char>, n: Seq<char>)
    requires
        is_clean_abs_path(root),
        crate::paths::plain_segment(h),
        crate::paths::plain_segment(o),
        crate::paths::plain_segment(n),
    ensures
        is_clean_abs_path(dest_seq(root, h, o, n)),
        is_absolute_path(dest_seq(root, h, o, n)),
{
    crate::paths::lemma_join_clean(root, h);
    crate::paths::lemma_join_clean(join_seq(root, h), o);
    crate::paths::lemma_join_clean(join_seq(join_seq(root, h), o), n);
}

/// Map a remote URL to its destination path under `root`: parse the URL,
/// join `root/host/owner/name`, and resolve the joined path to an absolute
/// one.
///
/// The parse errors come exactly as `parse_url` gives them. After a
/// successful parse, resolution is owed whenever the joined path is
/// absolute, and a joined path already in normal form is returned as it is;
/// only a failure of absolute-path resolution itself (no working directory
/// available) is reported as `Io`.
pub fn url_to_path(root: &str, url: &str) -> (r: Result<String, ResolveError>)
    ensures
        match parse_url_spec(url@) {
            Result::Err(e) => r == Result::<String, ResolveError>::Err(ResolveError::Parse(e)),
            Result::Ok((h, o, n)) => {
                let joined = dest_seq(root@, h, o, n);
                match r {
                    Result::Ok(s) => (is_absolute_path(joined) ==> is_absolute_path(s@)) && (
                    is_clean_abs_path(joined) ==> s@ == joined),
                    Result::Err(e) => e == ResolveError::Io && !is_absolute_path(joined),
                }
            },
        },
{
    let loc = match parse_url(url) {
        Ok(loc) => loc,
        Err(e) => {
            return Err(ResolveError::Parse(e));
        },
    };
    let a = crate::paths::join_path(root, loc.host.as_str());
    let b = crate::paths::join_path(a.as_str(), loc.owner.as_str());
    let joined = crate::paths::join_path(b.as_str(), loc.name.as_str());
    match absolutize_str(joined.as_str()) {
        Some(s) => Ok(s),
        None => Err(ResolveError::Io),
    }
}

} // verus!
