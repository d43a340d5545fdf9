//! A string model of filesystem paths.
//!
//! Paths are plain UTF-8 strings joined with `/`. A path is absolute when it
//! starts with the separator.

use vstd::prelude::*;

verus! {

/// The path separator this library joins with.
pub open spec fn sep() -> char {
    '/'
}

/// A path is absolute when it starts with the separator.
pub open spec fn is_absolute_path(s: Seq<char>) -> bool {
    s.len() > 0 && s[0] == sep()
}

/// Joining `a` and `b`: `b` alone when `a` is empty, otherwise `a`, one
/// separator (unless `a` already ends with one), then `b`.
pub open spec fn join_seq(a: Seq<char>, b: Seq<char>) -> Seq<char> {
    if a.len() == 0 {
        b
    } else if a.last() == sep() {
        a + b
    } else {
        a + seq![sep()] + b
    }
}

/// Whether `p` starts with the separator.
pub fn is_absolute(p: &str) -> (r: bool)
    ensures
        r == is_absolute_path(p@),
{
    let n = p.unicode_len();
    if n == 0 {
        false
    } else {
        p.get_char(0) == '/'
    }
}

/// Join two path strings as `join_seq` says.
pub fn join_path(a: &str, b: &str) -> (r: String)
    ensures
        r@ == join_seq(a@, b@),
{
    let n = a.unicode_len();
    if n == 0 {
        return b.to_owned();
    }
    let last = a.get_char(n - 1);
    if last == '/' {
        let r = a.to_owned().concat(b);
        assert(r@ =~= join_seq(a@, b@));
        r
    } else {
        let r = a.to_owned().concat("/").concat(b);
        proof {
            reveal_strlit("/");
            assert(r@ =~= join_seq(a@, b@));
        }
        r
    }
}

/// Whether characters `i` and `i + 1` of `s` spell a `.` segment: a single
/// dot bounded by the path's ends or by separators.
pub open spec fn dot_segment_at(s: Seq<char>, i: int) -> bool {
    0 <= i < s.len() && s[i] == '.' && (i == 0 || s[i - 1] == sep()) && (i + 1 == s.len() || s[i
        + 1] == sep())
}

/// Whether characters `i` and `i + 1` of `s` spell a `..` segment.
pub open spec fn dot_dot_segment_at(s: Seq<char>, i: int) -> bool {
    0 <= i && i + 2 <= s.len() && s[i] == '.' && s[i + 1] == '.' && (i == 0 || s[i - 1] == sep())
        && (i + 2 == s.len() || s[i + 2] == sep())
}

/// An absolute path in normal form: it starts with the separator, has no
/// doubled or trailing separator (except the root path itself), and no `.`
/// or `..` segment. Absolute-path resolution leaves such a path unchanged.
pub open spec fn is_clean_abs_path(s: Seq<char>) -> bool {
    &&& is_absolute_path(s)
    &&& (s.len() == 1 || s.last() != sep())
    &&& (forall|i: int| 0 <= i < s.len() - 1 ==> !(#[trigger] s[i] == sep() && s[i + 1] == sep()))
    &&& (forall|i: int| !dot_segment_at(s, i))
    &&& (forall|i: int| !dot_dot_segment_at(s, i))
}

/// A plain path segment: non-empty, not a dot segment, and free of
/// separators.
pub open spec fn plain_segment(s: Seq<char>) -> bool {
    &&& s.len() > 0
    &&& s != seq!['.']
    &&& s != seq!['.', '.']
    &&& forall|i: int| 0 <= i < s.len() ==> #[trigger] s[i] != sep()
}

/// Joining a plain segment onto a normal-form absolute path keeps the path
/// in normal form.
pub proof fn lemma_join_clean(a: Seq<char>, b: Seq<char>)
    requires
        is_clean_abs_path(a),
        plain_segment(b),
    ensures
        is_clean_abs_path(join_seq(a, b)),
{
    let r = join_seq(a, b);
    if a.len() == 1 {
        assert(a.last() == a[0]);
        assert(r == a + b);
        assert(r.len() == 1 + b.len());
        assert(r[0] == sep());
        assert(forall|p: int| 0 <= p < b.len() ==> #[trigger] r[1 + p] == b[p]);
        assert(r.last() == b.last());
        assert(forall|p: int| 1 <= p < r.len() ==> #[trigger] r[p] != sep());
        assert forall|p: int| !dot_segment_at(r, p) by {
            if dot_segment_at(r, p) {
                assert(r[p] == '.');
                assert(p >= 1);
                assert(p == 1 || r[p - 1] == sep());
                assert(p == 1);
                assert(p + 1 == r.len() || r[p + 1] == sep());
                assert(p + 1 == r.len());
                assert(b =~= seq!['.']);
            }
        }
        assert forall|p: int| !dot_dot_segment_at(r, p) by {
            if dot_dot_segment_at(r, p) {
                assert(p >= 1);
                assert(p == 1 || r[p - 1] == sep());
                assert(p == 1);
                assert(p + 2 == r.len() || r[p + 2] == sep());
                assert(p + 2 == r.len());
                assert(b =~= seq!['.', '.']);
            }
        }
    } else {
        assert(a.last() != sep());
        assert(r == a + seq![sep()] + b);
        let al = a.len() as int;
        assert(r.len() == al + 1 + b.len());
        assert(forall|p: int| 0 <= p < al ==> #[trigger] r[p] == a[p]);
        assert(r[al] == sep());
        assert(forall|p: int| 0 <= p < b.len() ==> #[trigger] r[al + 1 + p] == b[p]);
        assert(r[0] == a[0]);
        assert(r.last() == b.last());
        assert(b.last() != sep());
        assert forall|p: int|
            0 <= p < r.len() - 1 implies !(#[trigger] r[p] == sep() && r[p + 1] == sep()) by {
            if p < al - 1 {
                assert(r[p] == a[p] && r[p + 1] == a[p + 1]);
            } else if p == al - 1 {
                assert(r[p] == a.last());
            } else if p == al {
                assert(r[p + 1] == b[0]);
            } else {
                assert(r[p] == b[p - al - 1]);
            }
        }
        assert forall|p: int| !dot_segment_at(r, p) by {
            if dot_segment_at(r, p) {
                if p < al {
                    assert(r[p] == a[p]);
                    if p + 1 == al {
                        assert(a.last() == '.');
                        assert(r[p + 1] == sep());
                        assert(dot_segment_at(a, p));
                    } else {
                        assert(p + 1 < r.len());
                        assert(r[p + 1] == a[p + 1]);
                        assert(p == 0 || r[p - 1] == a[p - 1]);
                        assert(dot_segment_at(a, p));
                    }
                } else if p == al {
                } else {
                    assert(r[p] == b[p - al - 1]);
                    assert(p - al - 1 == 0 || r[p - 1] == b[p - al - 2]);
                    assert(p == al + 1);
                    assert(p + 1 == r.len() || r[p + 1] == b[p - al]);
                    assert(p + 1 == r.len());
                    assert(b =~= seq!['.']);
                }
            }
        }
        assert forall|p: int| !dot_dot_segment_at(r, p) by {
            if dot_dot_segment_at(r, p) {
                if p + 1 < al {
                    assert(r[p] == a[p] && r[p + 1] == a[p + 1]);
                    if p + 2 == al {
                        assert(r[p + 2] == sep());
                        assert(dot_dot_segment_at(a, p));
                    } else {
                        assert(p + 2 < r.len());
                        assert(r[p + 2] == a[p + 2]);
                        assert(p == 0 || r[p - 1] == a[p - 1]);
                        assert(dot_dot_segment_at(a, p));
                    }
                } else if p + 1 == al {
                    assert(r[p + 1] == sep());
                } else if p == al {
                } else {
                    assert(r[p] == b[p - al - 1] && r[p + 1] == b[p - al]);
                    assert(p - al - 1 == 0 || r[p - 1] == b[p - al - 2]);
                    assert(p == al + 1);
                    assert(p + 2 == r.len() || r[p + 2] == b[p - al + 1]);
                    assert(p + 2 == r.len());
                    assert(b =~= seq!['.', '.']);
                }
            }
        }
    }
}

/// The views of a sequence of strings, in order.
pub open spec fn strs_view(v: Seq<String>) -> Seq<Seq<char>>
    decreases v.len(),
{
    if v.len() == 0 {
        Seq::empty()
    } else {
        strs_view(v.drop_last()).push(v.last()@)
    }
}

/// `strs_view` keeps the length and maps each entry to its view.
pub proof fn lemma_strs_view(v: Seq<String>)
    ensures
        strs_view(v).len() == v.len(),
        forall|i: int| 0 <= i < v.len() ==> #[trigger] strs_view(v)[i] == v[i]@,
    decreases v.len(),
{
    if v.len() > 0 {
        lemma_strs_view(v.drop_last());
    }
}

/// Compare two string slices character by character.
pub fn str_eq(a: &str, b: &str) -> (r: bool)
    ensures
        r == (a@ == b@),
{
    let na = a.unicode_len();
    let nb = b.unicode_len();
    if na != nb {
        return false;
    }
    let mut i: usize = 0;
    while i < na
        invariant
            na == a@.len(),
            na == b@.len(),
            0 <= i <= na,
            forall|j: int| 0 <= j < i ==> a@[j] == b@[j],
        decreases na - i,
    {
        if a.get_char(i) != b.get_char(i) {
            return false;
        }
        i = i + 1;
    }
    proof {
        assert(a@ =~= b@);
    }
    true
}

/// The absolute form of `path` against the working directory `cwd`: `path`
/// itself when it is already absolute, otherwise `cwd` joined with `path`.
pub open spec fn absolute_of(path: Seq<char>, cwd: Seq<char>) -> Seq<char> {
    if is_absolute_path(path) {
        path
    } else {
        join_seq(cwd, path)
    }
}

/// Make `path` absolute against the given working directory.
pub fn get_absolute_path(path: &str, cwd: &str) -> (r: String)
    ensures
        r@ == absolute_of(path@, cwd@),
        is_absolute_path(cwd@) ==> is_absolute_path(r@),
{
    if is_absolute(path) {
        path.to_owned()
    } else {
        let r = join_path(cwd, path);
        proof {
            if is_absolute_path(cwd@) {
                assert(join_seq(cwd@, path@)[0] == cwd@[0]);
            }
        }
        r
    }
}

} // verus!
