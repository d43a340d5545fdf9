//! Collision resolving: given a destination path and the set of occupied
//! paths, find the first available candidate.
//!
//! Candidate `0` is the path itself; candidate `k >= 1` appends the
//! disambiguator `(k)` to the path. The search is capped so that it always
//! terminates with an explicit error instead of looping unboundedly.

use vstd::prelude::*;

use crate::errors::FindError;

verus! {

/// The most candidates ever probed for one path.
pub const MAX_ATTEMPTS: u32 = 10000;

/// The decimal digit character for `n < 10`.
pub open spec fn dec_digit(n: nat) -> char {
    (('0' as u8) + n as u8) as char
}

/// The decimal representation of `n`, most significant digit first.
pub open spec fn dec_rep(n: nat) -> Seq<char>
    decreases n,
{
    if n < 10 {
        seq![dec_digit(n)]
    } else {
        dec_rep(n / 10) + seq![dec_digit(n % 10)]
    }
}

/// Candidate `k` for a path: the path itself for `k == 0`, the path with
/// the disambiguator `(k)` appended for `k >= 1`.
pub open spec fn candidate_seq(path: Seq<char>, k: nat) -> Seq<char> {
    if k == 0 {
        path
    } else {
        path + seq!['('] + dec_rep(k) + seq![')']
    }
}

/// Whether some entry of `v` spells the path `q`.
pub open spec fn contains_path(v: Seq<String>, q: Seq<char>) -> bool {
    exists|i: int| 0 <= i < v.len() && #[trigger] v[i]@ == q
}

/// The decimal digit string for `d < 10`.
fn dec_digit_str(d: u32) -> (r: &'static str)
    requires
        d < 10,
    ensures
        r@ == seq![dec_digit(d as nat)],
{
    proof {
        reveal_strlit("0");
        reveal_strlit("1");
        reveal_strlit("2");
        reveal_strlit("3");
        reveal_strlit("4");
        reveal_strlit("5");
        reveal_strlit("6");
        reveal_strlit("7");
        reveal_strlit("8");
        reveal_strlit("9");
    }
    let r = if d == 0 {
        "0"
    } else if d == 1 {
        "1"
    } else if d == 2 {
        "2"
    } else if d == 3 {
        "3"
    } else if d == 4 {
        "4"
    } else if d == 5 {
        "5"
    } else if d == 6 {
        "6"
    } else if d == 7 {
        "7"
    } else if d == 8 {
        "8"
    } else {
        "9"
    };
    proof {
        assert(r@ =~= seq![dec_digit(d as nat)]);
    }
    r
}

/// Render `n` in decimal.
pub fn u32_to_decimal(n: u32) -> (r: String)
    ensures
        r@ == dec_rep(n as nat),
    decreases n,
{
    if n < 10 {
        dec_digit_str(n).to_owned()
    } else {
        let r = u32_to_decimal(n / 10).concat(dec_digit_str(n % 10));
        proof {
            assert(r@ =~= dec_rep(n as nat));
        }
        r
    }
}

/// Build candidate `k` for a path.
pub fn candidate_path(path: &str, k: u32) -> (r: String)
    ensures
        r@ == candidate_seq(path@, k as nat),
{
    if k == 0 {
        path.to_owned()
    } else {
        let r = path.to_owned().concat("(").concat(u32_to_decimal(k).as_str()).concat(")");
        proof {
            reveal_strlit("(");
            reveal_strlit(")");
            assert(r@ =~= candidate_seq(path@, k as nat));
        }
        r
    }
}

/// Whether `v` holds an entry equal to `s`.
fn contains_string(v: &Vec<String>, s: &String) -> (r: bool)
    ensures
        r == contains_path(v@, s@),
{
    let mut i: usize = 0;
    while i < v.len()
        invariant
            0 <= i <= v@.len(),
            forall|j: int| 0 <= j < i ==> #[trigger] v@[j]@ != s@,
        decreases v@.len() - i,
    {
        if crate::paths::str_eq(v[i].as_str(), s.as_str()) {
            return true;
        }
        i = i + 1;
    }
    false
}

/// Find the first available candidate for `filepath`, where `occupied`
/// lists the paths that already exist.
///
/// Returns the path itself when it is not occupied; otherwise the candidate
/// with the smallest disambiguator `k >= 1` that is not occupied. When every
/// candidate up to the attempt cap is occupied, the search reports
/// exhaustion instead of looping on.
pub fn find_available_path(filepath: &String, occupied: &Vec<String>) -> (r: Result<
    String,
    FindError,
>)
    ensures
        r matches Ok(q) ==> !contains_path(occupied@, q@),
        !contains_path(occupied@, filepath@) ==> (r matches Ok(q) && q@ == filepath@),
        r matches Ok(q) ==> exists|k: nat|
            k <= MAX_ATTEMPTS && q@ == #[trigger] candidate_seq(filepath@, k) && forall|j: nat|
                j < k ==> contains_path(occupied@, #[trigger] candidate_seq(filepath@, j)),
        r is Err ==> forall|k: nat|
            k <= MAX_ATTEMPTS ==> contains_path(occupied@, #[trigger] candidate_seq(filepath@, k)),
{
    let mut k: u32 = 0;
    while k <= MAX_ATTEMPTS
        invariant
            0 <= k <= MAX_ATTEMPTS + 1,
            forall|j: nat|
                j < k ==> contains_path(occupied@, #[trigger] candidate_seq(filepath@, j)),
        decreases MAX_ATTEMPTS + 1 - k,
    {
        let cand = candidate_path(filepath.as_str(), k);
        if !contains_string(occupied, &cand) {
            proof {
                if k > 0 {
                    assert(contains_path(occupied@, candidate_seq(filepath@, 0)));
                }
            }
            return Ok(cand);
        }
        k = k + 1;
    }
    proof {
        assert(contains_path(occupied@, candidate_seq(filepath@, 0)));
    }
    Err(FindError::Exhausted)
}

/// Find the first available candidate for `filepath`, exactly as
/// `find_available_path` does; both names are part of the public surface.
pub fn find_path(filepath: &String, occupied: &Vec<String>) -> (r: Result<String, FindError>)
    ensures
        r matches Ok(q) ==> !contains_path(occupied@, q@),
        !contains_path(occupied@, filepath@) ==> (r matches Ok(q) && q@ == filepath@),
        r matches Ok(q) ==> exists|k: nat|
            k <= MAX_ATTEMPTS && q@ == #[trigger] candidate_seq(filepath@, k) && forall|j: nat|
                j < k ==> contains_path(occupied@, #[trigger] candidate_seq(filepath@, j)),
        r is Err ==> forall|k: nat|
            k <= MAX_ATTEMPTS ==> contains_path(occupied@, #[trigger] candidate_seq(filepath@, k)),
{
    find_available_path(filepath, occupied)
}

} // verus!
