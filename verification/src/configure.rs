//! The configuration store: an ordered, duplicate-free list of root
//! directories, loaded from and written back to a single document.
//!
//! The store itself is pure: loading takes the document text, and every
//! mutation returns with the new in-memory state; writing the state back to
//! its file is the caller's step, using `to_json` for the exact document.

use vstd::prelude::*;

use crate::errors::{ConfigError, StoreError};
use crate::json::{config_json, parse_config_spec, roots_to_json, parse_config};
use crate::paths::{lemma_strs_view, str_eq, strs_view};

verus! {

/// The persisted configuration: the path of the file it lives in, and the
/// ordered list of registered root directories.
#[derive(Debug)]
pub struct Configure {
    /// Where the configuration is persisted.
    pub file_path: String,
    /// The registered root directories, in insertion order.
    pub root: Vec<String>,
}

/// Whether `roots` holds an entry spelling `v`.
pub open spec fn roots_contain(roots: Seq<Seq<char>>, v: Seq<char>) -> bool {
    exists|i: int| 0 <= i < roots.len() && roots[i] == v
}

/// Registering a root: append it, unless it is already present.
pub open spec fn add_root_spec(roots: Seq<Seq<char>>, v: Seq<char>) -> Seq<Seq<char>> {
    if roots_contain(roots, v) {
        roots
    } else {
        roots.push(v)
    }
}

/// No entry occurs twice.
pub open spec fn no_dup_roots(roots: Seq<Seq<char>>) -> bool {
    forall|i: int, j: int| 0 <= i < j < roots.len() ==> roots[i] != roots[j]
}

/// The spelling of the one configuration field.
pub open spec fn root_field() -> Seq<char> {
    seq!['r', 'o', 'o', 't']
}

/// Load a configuration from the text of its document.
///
/// Succeeds exactly when the text is a valid configuration document; the
/// loaded roots are the document's, in order, and the given path is kept as
/// the place to persist to.
pub fn new(file_path: String, content: &str) -> (r: Result<Configure, ConfigError>)
    ensures
        match parse_config_spec(content@) {
            Option::Some(roots) => r matches Ok(c) && strs_view(c.root@) == roots && c.file_path@
                == file_path@,
            Option::None => r == Result::<Configure, ConfigError>::Err(ConfigError::Malformed),
        },
{
    match parse_config(content) {
        Some(root) => Ok(Configure { file_path, root }),
        None => Err(ConfigError::Malformed),
    }
}

/// Whether `v` holds an entry spelling `s`.
fn roots_has(v: &Vec<String>, s: &str) -> (r: bool)
    ensures
        r == roots_contain(strs_view(v@), s@),
{
    proof {
        lemma_strs_view(v@);
    }
    let mut i: usize = 0;
    while i < v.len()
        invariant
            0 <= i <= v@.len(),
            strs_view(v@).len() == v@.len(),
            forall|p: int| 0 <= p < v@.len() ==> #[trigger] strs_view(v@)[p] == v@[p]@,
            forall|p: int| 0 <= p < i ==> #[trigger] v@[p]@ != s@,
        decreases v@.len() - i,
    {
        if str_eq(v[i].as_str(), s) {
            proof {
                assert(strs_view(v@)[i as int] == s@);
            }
            return true;
        }
        i = i + 1;
    }
    proof {
        assert forall|p: int| 0 <= p < strs_view(v@).len() implies #[trigger] strs_view(v@)[p]
            != s@ by {
            assert(strs_view(v@)[p] == v@[p]@);
        }
    }
    false
}

impl Configure {
    /// Register `value` under the named field: for the field `root`, append
    /// the value unless it is already present (order kept, no duplicate).
    ///
    /// The caller has already normalized `value` to an absolute path and
    /// settled, with the user where needed, that it names an existing
    /// directory; `is_directory` says so. Any other field is unknown, and a
    /// value that is not a directory is refused; in both cases the store is
    /// left unchanged. Persist the new state afterwards with `to_json`.
    pub fn add_field(&mut self, field: &str, value: &String, is_directory: bool) -> (r: Result<
        (),
        StoreError,
    >)
        ensures
            final (self).file_path@ == old(self).file_path@,
            field@ != root_field() ==> r == Result::<(), StoreError>::Err(StoreError::UnknownField)
                && final (self).root@ == old(self).root@,
            field@ == root_field() && !is_directory ==> r == Result::<(), StoreError>::Err(
                StoreError::NotADirectory,
            ) && final (self).root@ == old(self).root@,
            field@ == root_field() && is_directory ==> r == Result::<(), StoreError>::Ok(())
                && strs_view(final (self).root@) == add_root_spec(
                strs_view(old(self).root@),
                value@,
            ),
    {
        proof {
            reveal_strlit("root");
            assert("root"@ =~= root_field());
        }
        if !str_eq(field, "root") {
            return Err(StoreError::UnknownField);
        }
        if !is_directory {
            return Err(StoreError::NotADirectory);
        }
        if !roots_has(&self.root, value.as_str()) {
            let ghost prev = self.root@;
            self.root.push(value.clone());
            proof {
                assert(self.root@.drop_last() =~= prev);
                assert(strs_view(self.root@) =~= strs_view(prev).push(value@));
            }
        }
        Ok(())
    }

    /// Set the named field: for the field `root`, replace the whole list
    /// with the one given value.
    ///
    /// The same normalization and directory settlement as for `add_field`
    /// has already happened; the errors are the same, and on an error the
    /// store is left unchanged. Persist the new state afterwards with
    /// `to_json`.
    pub fn set_field(&mut self, field: &str, value: &String, is_directory: bool) -> (r: Result<
        (),
        StoreError,
    >)
        ensures
            final (self).file_path@ == old(self).file_path@,
            field@ != root_field() ==> r == Result::<(), StoreError>::Err(StoreError::UnknownField)
                && final (self).root@ == old(self).root@,
            field@ == root_field() && !is_directory ==> r == Result::<(), StoreError>::Err(
                StoreError::NotADirectory,
            ) && final (self).root@ == old(self).root@,
            field@ == root_field() && is_directory ==> r == Result::<(), StoreError>::Ok(())
                && strs_view(final (self).root@) == seq![value@],
    {
        proof {
            reveal_strlit("root");
            assert("root"@ =~= root_field());
        }
        if !str_eq(field, "root") {
            return Err(StoreError::UnknownField);
        }
        if !is_directory {
            return Err(StoreError::NotADirectory);
        }
        let mut replacement: Vec<String> = Vec::new();
        replacement.push(value.clone());
        self.root = replacement;
        proof {
            assert(self.root@.drop_last() =~= Seq::<String>::empty());
            assert(strs_view(Seq::<String>::empty()) =~= Seq::<Seq<char>>::empty());
            assert(strs_view(self.root@) =~= seq![value@]);
        }
        Ok(())
    }

    /// Remove the named field: for the field `root`, clear the whole list.
    /// Any other field is unknown and leaves the store unchanged. Persist
    /// the new state afterwards with `to_json`.
    pub fn remove_field(&mut self, field: &str) -> (r: Result<(), StoreError>)
        ensures
            final (self).file_path@ == old(self).file_path@,
            field@ != root_field() ==> r == Result::<(), StoreError>::Err(StoreError::UnknownField)
                && final (self).root@ == old(self).root@,
            field@ == root_field() ==> r == Result::<(), StoreError>::Ok(()) && final (
            self).root@ == Seq::<String>::empty(),
    {
        proof {
            reveal_strlit("root");
            assert("root"@ =~= root_field());
        }
        if !str_eq(field, "root") {
            return Err(StoreError::UnknownField);
        }
        self.root = Vec::new();
        Ok(())
    }

    /// Clear the list of roots. Persist the new state afterwards with
    /// `to_json`.
    pub fn reset(&mut self) -> (r: Result<(), StoreError>)
        ensures
            final (self).file_path@ == old(self).file_path@,
            r == Result::<(), StoreError>::Ok(()),
            final (self).root@ == Seq::<String>::empty(),
    {
        self.root = Vec::new();
        Ok(())
    }

    /// The exact document that persists this state.
    pub fn to_json(&self) -> (r: String)
        ensures
            r@ == config_json(strs_view(self.root@)),
    {
        roots_to_json(&self.root)
    }
}

/// Registering the same root twice is the same as registering it once, the
/// registered root is present afterwards, and a duplicate-free list stays
/// duplicate-free — so after the second registration the root still occurs
/// exactly once.
pub proof fn lemma_add_root_idempotent(roots: Seq<Seq<char>>, v: Seq<char>)
    ensures
        add_root_spec(add_root_spec(roots, v), v) == add_root_spec(roots, v),
        roots_contain(add_root_spec(roots, v), v),
        no_dup_roots(roots) ==> no_dup_roots(add_root_spec(roots, v)),
{
    if !roots_contain(roots, v) {
        let pushed = roots.push(v);
        assert(pushed[roots.len() as int] == v);
        assert(roots_contain(pushed, v));
        if no_dup_roots(roots) {
            assert forall|i: int, j: int| 0 <= i < j < pushed.len() implies pushed[i]
                != pushed[j] by {
                if j < roots.len() {
                    assert(pushed[i] == roots[i] && pushed[j] == roots[j]);
                } else {
                    assert(pushed[j] == v);
                    assert(pushed[i] == roots[i]);
                    assert(!roots_contain(roots, v));
                }
            }
        }
    }
}

/// A loaded-then-written configuration document round-trips: writing the
/// state read from a document that the writer produced gives that document
/// back.
pub proof fn lemma_store_round_trip(roots: Seq<Seq<char>>)
    ensures
        parse_config_spec(config_json(roots)) == Some(roots),
{
    crate::json::lemma_config_round_trip(roots);
}

} // verus!
