//! Document-level laws proved once and for all over the row models.

use vstd::prelude::*;
use crate::row::RowModel;
use crate::env_map::{distinct_keys, lemma_insert_pair};
use crate::env_file::{env_seq, rows_env, is_decl_named};

verus! {

/// The pairs a row sequence folds to always carry distinct keys.
pub proof fn lemma_env_seq_distinct(ms: Seq<RowModel>)
    ensures
        distinct_keys(env_seq(ms)),
    decreases ms.len(),
{
    if ms.len() > 0 {
        lemma_env_seq_distinct(ms.drop_last());
        match ms.last() {
            RowModel::Decl { name, value, .. } => {
                lemma_insert_pair(env_seq(ms.drop_last()), (name, value));
            }
            _ => {}
        }
    }
}

/// Last write wins: if row `i` declares `name` with `value` and no later
/// row declares `name` again, then the mapping view of the rows carries
/// `name` with exactly that `value`.
pub proof fn lemma_last_declaration_wins(ms: Seq<RowModel>, i: int, name: Seq<u8>, value: Seq<u8>)
    requires
        0 <= i < ms.len(),
        ms[i] matches RowModel::Decl { name: n, value: v, .. } && n == name && v == value,
        forall|j: int| i < j < ms.len() ==> !is_decl_named(#[trigger] ms[j], name),
    ensures
        rows_env(ms).contains_key(name),
        rows_env(ms)[name] == value,
    decreases ms.len(),
{
    lemma_env_seq_distinct(ms.drop_last());
    if i == ms.len() - 1 {
        lemma_insert_pair(env_seq(ms.drop_last()), (name, value));
    } else {
        let m0 = ms.drop_last();
        assert forall|j: int| i < j < m0.len() implies !is_decl_named(#[trigger] m0[j], name) by {
            assert(m0[j] == ms[j]);
        }
        assert(m0[i] == ms[i]);
        lemma_last_declaration_wins(m0, i, name, value);
        assert(!is_decl_named(ms[ms.len() - 1], name));
        match ms.last() {
            RowModel::Decl { name: n2, value: v2, .. } => {
                assert(n2 != name);
                lemma_insert_pair(env_seq(m0), (n2, v2));
            }
            _ => {}
        }
    }
}

} // verus!
