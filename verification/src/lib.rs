//! Name compaction for serialized data: assigns each field or variant name of
//! a declaration the shortest possible unique alias, and rewrites the
//! declaration so that every named field and every variant carries a rename
//! directive with its alias.
//!
//! Aliases are scoped to one declaration and assigned by sorted name order,
//! never by visit order, so the mapping depends only on the set of names and
//! is reproducible across runs and across reorderings of the declaration. A
//! name that appears in several variants of an enum receives one shared
//! alias, which keeps the alias count, and so the alias lengths, minimal.

pub mod alias;
pub mod collect;
pub mod decl;
pub mod laws;
pub mod mapper;
pub mod order;

use vstd::prelude::*;
use crate::collect::NameCollector;
use crate::decl::{Decl, decl_names, rewrite_decl};
use crate::mapper::NameMapper;

verus! {

/// Compacts one declaration: collects its distinct names, assigns each name
/// the alias encoding its position in the sorted name sequence, and returns
/// the declaration rewritten with one rename directive per named field and
/// per variant, everything else untouched.
pub fn compact(item: Decl) -> (r: Decl)
    ensures
        r@ == rewrite_decl(item@, decl_names(item@)),
{
    let mut collector = NameCollector::new();
    collector.visit_item(&item);
    proof {
        assert(collector.name_set() =~= decl_names(item@));
    }
    let mapper = NameMapper::new(collector.names);
    proof {
        assert(mapper.name_set() == decl_names(item@));
    }
    mapper.fold_item(item)
}

} // verus!
