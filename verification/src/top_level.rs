//! Top-level categories as they cross the boundary of the library: an
//! identifier, a name and the outline markup of the content.

use crate::air::block::{CategoryBlock, CategoryView};
use crate::matching::captures::{CaptureMap, Captures};
use crate::matching::expand::{expand_folds, expansion};
use crate::matching::fold::Fold;
use crate::parsing::parser::{parse_document, Parser};
use vstd::prelude::*;

verus! {

/// A top-level category with its content as outline markup. An
/// identifier that is not positive stands for a category that is not
/// stored yet.
#[derive(Debug)]
pub struct RTopLevelCategory {
    pub id: i64,
    pub name: String,
    pub content: String,
}

/// The identifier under which a category is stored, if it is stored
/// already.
pub open spec fn known_id(id: i64) -> Option<i64> {
    if id > 0 {
        Some(id)
    } else {
        None
    }
}

impl RTopLevelCategory {
    /// The category to store: at level 1, under the name given, with the
    /// parsed content as its children, folds expanded.
    pub fn to_category(&self) -> (category: CategoryBlock)
        ensures
            category@ == (CategoryView {
                id: known_id(self.id),
                name: self.name@,
                level: 1,
                children: expansion(
                    parse_document(self.content@),
                    Seq::empty(),
                    Seq::empty(),
                ).2,
                matches: Seq::empty(),
                captures: Seq::empty(),
            }),
    {
        let parser = Parser::new(self.content.as_str());
        let mut folds: Vec<Fold> = Vec::new();
        let mut captures: Vec<String> = Vec::new();
        let blocks = expand_folds(&parser, &mut folds, &mut captures);
        let category = CategoryBlock {
            id: if self.id > 0 {
                Some(self.id)
            } else {
                None
            },
            name: self.name.clone(),
            children: blocks,
            level: 1,
            matches: Vec::new(),
            captures: Vec::new(),
        };
        proof {
            assert(category.captures@.map_values(|m: CaptureMap| m@) =~= Seq::<Captures>::empty());
            assert(Seq::<Fold>::empty().map_values(|f: Fold| f@) =~= Seq::empty());
            assert(Seq::<String>::empty().map_values(|t: String| t@) =~= Seq::empty());
        }
        category
    }

    /// The identifier under which the category is found after it was
    /// written: its own if it was stored before, else `last_id`, the one
    /// that the store assigned.
    pub fn stored_id(&self, last_id: i64) -> (id: i64)
        ensures
            id == match known_id(self.id) {
                Some(own) => own,
                None => last_id,
            },
    {
        if self.id > 0 {
            self.id
        } else {
            last_id
        }
    }
}

} // verus!
