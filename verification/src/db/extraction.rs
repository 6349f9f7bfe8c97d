//! Reconstruction: from the flat rows that the store hands back to the
//! block tree.
//!
//! The store answers a query for a category and everything below it with
//! a matrix of identifiers, one row for each combination of category, rich
//! text block and text block. The rows to fetch are the identifiers of
//! that matrix in order of first appearance; the tree is rebuilt from the
//! fetched rows with a single forward cursor, each row naming its parent.

use crate::air::block::{
    lemma_views_empty, lemma_views_push, views, Block, BlockView, CategoryBlock, CategoryView,
    RichTextBlock, TextBlock,
};
use crate::air::db_io::{
    bare_category, row_views, DbBlock, RowView,
};
use std::collections::HashSet;
use vstd::prelude::*;

verus! {

/// One row of the matrix of identifiers.
#[derive(Debug, Clone, Copy)]
pub struct DbBlockMatrixRow {
    pub category_block_id: i64,
    pub rich_text_block_id: Option<i64>,
    pub text_block_id: Option<i64>,
}

/// The identifier of a row in one of the three tables.
#[derive(Debug, Clone, Copy, PartialEq, Eq, Structural)]
pub enum DbBlockId {
    Category(i64),
    RichText(i64),
    Text(i64),
}

/// The matrix of identifiers of a category and everything below it.
#[derive(Debug)]
pub struct DbBlockMatrix {
    rows: Vec<DbBlockMatrixRow>,
}

/// `ids` with `id` at its end, unless `ids` holds `id` already.
pub open spec fn with_new(ids: Seq<DbBlockId>, id: DbBlockId) -> Seq<DbBlockId> {
    if ids.contains(id) {
        ids
    } else {
        ids.push(id)
    }
}

/// `ids` with the identifiers of `row` that it does not hold yet: the
/// category's, then the rich text block's, then the text block's.
pub open spec fn with_row(ids: Seq<DbBlockId>, row: DbBlockMatrixRow) -> Seq<DbBlockId> {
    let a = with_new(ids, DbBlockId::Category(row.category_block_id));
    let b = match row.rich_text_block_id {
        Some(id) => with_new(a, DbBlockId::RichText(id)),
        None => a,
    };
    match row.text_block_id {
        Some(id) => with_new(b, DbBlockId::Text(id)),
        None => b,
    }
}

/// The identifiers of the first `n` rows of the matrix, each once, in
/// order of first appearance.
pub open spec fn flat_ids(rows: Seq<DbBlockMatrixRow>, n: nat) -> Seq<DbBlockId>
    decreases n,
{
    if n == 0 || n > rows.len() {
        Seq::empty()
    } else {
        with_row(flat_ids(rows, (n - 1) as nat), rows[n - 1])
    }
}

/// Adding an identifier that is not yet held keeps a sequence free of
/// repetition.
pub proof fn lemma_with_new_no_duplicates(ids: Seq<DbBlockId>, id: DbBlockId)
    requires
        ids.no_duplicates(),
    ensures
        with_new(ids, id).no_duplicates(),
        with_new(ids, id).contains(id),
        forall|other: DbBlockId| ids.contains(other) ==> with_new(ids, id).contains(other),
{
    if !ids.contains(id) {
        let out = ids.push(id);
        assert(out[ids.len() as int] == id);
        assert forall|other: DbBlockId| ids.contains(other) implies out.contains(other) by {
            let k = choose|k: int| 0 <= k < ids.len() && ids[k] == other;
            assert(out[k] == other);
        }
    }
}

/// No identifier is fetched twice.
pub proof fn lemma_flat_ids_no_duplicates(rows: Seq<DbBlockMatrixRow>, n: nat)
    ensures
        flat_ids(rows, n).no_duplicates(),
    decreases n,
{
    if n == 0 || n > rows.len() {
    } else {
        lemma_flat_ids_no_duplicates(rows, (n - 1) as nat);
        let row = rows[n - 1];
        let init = flat_ids(rows, (n - 1) as nat);
        let a = with_new(init, DbBlockId::Category(row.category_block_id));
        lemma_with_new_no_duplicates(init, DbBlockId::Category(row.category_block_id));
        let b = match row.rich_text_block_id {
            Some(id) => with_new(a, DbBlockId::RichText(id)),
            None => a,
        };
        if let Some(id) = row.rich_text_block_id {
            lemma_with_new_no_duplicates(a, DbBlockId::RichText(id));
        }
        if let Some(id) = row.text_block_id {
            lemma_with_new_no_duplicates(b, DbBlockId::Text(id));
        }
    }
}

/// Every identifier of the matrix is fetched.
pub proof fn lemma_flat_ids_complete(rows: Seq<DbBlockMatrixRow>, n: nat, k: int)
    requires
        0 <= k < n <= rows.len(),
    ensures
        flat_ids(rows, n).contains(DbBlockId::Category(rows[k].category_block_id)),
        rows[k].rich_text_block_id is Some ==> flat_ids(rows, n).contains(
            DbBlockId::RichText(rows[k].rich_text_block_id->0),
        ),
        rows[k].text_block_id is Some ==> flat_ids(rows, n).contains(
            DbBlockId::Text(rows[k].text_block_id->0),
        ),
    decreases n,
{
    lemma_flat_ids_no_duplicates(rows, (n - 1) as nat);
    let row = rows[n - 1];
    let init = flat_ids(rows, (n - 1) as nat);
    let a = with_new(init, DbBlockId::Category(row.category_block_id));
    lemma_with_new_no_duplicates(init, DbBlockId::Category(row.category_block_id));
    let b = match row.rich_text_block_id {
        Some(id) => with_new(a, DbBlockId::RichText(id)),
        None => a,
    };
    if let Some(id) = row.rich_text_block_id {
        lemma_with_new_no_duplicates(a, DbBlockId::RichText(id));
    }
    if let Some(id) = row.text_block_id {
        lemma_with_new_no_duplicates(b, DbBlockId::Text(id));
    }
    if k < n - 1 {
        lemma_flat_ids_complete(rows, (n - 1) as nat, k);
    }
}

/// The identifiers in `seen` are those of one kind that `ids` holds.
spec fn tracks(seen: Set<i64>, ids: Seq<DbBlockId>, kind: spec_fn(i64) -> DbBlockId) -> bool {
    forall|id: i64| seen.contains(id) <==> ids.contains(#[trigger] kind(id))
}

proof fn lemma_tracks_push(
    seen: Set<i64>,
    ids: Seq<DbBlockId>,
    kind: spec_fn(i64) -> DbBlockId,
    added: DbBlockId,
)
    requires
        tracks(seen, ids, kind),
        forall|id: i64| #[trigger] kind(id) != added,
    ensures
        tracks(seen, ids.push(added), kind),
{
    assert forall|id: i64| seen.contains(id) <==> ids.push(added).contains(
        #[trigger] kind(id),
    ) by {
        if ids.contains(kind(id)) {
            let k = choose|k: int| 0 <= k < ids.len() && ids[k] == kind(id);
            assert(ids.push(added)[k] == kind(id));
        }
        if ids.push(added).contains(kind(id)) {
            let k = choose|k: int| 0 <= k < ids.push(added).len() && ids.push(added)[k] == kind(id);
            assert(ids[k] == kind(id));
        }
    }
}

proof fn lemma_tracks_insert(
    seen: Set<i64>,
    ids: Seq<DbBlockId>,
    kind: spec_fn(i64) -> DbBlockId,
    new: i64,
)
    requires
        tracks(seen, ids, kind),
        forall|a: i64, b: i64| #[trigger] kind(a) == #[trigger] kind(b) ==> a == b,
    ensures
        tracks(seen.insert(new), ids.push(kind(new)), kind),
{
    let out = ids.push(kind(new));
    assert(out[ids.len() as int] == kind(new));
    assert forall|id: i64| seen.insert(new).contains(id) <==> out.contains(
        #[trigger] kind(id),
    ) by {
        if ids.contains(kind(id)) {
            let k = choose|k: int| 0 <= k < ids.len() && ids[k] == kind(id);
            assert(out[k] == kind(id));
        }
        if out.contains(kind(id)) && id != new {
            let k = choose|k: int| 0 <= k < out.len() && out[k] == kind(id);
            assert(ids[k] == kind(id));
        }
    }
}

impl DbBlockMatrix {
    /// The rows of the matrix.
    pub closed spec fn rows(self) -> Seq<DbBlockMatrixRow> {
        self.rows@
    }

    /// The matrix with the given rows, in the order in which the store
    /// handed them back.
    pub fn new(rows: Vec<DbBlockMatrixRow>) -> (matrix: DbBlockMatrix)
        ensures
            matrix.rows() == rows@,
    {
        DbBlockMatrix { rows }
    }

    /// The identifiers of the rows to fetch: every identifier of the
    /// matrix once, in order of first appearance, and within one row of
    /// the matrix the category before the rich text block before the text
    /// block.
    pub fn flat_block_ids(&self) -> (ids: Vec<DbBlockId>)
        ensures
            ids@ == flat_ids(self.rows(), self.rows().len()),
            ids@.no_duplicates(),
            forall|k: int|
                0 <= k < self.rows().len() ==> {
                    let row = #[trigger] self.rows()[k];
                    &&& ids@.contains(DbBlockId::Category(row.category_block_id))
                    &&& row.rich_text_block_id is Some ==> ids@.contains(
                        DbBlockId::RichText(row.rich_text_block_id->0),
                    )
                    &&& row.text_block_id is Some ==> ids@.contains(
                        DbBlockId::Text(row.text_block_id->0),
                    )
                },
    {
        let mut ids: Vec<DbBlockId> = Vec::new();
        let mut category_block_ids_so_far: HashSet<i64> = HashSet::new();
        let mut rich_text_block_ids_so_far: HashSet<i64> = HashSet::new();
        let mut text_block_ids_so_far: HashSet<i64> = HashSet::new();
        let ghost category = |id: i64| DbBlockId::Category(id);
        let ghost rich_text = |id: i64| DbBlockId::RichText(id);
        let ghost text = |id: i64| DbBlockId::Text(id);
        let n: usize = self.rows.len();
        let mut i: usize = 0;
        proof {
            lemma_flat_ids_no_duplicates(self.rows@, n as nat);
            assert forall|k: int| 0 <= k < self.rows@.len() implies {
                let row = #[trigger] self.rows@[k];
                let all = flat_ids(self.rows@, n as nat);
                &&& all.contains(DbBlockId::Category(row.category_block_id))
                &&& row.rich_text_block_id is Some ==> all.contains(
                    DbBlockId::RichText(row.rich_text_block_id->0),
                )
                &&& row.text_block_id is Some ==> all.contains(
                    DbBlockId::Text(row.text_block_id->0),
                )
            } by {
                lemma_flat_ids_complete(self.rows@, n as nat, k);
            }
        }
        while i < n
            invariant
                n == self.rows@.len(),
                i <= n,
                category == |id: i64| DbBlockId::Category(id),
                rich_text == |id: i64| DbBlockId::RichText(id),
                text == |id: i64| DbBlockId::Text(id),
                ids@ == flat_ids(self.rows@, i as nat),
                tracks(category_block_ids_so_far@, ids@, category),
                tracks(rich_text_block_ids_so_far@, ids@, rich_text),
                tracks(text_block_ids_so_far@, ids@, text),
            decreases n - i,
        {
            let row = &self.rows[i];
            let category_id: i64 = row.category_block_id;
            assert(category(category_id) == DbBlockId::Category(category_id));
            if !category_block_ids_so_far.contains(&category_id) {
                proof {
                    lemma_tracks_insert(category_block_ids_so_far@, ids@, category, category_id);
                    lemma_tracks_push(
                        rich_text_block_ids_so_far@,
                        ids@,
                        rich_text,
                        category(category_id),
                    );
                    lemma_tracks_push(text_block_ids_so_far@, ids@, text, category(category_id));
                }
                ids.push(DbBlockId::Category(category_id));
                category_block_ids_so_far.insert(category_id);
            }
            if let Some(rt_id) = row.rich_text_block_id {
                assert(rich_text(rt_id) == DbBlockId::RichText(rt_id));
                if !rich_text_block_ids_so_far.contains(&rt_id) {
                    proof {
                        lemma_tracks_insert(rich_text_block_ids_so_far@, ids@, rich_text, rt_id);
                        lemma_tracks_push(
                            category_block_ids_so_far@,
                            ids@,
                            category,
                            rich_text(rt_id),
                        );
                        lemma_tracks_push(text_block_ids_so_far@, ids@, text, rich_text(rt_id));
                    }
                    ids.push(DbBlockId::RichText(rt_id));
                    rich_text_block_ids_so_far.insert(rt_id);
                }
            }
            if let Some(t_id) = row.text_block_id {
                assert(text(t_id) == DbBlockId::Text(t_id));
                if !text_block_ids_so_far.contains(&t_id) {
                    proof {
                        lemma_tracks_insert(text_block_ids_so_far@, ids@, text, t_id);
                        lemma_tracks_push(category_block_ids_so_far@, ids@, category, text(t_id));
                        lemma_tracks_push(
                            rich_text_block_ids_so_far@,
                            ids@,
                            rich_text,
                            text(t_id),
                        );
                    }
                    ids.push(DbBlockId::Text(t_id));
                    text_block_ids_so_far.insert(t_id);
                }
            }
            i = i + 1;
        }
        ids
    }
}

/// The tree cannot be rebuilt from the rows.
#[derive(Debug, Clone, Copy, PartialEq, Eq, Structural)]
pub enum TreeError {
    /// There are no rows: nothing is stored under the identifier.
    NoBlocks,
    /// The first row is no category.
    FirstBlockNotCategory,
    /// A row names a category as its parent, and the category whose
    /// children are being collected has no identifier.
    MissingCategoryId,
    /// A text row names a rich text block as its parent, and the rich text
    /// block whose children are being collected has no identifier.
    MissingRichTextId,
}

/// What the cursor does with a row while it collects the children of a
/// parent.
pub enum Step {
    /// The row is no child of the parent: the parent's children end here,
    /// and the row is left to the caller.
    Stop,
    /// The parent has no identifier to compare with.
    Fail(TreeError),
    /// The row is a child of the parent.
    Take,
}

/// The category that `row` names as its parent.
pub open spec fn parent_category_of(row: RowView) -> Option<i64> {
    match row {
        RowView::Category { parent_category_id, .. } => parent_category_id,
        RowView::RichText { parent_category_id, .. } => parent_category_id,
        RowView::Text { parent_category_id, .. } => parent_category_id,
    }
}

/// The rich text block that `row` names as its parent; only text rows
/// name one.
pub open spec fn parent_rich_text_of(row: RowView) -> Option<i64> {
    match row {
        RowView::Text { parent_rich_text_block_id, .. } => parent_rich_text_block_id,
        _ => None,
    }
}

/// What the cursor does with `row` while it collects the children of
/// `parent`. Under a category a row of any kind is a child if it names the
/// category as its parent; under a rich text block a text row is a child
/// if it names the block as its parent. Every other row ends the
/// children of `parent`; nothing is a child of a text row. A parent
/// without identifier cannot be compared with the parent that a row names.
pub open spec fn step_at(parent: RowView, row: RowView) -> Step {
    match parent {
        RowView::Category { id, .. } => match parent_category_of(row) {
            None => Step::Stop,
            Some(named) => match id {
                None => Step::Fail(TreeError::MissingCategoryId),
                Some(parent_id) => if named == parent_id {
                    Step::Take
                } else {
                    Step::Stop
                },
            },
        },
        RowView::RichText { id, .. } => match parent_rich_text_of(row) {
            None => Step::Stop,
            Some(named) => match id {
                None => Step::Fail(TreeError::MissingRichTextId),
                Some(parent_id) => if named == parent_id {
                    Step::Take
                } else {
                    Step::Stop
                },
            },
        },
        RowView::Text { .. } => Step::Stop,
    }
}

/// `prefix` before the blocks of `r`.
pub open spec fn prepend(
    prefix: Seq<BlockView>,
    r: Result<(Seq<BlockView>, int), TreeError>,
) -> Result<(Seq<BlockView>, int), TreeError> {
    match r {
        Ok((rest, end)) => Ok((prefix + rest, end)),
        Err(e) => Err(e),
    }
}

/// The children of `parent` that the cursor collects from row `index` on,
/// and the index of the first row that it leaves to the caller. Child
/// categories are at `level`.
pub open spec fn children_from(rows: Seq<RowView>, parent: RowView, index: int, level: nat) -> Result<
    (Seq<BlockView>, int),
    TreeError,
>
    decreases rows.len() - index, 1nat,
{
    if index < 0 || index >= rows.len() {
        Ok((Seq::empty(), index))
    } else {
        match step_at(parent, rows[index]) {
            Step::Stop => Ok((Seq::empty(), index)),
            Step::Fail(e) => Err(e),
            Step::Take => match block_at(rows, index, level) {
                Err(e) => Err(e),
                Ok((block, next)) => if index < next <= rows.len() {
                    prepend(seq![block], children_from(rows, parent, next, level))
                } else {
                    Ok((seq![block], next))
                },
            },
        }
    }
}

/// The block of row `index` with everything below it, and the index of
/// the first row after it. A category is at `level`.
pub open spec fn block_at(rows: Seq<RowView>, index: int, level: nat) -> Result<
    (BlockView, int),
    TreeError,
>
    decreases rows.len() - index, 0nat,
{
    if index < 0 || index >= rows.len() {
        Err(TreeError::NoBlocks)
    } else {
        match rows[index] {
            RowView::Category { id, name, .. } => match children_from(
                rows,
                rows[index],
                index + 1,
                level + 1,
            ) {
                Err(e) => Err(e),
                Ok((children, next)) => Ok(
                    (
                        BlockView::Category(
                            CategoryView { children, ..bare_category(id, name, level) },
                        ),
                        next,
                    ),
                ),
            },
            RowView::RichText { .. } => match children_from(rows, rows[index], index + 1, level) {
                Err(e) => Err(e),
                Ok((children, next)) => Ok((BlockView::RichText(children), next)),
            },
            RowView::Text { content, .. } => Ok((BlockView::Text(content), index + 1)),
        }
    }
}

/// The tree that the rows describe: the first row is its root, at level
/// 0, and the rows after it are collected as the root's descendants.
pub open spec fn tree_of(rows: Seq<RowView>) -> Result<CategoryView, TreeError> {
    if rows.len() == 0 {
        Err(TreeError::NoBlocks)
    } else {
        match rows[0] {
            RowView::Category { id, name, .. } => match children_from(rows, rows[0], 1, 1) {
                Err(e) => Err(e),
                Ok((children, end)) => Ok(
                    CategoryView { children, ..bare_category(id, name, 0) },
                ),
            },
            _ => Err(TreeError::FirstBlockNotCategory),
        }
    }
}

/// The cursor never moves back, and never past the last row.
pub proof fn lemma_children_from_bounds(rows: Seq<RowView>, parent: RowView, index: int, level: nat)
    requires
        0 <= index <= rows.len(),
    ensures
        match children_from(rows, parent, index, level) {
            Ok((children, end)) => index <= end <= rows.len(),
            Err(_) => true,
        },
    decreases rows.len() - index, 1nat,
{
    if index < rows.len() {
        match step_at(parent, rows[index]) {
            Step::Take => {
                lemma_block_at_bounds(rows, index, level);
                match block_at(rows, index, level) {
                    Ok((block, next)) => {
                        lemma_children_from_bounds(rows, parent, next, level);
                    },
                    Err(_) => {},
                }
            },
            _ => {},
        }
    }
}

/// A block takes its own row and ends within the rows.
pub proof fn lemma_block_at_bounds(rows: Seq<RowView>, index: int, level: nat)
    requires
        0 <= index < rows.len(),
    ensures
        match block_at(rows, index, level) {
            Ok((block, next)) => index < next <= rows.len(),
            Err(_) => true,
        },
    decreases rows.len() - index, 0nat,
{
    match rows[index] {
        RowView::Category { .. } => {
            lemma_children_from_bounds(rows, rows[index], index + 1, level + 1);
        },
        RowView::RichText { .. } => {
            lemma_children_from_bounds(rows, rows[index], index + 1, level);
        },
        RowView::Text { .. } => {},
    }
}

/// What the cursor does with `row` under `parent`.
fn step_for(parent: &DbBlock, row: &DbBlock) -> (step: Step)
    ensures
        step == step_at(parent@, row@),
{
    match parent {
        DbBlock::Category(db_category_parent) => {
            let named = match row {
                DbBlock::Category(db_cat) => db_cat.parent_category_id,
                DbBlock::RichText(db_rt) => db_rt.parent_category_id,
                DbBlock::Text(db_t) => db_t.parent_category_id,
            };
            match named {
                None => Step::Stop,
                Some(parent_category_id) => match db_category_parent.id {
                    None => Step::Fail(TreeError::MissingCategoryId),
                    Some(id) => if parent_category_id == id {
                        Step::Take
                    } else {
                        Step::Stop
                    },
                },
            }
        },
        DbBlock::RichText(db_rich_text_parent) => match row {
            DbBlock::Text(db_t) => match db_t.parent_rich_text_block_id {
                None => Step::Stop,
                Some(parent_rich_text_block_id) => match db_rich_text_parent.id {
                    None => Step::Fail(TreeError::MissingRichTextId),
                    Some(id) => if parent_rich_text_block_id == id {
                        Step::Take
                    } else {
                        Step::Stop
                    },
                },
            },
            _ => Step::Stop,
        },
        DbBlock::Text(_) => Step::Stop,
    }
}

impl DbBlockMatrix {
    /// The block of row `index` with everything below it, and the index
    /// of the first row after it.
    fn get_block(&self, db_blocks: &Vec<DbBlock>, index: usize, level: usize) -> (r: Result<
        (Block, usize),
        TreeError,
    >)
        requires
            index < db_blocks@.len(),
            level <= index,
        ensures
            match r {
                Ok((block, next)) => block_at(row_views(db_blocks@), index as int, level as nat)
                    == Ok::<(BlockView, int), TreeError>((block@, next as int)) && index < next
                    <= db_blocks@.len(),
                Err(e) => block_at(row_views(db_blocks@), index as int, level as nat) == Err::<
                    (BlockView, int),
                    TreeError,
                >(e),
            },
        decreases db_blocks@.len() - index, 0nat,
    {
        let ghost rows = row_views(db_blocks@);
        assert(rows[index as int] == db_blocks@[index as int]@);
        assert(index < db_blocks.len());
        proof {
            lemma_block_at_bounds(rows, index as int, level as nat);
        }
        match &db_blocks[index] {
            DbBlock::Category(db_cat) => {
                let mut child_cat = CategoryBlock::from_db_type(db_cat, level);
                let (new_children, new_index): (Vec<Block>, usize) = match self.get_child_blocks(
                    db_blocks,
                    &db_blocks[index],
                    index + 1,
                    level + 1,
                ) {
                    Ok(found) => found,
                    Err(e) => {
                        return Err(e);
                    },
                };
                child_cat.children = new_children;
                Ok((Block::Category(child_cat), new_index))
            },
            DbBlock::RichText(db_rt) => {
                let mut child_rt = RichTextBlock::from_db_type(db_rt);
                let (new_children, new_index): (Vec<Block>, usize) = match self.get_child_blocks(
                    db_blocks,
                    &db_blocks[index],
                    index + 1,
                    level,
                ) {
                    Ok(found) => found,
                    Err(e) => {
                        return Err(e);
                    },
                };
                child_rt.children = new_children;
                Ok((Block::RichText(child_rt), new_index))
            },
            DbBlock::Text(db_t) => {
                let child_t = TextBlock::from_db_type(db_t);
                Ok((Block::Text(child_t), index + 1))
            },
        }
    }

    /// The children of `parent_block` among the rows from `start_index`
    /// on, and the index of the first row that is none of them or of their
    /// descendants.
    fn get_child_blocks(
        &self,
        db_blocks: &Vec<DbBlock>,
        parent_block: &DbBlock,
        start_index: usize,
        level: usize,
    ) -> (r: Result<(Vec<Block>, usize), TreeError>)
        requires
            start_index <= db_blocks@.len(),
            level <= start_index,
        ensures
            match r {
                Ok((children, index)) => children_from(
                    row_views(db_blocks@),
                    parent_block@,
                    start_index as int,
                    level as nat,
                ) == Ok::<(Seq<BlockView>, int), TreeError>((views(children@), index as int))
                    && start_index <= index <= db_blocks@.len(),
                Err(e) => children_from(
                    row_views(db_blocks@),
                    parent_block@,
                    start_index as int,
                    level as nat,
                ) == Err::<(Seq<BlockView>, int), TreeError>(e),
            },
        decreases db_blocks@.len() - start_index, 1nat,
    {
        let ghost rows = row_views(db_blocks@);
        let ghost whole = children_from(rows, parent_block@, start_index as int, level as nat);
        let mut children: Vec<Block> = Vec::new();
        let mut index: usize = start_index;
        let n: usize = db_blocks.len();
        proof {
            lemma_views_empty();
            assert(rows.len() == n);
            let rest = children_from(rows, parent_block@, index as int, level as nat);
            assert(prepend(Seq::empty(), rest) == rest) by {
                match rest {
                    Ok((blocks, end)) => {
                        assert(Seq::<BlockView>::empty() + blocks =~= blocks);
                    },
                    Err(_) => {},
                }
            }
        }
        while index < n
            invariant
                n == db_blocks@.len(),
                rows == row_views(db_blocks@),
                rows.len() == n,
                level <= start_index <= index <= n,
                whole == children_from(rows, parent_block@, start_index as int, level as nat),
                whole == prepend(
                    views(children@),
                    children_from(rows, parent_block@, index as int, level as nat),
                ),
            decreases n - index,
        {
            assert(rows[index as int] == db_blocks@[index as int]@);
            match step_for(parent_block, &db_blocks[index]) {
                Step::Stop => {
                    proof {
                        assert(views(children@) + Seq::<BlockView>::empty() =~= views(children@));
                    }
                    return Ok((children, index));
                },
                Step::Fail(e) => {
                    return Err(e);
                },
                Step::Take => {
                    match self.get_block(db_blocks, index, level) {
                        Err(e) => {
                            return Err(e);
                        },
                        Ok((block, next)) => {
                            proof {
                                lemma_views_push(children@, block);
                                let rest = children_from(
                                    rows,
                                    parent_block@,
                                    next as int,
                                    level as nat,
                                );
                                match rest {
                                    Ok((blocks, end)) => {
                                        assert(views(children@) + (seq![block@] + blocks)
                                            =~= views(children@).push(block@) + blocks);
                                    },
                                    Err(_) => {},
                                }
                            }
                            children.push(block);
                            index = next;
                        },
                    }
                },
            }
        }
        proof {
            assert(views(children@) + Seq::<BlockView>::empty() =~= views(children@));
        }
        Ok((children, index))
    }

    /// The tree that the fetched rows describe. The first row is the root
    /// category, at level 0; its children are at level 1, theirs at level
    /// 2, and so on.
    pub fn form_category_block_tree(&self, db_blocks: &Vec<DbBlock>) -> (r: Result<
        CategoryBlock,
        TreeError,
    >)
        ensures
            match r {
                Ok(category) => tree_of(row_views(db_blocks@)) == Ok::<CategoryView, TreeError>(
                    category@,
                ),
                Err(e) => tree_of(row_views(db_blocks@)) == Err::<CategoryView, TreeError>(e),
            },
    {
        if db_blocks.len() == 0 {
            return Err(TreeError::NoBlocks);
        }
        let ghost rows = row_views(db_blocks@);
        assert(rows[0] == db_blocks@[0]@);
        let db_block = &db_blocks[0];
        if let DbBlock::Category(db_cat_block) = db_block {
            let mut cat_block = CategoryBlock::from_db_type(db_cat_block, 0);
            let (new_children, _end): (Vec<Block>, usize) = match self.get_child_blocks(
                db_blocks,
                db_block,
                1,
                1,
            ) {
                Ok(found) => found,
                Err(e) => {
                    return Err(e);
                },
            };
            cat_block.children = new_children;
            Ok(cat_block)
        } else {
            Err(TreeError::FirstBlockNotCategory)
        }
    }
}

} // verus!
