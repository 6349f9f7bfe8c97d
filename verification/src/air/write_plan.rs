//! Write plans: a block tree laid out as rows, in the order in which the
//! rows are written.
//!
//! The category's row comes first, so that its identifier is known before
//! its children are written; then its children follow, depth first and
//! from left to right.

use super::block::{Block, BlockView, CategoryBlock, CategoryView, RichTextBlock, TextBlock};
use super::db_io::{DbBlock, DbCategoryBlock, DbRichTextBlock, DbTextBlock, RowView};
use vstd::prelude::*;

verus! {

/// How a planned row names its parent: by an identifier that the store
/// holds already, or by the step of the plan at which the parent's row is
/// written.
#[derive(Debug, Clone, Copy, PartialEq, Eq, Structural)]
pub enum RowRef {
    Stored(i64),
    Planned(usize),
}

/// A row that is to be written.
#[derive(Debug)]
pub enum PlannedRow {
    Category { id: Option<i64>, name: String, parent_category: Option<RowRef> },
    RichText { id: Option<i64>, parent_category: Option<RowRef> },
    Text {
        id: Option<i64>,
        content: String,
        parent_category: Option<RowRef>,
        parent_rich_text: Option<RowRef>,
    },
}

/// The mathematical value of a [`PlannedRow`].
pub enum PlannedRowView {
    Category { id: Option<i64>, name: Seq<char>, parent_category: Option<RowRef> },
    RichText { id: Option<i64>, parent_category: Option<RowRef> },
    Text {
        id: Option<i64>,
        content: Seq<char>,
        parent_category: Option<RowRef>,
        parent_rich_text: Option<RowRef>,
    },
}

impl View for PlannedRow {
    type V = PlannedRowView;

    open spec fn view(&self) -> PlannedRowView {
        match self {
            PlannedRow::Category { id, name, parent_category } => PlannedRowView::Category {
                id: *id,
                name: name@,
                parent_category: *parent_category,
            },
            PlannedRow::RichText { id, parent_category } => PlannedRowView::RichText {
                id: *id,
                parent_category: *parent_category,
            },
            PlannedRow::Text {
                id,
                content,
                parent_category,
                parent_rich_text,
            } => PlannedRowView::Text {
                id: *id,
                content: content@,
                parent_category: *parent_category,
                parent_rich_text: *parent_rich_text,
            },
        }
    }
}

/// The values of the rows of a plan.
pub open spec fn plan_view(plan: Seq<PlannedRow>) -> Seq<PlannedRowView> {
    plan.map_values(|row: PlannedRow| row@)
}

/// A tree cannot be stored: a rich text block holds a block that is no
/// text.
#[derive(Debug, Clone, Copy, PartialEq, Eq, Structural)]
pub enum WriteError {
    /// A rich text block holds a category.
    CategoryInRichText,
    /// A rich text block holds a rich text block.
    RichTextInRichText,
}

/// The first block among the first `n` children of a rich text block that
/// is no text, as the error that it causes.
pub open spec fn rich_text_violation(children: Seq<BlockView>, n: nat) -> Option<WriteError>
    decreases n,
{
    if n == 0 || n > children.len() {
        None
    } else {
        match rich_text_violation(children, (n - 1) as nat) {
            Some(e) => Some(e),
            None => match children[n - 1] {
                BlockView::Category(_) => Some(WriteError::CategoryInRichText),
                BlockView::RichText(_) => Some(WriteError::RichTextInRichText),
                BlockView::Text(_) => None,
            },
        }
    }
}

/// The error that writing `b` runs into first, if it runs into one.
pub open spec fn block_violation(b: BlockView) -> Option<WriteError>
    decreases b, 0nat,
{
    match b {
        BlockView::Category(c) => children_violation(c.children, c.children.len()),
        BlockView::RichText(children) => rich_text_violation(children, children.len()),
        BlockView::Text(_) => None,
    }
}

/// The error that writing the first `n` of `children` runs into first, if
/// it runs into one.
pub open spec fn children_violation(children: Seq<BlockView>, n: nat) -> Option<WriteError>
    decreases children, n,
{
    if n == 0 || n > children.len() {
        None
    } else {
        match children_violation(children, (n - 1) as nat) {
            Some(e) => Some(e),
            None => block_violation(children[n - 1]),
        }
    }
}

/// The error that writing the category `c` runs into first, if it runs
/// into one.
pub open spec fn category_violation(c: CategoryView) -> Option<WriteError> {
    children_violation(c.children, c.children.len())
}

/// Once a violation is met, it stays the first one.
pub proof fn lemma_rich_text_violation_stays(children: Seq<BlockView>, i: nat, n: nat)
    requires
        i <= n <= children.len(),
        rich_text_violation(children, i) is Some,
    ensures
        rich_text_violation(children, n) == rich_text_violation(children, i),
    decreases n - i,
{
    if i < n {
        lemma_rich_text_violation_stays(children, i, (n - 1) as nat);
    }
}

/// Once a violation is met, it stays the first one.
pub proof fn lemma_children_violation_stays(children: Seq<BlockView>, i: nat, n: nat)
    requires
        i <= n <= children.len(),
        children_violation(children, i) is Some,
    ensures
        children_violation(children, n) == children_violation(children, i),
    decreases n - i,
{
    if i < n {
        lemma_children_violation_stays(children, i, (n - 1) as nat);
    }
}

/// A plan cut back to the rows that it held at first has the values that
/// it had at first.
proof fn lemma_plan_cut_back(plan: Seq<PlannedRow>, before: Seq<PlannedRowView>, step: int)
    requires
        0 <= step <= plan.len(),
        before.len() == step,
        plan_view(plan).subrange(0, step) == before,
    ensures
        plan_view(plan.subrange(0, step)) == before,
{
    assert(plan_view(plan.subrange(0, step)) =~= plan_view(plan).subrange(0, step));
}

/// The row of a text block.
pub open spec fn text_row(
    content: Seq<char>,
    id: Option<i64>,
    parent_category: Option<RowRef>,
    parent_rich_text: Option<RowRef>,
) -> PlannedRowView {
    PlannedRowView::Text { id, content, parent_category, parent_rich_text }
}

/// The content of a text block; empty for the other kinds of block.
pub open spec fn content_of(b: BlockView) -> Seq<char> {
    match b {
        BlockView::Text(content) => content,
        _ => Seq::empty(),
    }
}

/// The rows of a rich text block that is written at step `step`: its own
/// row, then one row for each of its text blocks, which name it as their
/// parent.
pub open spec fn rich_text_rows(
    children: Seq<BlockView>,
    id: Option<i64>,
    parent_category: Option<RowRef>,
    step: nat,
) -> Seq<PlannedRowView> {
    seq![PlannedRowView::RichText { id, parent_category }] + Seq::new(
        children.len(),
        |k: int|
            text_row(content_of(children[k]), None, None, Some(RowRef::Planned(step as usize))),
    )
}

/// The rows of a category that is written at step `step`: its own row,
/// then the rows of its children.
pub open spec fn category_rows(c: CategoryView, parent_category: Option<RowRef>, step: nat) -> Seq<
    PlannedRowView,
>
    decreases c, 1nat,
{
    seq![PlannedRowView::Category { id: c.id, name: c.name, parent_category }] + children_rows(
        c.children,
        c.children.len(),
        step,
    )
}

/// The rows of the first `n` children of the category that is written at
/// step `owner`; they follow the category's own row.
pub open spec fn children_rows(children: Seq<BlockView>, n: nat, owner: nat) -> Seq<PlannedRowView>
    decreases children, n,
{
    if n == 0 || n > children.len() {
        Seq::empty()
    } else {
        let init = children_rows(children, (n - 1) as nat, owner);
        init + block_rows(children[n - 1], owner, owner + 1 + init.len())
    }
}

/// The rows of a child of the category that is written at step `owner`,
/// where the child's own row is written at step `step`.
pub open spec fn block_rows(b: BlockView, owner: nat, step: nat) -> Seq<PlannedRowView>
    decreases b, 2nat,
{
    match b {
        BlockView::Category(c) => category_rows(c, Some(RowRef::Planned(owner as usize)), step),
        BlockView::RichText(children) => rich_text_rows(
            children,
            None,
            Some(RowRef::Planned(owner as usize)),
            step,
        ),
        BlockView::Text(content) => seq![
            text_row(content, None, Some(RowRef::Planned(owner as usize)), None),
        ],
    }
}

impl TextBlock {
    /// Plans the row of this block and returns the step at which it is
    /// written.
    pub fn write_to_db(
        &self,
        plan: &mut Vec<PlannedRow>,
        id: Option<i64>,
        parent_category_id: Option<RowRef>,
        parent_rich_text_block_id: Option<RowRef>,
    ) -> (r: Result<usize, WriteError>)
        ensures
            r == Ok::<usize, WriteError>(old(plan)@.len() as usize),
            plan_view(final(plan)@) == plan_view(old(plan)@).push(
                text_row(self@, id, parent_category_id, parent_rich_text_block_id),
            ),
    {
        let step: usize = plan.len();
        let row = PlannedRow::Text {
            id,
            content: self.content.clone(),
            parent_category: parent_category_id,
            parent_rich_text: parent_rich_text_block_id,
        };
        proof {
            assert(plan_view(plan@.push(row)) =~= plan_view(plan@).push(row@));
        }
        plan.push(row);
        Ok(step)
    }
}

impl RichTextBlock {
    /// Plans the rows of this block and of its text blocks, and returns
    /// the step at which its own row is written. A block that holds
    /// anything but text cannot be stored; the plan is then left as it
    /// was.
    pub fn write_to_db(
        &self,
        plan: &mut Vec<PlannedRow>,
        id: Option<i64>,
        parent_category_id: Option<RowRef>,
    ) -> (r: Result<usize, WriteError>)
        ensures
            match r {
                Ok(step) => {
                    &&& rich_text_violation(self@, self@.len()) is None
                    &&& step == old(plan)@.len()
                    &&& plan_view(final(plan)@) == plan_view(old(plan)@) + rich_text_rows(
                        self@,
                        id,
                        parent_category_id,
                        old(plan)@.len(),
                    )
                },
                Err(e) => {
                    &&& rich_text_violation(self@, self@.len()) == Some(e)
                    &&& plan_view(final(plan)@) == plan_view(old(plan)@)
                },
            },
    {
        let step: usize = plan.len();
        let ghost before = plan_view(plan@);
        assert(before.len() == step);
        let row = PlannedRow::RichText { id, parent_category: parent_category_id };
        proof {
            assert(plan_view(plan@.push(row)) =~= plan_view(plan@).push(row@));
        }
        plan.push(row);
        let n: usize = self.children.len();
        let mut i: usize = 0;
        assert(plan_view(plan@) =~= before + rich_text_rows(
            self@.take(0),
            id,
            parent_category_id,
            step as nat,
        ));
        while i < n
            invariant
                n == self.children@.len(),
                n == self@.len(),
                i <= n,
                step == old(plan)@.len(),
                before == plan_view(old(plan)@),
                before.len() == step,
                plan@.len() > step,
                rich_text_violation(self@, i as nat) is None,
                plan_view(plan@) == before + rich_text_rows(
                    self@.take(i as int),
                    id,
                    parent_category_id,
                    step as nat,
                ),
            decreases n - i,
        {
            assert(self@[i as int] == self.children@[i as int]@);
            match &self.children[i] {
                Block::Category(_) => {
                    let ghost mid = plan@;
                    plan.truncate(step);
                    proof {
                        assert(plan_view(mid).subrange(0, step as int) =~= before);
                        lemma_plan_cut_back(mid, before, step as int);
                        lemma_rich_text_violation_stays(self@, (i + 1) as nat, n as nat);
                    }
                    return Err(WriteError::CategoryInRichText);
                },
                Block::RichText(_) => {
                    let ghost mid = plan@;
                    plan.truncate(step);
                    proof {
                        assert(plan_view(mid).subrange(0, step as int) =~= before);
                        lemma_plan_cut_back(mid, before, step as int);
                        lemma_rich_text_violation_stays(self@, (i + 1) as nat, n as nat);
                    }
                    return Err(WriteError::RichTextInRichText);
                },
                Block::Text(t) => {
                    let ghost mid = plan@;
                    let _ = t.write_to_db(plan, None, None, Some(RowRef::Planned(step)));
                    proof {
                        assert(plan_view(plan@) =~= before + rich_text_rows(
                            self@.take(i + 1),
                            id,
                            parent_category_id,
                            step as nat,
                        ));
                    }
                },
            }
            i = i + 1;
        }
        assert(self@.take(n as int) =~= self@);
        Ok(step)
    }
}

impl CategoryBlock {
    /// Plans the rows of this category and of everything below it, and
    /// returns the step at which its own row is written. A tree in which a
    /// rich text block holds anything but text cannot be stored; the plan
    /// is then left as it was.
    pub fn write_to_db(&self, plan: &mut Vec<PlannedRow>, parent_category_id: Option<RowRef>) -> (r:
        Result<usize, WriteError>)
        ensures
            match r {
                Ok(step) => {
                    &&& category_violation(self@) is None
                    &&& step == old(plan)@.len()
                    &&& plan_view(final(plan)@) == plan_view(old(plan)@) + category_rows(
                        self@,
                        parent_category_id,
                        old(plan)@.len(),
                    )
                },
                Err(e) => {
                    &&& category_violation(self@) == Some(e)
                    &&& plan_view(final(plan)@) == plan_view(old(plan)@)
                },
            },
        decreases self,
    {
        let step: usize = plan.len();
        let ghost before = plan_view(plan@);
        assert(before.len() == step);
        let ghost head = PlannedRowView::Category {
            id: self.id,
            name: self.name@,
            parent_category: parent_category_id,
        };
        let row = PlannedRow::Category {
            id: self.id,
            name: self.name.clone(),
            parent_category: parent_category_id,
        };
        proof {
            assert(plan_view(plan@.push(row)) =~= plan_view(plan@).push(row@));
        }
        plan.push(row);
        let n: usize = self.children.len();
        let mut i: usize = 0;
        assert(plan_view(plan@) =~= before + seq![head] + children_rows(
            self@.children,
            0,
            step as nat,
        ));
        while i < n
            invariant
                n == self.children@.len(),
                n == self@.children.len(),
                i <= n,
                step == old(plan)@.len(),
                before == plan_view(old(plan)@),
                before.len() == step,
                head == (PlannedRowView::Category {
                    id: self.id,
                    name: self.name@,
                    parent_category: parent_category_id,
                }),
                plan@.len() == step + 1 + children_rows(self@.children, i as nat, step as nat).len(),
                children_violation(self@.children, i as nat) is None,
                plan_view(plan@) == before + seq![head] + children_rows(
                    self@.children,
                    i as nat,
                    step as nat,
                ),
            decreases n - i,
        {
            assert(self@.children[i as int] == self.children@[i as int]@);
            let ghost mid = plan@;
            let ghost init = children_rows(self@.children, i as nat, step as nat);
            assert(plan_view(mid).len() == mid.len());
            let written = match &self.children[i] {
                Block::Category(cat) => {
                    assert(decreases_to!(self => self.children@[i as int]->Category_0));
                    cat.write_to_db(plan, Some(RowRef::Planned(step)))
                },
                Block::RichText(rt) => rt.write_to_db(plan, None, Some(RowRef::Planned(step))),
                Block::Text(t) => {
                    let r = t.write_to_db(plan, None, Some(RowRef::Planned(step)), None);
                    proof {
                        assert(plan_view(mid).push(
                            text_row(t@, None, Some(RowRef::Planned(step)), None),
                        ) =~= plan_view(mid) + seq![
                            text_row(t@, None, Some(RowRef::Planned(step)), None),
                        ]);
                    }
                    r
                },
            };
            match written {
                Err(e) => {
                    let ghost failed = plan@;
                    plan.truncate(step);
                    proof {
                        assert(plan_view(failed) == plan_view(mid));
                        assert(plan_view(failed).len() == failed.len());
                        assert(plan_view(failed).subrange(0, step as int) =~= before);
                        lemma_plan_cut_back(failed, before, step as int);
                        assert(block_violation(self@.children[i as int]) == Some(e));
                        assert(children_violation(self@.children, (i + 1) as nat) == Some(e));
                        lemma_children_violation_stays(self@.children, (i + 1) as nat, n as nat);
                    }
                    return Err(e);
                },
                Ok(_) => {
                    proof {
                        let sub = block_rows(
                            self@.children[i as int],
                            step as nat,
                            (step + 1 + init.len()) as nat,
                        );
                        assert(plan_view(plan@) == plan_view(mid) + sub);
                        assert(plan_view(plan@).len() == plan@.len());
                        assert(children_rows(self@.children, (i + 1) as nat, step as nat) == init
                            + sub);
                        assert(before + seq![head] + init + sub =~= before + seq![head] + (init
                            + sub));
                        assert(block_violation(self@.children[i as int]) is None);
                        assert(children_violation(self@.children, (i + 1) as nat) is None);
                    }
                },
            }
            i = i + 1;
        }
        proof {
            assert(before + seq![head] + children_rows(self@.children, n as nat, step as nat)
                =~= before + category_rows(self@, parent_category_id, step as nat));
        }
        Ok(step)
    }
}

/// The identifier that a reference stands for once the rows of the steps
/// before it were written and were assigned `ids`.
pub open spec fn resolved_ref(r: Option<RowRef>, ids: Seq<i64>) -> Option<i64> {
    match r {
        None => None,
        Some(RowRef::Stored(id)) => Some(id),
        Some(RowRef::Planned(step)) => if step < ids.len() {
            Some(ids[step as int])
        } else {
            None
        },
    }
}

/// Whether a reference can be resolved with the identifiers `ids`.
pub open spec fn resolvable_ref(r: Option<RowRef>, ids: Seq<i64>) -> bool {
    match r {
        Some(RowRef::Planned(step)) => step < ids.len(),
        _ => true,
    }
}

/// Whether every reference of `row` can be resolved with `ids`.
pub open spec fn resolvable(row: PlannedRowView, ids: Seq<i64>) -> bool {
    match row {
        PlannedRowView::Category { parent_category, .. } => resolvable_ref(parent_category, ids),
        PlannedRowView::RichText { parent_category, .. } => resolvable_ref(parent_category, ids),
        PlannedRowView::Text { parent_category, parent_rich_text, .. } => resolvable_ref(
            parent_category,
            ids,
        ) && resolvable_ref(parent_rich_text, ids),
    }
}

/// The row that is handed to the store: `row` with each reference to a
/// step replaced by the identifier that was assigned at that step.
pub open spec fn resolved(row: PlannedRowView, ids: Seq<i64>) -> RowView {
    match row {
        PlannedRowView::Category { id, name, parent_category } => RowView::Category {
            id,
            name,
            parent_category_id: resolved_ref(parent_category, ids),
        },
        PlannedRowView::RichText { id, parent_category } => RowView::RichText {
            id,
            parent_category_id: resolved_ref(parent_category, ids),
        },
        PlannedRowView::Text { id, content, parent_category, parent_rich_text } => RowView::Text {
            id,
            content,
            parent_category_id: resolved_ref(parent_category, ids),
            parent_rich_text_block_id: resolved_ref(parent_rich_text, ids),
        },
    }
}

/// The identifier that `r` stands for, where `ids` holds the identifiers
/// assigned at the steps written so far.
fn resolve_ref(r: &Option<RowRef>, ids: &Vec<i64>) -> (id: Option<i64>)
    ensures
        id == resolved_ref(*r, ids@),
{
    match r {
        None => None,
        Some(RowRef::Stored(id)) => Some(*id),
        Some(RowRef::Planned(step)) => if *step < ids.len() {
            Some(ids[*step])
        } else {
            None
        },
    }
}

/// Whether `r` can be resolved with `ids`.
fn is_resolvable(r: &Option<RowRef>, ids: &Vec<i64>) -> (b: bool)
    ensures
        b == resolvable_ref(*r, ids@),
{
    match r {
        Some(RowRef::Planned(step)) => *step < ids.len(),
        _ => true,
    }
}

impl PlannedRow {
    /// The row to hand to the store, where `ids` holds the identifiers
    /// assigned at the steps written so far; `None` where the row refers
    /// to a step that was not written yet.
    pub fn resolve(&self, ids: &Vec<i64>) -> (r: Option<DbBlock>)
        ensures
            match r {
                Some(row) => resolvable(self@, ids@) && row@ == resolved(self@, ids@),
                None => !resolvable(self@, ids@),
            },
    {
        match self {
            PlannedRow::Category { id, name, parent_category } => {
                if !is_resolvable(parent_category, ids) {
                    return None;
                }
                Some(
                    DbBlock::Category(
                        DbCategoryBlock {
                            id: *id,
                            name: name.clone(),
                            parent_category_id: resolve_ref(parent_category, ids),
                        },
                    ),
                )
            },
            PlannedRow::RichText { id, parent_category } => {
                if !is_resolvable(parent_category, ids) {
                    return None;
                }
                Some(
                    DbBlock::RichText(
                        DbRichTextBlock {
                            id: *id,
                            parent_category_id: resolve_ref(parent_category, ids),
                        },
                    ),
                )
            },
            PlannedRow::Text { id, content, parent_category, parent_rich_text } => {
                if !is_resolvable(parent_category, ids) || !is_resolvable(parent_rich_text, ids) {
                    return None;
                }
                Some(
                    DbBlock::Text(
                        DbTextBlock {
                            id: *id,
                            content: content.clone(),
                            parent_category_id: resolve_ref(parent_category, ids),
                            parent_rich_text_block_id: resolve_ref(parent_rich_text, ids),
                        },
                    ),
                )
            },
        }
    }
}

} // verus!
