//! Loading undoes storing: the tree rebuilt from the rows of a write
//! plan, in the order in which they were written, is the tree that was
//! planned, with the identifiers that the store assigned and with levels
//! counted from the root.

use super::extraction::{
    block_at, children_from, parent_category_of, parent_rich_text_of, prepend, step_at, tree_of,
    Step, TreeError,
};
use crate::air::block::{BlockView, CategoryView};
use crate::air::db_io::{bare_category, RowView};
use crate::air::write_plan::{
    block_rows, block_violation, category_rows, category_violation, children_rows,
    children_violation, content_of, resolved, resolved_ref, rich_text_rows, rich_text_violation,
    text_row, PlannedRowView, RowRef,
};
use vstd::prelude::*;

verus! {

/// The identifier of a row.
pub open spec fn row_id(row: RowView) -> Option<i64> {
    match row {
        RowView::Category { id, .. } => id,
        RowView::RichText { id, .. } => id,
        RowView::Text { id, .. } => id,
    }
}

/// `row` with the identifier `id`.
pub open spec fn with_id(row: RowView, id: i64) -> RowView {
    match row {
        RowView::Category { name, parent_category_id, .. } => RowView::Category {
            id: Some(id),
            name,
            parent_category_id,
        },
        RowView::RichText { parent_category_id, .. } => RowView::RichText {
            id: Some(id),
            parent_category_id,
        },
        RowView::Text {
            content,
            parent_category_id,
            parent_rich_text_block_id,
            ..
        } => RowView::Text { id: Some(id), content, parent_category_id, parent_rich_text_block_id },
    }
}

/// The row that the store holds once the planned row `row` was written at
/// step `step`, where `ids` holds the identifier under which each step
/// was written.
pub open spec fn stored_row(row: PlannedRowView, ids: Seq<i64>, step: int) -> RowView {
    with_id(resolved(row, ids), ids[step])
}

/// The rows that the store holds once a plan was written, in the order in
/// which they were written.
pub open spec fn stored_rows(plan: Seq<PlannedRowView>, ids: Seq<i64>) -> Seq<RowView> {
    Seq::new(plan.len(), |k: int| stored_row(plan[k], ids, k))
}

/// The rows from `start` on are the planned rows `part` as the store
/// holds them.
pub open spec fn holds_part(
    rows: Seq<RowView>,
    ids: Seq<i64>,
    part: Seq<PlannedRowView>,
    start: int,
) -> bool {
    &&& 0 <= start
    &&& start + part.len() <= rows.len()
    &&& forall|k: int|
        0 <= k < part.len() ==> rows[start + k] == stored_row(#[trigger] part[k], ids, start + k)
}

/// No two rows of categories have the same identifier.
pub open spec fn distinct_categories(rows: Seq<RowView>) -> bool {
    forall|i: int, j: int|
        0 <= i < rows.len() && 0 <= j < rows.len() && i != j && (#[trigger] rows[i]) is Category
            && (#[trigger] rows[j]) is Category ==> row_id(rows[i]) != row_id(rows[j])
}

/// The rows from `start` up to `end` are followed by nothing, or by a row
/// that names no rich text block as its parent and names as its parent
/// category none of the categories between `start` and `end`.
pub open spec fn ends_at(rows: Seq<RowView>, start: int, end: int) -> bool {
    end == rows.len() || {
        &&& 0 <= end < rows.len()
        &&& parent_rich_text_of(rows[end]) is None
        &&& forall|i: int|
            start <= i < end && (#[trigger] rows[i]) is Category ==> row_id(rows[i])
                != parent_category_of(rows[end])
    }
}

/// The category that loading gives for `c` when its row was written at
/// step `step`: with the identifier of that step, at `level`, and with
/// its children loaded one level deeper.
pub open spec fn loaded_category(c: CategoryView, ids: Seq<i64>, step: nat, level: nat) -> CategoryView
    decreases c, 1nat,
{
    CategoryView {
        children: loaded_children(c.children, c.children.len(), ids, step, level + 1),
        ..bare_category(Some(ids[step as int]), c.name, level)
    }
}

/// What loading gives for the first `n` children of the category that was
/// written at step `owner`.
pub open spec fn loaded_children(
    children: Seq<BlockView>,
    n: nat,
    ids: Seq<i64>,
    owner: nat,
    level: nat,
) -> Seq<BlockView>
    decreases children, n,
{
    if n == 0 || n > children.len() {
        Seq::empty()
    } else {
        loaded_children(children, (n - 1) as nat, ids, owner, level).push(
            loaded_block(
                children[n - 1],
                ids,
                owner + 1 + children_rows(children, (n - 1) as nat, owner).len(),
                level,
            ),
        )
    }
}

/// What loading gives for a block whose first row was written at step
/// `step`.
pub open spec fn loaded_block(b: BlockView, ids: Seq<i64>, step: nat, level: nat) -> BlockView
    decreases b, 2nat,
{
    match b {
        BlockView::Category(c) => BlockView::Category(loaded_category(c, ids, step, level)),
        _ => b,
    }
}

/// The rows of more children begin with the rows of fewer.
pub proof fn lemma_children_rows_prefix(children: Seq<BlockView>, j: nat, n: nat, owner: nat)
    requires
        j <= n <= children.len(),
    ensures
        children_rows(children, j, owner).len() <= children_rows(children, n, owner).len(),
        forall|k: int|
            0 <= k < children_rows(children, j, owner).len() ==> children_rows(
                children,
                n,
                owner,
            )[k] == children_rows(children, j, owner)[k],
    decreases n - j,
{
    if j < n {
        lemma_children_rows_prefix(children, j, (n - 1) as nat, owner);
    }
}

/// Where the rows of a category are held, the rows of each of its
/// children are held, one child after another.
pub proof fn lemma_child_rows_held(
    rows: Seq<RowView>,
    ids: Seq<i64>,
    c: CategoryView,
    parent: Option<RowRef>,
    step: nat,
    j: nat,
)
    requires
        holds_part(rows, ids, category_rows(c, parent, step), step as int),
        j < c.children.len(),
    ensures
        ({
            let start = (step + 1 + children_rows(c.children, j, step).len()) as nat;
            let part = block_rows(c.children[j as int], step, start);
            &&& holds_part(rows, ids, part, start as int)
            &&& start + part.len() == step + 1 + children_rows(c.children, j + 1, step).len()
            &&& start + part.len() <= step + category_rows(c, parent, step).len()
        }),
{
    let n = c.children.len();
    let whole = category_rows(c, parent, step);
    let all = children_rows(c.children, n, step);
    let before = children_rows(c.children, j, step);
    let start = (step + 1 + before.len()) as nat;
    let part = block_rows(c.children[j as int], step, start);
    let upto = children_rows(c.children, j + 1, step);
    let s = step as int;
    let b = before.len() as int;
    assert(upto == before + part);
    lemma_children_rows_prefix(c.children, j + 1, n, step);
    assert forall|k: int| 0 <= k < part.len() implies rows[start + k] == stored_row(
        #[trigger] part[k],
        ids,
        start + k,
    ) by {
        assert(upto[b + k] == part[k]);
        assert(all[b + k] == part[k]);
        assert(whole[1 + b + k] == part[k]);
        assert(rows[s + (1 + b + k)] == stored_row(whole[1 + b + k], ids, s + (1 + b + k)));
    }
}

/// The text blocks of `children` from index `k` on.
pub open spec fn texts_from(children: Seq<BlockView>, k: int) -> Seq<BlockView> {
    Seq::new((children.len() - k) as nat, |i: int| BlockView::Text(content_of(children[k + i])))
}

/// Under the row of a rich text block the cursor collects the text rows
/// that follow it.
proof fn lemma_texts_loaded(
    rows: Seq<RowView>,
    ids: Seq<i64>,
    children: Seq<BlockView>,
    id: Option<i64>,
    parent: Option<RowRef>,
    step: nat,
    k: int,
    level: nat,
)
    requires
        holds_part(rows, ids, rich_text_rows(children, id, parent, step), step as int),
        ids.len() == rows.len(),
        rows.len() <= usize::MAX,
        0 <= k <= children.len(),
        ends_at(rows, step as int, step as int + 1 + children.len()),
    ensures
        children_from(rows, rows[step as int], step as int + 1 + k, level) == Ok::<
            (Seq<BlockView>, int),
            TreeError,
        >((texts_from(children, k), step as int + 1 + children.len())),
    decreases children.len() - k,
{
    let part = rich_text_rows(children, id, parent, step);
    let s = step as int;
    let index = s + 1 + k;
    let end = s + 1 + children.len();
    assert(part.len() == 1 + children.len());
    assert(rows[s + 0] == stored_row(part[0], ids, s + 0));
    let head = rows[s];
    assert(head == (RowView::RichText {
        id: Some(ids[s]),
        parent_category_id: resolved_ref(parent, ids),
    }));
    if k < children.len() {
        assert(rows[s + (1 + k)] == stored_row(part[1 + k], ids, s + (1 + k)));
        assert(part[1 + k] == text_row(
            content_of(children[k]),
            None,
            None,
            Some(RowRef::Planned(step as usize)),
        ));
        let row = rows[index];
        assert(row == (RowView::Text {
            id: Some(ids[index]),
            content: content_of(children[k]),
            parent_category_id: None,
            parent_rich_text_block_id: Some(ids[s]),
        }));
        assert(step_at(head, row) == Step::Take);
        assert(block_at(rows, index, level) == Ok::<(BlockView, int), TreeError>(
            (BlockView::Text(content_of(children[k])), index + 1),
        ));
        lemma_texts_loaded(rows, ids, children, id, parent, step, k + 1, level);
        assert(seq![BlockView::Text(content_of(children[k]))] + texts_from(children, k + 1)
            =~= texts_from(children, k));
    } else {
        assert(texts_from(children, k) =~= Seq::<BlockView>::empty());
        if end < rows.len() {
            assert(step_at(head, rows[end]) == Step::Stop);
        }
    }
}

/// What loading gives for the children of a category, child by child.
pub proof fn lemma_loaded_children_index(
    children: Seq<BlockView>,
    n: nat,
    ids: Seq<i64>,
    owner: nat,
    level: nat,
    j: int,
)
    requires
        0 <= j < n <= children.len(),
    ensures
        loaded_children(children, n, ids, owner, level).len() == n,
        loaded_children(children, n, ids, owner, level)[j] == loaded_block(
            children[j],
            ids,
            owner + 1 + children_rows(children, j as nat, owner).len(),
            level,
        ),
    decreases n,
{
    lemma_loaded_children_len(children, (n - 1) as nat, ids, owner, level);
    if j < n - 1 {
        lemma_loaded_children_index(children, (n - 1) as nat, ids, owner, level, j);
    }
}

pub proof fn lemma_loaded_children_len(
    children: Seq<BlockView>,
    n: nat,
    ids: Seq<i64>,
    owner: nat,
    level: nat,
)
    requires
        n <= children.len(),
    ensures
        loaded_children(children, n, ids, owner, level).len() == n,
    decreases n,
{
    if n > 0 {
        lemma_loaded_children_len(children, (n - 1) as nat, ids, owner, level);
    }
}

/// The first row of a child of the category written at step `owner`
/// names that category as its parent, and no rich text block.
proof fn lemma_child_head(rows: Seq<RowView>, ids: Seq<i64>, b: BlockView, owner: nat, start: nat)
    requires
        holds_part(rows, ids, block_rows(b, owner, start), start as int),
        ids.len() == rows.len(),
        rows.len() <= usize::MAX,
        owner < rows.len(),
    ensures
        start < rows.len(),
        block_rows(b, owner, start).len() >= 1,
        parent_rich_text_of(rows[start as int]) is None,
        parent_category_of(rows[start as int]) == Some(ids[owner as int]),
        row_id(rows[start as int]) == Some(ids[start as int]),
        b is Category <==> rows[start as int] is Category,
{
    let part = block_rows(b, owner, start);
    let s = start as int;
    assert(part.len() >= 1);
    assert(rows[s + 0] == stored_row(part[0], ids, s + 0));
    assert((owner as usize) as int == owner);
}

/// A rich text block that can be stored holds text blocks only.
pub proof fn lemma_storable_rich_text(children: Seq<BlockView>, n: nat)
    requires
        n <= children.len(),
        rich_text_violation(children, n) is None,
    ensures
        forall|k: int| 0 <= k < n ==> (#[trigger] children[k]) is Text,
    decreases n,
{
    if n > 0 {
        lemma_storable_rich_text(children, (n - 1) as nat);
    }
}

/// Where children can be stored, each of them can.
pub proof fn lemma_storable_children(children: Seq<BlockView>, n: nat, j: int)
    requires
        0 <= j < n <= children.len(),
        children_violation(children, n) is None,
    ensures
        block_violation(children[j]) is None,
    decreases n,
{
    if j < n - 1 {
        lemma_storable_children(children, (n - 1) as nat, j);
    }
}

/// The block of a child's first row, with everything below it, is what
/// loading gives for the child.
proof fn lemma_block_loaded(
    rows: Seq<RowView>,
    ids: Seq<i64>,
    b: BlockView,
    owner: nat,
    step: nat,
    level: nat,
)
    requires
        holds_part(rows, ids, block_rows(b, owner, step), step as int),
        ids.len() == rows.len(),
        rows.len() <= usize::MAX,
        owner < rows.len(),
        distinct_categories(rows),
        block_violation(b) is None,
        ends_at(rows, step as int, step as int + block_rows(b, owner, step).len()),
    ensures
        block_at(rows, step as int, level) == Ok::<(BlockView, int), TreeError>(
            (loaded_block(b, ids, step, level), step as int + block_rows(b, owner, step).len()),
        ),
    decreases b, 0nat,
{
    let s = step as int;
    lemma_child_head(rows, ids, b, owner, step);
    match b {
        BlockView::Category(c) => {
            let parent = Some(RowRef::Planned(owner as usize));
            let part = category_rows(c, parent, step);
            assert(rows[s + 0] == stored_row(part[0], ids, s + 0));
            assert(category_violation(c) is None);
            assert(part == block_rows(b, owner, step));
            lemma_children_loaded(rows, ids, c, parent, step, 0, level + 1);
            lemma_loaded_children_len(c.children, c.children.len(), ids, step, level + 1);
            let loaded = loaded_children(c.children, c.children.len(), ids, step, level + 1);
            assert(loaded.subrange(0, c.children.len() as int) =~= loaded);
            assert(children_rows(c.children, 0, step).len() == 0);
            assert(block_at(rows, s, level) == Ok::<(BlockView, int), TreeError>(
                (loaded_block(b, ids, step, level), s + part.len()),
            ));
        },
        BlockView::RichText(children) => {
            let parent = Some(RowRef::Planned(owner as usize));
            lemma_storable_rich_text(children, children.len());
            lemma_texts_loaded(rows, ids, children, None, parent, step, 0, level);
            assert(texts_from(children, 0) =~= children) by {
                assert forall|k: int| 0 <= k < children.len() implies texts_from(children, 0)[k]
                    == children[k] by {
                    assert(children[k] is Text);
                }
            }
        },
        BlockView::Text(content) => {
            let part = block_rows(b, owner, step);
            assert(part.len() == 1);
            assert(part[0] == text_row(
                content,
                None,
                Some(RowRef::Planned(owner as usize)),
                None,
            ));
            assert(rows[s + 0] == stored_row(part[0], ids, s + 0));
            assert(rows[s] is Text);
            assert(block_at(rows, s, level) == Ok::<(BlockView, int), TreeError>(
                (BlockView::Text(content), s + 1),
            ));
        },
    }
}

/// Under the row of a category the cursor collects what loading gives
/// for its children, from child `j` on, and stops at the end of the
/// category's rows.
proof fn lemma_children_loaded(
    rows: Seq<RowView>,
    ids: Seq<i64>,
    c: CategoryView,
    parent: Option<RowRef>,
    step: nat,
    j: int,
    level: nat,
)
    requires
        holds_part(rows, ids, category_rows(c, parent, step), step as int),
        ids.len() == rows.len(),
        rows.len() <= usize::MAX,
        distinct_categories(rows),
        category_violation(c) is None,
        0 <= j <= c.children.len(),
        ends_at(rows, step as int, step as int + category_rows(c, parent, step).len()),
    ensures
        children_from(
            rows,
            rows[step as int],
            step as int + 1 + children_rows(c.children, j as nat, step).len(),
            level,
        ) == Ok::<(Seq<BlockView>, int), TreeError>(
            (
                loaded_children(c.children, c.children.len(), ids, step, level).subrange(
                    j,
                    c.children.len() as int,
                ),
                step as int + category_rows(c, parent, step).len(),
            ),
        ),
    decreases c, c.children.len() - j,
{
    let s = step as int;
    let n = c.children.len();
    let whole = category_rows(c, parent, step);
    let end = s + whole.len();
    let loaded = loaded_children(c.children, n, ids, step, level);
    let head = rows[s];
    assert(rows[s + 0] == stored_row(whole[0], ids, s + 0));
    assert(head == (RowView::Category {
        id: Some(ids[s]),
        name: c.name,
        parent_category_id: resolved_ref(parent, ids),
    }));
    lemma_loaded_children_len(c.children, n, ids, step, level);
    if j < n {
        let child = c.children[j];
        let start = (step + 1 + children_rows(c.children, j as nat, step).len()) as nat;
        let part = block_rows(child, step, start);
        let next = start as int + part.len();
        lemma_child_rows_held(rows, ids, c, parent, step, j as nat);
        lemma_child_head(rows, ids, child, step, start);
        lemma_storable_children(c.children, n, j);
        assert(ends_at(rows, start as int, next)) by {
            if j + 1 < n {
                let following = c.children[j + 1];
                lemma_child_rows_held(rows, ids, c, parent, step, (j + 1) as nat);
                lemma_child_head(rows, ids, following, step, next as nat);
                assert forall|i: int| start <= i < next && (#[trigger] rows[i]) is Category implies row_id(
                    rows[i],
                ) != parent_category_of(rows[next]) by {
                    assert(rows[s] is Category);
                    assert(row_id(rows[s]) == Some(ids[s]));
                }
            } else {
                assert(children_rows(c.children, n, step).len() + 1 == whole.len());
                assert(next == end);
            }
        }
        lemma_block_loaded(rows, ids, child, step, start, level);
        lemma_children_loaded(rows, ids, c, parent, step, j + 1, level);
        lemma_loaded_children_index(c.children, n, ids, step, level, j);
        assert(step_at(head, rows[start as int]) == Step::Take);
        assert(seq![loaded[j]] + loaded.subrange(j + 1, n as int) =~= loaded.subrange(j, n as int));
        assert(children_from(rows, head, start as int, level) == prepend(
            seq![loaded[j]],
            children_from(rows, head, next, level),
        ));
    } else {
        assert(children_rows(c.children, n, step).len() + 1 == whole.len());
        assert(loaded.subrange(j, n as int) =~= Seq::<BlockView>::empty());
        if end < rows.len() {
            assert(rows[s] is Category);
            assert(step_at(head, rows[end]) == Step::Stop);
        }
    }
}

/// Loading undoes storing. Let a category that can be stored be planned
/// from step 0, let `ids` hold the identifier under which each row of the
/// plan was written, and let no two categories have been written under
/// the same identifier. Then the tree rebuilt from the stored rows, in the
/// order in which they were written, is the category as
/// [`loaded_category`] describes it.
pub proof fn lemma_load_inverts_store(c: CategoryView, parent: Option<RowRef>, ids: Seq<i64>)
    requires
        category_violation(c) is None,
        ids.len() == category_rows(c, parent, 0).len(),
        ids.len() <= usize::MAX,
        distinct_categories(stored_rows(category_rows(c, parent, 0), ids)),
    ensures
        tree_of(stored_rows(category_rows(c, parent, 0), ids)) == Ok::<CategoryView, TreeError>(
            loaded_category(c, ids, 0, 0),
        ),
{
    let plan = category_rows(c, parent, 0);
    let rows = stored_rows(plan, ids);
    let n = c.children.len();
    assert(holds_part(rows, ids, plan, 0));
    assert(rows[0] == stored_row(plan[0], ids, 0));
    lemma_children_loaded(rows, ids, c, parent, 0, 0, 1);
    lemma_loaded_children_len(c.children, n, ids, 0, 1);
    let loaded = loaded_children(c.children, n, ids, 0, 1);
    assert(loaded.subrange(0, n as int) =~= loaded);
    assert(children_rows(c.children, 0, 0).len() == 0);
}

/// A block without what the store does not keep: identifiers, levels,
/// matches and captures.
pub open spec fn outline(b: BlockView) -> BlockView
    decreases b, 0nat,
{
    match b {
        BlockView::Category(c) => BlockView::Category(
            CategoryView { children: outlines(c.children), ..bare_category(None, c.name, 0) },
        ),
        BlockView::RichText(children) => BlockView::RichText(outlines(children)),
        BlockView::Text(content) => b,
    }
}

/// The outlines of the blocks of `s`.
pub open spec fn outlines(s: Seq<BlockView>) -> Seq<BlockView>
    decreases s, 1nat,
{
    Seq::new(
        s.len(),
        |i: int|
            if 0 <= i < s.len() {
                outline(s[i])
            } else {
                BlockView::Text(Seq::empty())
            },
    )
}

/// Every category below `c`, and `c` itself, is at the level of its
/// depth, where `c` is at `level`.
pub open spec fn levels_by_depth(c: CategoryView, level: nat) -> bool
    decreases c,
{
    &&& c.level == level
    &&& forall|i: int|
        0 <= i < c.children.len() ==> match #[trigger] c.children[i] {
            BlockView::Category(child) => levels_by_depth(child, level + 1),
            _ => true,
        }
}

/// What loading gives has the kinds of block, the names, the contents
/// and the order of children of what was stored, and every category in
/// it is at the level of its depth.
pub proof fn lemma_loaded_keeps_outline(c: CategoryView, ids: Seq<i64>, step: nat, level: nat)
    ensures
        outline(BlockView::Category(loaded_category(c, ids, step, level))) == outline(
            BlockView::Category(c),
        ),
        levels_by_depth(loaded_category(c, ids, step, level), level),
    decreases c,
{
    let n = c.children.len();
    let loaded = loaded_children(c.children, n, ids, step, level + 1);
    lemma_loaded_children_len(c.children, n, ids, step, level + 1);
    assert forall|i: int| 0 <= i < n implies outline(#[trigger] loaded[i]) == outline(
        c.children[i],
    ) && match loaded[i] {
        BlockView::Category(child) => levels_by_depth(child, level + 1),
        _ => true,
    } by {
        lemma_loaded_children_index(c.children, n, ids, step, level + 1, i);
        match c.children[i] {
            BlockView::Category(child) => {
                lemma_loaded_keeps_outline(
                    child,
                    ids,
                    step + 1 + children_rows(c.children, i as nat, step).len(),
                    level + 1,
                );
            },
            _ => {},
        }
    }
    assert(outlines(loaded) =~= outlines(c.children));
}

/// A block without what the store assigns or does not keep: identifiers,
/// matches and captures. Levels stay.
pub open spec fn content(b: BlockView) -> BlockView
    decreases b, 0nat,
{
    match b {
        BlockView::Category(c) => BlockView::Category(
            CategoryView { children: contents(c.children), ..bare_category(None, c.name, c.level) },
        ),
        BlockView::RichText(children) => BlockView::RichText(contents(children)),
        BlockView::Text(text) => b,
    }
}

/// The contents of the blocks of `s`.
pub open spec fn contents(s: Seq<BlockView>) -> Seq<BlockView>
    decreases s, 1nat,
{
    Seq::new(
        s.len(),
        |i: int|
            if 0 <= i < s.len() {
                content(s[i])
            } else {
                BlockView::Text(Seq::empty())
            },
    )
}

/// Where every category of what was stored is at the level of its depth,
/// what loading gives differs from it in identifiers, matches and captures
/// alone: kinds of block, order of children, names, contents and levels
/// are the same.
pub proof fn lemma_loaded_keeps_content(c: CategoryView, ids: Seq<i64>, step: nat, level: nat)
    requires
        levels_by_depth(c, level),
    ensures
        content(BlockView::Category(loaded_category(c, ids, step, level))) == content(
            BlockView::Category(c),
        ),
    decreases c,
{
    let n = c.children.len();
    let loaded = loaded_children(c.children, n, ids, step, level + 1);
    lemma_loaded_children_len(c.children, n, ids, step, level + 1);
    assert forall|i: int| 0 <= i < n implies content(#[trigger] loaded[i]) == content(
        c.children[i],
    ) by {
        lemma_loaded_children_index(c.children, n, ids, step, level + 1, i);
        match c.children[i] {
            BlockView::Category(child) => {
                lemma_loaded_keeps_content(
                    child,
                    ids,
                    step + 1 + children_rows(c.children, i as nat, step).len(),
                    level + 1,
                );
            },
            _ => {},
        }
    }
    assert(contents(loaded) =~= contents(c.children));
}

} // verus!
