use amble::air::write_plan::{PlannedRow, RowRef, WriteError};
use amble::air::{
    Block, CategoryBlock, DbBlock, DbCategoryBlock, DbRichTextBlock, DbTextBlock, DeleteError,
    RichTextBlock, TextBlock,
};
use amble::db::{DbBlockId, DbBlockMatrix, DbBlockMatrixRow, TreeError};
use amble::parsing::Parser;

fn category(id: Option<i64>, name: &str, level: usize, children: Vec<Block>) -> CategoryBlock {
    CategoryBlock {
        id,
        name: name.to_string(),
        level,
        children,
        matches: Vec::new(),
        captures: Vec::new(),
    }
}

fn text(content: &str) -> Block {
    Block::Text(TextBlock { content: content.to_string() })
}

fn rich(children: Vec<Block>) -> Block {
    Block::RichText(RichTextBlock { children })
}

fn shape(block: &Block) -> String {
    match block {
        Block::Category(c) => {
            format!("C{}#{:?}({:?}){}", c.level, c.id, c.name, shapes(&c.children))
        }
        Block::RichText(r) => format!("R{}", shapes(&r.children)),
        Block::Text(t) => format!("T({:?})", t.content),
    }
}

fn shapes(blocks: &Vec<Block>) -> String {
    let parts: Vec<String> = blocks.iter().map(shape).collect();
    format!("[{}]", parts.join(","))
}

fn planned(row: &PlannedRow) -> String {
    fn parent(r: &Option<RowRef>) -> String {
        match r {
            None => "-".to_string(),
            Some(RowRef::Stored(id)) => format!("id{}", id),
            Some(RowRef::Planned(step)) => format!("step{}", step),
        }
    }
    match row {
        PlannedRow::Category { id, name, parent_category } => {
            format!("C({:?},{:?},{})", id, name, parent(parent_category))
        }
        PlannedRow::RichText { id, parent_category } => {
            format!("R({:?},{})", id, parent(parent_category))
        }
        PlannedRow::Text { id, content, parent_category, parent_rich_text } => {
            format!("T({:?},{:?},{},{})", id, content, parent(parent_category), parent(parent_rich_text))
        }
    }
}

fn row(block: &DbBlock) -> String {
    match block {
        DbBlock::Category(c) => format!("C({:?},{:?},{:?})", c.id, c.name, c.parent_category_id),
        DbBlock::RichText(r) => format!("R({:?},{:?})", r.id, r.parent_category_id),
        DbBlock::Text(t) => format!(
            "T({:?},{:?},{:?},{:?})",
            t.id, t.content, t.parent_category_id, t.parent_rich_text_block_id
        ),
    }
}

/// Hands the planned rows to a store with one counter per table, the
/// counters starting after `first`, and returns the rows as written.
fn write(plan: &Vec<PlannedRow>, first: i64) -> Vec<DbBlock> {
    let mut ids: Vec<i64> = Vec::new();
    let mut rows: Vec<DbBlock> = Vec::new();
    let mut counters: [i64; 3] = [first, first, first];
    for planned in plan {
        let mut row = planned.resolve(&ids).expect("parents are written before children");
        let id = match &mut row {
            DbBlock::Category(c) => {
                counters[0] += 1;
                let id = c.written_id(counters[0]);
                c.id = Some(id);
                id
            }
            DbBlock::RichText(r) => {
                counters[1] += 1;
                let id = r.written_id(counters[1]);
                r.id = Some(id);
                id
            }
            DbBlock::Text(t) => {
                counters[2] += 1;
                let id = t.written_id(counters[2]);
                t.id = Some(id);
                id
            }
        };
        ids.push(id);
        rows.push(row);
    }
    rows
}

fn cat_row(id: Option<i64>, name: &str, parent: Option<i64>) -> DbBlock {
    DbBlock::Category(DbCategoryBlock { id, name: name.to_string(), parent_category_id: parent })
}

fn rich_row(id: Option<i64>, parent: Option<i64>) -> DbBlock {
    DbBlock::RichText(DbRichTextBlock { id, parent_category_id: parent })
}

fn text_row(id: Option<i64>, content: &str, cat: Option<i64>, rt: Option<i64>) -> DbBlock {
    DbBlock::Text(DbTextBlock {
        id,
        content: content.to_string(),
        parent_category_id: cat,
        parent_rich_text_block_id: rt,
    })
}

fn matrix() -> DbBlockMatrix {
    DbBlockMatrix::new(Vec::new())
}

#[test]
fn plan_writes_parents_before_children_depth_first() {
    let root = category(
        Some(1),
        "root",
        1,
        vec![
            rich(vec![text("line\n")]),
            Block::Category(category(None, "a\n", 1, vec![rich(vec![text("body\n")])])),
            text("direct"),
            Block::Category(category(None, "b\n", 1, Vec::new())),
        ],
    );
    let mut plan = Vec::new();
    assert_eq!(root.write_to_db(&mut plan, None), Ok(0));
    let rows: Vec<String> = plan.iter().map(planned).collect();
    assert_eq!(
        rows,
        vec![
            "C(Some(1),\"root\",-)",
            "R(None,step0)",
            "T(None,\"line\\n\",-,step1)",
            "C(None,\"a\\n\",step0)",
            "R(None,step3)",
            "T(None,\"body\\n\",-,step4)",
            "T(None,\"direct\",step0,-)",
            "C(None,\"b\\n\",step0)",
        ]
    );
}

#[test]
fn plan_appends_after_the_rows_that_are_there() {
    let mut plan = Vec::new();
    let first = category(None, "one", 1, Vec::new());
    let second = category(None, "two", 1, vec![text("t")]);
    assert_eq!(first.write_to_db(&mut plan, Some(RowRef::Stored(9))), Ok(0));
    assert_eq!(second.write_to_db(&mut plan, Some(RowRef::Planned(0))), Ok(1));
    let rows: Vec<String> = plan.iter().map(planned).collect();
    assert_eq!(
        rows,
        vec!["C(None,\"one\",id9)", "C(None,\"two\",step0)", "T(None,\"t\",step1,-)"]
    );
}

#[test]
fn rich_text_with_a_category_cannot_be_stored() {
    let root = category(
        None,
        "root",
        1,
        vec![
            rich(vec![text("fine")]),
            rich(vec![text("fine"), Block::Category(category(None, "x", 2, Vec::new()))]),
            rich(vec![rich(Vec::new())]),
        ],
    );
    let mut plan = vec![PlannedRow::RichText { id: Some(3), parent_category: None }];
    assert_eq!(root.write_to_db(&mut plan, None), Err(WriteError::CategoryInRichText));
    assert_eq!(plan.len(), 1);
    assert_eq!(planned(&plan[0]), "R(Some(3),-)");
}

#[test]
fn rich_text_with_a_rich_text_cannot_be_stored() {
    let nested = RichTextBlock { children: vec![text("a"), rich(vec![text("b")])] };
    let mut plan = Vec::new();
    assert_eq!(nested.write_to_db(&mut plan, None, None), Err(WriteError::RichTextInRichText));
    assert!(plan.is_empty());
    let deep = category(
        None,
        "root",
        1,
        vec![Block::Category(category(None, "inner", 2, vec![Block::RichText(nested)]))],
    );
    assert_eq!(deep.write_to_db(&mut plan, None), Err(WriteError::RichTextInRichText));
    assert!(plan.is_empty());
}

#[test]
fn text_and_rich_text_plan_their_own_rows() {
    let mut plan = Vec::new();
    let t = TextBlock { content: "c".to_string() };
    assert_eq!(
        t.write_to_db(&mut plan, Some(5), Some(RowRef::Stored(2)), None),
        Ok(0)
    );
    let r = RichTextBlock { children: vec![text("x"), text("y")] };
    assert_eq!(r.write_to_db(&mut plan, Some(8), Some(RowRef::Stored(2))), Ok(1));
    let rows: Vec<String> = plan.iter().map(planned).collect();
    assert_eq!(
        rows,
        vec![
            "T(Some(5),\"c\",id2,-)",
            "R(Some(8),id2)",
            "T(None,\"x\",-,step1)",
            "T(None,\"y\",-,step1)",
        ]
    );
}

#[test]
fn resolve_replaces_steps_by_assigned_ids() {
    let planned_row = PlannedRow::Text {
        id: None,
        content: "c".to_string(),
        parent_category: Some(RowRef::Stored(4)),
        parent_rich_text: Some(RowRef::Planned(1)),
    };
    assert!(planned_row.resolve(&vec![10]).is_none());
    let resolved = planned_row.resolve(&vec![10, 20]).expect("step 1 was written");
    assert_eq!(row(&resolved), "T(None,\"c\",Some(4),Some(20))");
    let top = PlannedRow::Category { id: Some(7), name: "n".to_string(), parent_category: None };
    assert_eq!(row(&top.resolve(&Vec::new()).expect("no step to wait for")), "C(Some(7),\"n\",None)");
    let rt = PlannedRow::RichText { id: None, parent_category: Some(RowRef::Planned(0)) };
    assert!(rt.resolve(&Vec::new()).is_none());
    assert_eq!(row(&rt.resolve(&vec![3]).expect("step 0 was written")), "R(None,Some(3))");
}

#[test]
fn written_id_is_the_given_or_the_assigned() {
    let given = DbCategoryBlock { id: Some(5), name: String::new(), parent_category_id: None };
    let fresh = DbCategoryBlock { id: None, name: String::new(), parent_category_id: None };
    assert_eq!(given.written_id(9), 5);
    assert_eq!(fresh.written_id(9), 9);
    assert_eq!(DbRichTextBlock { id: Some(2), parent_category_id: None }.written_id(7), 2);
    assert_eq!(DbRichTextBlock { id: None, parent_category_id: None }.written_id(7), 7);
    let t = DbTextBlock {
        id: None,
        content: String::new(),
        parent_category_id: None,
        parent_rich_text_block_id: None,
    };
    assert_eq!(t.written_id(3), 3);
}

#[test]
fn rows_without_id_cannot_be_deleted() {
    let c = DbCategoryBlock { id: None, name: String::new(), parent_category_id: None };
    assert_eq!(c.delete_id(), Err(DeleteError::CategoryWithoutId));
    let r = DbRichTextBlock { id: None, parent_category_id: None };
    assert_eq!(r.delete_id(), Err(DeleteError::RichTextWithoutId));
    let t = DbTextBlock {
        id: None,
        content: String::new(),
        parent_category_id: None,
        parent_rich_text_block_id: None,
    };
    assert_eq!(t.delete_id(), Err(DeleteError::TextWithoutId));
    assert_eq!(DbCategoryBlock::zero().delete_id(), Ok(0));
    assert_eq!(DbRichTextBlock::zero().delete_id(), Ok(0));
    assert_eq!(DbTextBlock::zero().delete_id(), Ok(0));
}

#[test]
fn zero_rows_hold_placeholders() {
    assert_eq!(row(&DbBlock::Category(DbCategoryBlock::zero())), "C(Some(0),\"\",Some(0))");
    assert_eq!(row(&DbBlock::RichText(DbRichTextBlock::zero())), "R(Some(0),Some(0))");
    assert_eq!(row(&DbBlock::Text(DbTextBlock::zero())), "T(Some(0),\"\",Some(0),Some(0))");
}

#[test]
fn conversions_to_and_from_rows() {
    let c = category(Some(3), "name", 2, vec![text("x")]);
    assert_eq!(row(&DbBlock::Category(c.as_db_type(Some(1)))), "C(Some(3),\"name\",Some(1))");
    let back = CategoryBlock::from_db_type(&c.as_db_type(None), 5);
    assert_eq!(shape(&Block::Category(back)), "C5#Some(3)(\"name\")[]");
    let r = RichTextBlock { children: vec![text("x")] };
    assert_eq!(row(&DbBlock::RichText(r.as_db_type(Some(4), Some(1)))), "R(Some(4),Some(1))");
    assert!(RichTextBlock::from_db_type(&r.as_db_type(None, None)).children.is_empty());
    let t = TextBlock { content: "words".to_string() };
    let t_row = t.as_db_type(Some(6), None, Some(4));
    assert_eq!(row(&DbBlock::Text(t_row.clone())), "T(Some(6),\"words\",None,Some(4))");
    assert_eq!(TextBlock::from_db_type(&t_row).content, "words");
    assert_eq!(row(&DbBlock::Category(c.as_db_type(Some(1)).clone())), "C(Some(3),\"name\",Some(1))");
}

#[test]
fn matrix_ids_are_fetched_once_in_order_of_first_appearance() {
    let rows = vec![
        DbBlockMatrixRow { category_block_id: 1, rich_text_block_id: Some(1), text_block_id: Some(1) },
        DbBlockMatrixRow { category_block_id: 1, rich_text_block_id: Some(3), text_block_id: Some(3) },
        DbBlockMatrixRow { category_block_id: 2, rich_text_block_id: Some(2), text_block_id: Some(2) },
        DbBlockMatrixRow { category_block_id: 2, rich_text_block_id: Some(2), text_block_id: Some(4) },
        DbBlockMatrixRow { category_block_id: 3, rich_text_block_id: None, text_block_id: None },
        DbBlockMatrixRow { category_block_id: 1, rich_text_block_id: None, text_block_id: Some(1) },
    ];
    assert_eq!(
        DbBlockMatrix::new(rows).flat_block_ids(),
        vec![
            DbBlockId::Category(1),
            DbBlockId::RichText(1),
            DbBlockId::Text(1),
            DbBlockId::RichText(3),
            DbBlockId::Text(3),
            DbBlockId::Category(2),
            DbBlockId::RichText(2),
            DbBlockId::Text(2),
            DbBlockId::Text(4),
            DbBlockId::Category(3),
        ]
    );
    assert_eq!(matrix().flat_block_ids(), vec![]);
}

#[test]
fn tree_is_rebuilt_from_flat_rows() {
    let rows = vec![
        cat_row(Some(1), "root", None),
        rich_row(Some(1), Some(1)),
        text_row(Some(1), "intro\n", None, Some(1)),
        cat_row(Some(2), "a\n", Some(1)),
        rich_row(Some(2), Some(2)),
        text_row(Some(2), "body\n", None, Some(2)),
        cat_row(Some(3), "b\n", Some(2)),
        cat_row(Some(4), "c\n", Some(1)),
        text_row(Some(3), "direct", Some(4), None),
    ];
    let tree = matrix().form_category_block_tree(&rows).expect("the rows describe a tree");
    assert_eq!(
        shape(&Block::Category(tree)),
        "C0#Some(1)(\"root\")[R[T(\"intro\\n\")],C1#Some(2)(\"a\\n\")[R[T(\"body\\n\")],C2#Some(3)(\"b\\n\")[]],C1#Some(4)(\"c\\n\")[T(\"direct\")]]"
    );
}

#[test]
fn rebuilding_fails_without_rows() {
    assert_eq!(matrix().form_category_block_tree(&Vec::new()).err(), Some(TreeError::NoBlocks));
}

#[test]
fn rebuilding_fails_when_the_first_row_is_no_category() {
    let rows = vec![rich_row(Some(1), None), cat_row(Some(1), "x", None)];
    assert_eq!(
        matrix().form_category_block_tree(&rows).err(),
        Some(TreeError::FirstBlockNotCategory)
    );
    let rows = vec![text_row(Some(1), "t", None, None)];
    assert_eq!(
        matrix().form_category_block_tree(&rows).err(),
        Some(TreeError::FirstBlockNotCategory)
    );
}

#[test]
fn rebuilding_fails_when_a_parent_category_has_no_id() {
    let rows = vec![cat_row(None, "root", None), cat_row(Some(2), "a", Some(1))];
    assert_eq!(
        matrix().form_category_block_tree(&rows).err(),
        Some(TreeError::MissingCategoryId)
    );
}

#[test]
fn rebuilding_fails_when_a_parent_rich_text_has_no_id() {
    let rows = vec![
        cat_row(Some(1), "root", None),
        rich_row(None, Some(1)),
        text_row(Some(1), "t", None, Some(1)),
    ];
    assert_eq!(
        matrix().form_category_block_tree(&rows).err(),
        Some(TreeError::MissingRichTextId)
    );
}

#[test]
fn rows_of_another_parent_end_the_children() {
    let rows = vec![
        cat_row(Some(1), "root", None),
        cat_row(Some(2), "a", Some(1)),
        cat_row(Some(9), "stray", Some(7)),
        cat_row(Some(3), "late", Some(1)),
    ];
    let tree = matrix().form_category_block_tree(&rows).expect("the rows describe a tree");
    assert_eq!(shape(&Block::Category(tree)), "C0#Some(1)(\"root\")[C1#Some(2)(\"a\")[]]");
}

#[test]
fn rows_that_name_no_parent_end_the_children() {
    let rows = vec![
        cat_row(Some(1), "root", None),
        rich_row(Some(1), Some(1)),
        text_row(Some(1), "kept", None, Some(1)),
        text_row(Some(2), "no parent", None, None),
        text_row(Some(3), "after", Some(1), None),
    ];
    let tree = matrix().form_category_block_tree(&rows).expect("the rows describe a tree");
    assert_eq!(shape(&Block::Category(tree)), "C0#Some(1)(\"root\")[R[T(\"kept\")]]");

    let rows = vec![
        cat_row(Some(1), "root", None),
        cat_row(Some(5), "orphan", None),
        cat_row(Some(6), "child", Some(1)),
    ];
    let tree = matrix().form_category_block_tree(&rows).expect("the rows describe a tree");
    assert_eq!(shape(&Block::Category(tree)), "C0#Some(1)(\"root\")[]");
}

#[test]
fn rich_text_hands_the_text_of_its_category_back() {
    let rows = vec![
        cat_row(Some(1), "R", None),
        rich_row(Some(5), Some(1)),
        text_row(Some(7), "x", None, Some(5)),
        text_row(Some(8), "y", Some(1), None),
    ];
    let tree = matrix().form_category_block_tree(&rows).expect("the rows describe a tree");
    assert_eq!(shape(&Block::Category(tree)), "C0#Some(1)(\"R\")[R[T(\"x\")],T(\"y\")]");
}

#[test]
fn rich_text_takes_only_the_text_that_names_it() {
    let rows = vec![
        cat_row(Some(1), "R", None),
        rich_row(Some(5), Some(1)),
        text_row(Some(7), "x", None, Some(5)),
        text_row(Some(8), "other", None, Some(6)),
    ];
    let tree = matrix().form_category_block_tree(&rows).expect("the rows describe a tree");
    assert_eq!(shape(&Block::Category(tree)), "C0#Some(1)(\"R\")[R[T(\"x\")]]");
}

#[test]
fn stored_tree_with_text_of_its_own_is_loaded_with_the_same_structure() {
    let root = category(
        None,
        "doc",
        0,
        vec![
            rich(vec![text("x")]),
            text("y"),
            Block::Category(category(
                None,
                "a",
                1,
                vec![text("first"), rich(vec![text("p"), text("q")]), rich(Vec::new()), text("last")],
            )),
            text("between"),
            rich(vec![text("w")]),
            Block::Category(category(None, "b", 1, vec![rich(vec![text("z")])])),
            text("end"),
        ],
    );
    let mut plan = Vec::new();
    assert_eq!(root.write_to_db(&mut plan, None), Ok(0));
    let rows = write(&plan, 0);
    let loaded = matrix().form_category_block_tree(&rows).expect("the rows describe a tree");
    assert_eq!(
        shape(&Block::Category(loaded)),
        "C0#Some(1)(\"doc\")[R[T(\"x\")],T(\"y\"),C1#Some(2)(\"a\")[T(\"first\"),R[T(\"p\"),T(\"q\")],R[],T(\"last\")],T(\"between\"),R[T(\"w\")],C1#Some(3)(\"b\")[R[T(\"z\")]],T(\"end\")]"
    );
}

#[test]
fn stored_document_is_loaded_with_the_same_structure() {
    let text = "intro\n* a\nbody a\n** b\nbody b\n*** c\n** d\n* e\n";
    let root = category(None, "doc", 0, Parser::new(text).parse());
    let mut plan = Vec::new();
    assert_eq!(root.write_to_db(&mut plan, None), Ok(0));
    let rows = write(&plan, 40);
    let loaded = matrix().form_category_block_tree(&rows).expect("the rows describe a tree");
    assert_eq!(
        shape(&Block::Category(loaded)),
        "C0#Some(41)(\"doc\")[R[T(\"intro\\n\")],C1#Some(42)(\"a\\n\")[R[T(\"body a\\n\")],C2#Some(43)(\"b\\n\")[R[T(\"body b\\n\")],C3#Some(44)(\"c\\n\")[]],C2#Some(45)(\"d\\n\")[]],C1#Some(46)(\"e\\n\")[]]"
    );
}

#[test]
fn loading_numbers_levels_by_depth() {
    let root = category(Some(7), "doc", 3, Parser::new("* a\n*** b\n").parse());
    let mut plan = Vec::new();
    assert_eq!(root.write_to_db(&mut plan, None), Ok(0));
    let rows = write(&plan, 7);
    let loaded = matrix().form_category_block_tree(&rows).expect("the rows describe a tree");
    assert_eq!(
        shape(&Block::Category(loaded)),
        "C0#Some(7)(\"doc\")[C1#Some(9)(\"a\\n\")[C2#Some(10)(\"b\\n\")[]]]"
    );
}
