use amble::air::{Block, CategoryBlock, DbBlock, PlannedRow};
use amble::db::DbBlockMatrix;
use amble::matching::fold::{CategoryMatcher, Fold, FoldFrom, FoldInto};
use amble::matching::value_matcher::{get_position_of_substring, ValueMatcher};
use amble::matching::CaptureMap;
use amble::parsing::{Parser, Token, TokenType, Tokenizer};
use amble::rendering::render_to_org;
use amble::RTopLevelCategory;

fn matcher(pattern: &str) -> ValueMatcher {
    let mut tokenizer = Tokenizer::new(pattern);
    let tokens = tokenizer.get_tokens();
    ValueMatcher::parse(pattern, &tokens)
}

fn category(name: &str, level: usize, children: Vec<Block>) -> CategoryBlock {
    CategoryBlock {
        id: None,
        name: name.to_string(),
        level,
        children,
        matches: Vec::new(),
        captures: Vec::new(),
    }
}

/// Writes the rows of `root` as a store with one counter per table would,
/// and rebuilds the tree from the rows in the order in which they were
/// written.
fn store_and_load(root: &CategoryBlock) -> CategoryBlock {
    let mut plan: Vec<PlannedRow> = Vec::new();
    root.write_to_db(&mut plan, None).expect("Should be able to plan the rows");
    let mut ids: Vec<i64> = Vec::new();
    let mut rows: Vec<DbBlock> = Vec::new();
    let mut counters: [i64; 3] = [0, 0, 0];
    for planned in &plan {
        let mut row = planned.resolve(&ids).expect("Parents are written before children");
        let id = match &mut row {
            DbBlock::Category(c) => {
                counters[0] += 1;
                let id = c.written_id(counters[0]);
                c.id = Some(id);
                id
            }
            DbBlock::RichText(r) => {
                counters[1] += 1;
                let id = r.written_id(counters[1]);
                r.id = Some(id);
                id
            }
            DbBlock::Text(t) => {
                counters[2] += 1;
                let id = t.written_id(counters[2]);
                t.id = Some(id);
                id
            }
        };
        ids.push(id);
        rows.push(row);
    }
    DbBlockMatrix::new(Vec::new())
        .form_category_block_tree(&rows)
        .expect("Could not get category block")
}

#[test]
fn test_value_matcher() {
    let name = "\"TODO\" title \"BUT\" condition";

    let test = "TODO I want to to take the dog outside BUT i need to do it before friday";

    let mut tokenizer = Tokenizer::new(&name);
    let tokens = tokenizer.get_tokens();

    let matcher = ValueMatcher::parse(name, &tokens);

    println!("{:?}", matcher.capture(test));
}

#[test]
fn find_position_of_substring() {
    let tests = vec![
        (
            "Hello this is a sentence that contains a special word that we have to extract",
            "contains",
            Some((30, 38)),
        ),
        (
            "This string does not have the substring in it",
            "contains",
            None,
        ),
        (
            "contains is at the beginning here",
            "contains",
            Some((0, 8)),
        ),
        ("At the end there lies contains", "contains", Some((22, 30))),
    ];

    for test in tests {
        assert!(get_position_of_substring(test.0, test.1) == test.2);
    }
}

#[test]
fn expand_folds() {
    let content = "* TODO Need to talk to Sarah\n* FOLD\n** FROM\n*** \"TODO\" title\n** INTO\n*** title\n";

    let parser = Parser::new(&content);
    let mut folds = Vec::new();
    let mut captures = Vec::new();

    let blocks = amble::matching::expand_folds(&parser, &mut folds, &mut captures);

    let category = CategoryBlock {
        id: Some(1),
        name: "Test".to_string(),
        children: blocks,
        level: 1,
        matches: Vec::new(),
        captures: Vec::new(),
    };

    let category_block = store_and_load(&category);

    let out_string = render_to_org(Block::Category(category_block));

    println!("{}", out_string);
    assert_eq!(
        out_string,
        "* TODO Need to talk to Sarah\n* FOLD\n** FROM\n*** \"TODO\" title\n** INTO\n*** title\n* Need to talk to Sarah"
    );
}

#[test]
fn substring_position_of_the_empty_string_is_the_start() {
    assert_eq!(get_position_of_substring("abc", ""), Some((0, 0)));
    assert_eq!(get_position_of_substring("", ""), Some((0, 0)));
    assert_eq!(get_position_of_substring("", "a"), None);
}

#[test]
fn substring_position_is_the_leftmost() {
    assert_eq!(get_position_of_substring("abcabc", "bc"), Some((1, 3)));
    assert_eq!(get_position_of_substring("aab", "ab"), Some((1, 3)));
    assert_eq!(get_position_of_substring("ab", "abc"), None);
}

#[test]
fn substring_positions_count_characters() {
    assert_eq!(get_position_of_substring("héllo wörld", "wörld"), Some((6, 11)));
}

#[test]
fn capture_extracts_trimmed_text_between_literals() {
    let m = matcher("\"TODO\" title \"BUT\" condition");
    let captures = m
        .capture("TODO I want to to take the dog outside BUT i need to do it before friday")
        .expect("the pattern matches");
    assert_eq!(captures.len(), 2);
    assert_eq!(
        captures.get("title").map(|s| s.as_str()),
        Some("I want to to take the dog outside")
    );
    assert_eq!(
        captures.get("condition").map(|s| s.as_str()),
        Some("i need to do it before friday")
    );
    assert_eq!(captures.get("other"), None);
}

#[test]
fn capture_fails_when_a_literal_is_missing() {
    let m = matcher("\"TODO\" title");
    assert!(m.capture("DONE Buy milk").is_none());
}

#[test]
fn capture_fails_when_literals_are_out_of_order() {
    let m = matcher("\"TODO\" title \"BUT\" condition");
    assert!(m.capture("BUT first TODO second").is_none());
}

#[test]
fn capture_fails_when_a_literal_occurs_first_inside_the_previous_match() {
    let m = matcher("\"abc\" x \"bc\"");
    assert!(m.capture("abc then bc").is_none());
}

#[test]
fn capture_omits_a_capture_of_zero_width() {
    let m = matcher("\"A\" x \"B\" rest");
    let captures = m.capture("AB tail").expect("the pattern matches");
    assert_eq!(captures.get("x"), None);
    assert_eq!(captures.get("rest").map(|s| s.as_str()), Some("tail"));
    assert_eq!(captures.len(), 1);
}

#[test]
fn capture_without_closing_literal_takes_the_rest() {
    let m = matcher("title");
    let captures = m.capture("  whole line \n").expect("the pattern matches");
    assert_eq!(captures.get("title").map(|s| s.as_str()), Some("whole line"));
    let empty = m.capture("").expect("the pattern matches");
    assert_eq!(empty.get("title").map(|s| s.as_str()), Some(""));
}

#[test]
fn capture_trims_unicode_whitespace() {
    let m = matcher("\"A\" x \"B\"");
    let captures = m.capture("A\u{2003}\tmid\u{a0} B").expect("the pattern matches");
    assert_eq!(captures.get("x").map(|s| s.as_str()), Some("mid"));
}

#[test]
fn capture_before_the_first_literal_starts_at_the_beginning() {
    let m = matcher("head \"=\" tail");
    let captures = m.capture("key = value").expect("the pattern matches");
    assert_eq!(captures.get("head").map(|s| s.as_str()), Some("key"));
    assert_eq!(captures.get("tail").map(|s| s.as_str()), Some("value"));
}

#[test]
fn generate_concatenates_literals_and_captures() {
    let m = matcher("\"TODO\" title \"BUT\" condition");
    let mut captures = CaptureMap::new();
    captures.insert("title".to_string(), "walk".to_string());
    captures.insert("condition".to_string(), "soon".to_string());
    assert_eq!(m.generate(&captures), "TODOwalkBUTsoon");
}

#[test]
fn generate_emits_nothing_for_a_missing_capture() {
    let m = matcher("\"TODO\" title");
    assert_eq!(m.generate(&CaptureMap::new()), "TODO");
}

#[test]
fn generate_of_capture_reproduces_literals_and_captured_text() {
    let m = matcher("\"TODO\" title \"BUT\" condition");
    let captures = m.capture("TODO walk the dog BUT not today").expect("the pattern matches");
    assert_eq!(m.generate(&captures), "TODOwalk the dogBUTnot today");
}

#[test]
fn pattern_components_follow_source_order() {
    let m = matcher("\"TODO\" title");
    let mut captures = CaptureMap::new();
    captures.insert("title".to_string(), "X".to_string());
    captures.insert("TODO".to_string(), "never used".to_string());
    assert_eq!(m.generate(&captures), "TODOX");
    let reversed = matcher("title \"TODO\"");
    assert_eq!(reversed.generate(&captures), "XTODO");
}

#[test]
fn unclosed_literal_runs_to_the_end_of_the_pattern() {
    let m = matcher("\"open ended");
    assert_eq!(m.generate(&CaptureMap::new()), "open ended");
    let lone = matcher("\"");
    assert_eq!(lone.generate(&CaptureMap::new()), "");
}

#[test]
fn capture_map_insert_replaces_and_get_finds() {
    let mut map = CaptureMap::new();
    assert_eq!(map.len(), 0);
    map.insert("a".to_string(), "1".to_string());
    map.insert("b".to_string(), "2".to_string());
    map.insert("a".to_string(), "3".to_string());
    assert_eq!(map.len(), 2);
    assert_eq!(map.get("a").map(|s| s.as_str()), Some("3"));
    assert_eq!(map.get("b").map(|s| s.as_str()), Some("2"));
    assert_eq!(map.get("c"), None);
    let copy = map.clone();
    assert_eq!(copy.len(), 2);
    assert_eq!(copy.get("a").map(|s| s.as_str()), Some("3"));
}

#[test]
fn fold_parse_recognises_a_fold() {
    let parser = Parser::new("* FOLD\n** FROM\n*** \"TODO\" title\n** INTO\n*** title\n*** \"DONE\" title\n");
    let blocks = parser.parse();
    assert_eq!(blocks.len(), 1);
    let fold = match &blocks[0] {
        Block::Category(c) => Fold::parse(c).expect("the category declares a fold"),
        _ => panic!("expected a category"),
    };
    assert_eq!(fold.from.matchers.len(), 1);
    assert_eq!(fold.into.matchers.len(), 2);
    assert_eq!(fold.from.matchers[0].body.len(), 0);
}

#[test]
fn fold_parse_declines_what_is_no_fold() {
    let plain = category("TODO Buy milk\n", 1, Vec::new());
    assert!(Fold::parse(&plain).is_none());
    let no_children = category("FOLD\n", 1, Vec::new());
    assert!(Fold::parse(&no_children).is_none());
    let one_child = category("FOLD\n", 1, vec![Block::Category(category("FROM\n", 2, Vec::new()))]);
    assert!(Fold::parse(&one_child).is_none());
    let swapped = category(
        "FOLD\n",
        1,
        vec![
            Block::Category(category("INTO\n", 2, Vec::new())),
            Block::Category(category("FROM\n", 2, Vec::new())),
        ],
    );
    assert!(Fold::parse(&swapped).is_none());
    let well_formed = category(
        "FOLD\n",
        1,
        vec![
            Block::Category(category("FROM\n", 2, Vec::new())),
            Block::Category(category("INTO\n", 2, Vec::new())),
        ],
    );
    assert!(Fold::parse(&well_formed).is_some());
}

#[test]
fn fold_branches_are_recognised_by_their_markers() {
    let from = category("the FROM branch\n", 2, vec![Block::Category(category("x\n", 3, Vec::new()))]);
    assert_eq!(FoldFrom::parse(&from).expect("a FROM branch").matchers.len(), 1);
    assert!(FoldInto::parse(&from).is_none());
    let into = category("INTO\n", 2, Vec::new());
    assert_eq!(FoldInto::parse(&into).expect("an INTO branch").matchers.len(), 0);
    assert!(FoldFrom::parse(&into).is_none());
}

#[test]
fn do_match_needs_title_and_matched_children() {
    let shape = category(
        "\"Project\" name\n",
        1,
        vec![Block::Category(category("\"TODO\" task\n", 2, Vec::new()))],
    );
    let matcher = CategoryMatcher::parse(&shape);
    assert_eq!(matcher.body.len(), 1);

    let mut child = category("TODO write\n", 2, Vec::new());
    let mut project = category("Project amble\n", 1, Vec::new());
    // No children at all: fewer children than nested matchers.
    assert!(matcher.do_match(&project, &vec![7]).is_none());
    // A child that no matcher has matched yet.
    project.children.push(Block::Category(category("TODO write\n", 2, Vec::new())));
    assert!(matcher.do_match(&project, &vec![7]).is_none());
    // A child that carries the index of the nested matcher.
    child.matches.push(7);
    project.children.push(Block::Category(child));
    let captures = matcher.do_match(&project, &vec![7]).expect("title and body match");
    assert_eq!(captures.get("name").map(|s| s.as_str()), Some("amble"));
    // Another index is no evidence.
    assert!(matcher.do_match(&project, &vec![8]).is_none());
    // Without an index for the nested matcher there is no evidence either.
    assert!(matcher.do_match(&project, &Vec::new()).is_none());
    // The title must capture.
    let other = category("Notes\n", 1, Vec::new());
    assert!(matcher.do_match(&other, &vec![7]).is_none());
}

#[test]
fn expansion_appends_one_category_per_capture() {
    let parser = Parser::new(
        "* FOLD\n** FROM\n*** \"TODO\" title\n** INTO\n*** title\n* TODO Need to talk to Sarah\n",
    );
    let mut folds = Vec::new();
    let mut generated = Vec::new();
    let blocks = amble::matching::expand_folds(&parser, &mut folds, &mut generated);
    assert_eq!(folds.len(), 1);
    assert_eq!(generated, vec!["Need to talk to Sarah".to_string()]);
    assert_eq!(blocks.len(), 3);
    match &blocks[2] {
        Block::Category(c) => {
            assert_eq!(c.name, "Need to talk to Sarah");
            assert_eq!(c.level, 1);
            assert_eq!(c.id, None);
            assert!(c.children.is_empty());
        }
        _ => panic!("expected a category"),
    }
    // The fold itself is left alone, the sibling is annotated.
    match &blocks[0] {
        Block::Category(c) => assert!(c.matches.is_empty()),
        _ => panic!("expected a category"),
    }
    match &blocks[1] {
        Block::Category(c) => {
            assert_eq!(c.matches, vec![0]);
            assert_eq!(c.captures.len(), 1);
            assert_eq!(
                c.captures[0].get("title").map(|s| s.as_str()),
                Some("Need to talk to Sarah")
            );
        }
        _ => panic!("expected a category"),
    }
}

#[test]
fn expansion_matches_nested_shapes_from_the_leaves_up() {
    let parser = Parser::new(
        "* FOLD\n** FROM\n*** \"Project\" name\n**** \"TODO\" task\n** INTO\n*** \"Open:\" name\n* Project amble\n** TODO write\n* Project idle\n",
    );
    let mut folds = Vec::new();
    let mut generated = Vec::new();
    let blocks = amble::matching::expand_folds(&parser, &mut folds, &mut generated);
    // Table: entry 0 is the nested matcher, entry 1 its parent.
    assert_eq!(generated, vec!["Open:amble".to_string()]);
    assert_eq!(blocks.len(), 4);
    match &blocks[1] {
        Block::Category(project) => {
            assert_eq!(project.matches, vec![1]);
            match &project.children[0] {
                Block::Category(task) => assert_eq!(task.matches, vec![0]),
                _ => panic!("expected a category"),
            }
        }
        _ => panic!("expected a category"),
    }
    match &blocks[2] {
        Block::Category(idle) => assert!(idle.matches.is_empty()),
        _ => panic!("expected a category"),
    }
}

#[test]
fn expansion_without_fold_returns_the_document() {
    let text = "intro\n* TODO Buy milk\n** details\nbody\n* TODO Call mom\n";
    let parser = Parser::new(text);
    let mut folds = Vec::new();
    let mut generated = Vec::new();
    let blocks = amble::matching::expand_folds(&parser, &mut folds, &mut generated);
    assert!(folds.is_empty());
    assert!(generated.is_empty());
    let parsed = parser.parse();
    assert_eq!(blocks.len(), parsed.len());
    let mut rendered = String::new();
    for block in blocks {
        if let Block::Category(c) = &block {
            assert!(c.matches.is_empty());
            assert!(c.captures.is_empty());
        }
        rendered.push_str(&render_to_org(block));
    }
    assert_eq!(rendered, text);
}

#[test]
fn expansion_turns_earlier_generated_texts_into_categories_too() {
    let parser = Parser::new("* plain\n");
    let mut folds = Vec::new();
    let mut generated = vec!["carried over".to_string()];
    let blocks = amble::matching::expand_folds(&parser, &mut folds, &mut generated);
    assert_eq!(generated.len(), 1);
    assert_eq!(blocks.len(), 2);
    match &blocks[1] {
        Block::Category(c) => assert_eq!(c.name, "carried over"),
        _ => panic!("expected a category"),
    }
}

#[test]
fn top_level_category_wraps_the_expanded_content() {
    let incoming = RTopLevelCategory {
        id: 0,
        name: "Inbox".to_string(),
        content: "* FOLD\n** FROM\n*** \"TODO\" title\n** INTO\n*** title\n* TODO Buy milk\n"
            .to_string(),
    };
    let category = incoming.to_category();
    assert_eq!(category.id, None);
    assert_eq!(category.name, "Inbox");
    assert_eq!(category.level, 1);
    assert_eq!(category.children.len(), 3);
    match &category.children[2] {
        Block::Category(c) => assert_eq!(c.name, "Buy milk"),
        _ => panic!("expected a category"),
    }
    assert_eq!(incoming.stored_id(12), 12);

    let known = RTopLevelCategory { id: 5, name: "Inbox".to_string(), content: String::new() };
    let category = known.to_category();
    assert_eq!(category.id, Some(5));
    assert!(category.children.is_empty());
    assert_eq!(known.stored_id(12), 5);

    let negative = RTopLevelCategory { id: -3, name: String::new(), content: String::new() };
    assert_eq!(negative.to_category().id, None);
    assert_eq!(negative.stored_id(7), 7);
}

#[test]
fn patterns_keep_characters_outside_ascii() {
    let m = matcher("\"caf\u{e9}\" na\u{ef}ve \"\u{2615}\" rest");
    let mut captures = CaptureMap::new();
    captures.insert("na\u{ef}ve".to_string(), "1".to_string());
    captures.insert("rest".to_string(), "2".to_string());
    assert_eq!(m.generate(&captures), "caf\u{e9}1\u{2615}2");
    let found = m.capture("caf\u{e9} au lait \u{2615} noir").expect("the pattern matches");
    assert_eq!(found.get("na\u{ef}ve").map(|s| s.as_str()), Some("au lait"));
    assert_eq!(found.get("rest").map(|s| s.as_str()), Some("noir"));
}

#[test]
fn pattern_spans_are_byte_offsets() {
    // "é" takes the bytes 0..2, so the literal spans the bytes 1..4 of `"éa"`.
    let source = "\"\u{e9}a\"";
    let tokens = vec![
        Token { tok_type: TokenType::DoubleQuote, lexeme_start: 0, lexeme_end: 1 },
        Token { tok_type: TokenType::Text, lexeme_start: 1, lexeme_end: 4 },
        Token { tok_type: TokenType::DoubleQuote, lexeme_start: 4, lexeme_end: 5 },
    ];
    let m = ValueMatcher::parse(source, &tokens);
    assert_eq!(m.generate(&CaptureMap::new()), "\u{e9}a");
    // A span that ends past the text is cut at its end.
    let long = vec![Token { tok_type: TokenType::Text, lexeme_start: 1, lexeme_end: 40 }];
    let mut captures = CaptureMap::new();
    captures.insert("\u{e9}a\"".to_string(), "v".to_string());
    assert_eq!(ValueMatcher::parse(source, &long).generate(&captures), "v");
}
