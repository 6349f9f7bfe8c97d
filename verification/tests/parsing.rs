use amble::air::{Block, CategoryBlock};
use amble::parsing::{Parser, Token, TokenType, Tokenizer};
use amble::rendering::render_to_org;

fn tokens_of(text: &str) -> Vec<(TokenType, usize, usize)> {
    Tokenizer::new(text)
        .get_tokens()
        .iter()
        .map(|t: &Token| (t.tok_type, t.lexeme_start, t.lexeme_end))
        .collect()
}

/// The tree as text: `C<level>(name)[children]`, `R[children]`, `T(content)`.
fn shape(block: &Block) -> String {
    match block {
        Block::Category(c) => format!("C{}({:?}){}", c.level, c.name, shapes(&c.children)),
        Block::RichText(r) => format!("R{}", shapes(&r.children)),
        Block::Text(t) => format!("T({:?})", t.content),
    }
}

fn shapes(blocks: &Vec<Block>) -> String {
    let parts: Vec<String> = blocks.iter().map(shape).collect();
    format!("[{}]", parts.join(","))
}

fn render_all(blocks: Vec<Block>) -> String {
    let root = CategoryBlock {
        id: None,
        name: String::new(),
        level: 0,
        children: blocks,
        matches: Vec::new(),
        captures: Vec::new(),
    };
    render_to_org(Block::Category(root))
}

#[test]
fn empty_text_has_no_tokens() {
    assert_eq!(tokens_of(""), vec![]);
}

#[test]
fn headline_tokens_tile_the_text() {
    assert_eq!(
        tokens_of("* TODO Buy\n"),
        vec![
            (TokenType::Asterisk, 0, 1),
            (TokenType::Space, 1, 2),
            (TokenType::Text, 2, 6),
            (TokenType::Space, 6, 7),
            (TokenType::Text, 7, 10),
            (TokenType::LineBreak, 10, 11),
        ]
    );
}

#[test]
fn single_characters_have_their_own_kinds() {
    assert_eq!(
        tokens_of("*=-|[]:\t\" "),
        vec![
            (TokenType::Asterisk, 0, 1),
            (TokenType::EqualsSign, 1, 2),
            (TokenType::Hyphen, 2, 3),
            (TokenType::Bar, 3, 4),
            (TokenType::LBracket, 4, 5),
            (TokenType::RBracket, 5, 6),
            (TokenType::Colon, 6, 7),
            (TokenType::Tab, 7, 8),
            (TokenType::DoubleQuote, 8, 9),
            (TokenType::Space, 9, 10),
        ]
    );
}

#[test]
fn carriage_return_is_a_line_break_only_before_line_feed() {
    assert_eq!(
        tokens_of("a\r\nb"),
        vec![(TokenType::Text, 0, 1), (TokenType::LineBreak, 1, 3), (TokenType::Text, 3, 4)]
    );
    assert_eq!(tokens_of("a\rb"), vec![(TokenType::Text, 0, 3)]);
    assert_eq!(tokens_of("\r"), vec![(TokenType::Text, 0, 1)]);
}

#[test]
fn digit_and_period_make_a_number_period() {
    assert_eq!(
        tokens_of("a1.b"),
        vec![(TokenType::Text, 0, 1), (TokenType::NumberPeriod, 1, 3), (TokenType::Text, 3, 4)]
    );
    assert_eq!(tokens_of("12"), vec![(TokenType::Text, 0, 2)]);
    assert_eq!(tokens_of("a.b"), vec![(TokenType::Text, 0, 3)]);
    assert_eq!(
        tokens_of("12."),
        vec![(TokenType::Text, 0, 1), (TokenType::NumberPeriod, 1, 3)]
    );
}

#[test]
fn hash_and_plus_make_one_token() {
    assert_eq!(tokens_of("#+"), vec![(TokenType::HashPlus, 0, 2)]);
    assert_eq!(
        tokens_of("#+TITLE"),
        vec![(TokenType::HashPlus, 0, 2), (TokenType::Text, 2, 7)]
    );
    assert_eq!(tokens_of("#x"), vec![(TokenType::Text, 0, 2)]);
    assert_eq!(
        tokens_of("a#+"),
        vec![(TokenType::Text, 0, 1), (TokenType::HashPlus, 1, 3)]
    );
    assert_eq!(tokens_of("#"), vec![(TokenType::Text, 0, 1)]);
}

#[test]
fn text_runs_are_maximal() {
    assert_eq!(
        tokens_of("hello world"),
        vec![(TokenType::Text, 0, 5), (TokenType::Space, 5, 6), (TokenType::Text, 6, 11)]
    );
}

#[test]
fn spans_are_byte_offsets() {
    assert_eq!(tokens_of("\u{e9}"), vec![(TokenType::Text, 0, 2)]);
    assert_eq!(
        tokens_of("n\u{e9} *"),
        vec![(TokenType::Text, 0, 3), (TokenType::Space, 3, 4), (TokenType::Asterisk, 4, 5)]
    );
    assert_eq!(
        tokens_of("\u{20ac} \u{1f600}"),
        vec![(TokenType::Text, 0, 3), (TokenType::Space, 3, 4), (TokenType::Text, 4, 8)]
    );
}

#[test]
fn spans_tile_the_text_in_bytes() {
    for text in ["", "* a\n", "caf\u{e9} \u{2615}\r\n#+x: 1.\n\u{1f600}", "\r", "\"q\" [x]"] {
        let tokens = tokens_of(text);
        let mut at = 0;
        for (kind, start, end) in &tokens {
            assert_eq!(*start, at);
            assert!(start < end);
            assert!(text.is_char_boundary(*end));
            assert_ne!(*kind, TokenType::EOF);
            at = *end;
        }
        assert_eq!(at, text.len());
    }
}

#[test]
fn tokenizer_reads_the_rest_once() {
    let mut tokenizer = Tokenizer::new("a b");
    assert_eq!(tokenizer.get_tokens().len(), 3);
    assert_eq!(tokenizer.get_tokens().len(), 0);
}

#[test]
fn empty_document_has_no_blocks() {
    assert_eq!(shapes(&Parser::new("").parse()), "[]");
}

#[test]
fn two_headlines_are_two_categories_without_children() {
    let blocks = Parser::new("* TODO Buy milk\n* TODO Call mom\n").parse();
    assert_eq!(
        shapes(&blocks),
        "[C1(\"TODO Buy milk\\n\")[],C1(\"TODO Call mom\\n\")[]]"
    );
    for block in &blocks {
        match block {
            Block::Category(c) => {
                assert_eq!(c.level, 1);
                assert_eq!(c.id, None);
                assert!(c.children.is_empty());
                assert!(c.matches.is_empty());
                assert!(c.captures.is_empty());
            }
            _ => panic!("expected a category"),
        }
    }
}

#[test]
fn body_lines_are_rich_text_around_one_text() {
    assert_eq!(
        shapes(&Parser::new("first\nsecond").parse()),
        "[R[T(\"first\\n\")],R[T(\"second\")]]"
    );
}

#[test]
fn headlines_nest_by_level() {
    let text = "intro\n* a\nbody a\n** b\nbody b\n*** c\n** d\n* e\n";
    assert_eq!(
        shapes(&Parser::new(text).parse()),
        "[R[T(\"intro\\n\")],C1(\"a\\n\")[R[T(\"body a\\n\")],C2(\"b\\n\")[R[T(\"body b\\n\")],C3(\"c\\n\")[]],C2(\"d\\n\")[]],C1(\"e\\n\")[]]"
    );
}

#[test]
fn levels_may_skip_and_siblings_may_differ() {
    assert_eq!(
        shapes(&Parser::new("* a\n*** b\n** c\n").parse()),
        "[C1(\"a\\n\")[C3(\"b\\n\")[],C2(\"c\\n\")[]]]"
    );
    assert_eq!(
        shapes(&Parser::new("** a\n* b\n").parse()),
        "[C2(\"a\\n\")[],C1(\"b\\n\")[]]"
    );
}

#[test]
fn markers_without_space_are_body_text() {
    assert_eq!(shapes(&Parser::new("***").parse()), "[R[T(\"***\")]]");
    assert_eq!(shapes(&Parser::new("**\nx").parse()), "[R[T(\"**\\n\")],R[T(\"x\")]]");
    assert_eq!(shapes(&Parser::new("*bold* text\n").parse()), "[R[T(\"*bold* text\\n\")]]");
    assert_eq!(shapes(&Parser::new("*\ttab\n").parse()), "[R[T(\"*\\ttab\\n\")]]");
}

#[test]
fn headline_at_the_end_of_input_has_an_empty_name() {
    assert_eq!(shapes(&Parser::new("* ").parse()), "[C1(\"\")[]]");
    assert_eq!(shapes(&Parser::new("* \n").parse()), "[C1(\"\\n\")[]]");
    assert_eq!(shapes(&Parser::new("** x").parse()), "[C2(\"x\")[]]");
}

#[test]
fn both_line_endings_end_a_line() {
    assert_eq!(
        shapes(&Parser::new("* a\r\nb\r\n").parse()),
        "[C1(\"a\\r\\n\")[R[T(\"b\\r\\n\")]]]"
    );
}

#[test]
fn names_keep_characters_outside_ascii() {
    assert_eq!(
        shapes(&Parser::new("* Café ☕\nnaïve\n").parse()),
        "[C1(\"Café ☕\\n\")[R[T(\"naïve\\n\")]]]"
    );
}

#[test]
fn child_levels_exceed_parent_levels() {
    fn check(blocks: &Vec<Block>, bound: Option<usize>) {
        let mut last: Option<usize> = None;
        for block in blocks {
            match block {
                Block::Category(c) => {
                    if let Some(b) = bound {
                        assert!(c.level > b);
                    }
                    if let Some(l) = last {
                        assert!(c.level <= l);
                    }
                    last = Some(c.level);
                    check(&c.children, Some(c.level));
                }
                Block::RichText(r) => {
                    assert!(last.is_none());
                    assert_eq!(r.children.len(), 1);
                }
                Block::Text(_) => panic!("text outside rich text"),
            }
        }
    }
    let text = "x\n* a\n*** b\n** c\n**** d\ny\n* e\n** f\n** g\n";
    check(&Parser::new(text).parse(), None);
}

#[test]
fn rendering_a_parsed_document_gives_the_document() {
    for text in [
        "",
        "plain",
        "* TODO Buy milk\n* TODO Call mom\n",
        "intro\n* a\nbody a\n** b\n*** c\n** d\n* e",
        "***\n* \n*x\n",
        "* a\r\nb\r\n#+TITLE: t\n1. one\n",
    ] {
        let blocks = Parser::new(text).parse();
        let before = shapes(&blocks);
        let rendered = render_all(blocks);
        assert_eq!(rendered, text);
        assert_eq!(shapes(&Parser::new(&rendered).parse()), before);
    }
}

#[test]
fn rendering_writes_markers_name_and_children() {
    let tree = Block::Category(CategoryBlock {
        id: Some(4),
        name: "top\n".to_string(),
        level: 2,
        children: Parser::new("body\n*** sub\n").parse(),
        matches: Vec::new(),
        captures: Vec::new(),
    });
    assert_eq!(render_to_org(tree), "** top\nbody\n*** sub\n");
}

#[test]
fn rendering_a_category_at_level_zero_omits_its_headline() {
    let tree = Block::Category(CategoryBlock {
        id: None,
        name: "hidden".to_string(),
        level: 0,
        children: Parser::new("* a\n").parse(),
        matches: Vec::new(),
        captures: Vec::new(),
    });
    assert_eq!(render_to_org(tree), "* a\n");
}

#[test]
fn category_clone_copies_the_headline_alone() {
    let blocks = Parser::new("* a\n** b\n").parse();
    match &blocks[0] {
        Block::Category(c) => {
            let copy = c.clone();
            assert_eq!(copy.name, "a\n");
            assert_eq!(copy.level, 1);
            assert_eq!(copy.id, None);
            assert!(copy.children.is_empty());
        }
        _ => panic!("expected a category"),
    }
}

#[test]
fn numeric_characters_outside_ascii_make_a_number_period() {
    assert_eq!(tokens_of("\u{0663}."), vec![(TokenType::NumberPeriod, 0, 3)]);
    assert_eq!(tokens_of("\u{00bd}."), vec![(TokenType::NumberPeriod, 0, 3)]);
    assert_eq!(tokens_of("7."), vec![(TokenType::NumberPeriod, 0, 2)]);
    assert_eq!(tokens_of("x."), vec![(TokenType::Text, 0, 2)]);
    assert_eq!(tokens_of("/."), vec![(TokenType::Text, 0, 2)]);
    assert_eq!(tokens_of(":."), vec![(TokenType::Colon, 0, 1), (TokenType::Text, 1, 2)]);
}
