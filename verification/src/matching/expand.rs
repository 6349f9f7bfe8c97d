//! Fold expansion: finds the folds that a document declares, matches their
//! `FROM` shapes against the document from the leaves up, and appends one
//! new headline for each capture and each `INTO` shape.

use super::captures::{CaptureMap, Captures};
use super::fold::{
    fold_of, matched, CategoryMatcher, Fold, FoldView, MatcherView,
};
use super::value_matcher::generated;
use crate::air::block::{views, Block, BlockView, CategoryBlock, CategoryView};
use crate::parsing::parser::{parse_document, Parser};
use vstd::prelude::*;

verus! {

/// An entry of the matcher table: a matcher and, for each matcher of its
/// body, the index of that matcher's own entry.
pub struct FlatMatcher<'a> {
    pub matcher: &'a CategoryMatcher,
    pub body: Vec<usize>,
}

/// The mathematical value of a [`FlatMatcher`].
pub struct FlatView {
    pub matcher: MatcherView,
    pub body: Seq<usize>,
}

impl<'a> View for FlatMatcher<'a> {
    type V = FlatView;

    open spec fn view(&self) -> FlatView {
        FlatView { matcher: self.matcher@, body: self.body@ }
    }
}

/// The values of the entries of a table, in order.
pub open spec fn table_view(table: Seq<FlatMatcher>) -> Seq<FlatView> {
    table.map_values(|f: FlatMatcher| f@)
}

/// The entries of `m` and of all matchers below it, children before
/// parents, for a table that holds `base` entries before them.
pub open spec fn flat_matchers(m: MatcherView, base: nat) -> Seq<FlatView>
    decreases m, 0nat,
{
    flat_body(m.body, m.body.len(), base).push(
        FlatView { matcher: m, body: body_ids(m.body, m.body.len(), base) },
    )
}

/// The entries of the first `n` matchers of `body` and of all matchers
/// below them, for a table that holds `base` entries before them.
pub open spec fn flat_body(body: Seq<MatcherView>, n: nat, base: nat) -> Seq<FlatView>
    decreases body, n,
{
    if n == 0 || n > body.len() {
        Seq::empty()
    } else {
        let init = flat_body(body, (n - 1) as nat, base);
        init + flat_matchers(body[n - 1], base + init.len())
    }
}

/// The table indices of the first `n` matchers of `body`: each matcher's
/// entry is the last of the entries that it and the matchers below it
/// take.
pub open spec fn body_ids(body: Seq<MatcherView>, n: nat, base: nat) -> Seq<usize>
    decreases body, n + 1,
{
    Seq::new(
        n,
        |k: int|
            if 0 <= k < n {
                (base + flat_body(body, (k + 1) as nat, base).len() - 1) as usize
            } else {
                0
            },
    )
}

/// Appends to `table` the entries of `matcher` and of all matchers below
/// it, children before parents, and returns the index of the entry of
/// `matcher`.
pub fn get_flat_matchers<'a>(matcher: &'a CategoryMatcher, table: &mut Vec<FlatMatcher<'a>>) -> (index:
    usize)
    ensures
        table_view(final(table)@) == table_view(old(table)@) + flat_matchers(
            matcher@,
            old(table)@.len(),
        ),
        index == final(table)@.len() - 1,
    decreases matcher,
{
    let ghost base = table@.len();
    let ghost before = table_view(table@);
    let mut body: Vec<usize> = Vec::new();
    let n: usize = matcher.body.len();
    let mut k: usize = 0;
    assert(table_view(table@) =~= before + flat_body(matcher@.body, 0, base));
    assert(body@ =~= body_ids(matcher@.body, 0, base));
    while k < n
        invariant
            n == matcher.body@.len(),
            n == matcher@.body.len(),
            k <= n,
            base == old(table)@.len(),
            before == table_view(old(table)@),
            table_view(table@) == before + flat_body(matcher@.body, k as nat, base),
            table@.len() == base + flat_body(matcher@.body, k as nat, base).len(),
            body@ == body_ids(matcher@.body, k as nat, base),
        decreases n - k,
    {
        assert(decreases_to!(matcher => matcher.body@[k as int]));
        assert(matcher@.body[k as int] == matcher.body@[k as int]@);
        let ghost init = flat_body(matcher@.body, k as nat, base);
        let ghost mid = table@;
        let index: usize = get_flat_matchers(&matcher.body[k], table);
        proof {
            let sub = flat_matchers(matcher@.body[k as int], base + init.len());
            assert(table_view(table@) == table_view(mid) + sub);
            assert(table_view(table@).len() == table@.len());
            assert(table_view(mid).len() == mid.len());
            assert(flat_body(matcher@.body, (k + 1) as nat, base) == init + sub);
            assert(before + init + sub =~= before + (init + sub));
            assert(body@.push(index) =~= body_ids(matcher@.body, (k + 1) as nat, base));
        }
        body.push(index);
        k = k + 1;
    }
    let ghost mid = table@;
    let entry = FlatMatcher { matcher, body };
    table.push(entry);
    proof {
        assert(table_view(mid.push(entry)) =~= table_view(mid).push(entry@));
        assert(table_view(table@) =~= before + flat_matchers(matcher@, base));
    }
    table.len() - 1
}

/// `c` after the first `n` matchers of `table` were tried on it, one after
/// another: each that matches records its table index among the matches
/// of `c` and what it captured among the captures of `c`.
pub open spec fn tried(c: CategoryView, table: Seq<FlatView>, n: nat) -> CategoryView
    decreases n,
{
    if n == 0 || n > table.len() {
        c
    } else {
        let before = tried(c, table, (n - 1) as nat);
        match matched(table[n - 1].matcher, table[n - 1].body, before) {
            Some(captures) => CategoryView {
                matches: before.matches.push((n - 1) as usize),
                captures: before.captures.push(captures),
                ..before
            },
            None => before,
        }
    }
}

/// `c` after annotation: a fold is left as it is; in any other category
/// first the child categories are annotated, then every matcher of the
/// table is tried on the category itself.
pub open spec fn annotated(c: CategoryView, table: Seq<FlatView>) -> CategoryView
    decreases c, 1nat,
{
    if fold_of(c) is Some {
        c
    } else {
        tried(with_annotated_children(c, table), table, table.len())
    }
}

/// `c` with its child categories annotated.
pub open spec fn with_annotated_children(c: CategoryView, table: Seq<FlatView>) -> CategoryView
    decreases c, 0nat,
{
    CategoryView { children: annotated_blocks(c.children, table), ..c }
}

/// `b` after annotation: a category is annotated, any other block is left
/// as it is.
pub open spec fn annotated_block(b: BlockView, table: Seq<FlatView>) -> BlockView
    decreases b, 1nat,
{
    match b {
        BlockView::Category(c) => BlockView::Category(annotated(c, table)),
        _ => b,
    }
}

/// The blocks of `blocks` after annotation.
pub open spec fn annotated_blocks(blocks: Seq<BlockView>, table: Seq<FlatView>) -> Seq<BlockView>
    decreases blocks, 2nat,
{
    Seq::new(
        blocks.len(),
        |i: int|
            if 0 <= i < blocks.len() {
                annotated_block(blocks[i], table)
            } else {
                BlockView::Text(Seq::empty())
            },
    )
}

/// What the last matcher of the table captures of `c`, if it matches.
pub open spec fn last_match(c: CategoryView, table: Seq<FlatView>) -> Seq<Captures> {
    if table.len() > 0 {
        match matched(table.last().matcher, table.last().body, c) {
            Some(captures) => seq![captures],
            None => Seq::empty(),
        }
    } else {
        Seq::empty()
    }
}

/// The captures that annotation of `c` collects: those collected in its
/// child categories, in order, and then what the last matcher of the
/// table captures of `c` itself. A fold yields none.
pub open spec fn collected(c: CategoryView, table: Seq<FlatView>) -> Seq<Captures>
    decreases c, 1nat,
{
    if fold_of(c) is Some {
        Seq::empty()
    } else {
        collected_in(c.children, c.children.len(), table) + last_match(
            with_annotated_children(c, table),
            table,
        )
    }
}

/// The captures that annotation collects in the first `n` of `blocks`.
pub open spec fn collected_in(blocks: Seq<BlockView>, n: nat, table: Seq<FlatView>) -> Seq<
    Captures,
>
    decreases blocks, n,
{
    if n == 0 || n > blocks.len() {
        Seq::empty()
    } else {
        collected_in(blocks, (n - 1) as nat, table) + (match blocks[n - 1] {
            BlockView::Category(c) => collected(c, table),
            _ => Seq::empty(),
        })
    }
}

/// The values of a sequence of capture maps.
pub open spec fn capture_views(s: Seq<CaptureMap>) -> Seq<Captures> {
    s.map_values(|m: CaptureMap| m@)
}

/// Trying matchers on a category changes neither its name nor its
/// children, and so not what any matcher captures of it.
pub proof fn lemma_tried_keeps(c: CategoryView, table: Seq<FlatView>, n: nat)
    ensures
        tried(c, table, n).name == c.name,
        tried(c, table, n).children == c.children,
        tried(c, table, n).id == c.id,
        tried(c, table, n).level == c.level,
        forall|m: MatcherView, ids: Seq<usize>| #[trigger]
            matched(m, ids, tried(c, table, n)) == matched(m, ids, c),
    decreases n,
{
    if n == 0 || n > table.len() {
    } else {
        lemma_tried_keeps(c, table, (n - 1) as nat);
    }
}

/// Annotates `category` and the categories below it with the matchers of
/// the table that match them, from the leaves up, and returns the captures
/// that the last matcher of the table made on the way.
pub fn annotate(category: &mut CategoryBlock, matchers: &Vec<FlatMatcher>) -> (top: Vec<
    CaptureMap,
>)
    ensures
        final(category)@ == annotated(old(category)@, table_view(matchers@)),
        capture_views(top@) == collected(old(category)@, table_view(matchers@)),
    decreases *old(category),
{
    let ghost table = table_view(matchers@);
    let ghost start = *category;
    let mut top_level_matches: Vec<CaptureMap> = Vec::new();
    assert(capture_views(top_level_matches@) =~= Seq::<Captures>::empty());
    if Fold::parse(category).is_some() {
        return top_level_matches;
    }
    let n: usize = category.children.len();
    let mut i: usize = 0;
    while i < n
        invariant
            n == category.children@.len(),
            n == start.children@.len(),
            i <= n,
            start == *old(category),
            table == table_view(matchers@),
            category.id == start.id,
            category.name == start.name,
            category.level == start.level,
            category.matches == start.matches,
            category.captures == start.captures,
            forall|j: int| i <= j < n ==> category.children@[j] == start.children@[j],
            forall|j: int|
                0 <= j < i ==> (#[trigger] category.children@[j])@ == annotated_block(
                    start.children@[j]@,
                    table,
                ),
            capture_views(top_level_matches@) == collected_in(start@.children, i as nat, table),
        decreases n - i,
    {
        let ghost collected_before = capture_views(top_level_matches@);
        assert(start@.children[i as int] == start.children@[i as int]@);
        assert(start.children@[i as int] is Category ==> decreases_to!(start => start.children@[i as int]->Category_0));
        match &mut category.children[i] {
            Block::Category(child) => {
                let mut sub = annotate(child, matchers);
                let ghost sub_view = capture_views(sub@);
                let ghost was = top_level_matches@;
                top_level_matches.append(&mut sub);
                proof {
                    assert(capture_views(top_level_matches@) =~= collected_before + sub_view);
                }
            },
            _ => {
                assert(collected_before + Seq::<Captures>::empty() =~= collected_before);
            },
        }
        i = i + 1;
    }
    proof {
        assert(views(category.children@) =~= annotated_blocks(start@.children, table));
        assert(category@ == with_annotated_children(start@, table));
    }
    let ghost prepared = category@;
    let m: usize = matchers.len();
    let mut index: usize = 0;
    let ghost children_collected = capture_views(top_level_matches@);
    while index < m
        invariant
            m == matchers@.len(),
            m == table.len(),
            index <= m,
            table == table_view(matchers@),
            category@ == tried(prepared, table, index as nat),
            capture_views(top_level_matches@) == children_collected + (if index == m {
                last_match(prepared, table)
            } else {
                Seq::empty()
            }),
        decreases m - index,
    {
        proof {
            lemma_tried_keeps(prepared, table, index as nat);
            assert(table[index as int] == matchers@[index as int]@);
        }
        let ghost before = category@;
        let ghost top_before = capture_views(top_level_matches@);
        match matchers[index].matcher.do_match(category, &matchers[index].body) {
            Some(captures) => {
                let copy = captures.clone();
                let ghost old_captures = category.captures@;
                category.matches.push(index);
                category.captures.push(copy);
                proof {
                    assert(capture_views(old_captures.push(copy)) =~= capture_views(
                        old_captures,
                    ).push(captures@));
                }
                if index == m - 1 {
                    let ghost was = top_level_matches@;
                    top_level_matches.push(captures);
                    proof {
                        assert(capture_views(was.push(captures)) =~= top_before + seq![captures@]);
                    }
                }
            },
            None => {},
        }
        proof {
            assert(top_before + Seq::<Captures>::empty() =~= top_before);
        }
        index = index + 1;
    }
    proof {
        if m == 0 {
            assert(children_collected + Seq::<Captures>::empty() =~= children_collected);
        }
    }
    top_level_matches
}

/// The values of a sequence of folds.
pub open spec fn fold_views(s: Seq<Fold>) -> Seq<FoldView> {
    s.map_values(|f: Fold| f@)
}

/// The values of a sequence of strings.
pub open spec fn text_views(s: Seq<String>) -> Seq<Seq<char>> {
    s.map_values(|t: String| t@)
}

/// The folds that the categories among the first `n` of `blocks`
/// declare, in order.
pub open spec fn declared_folds(blocks: Seq<BlockView>, n: nat) -> Seq<FoldView>
    decreases n,
{
    if n == 0 || n > blocks.len() {
        Seq::empty()
    } else {
        let init = declared_folds(blocks, (n - 1) as nat);
        match blocks[n - 1] {
            BlockView::Category(c) => match fold_of(c) {
                Some(fold) => init.push(fold),
                None => init,
            },
            _ => init,
        }
    }
}

/// The matcher table of the first `n` folds: the entries of the `FROM`
/// matchers of each fold, fold after fold.
pub open spec fn fold_table(folds: Seq<FoldView>, n: nat) -> Seq<FlatView>
    decreases n,
{
    if n == 0 || n > folds.len() {
        Seq::empty()
    } else {
        let init = fold_table(folds, (n - 1) as nat);
        init + flat_body(folds[n - 1].from, folds[n - 1].from.len(), init.len())
    }
}

/// The texts that one matcher generates from the first `n` of `inputs`.
pub open spec fn texts_of_matcher(m: MatcherView, inputs: Seq<Captures>, n: nat) -> Seq<Seq<char>> {
    Seq::new(n, |k: int| generated(m.title, inputs[k]))
}

/// The texts that the first `n` of the matchers `into` generate from
/// `inputs`, matcher after matcher.
pub open spec fn texts_of_matchers(into: Seq<MatcherView>, inputs: Seq<Captures>, n: nat) -> Seq<
    Seq<char>,
>
    decreases n,
{
    if n == 0 || n > into.len() {
        Seq::empty()
    } else {
        texts_of_matchers(into, inputs, (n - 1) as nat) + texts_of_matcher(
            into[n - 1],
            inputs,
            inputs.len(),
        )
    }
}

/// The texts that the `INTO` matchers of the first `n` folds generate from
/// `inputs`, fold after fold.
pub open spec fn texts_of_folds(folds: Seq<FoldView>, inputs: Seq<Captures>, n: nat) -> Seq<
    Seq<char>,
>
    decreases n,
{
    if n == 0 || n > folds.len() {
        Seq::empty()
    } else {
        texts_of_folds(folds, inputs, (n - 1) as nat) + texts_of_matchers(
            folds[n - 1].into,
            inputs,
            folds[n - 1].into.len(),
        )
    }
}

/// A new top-level headline: without identifier, at level 1, without
/// children.
pub open spec fn fresh_category(name: Seq<char>) -> BlockView {
    BlockView::Category(
        CategoryView {
            id: None,
            name,
            level: 1,
            children: Seq::empty(),
            matches: Seq::empty(),
            captures: Seq::empty(),
        },
    )
}

/// One new headline for each of `names`.
pub open spec fn fresh_categories(names: Seq<Seq<char>>) -> Seq<BlockView> {
    Seq::new(names.len(), |k: int| fresh_category(names[k]))
}

/// Appends to `folds` the folds that the categories among `blocks`
/// declare.
fn collect_folds(blocks: &Vec<Block>, folds: &mut Vec<Fold>)
    ensures
        fold_views(final(folds)@) == fold_views(old(folds)@) + declared_folds(
            views(blocks@),
            blocks@.len(),
        ),
{
    let n: usize = blocks.len();
    let mut i: usize = 0;
    assert(fold_views(folds@) =~= fold_views(old(folds)@) + declared_folds(views(blocks@), 0));
    while i < n
        invariant
            n == blocks@.len(),
            i <= n,
            fold_views(folds@) == fold_views(old(folds)@) + declared_folds(
                views(blocks@),
                i as nat,
            ),
        decreases n - i,
    {
        assert(views(blocks@)[i as int] == blocks@[i as int]@);
        match &blocks[i] {
            Block::Category(category) => {
                if let Some(fold) = Fold::parse(category) {
                    let ghost was = folds@;
                    folds.push(fold);
                    proof {
                        assert(fold_views(was.push(fold)) =~= fold_views(was).push(fold@));
                        assert(fold_views(folds@) =~= fold_views(old(folds)@) + declared_folds(
                            views(blocks@),
                            (i + 1) as nat,
                        ));
                    }
                }
            },
            _ => {},
        }
        i = i + 1;
    }
}

/// The matcher table of `folds`.
fn build_table<'a>(folds: &'a Vec<Fold>) -> (table: Vec<FlatMatcher<'a>>)
    ensures
        table_view(table@) == fold_table(fold_views(folds@), folds@.len()),
{
    let mut table: Vec<FlatMatcher<'a>> = Vec::new();
    let n: usize = folds.len();
    let mut i: usize = 0;
    assert(table_view(table@) =~= fold_table(fold_views(folds@), 0));
    while i < n
        invariant
            n == folds@.len(),
            i <= n,
            table_view(table@) == fold_table(fold_views(folds@), i as nat),
        decreases n - i,
    {
        let fold = &folds[i];
        let ghost from = fold@.from;
        let ghost init = table_view(table@);
        let m: usize = fold.from.matchers.len();
        let mut j: usize = 0;
        assert(fold_views(folds@)[i as int] == fold@);
        assert(table_view(table@) =~= init + flat_body(from, 0, init.len()));
        assert(table_view(table@).len() == table@.len());
        while j < m
            invariant
                m == fold.from.matchers@.len(),
                m == from.len(),
                from == fold@.from,
                j <= m,
                table_view(table@) == init + flat_body(from, j as nat, init.len()),
                table@.len() == init.len() + flat_body(from, j as nat, init.len()).len(),
            decreases m - j,
        {
            let ghost part = flat_body(from, j as nat, init.len());
            let ghost mid = table@;
            assert(from[j as int] == fold.from.matchers@[j as int]@);
            get_flat_matchers(&fold.from.matchers[j], &mut table);
            proof {
                let sub = flat_matchers(from[j as int], init.len() + part.len());
                assert(table_view(table@).len() == table@.len());
                assert(flat_body(from, (j + 1) as nat, init.len()) == part + sub);
                assert(init + part + sub =~= init + (part + sub));
            }
            j = j + 1;
        }
        i = i + 1;
    }
    table
}

/// Annotates every category among `blocks` and returns the captures that
/// the last matcher of the table made on the way.
fn annotate_all(blocks: &mut Vec<Block>, matchers: &Vec<FlatMatcher>) -> (inputs: Vec<CaptureMap>)
    ensures
        views(final(blocks)@) == annotated_blocks(views(old(blocks)@), table_view(matchers@)),
        capture_views(inputs@) == collected_in(
            views(old(blocks)@),
            old(blocks)@.len(),
            table_view(matchers@),
        ),
{
    let ghost table = table_view(matchers@);
    let ghost start = blocks@;
    let mut into_input: Vec<CaptureMap> = Vec::new();
    let n: usize = blocks.len();
    let mut i: usize = 0;
    assert(capture_views(into_input@) =~= Seq::<Captures>::empty());
    while i < n
        invariant
            n == blocks@.len(),
            n == start.len(),
            i <= n,
            start == old(blocks)@,
            table == table_view(matchers@),
            forall|j: int| i <= j < n ==> blocks@[j] == start[j],
            forall|j: int|
                0 <= j < i ==> (#[trigger] blocks@[j])@ == annotated_block(start[j]@, table),
            capture_views(into_input@) == collected_in(views(start), i as nat, table),
        decreases n - i,
    {
        let ghost collected_before = capture_views(into_input@);
        assert(views(start)[i as int] == start[i as int]@);
        match &mut blocks[i] {
            Block::Category(category) => {
                let mut sub = annotate(category, matchers);
                let ghost sub_view = capture_views(sub@);
                into_input.append(&mut sub);
                proof {
                    assert(capture_views(into_input@) =~= collected_before + sub_view);
                }
            },
            _ => {
                assert(collected_before + Seq::<Captures>::empty() =~= collected_before);
            },
        }
        i = i + 1;
    }
    proof {
        assert(views(blocks@) =~= annotated_blocks(views(start), table));
    }
    into_input
}

/// Appends to `out` the texts that the `INTO` matchers of `folds`
/// generate from `inputs`.
fn generate_all(folds: &Vec<Fold>, inputs: &Vec<CaptureMap>, out: &mut Vec<String>)
    ensures
        text_views(final(out)@) == text_views(old(out)@) + texts_of_folds(
            fold_views(folds@),
            capture_views(inputs@),
            folds@.len(),
        ),
{
    let ghost before = text_views(out@);
    let ghost fs = fold_views(folds@);
    let ghost caps = capture_views(inputs@);
    let n: usize = folds.len();
    let mut i: usize = 0;
    assert(text_views(out@) =~= before + texts_of_folds(fs, caps, 0));
    while i < n
        invariant
            n == folds@.len(),
            i <= n,
            before == text_views(old(out)@),
            fs == fold_views(folds@),
            caps == capture_views(inputs@),
            text_views(out@) == before + texts_of_folds(fs, caps, i as nat),
        decreases n - i,
    {
        let fold = &folds[i];
        let ghost into = fold@.into;
        let ghost done_folds = texts_of_folds(fs, caps, i as nat);
        let m: usize = fold.into.matchers.len();
        let mut j: usize = 0;
        assert(fs[i as int] == fold@);
        assert(text_views(out@) =~= before + done_folds + texts_of_matchers(into, caps, 0));
        while j < m
            invariant
                m == fold.into.matchers@.len(),
                m == into.len(),
                into == fold@.into,
                j <= m,
                caps == capture_views(inputs@),
                text_views(out@) == before + done_folds + texts_of_matchers(into, caps, j as nat),
            decreases m - j,
        {
            let matcher = &fold.into.matchers[j];
            let ghost done_matchers = texts_of_matchers(into, caps, j as nat);
            let p: usize = inputs.len();
            let mut k: usize = 0;
            assert(into[j as int] == matcher@);
            assert(caps.len() == p);
            assert(text_views(out@) =~= before + done_folds + done_matchers + texts_of_matcher(
                matcher@,
                caps,
                0,
            ));
            while k < p
                invariant
                    p == inputs@.len(),
                    p == caps.len(),
                    k <= p,
                    caps == capture_views(inputs@),
                    text_views(out@) == before + done_folds + done_matchers + texts_of_matcher(
                        matcher@,
                        caps,
                        k as nat,
                    ),
                decreases p - k,
            {
                let text = matcher.generate_block_from_captures(&inputs[k]);
                let ghost was = out@;
                out.push(text);
                proof {
                    assert(caps[k as int] == inputs@[k as int]@);
                    assert(text_views(was.push(text)) =~= text_views(was).push(text@));
                    assert(texts_of_matcher(matcher@, caps, (k + 1) as nat) =~= texts_of_matcher(
                        matcher@,
                        caps,
                        k as nat,
                    ).push(text@));
                    assert(text_views(out@) =~= before + done_folds + done_matchers
                        + texts_of_matcher(matcher@, caps, (k + 1) as nat));
                }
                k = k + 1;
            }
            proof {
                assert(texts_of_matchers(into, caps, (j + 1) as nat) == done_matchers
                    + texts_of_matcher(matcher@, caps, p as nat));
                assert(text_views(out@) =~= before + done_folds + texts_of_matchers(
                    into,
                    caps,
                    (j + 1) as nat,
                ));
            }
            j = j + 1;
        }
        proof {
            assert(texts_of_folds(fs, caps, (i + 1) as nat) == done_folds + texts_of_matchers(
                into,
                caps,
                m as nat,
            ));
            assert(text_views(out@) =~= before + texts_of_folds(fs, caps, (i + 1) as nat));
        }
        i = i + 1;
    }
}

/// With an empty matcher table annotation changes nothing and collects
/// nothing.
pub proof fn lemma_annotation_with_empty_table(c: CategoryView)
    ensures
        annotated(c, Seq::empty()) == c,
        collected(c, Seq::empty()) == Seq::<Captures>::empty(),
    decreases c, 1nat,
{
    let table = Seq::<FlatView>::empty();
    if fold_of(c) is None {
        lemma_blocks_with_empty_table(c.children, c.children.len());
        assert(annotated_blocks(c.children, table) =~= c.children);
    }
}

/// With an empty matcher table annotation changes none of `blocks` and
/// collects nothing in the first `n` of them.
pub proof fn lemma_blocks_with_empty_table(blocks: Seq<BlockView>, n: nat)
    requires
        n <= blocks.len(),
    ensures
        forall|i: int| 0 <= i < n ==> annotated_block(#[trigger] blocks[i], Seq::empty()) == blocks[i],
        collected_in(blocks, n, Seq::empty()) == Seq::<Captures>::empty(),
    decreases blocks, n,
{
    if n > 0 {
        lemma_blocks_with_empty_table(blocks, (n - 1) as nat);
        match blocks[n - 1] {
            BlockView::Category(c) => {
                lemma_annotation_with_empty_table(c);
            },
            _ => {},
        }
    }
}

/// Fold expansion changes nothing where there is no fold: if no fold is
/// handed in and no top-level category of the document declares one, the
/// matcher table is empty, no block is annotated and no text is
/// generated.
pub proof fn lemma_expansion_without_folds(parsed: Seq<BlockView>)
    requires
        declared_folds(parsed, parsed.len()).len() == 0,
    ensures
        ({
            let all_folds = Seq::<FoldView>::empty() + declared_folds(parsed, parsed.len());
            let table = fold_table(all_folds, all_folds.len());
            let inputs = collected_in(parsed, parsed.len(), table);
            &&& table == Seq::<FlatView>::empty()
            &&& annotated_blocks(parsed, table) == parsed
            &&& texts_of_folds(all_folds, inputs, all_folds.len()) == Seq::<Seq<char>>::empty()
        }),
{
    let all_folds = Seq::<FoldView>::empty() + declared_folds(parsed, parsed.len());
    assert(all_folds.len() == 0);
    lemma_blocks_with_empty_table(parsed, parsed.len());
    assert(annotated_blocks(parsed, Seq::empty()) =~= parsed);
}

/// What fold expansion makes of the parsed document `parsed`, of the
/// folds that were handed in and of the texts that were generated before:
/// all folds, all generated texts and the expanded document.
pub open spec fn expansion(
    parsed: Seq<BlockView>,
    folds: Seq<FoldView>,
    texts: Seq<Seq<char>>,
) -> (Seq<FoldView>, Seq<Seq<char>>, Seq<BlockView>) {
    let all_folds = folds + declared_folds(parsed, parsed.len());
    let table = fold_table(all_folds, all_folds.len());
    let inputs = collected_in(parsed, parsed.len(), table);
    let all_texts = texts + texts_of_folds(all_folds, inputs, all_folds.len());
    (all_folds, all_texts, annotated_blocks(parsed, table) + fresh_categories(all_texts))
}

/// Parses the document and expands its folds.
///
/// The folds that top-level categories declare are appended to `folds`.
/// The `FROM` matchers of all of `folds` are matched against every
/// category of the document that is not itself a fold, from the leaves
/// up, and the matches are recorded on the categories. For each capture
/// of the last matcher of the table and each `INTO` matcher, the generated
/// text is appended to `generated_captures`. The result is the annotated
/// document followed by one new headline for each text in
/// `generated_captures`.
pub fn expand_folds(
    parser: &Parser,
    folds: &mut Vec<Fold>,
    generated_captures: &mut Vec<String>,
) -> (blocks: Vec<Block>)
    ensures
        (fold_views(final(folds)@), text_views(final(generated_captures)@), views(blocks@))
            == expansion(
            parse_document(parser.document()),
            fold_views(old(folds)@),
            text_views(old(generated_captures)@),
        ),
        old(folds)@.len() == 0 && old(generated_captures)@.len() == 0 && declared_folds(
            parse_document(parser.document()),
            parse_document(parser.document()).len(),
        ).len() == 0 ==> views(blocks@) == parse_document(parser.document()),
{
    proof {
        let parsed = parse_document(parser.document());
        if old(folds)@.len() == 0 && old(generated_captures)@.len() == 0 && declared_folds(
            parsed,
            parsed.len(),
        ).len() == 0 {
            lemma_expansion_without_folds(parsed);
            assert(fold_views(old(folds)@) =~= Seq::<FoldView>::empty());
            assert(text_views(old(generated_captures)@) =~= Seq::<Seq<char>>::empty());
            assert(text_views(old(generated_captures)@) + Seq::<Seq<char>>::empty()
                =~= Seq::<Seq<char>>::empty());
            assert(parsed + fresh_categories(Seq::<Seq<char>>::empty()) =~= parsed);
        }
    }
    let mut blocks = parser.parse();
    let ghost parsed = views(blocks@);
    collect_folds(&blocks, folds);
    assert(fold_views(folds@).len() == folds@.len());
    let matchers = build_table(folds);
    let into_input = annotate_all(&mut blocks, &matchers);
    generate_all(folds, &into_input, generated_captures);
    let ghost annotated = views(blocks@);
    let ghost texts = text_views(generated_captures@);
    let n: usize = generated_captures.len();
    let mut i: usize = 0;
    assert(views(blocks@) =~= annotated + fresh_categories(texts.take(0)));
    while i < n
        invariant
            n == generated_captures@.len(),
            i <= n,
            texts == text_views(generated_captures@),
            views(blocks@) == annotated + fresh_categories(texts.take(i as int)),
        decreases n - i,
    {
        let block = Block::Category(
            CategoryBlock {
                id: None,
                name: generated_captures[i].clone(),
                level: 1,
                children: Vec::new(),
                matches: Vec::new(),
                captures: Vec::new(),
            },
        );
        proof {
            assert(texts[i as int] == generated_captures@[i as int]@);
            assert(views(Seq::<Block>::empty()) =~= Seq::<BlockView>::empty());
            assert(capture_views(Seq::<CaptureMap>::empty()) =~= Seq::<Captures>::empty());
            assert(block@ == fresh_category(texts[i as int]));
            crate::air::block::lemma_views_push(blocks@, block);
            assert(fresh_categories(texts.take(i + 1)) =~= fresh_categories(
                texts.take(i as int),
            ).push(fresh_category(texts[i as int])));
            assert(annotated + fresh_categories(texts.take(i as int)).push(
                fresh_category(texts[i as int]),
            ) =~= (annotated + fresh_categories(texts.take(i as int))).push(
                fresh_category(texts[i as int]),
            ));
        }
        blocks.push(block);
        i = i + 1;
    }
    assert(texts.take(n as int) =~= texts);
    blocks
}

} // verus!
