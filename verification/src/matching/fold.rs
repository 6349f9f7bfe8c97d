//! Folds: rewrite rules that a document declares. A fold is a category
//! named `FOLD` whose first child, named `FROM`, holds the shapes to look
//! for and whose second child, named `INTO`, holds the shapes to generate.

use super::captures::{CaptureMap, Captures};
use super::value_matcher::{captured, components_from, generated, ComponentView, ValueMatcher};
use crate::air::block::{views, Block, BlockView, CategoryBlock, CategoryView};
use crate::parsing::lexer::{lex_tokens, Tokenizer};
use crate::text::{find_chars, leftmost_occurrence, to_chars};
use vstd::prelude::*;

verus! {

/// The shape of a category: a pattern for its name and, for each category
/// that it must have as a child, the shape of that child.
#[derive(Debug)]
pub struct CategoryMatcher {
    pub title: ValueMatcher,
    pub body: Vec<CategoryMatcher>,
}

/// The mathematical value of a [`CategoryMatcher`].
pub struct MatcherView {
    pub title: Seq<ComponentView>,
    pub body: Seq<MatcherView>,
}

/// The value of `m`.
pub open spec fn matcher_view(m: CategoryMatcher) -> MatcherView
    decreases m,
{
    MatcherView { title: m.title@, body: matcher_views(m.body@) }
}

/// The values of the matchers of `s`, in order.
pub open spec fn matcher_views(s: Seq<CategoryMatcher>) -> Seq<MatcherView>
    decreases s,
{
    Seq::new(
        s.len(),
        |i: int|
            if 0 <= i < s.len() {
                matcher_view(s[i])
            } else {
                MatcherView { title: Seq::empty(), body: Seq::empty() }
            },
    )
}

impl View for CategoryMatcher {
    type V = MatcherView;

    open spec fn view(&self) -> MatcherView {
        matcher_view(*self)
    }
}

/// The pattern written in a category's name.
pub open spec fn pattern_of(name: Seq<char>) -> Seq<ComponentView> {
    components_from(name, lex_tokens(name), 0)
}

/// The matcher that a category declares: the pattern in its name, and one
/// matcher for each category among its children.
pub open spec fn matcher_of(c: CategoryView) -> MatcherView
    decreases c, 0nat,
{
    MatcherView { title: pattern_of(c.name), body: matchers_of(c.children, c.children.len()) }
}

/// The matchers that the categories among the first `n` of `children`
/// declare, in order; other kinds of block declare none.
pub open spec fn matchers_of(children: Seq<BlockView>, n: nat) -> Seq<MatcherView>
    decreases children, n,
{
    if n == 0 || n > children.len() {
        Seq::empty()
    } else {
        let init = matchers_of(children, (n - 1) as nat);
        match children[n - 1] {
            BlockView::Category(c) => init.push(matcher_of(c)),
            _ => init,
        }
    }
}

/// `b` is a category whose recorded matches include `id`.
pub open spec fn carries(b: BlockView, id: usize) -> bool {
    match b {
        BlockView::Category(c) => c.matches.contains(id),
        _ => false,
    }
}

/// Some child of `c` is a category whose recorded matches include `id`.
pub open spec fn child_carries(c: CategoryView, id: usize) -> bool {
    exists|j: int| 0 <= j < c.children.len() && carries(#[trigger] c.children[j], id)
}

/// Every one of `body_len` nested matchers, recorded under the table
/// indices `ids`, has matched some child category of `c`; and `c` has at
/// least as many children as there are nested matchers.
pub open spec fn body_matched(body_len: nat, ids: Seq<usize>, c: CategoryView) -> bool {
    body_len > 0 ==> {
        &&& c.children.len() >= body_len
        &&& ids.len() >= body_len
        &&& forall|k: int| 0 <= k < body_len ==> child_carries(c, #[trigger] ids[k])
    }
}

/// What matching `m` against `c` captures, if it matches: the title must
/// capture against the name of `c`, and every nested matcher must have
/// matched a child category of `c` before, as the children's recorded
/// matches show. `ids` holds, for each nested matcher, the table index
/// under which its matches are recorded.
pub open spec fn matched(m: MatcherView, ids: Seq<usize>, c: CategoryView) -> Option<Captures> {
    match captured(m.title, c.name) {
        Some(captures) if body_matched(m.body.len(), ids, c) => Some(captures),
        _ => None,
    }
}

proof fn lemma_matcher_views_push(s: Seq<CategoryMatcher>, m: CategoryMatcher)
    ensures
        matcher_views(s.push(m)) == matcher_views(s).push(m@),
{
    assert(matcher_views(s.push(m)) =~= matcher_views(s).push(m@));
}

/// Whether `id` is among `matches`.
fn holds_match(matches: &Vec<usize>, id: usize) -> (b: bool)
    ensures
        b == matches@.contains(id),
{
    let n: usize = matches.len();
    let mut i: usize = 0;
    while i < n
        invariant
            n == matches@.len(),
            i <= n,
            forall|j: int| 0 <= j < i ==> matches@[j] != id,
        decreases n - i,
    {
        if matches[i] == id {
            return true;
        }
        i = i + 1;
    }
    false
}

/// Whether some child of `category` is a category whose recorded matches
/// include `id`.
fn child_holds_match(category: &CategoryBlock, id: usize) -> (b: bool)
    ensures
        b == child_carries(category@, id),
{
    let n: usize = category.children.len();
    let mut j: usize = 0;
    while j < n
        invariant
            n == category.children@.len(),
            j <= n,
            forall|i: int| 0 <= i < j ==> !carries(#[trigger] category@.children[i], id),
        decreases n - j,
    {
        assert(category@.children[j as int] == category.children@[j as int]@);
        match &category.children[j] {
            Block::Category(child_category) => {
                if holds_match(&child_category.matches, id) {
                    return true;
                }
            },
            _ => {},
        }
        j = j + 1;
    }
    false
}

impl CategoryMatcher {
    /// The matcher that `category` declares.
    pub fn parse(category: &CategoryBlock) -> (m: CategoryMatcher)
        ensures
            m@ == matcher_of(category@),
        decreases category,
    {
        let source = category.name.as_str();
        let mut tokenizer = Tokenizer::new(source);
        let tokens = tokenizer.get_tokens();
        let title_value_matcher = ValueMatcher::parse(source, &tokens);
        let child_category_matchers = Self::parse_children(&category.children);
        CategoryMatcher { title: title_value_matcher, body: child_category_matchers }
    }

    /// The matchers that the categories among `children` declare.
    pub fn parse_children(children: &Vec<Block>) -> (matchers: Vec<CategoryMatcher>)
        ensures
            matcher_views(matchers@) == matchers_of(views(children@), children@.len()),
        decreases children,
    {
        let mut matchers: Vec<CategoryMatcher> = Vec::new();
        let n: usize = children.len();
        let mut i: usize = 0;
        assert(matcher_views(matchers@) =~= Seq::<MatcherView>::empty());
        while i < n
            invariant
                n == children@.len(),
                i <= n,
                matcher_views(matchers@) == matchers_of(views(children@), i as nat),
            decreases n - i,
        {
            match &children[i] {
                Block::Category(child_cat) => {
                    assert(decreases_to!(children => children@[i as int]->Category_0));
                    let matcher = Self::parse(child_cat);
                    proof {
                        lemma_matcher_views_push(matchers@, matcher);
                    }
                    matchers.push(matcher);
                },
                _ => {},
            }
            i = i + 1;
        }
        matchers
    }

    /// Matches this matcher against `category`. `body` holds, for each
    /// nested matcher, the table index under which its matches are
    /// recorded on the categories that it matched.
    pub fn do_match(&self, category: &CategoryBlock, body: &Vec<usize>) -> (r: Option<CaptureMap>)
        ensures
            match r {
                Some(captures) => matched(self@, body@, category@) == Some(captures@),
                None => matched(self@, body@, category@) is None,
            },
    {
        let captures = match self.title.capture(category.name.as_str()) {
            None => {
                return None;
            },
            Some(captures) => captures,
        };
        let n: usize = self.body.len();
        let mut k: usize = 0;
        while k < n
            invariant
                n == self.body@.len(),
                n == self@.body.len(),
                k <= n,
                k > 0 ==> category@.children.len() >= n && body@.len() >= n,
                forall|i: int| 0 <= i < k ==> child_carries(category@, #[trigger] body@[i]),
            decreases n - k,
        {
            if category.children.len() < n || body.len() < n {
                return None;
            }
            if !child_holds_match(category, body[k]) {
                return None;
            }
            k = k + 1;
        }
        Some(captures)
    }

    /// The text that this matcher's title generates from `captures`.
    pub fn generate_block_from_captures(&self, captures: &CaptureMap) -> (out: String)
        ensures
            out@ == generated(self@.title, captures@),
    {
        self.title.generate(captures)
    }
}

/// The marker in the name of a fold.
pub open spec fn fold_marker() -> Seq<char> {
    seq!['F', 'O', 'L', 'D']
}

/// The marker in the name of a fold's first child.
pub open spec fn from_marker() -> Seq<char> {
    seq!['F', 'R', 'O', 'M']
}

/// The marker in the name of a fold's second child.
pub open spec fn into_marker() -> Seq<char> {
    seq!['I', 'N', 'T', 'O']
}

/// `marker` occurs somewhere in `name`.
pub open spec fn name_contains(name: Seq<char>, marker: Seq<char>) -> bool {
    leftmost_occurrence(name, marker) is Some
}

/// Whether `marker` occurs in `name`.
fn contains(name: &String, marker: &str) -> (b: bool)
    ensures
        b == name_contains(name@, marker@),
{
    let name_chars = to_chars(name.as_str());
    let marker_chars = to_chars(marker);
    find_chars(&name_chars, &marker_chars).is_some()
}

/// The shapes that a fold looks for.
#[derive(Debug)]
pub struct FoldFrom {
    pub matchers: Vec<CategoryMatcher>,
}

impl FoldFrom {
    /// The matchers under `category`, if its name marks it as the `FROM`
    /// branch of a fold.
    pub fn parse(category: &CategoryBlock) -> (r: Option<Self>)
        ensures
            match r {
                Some(from) => name_contains(category@.name, from_marker()) && matcher_views(
                    from.matchers@,
                ) == matchers_of(category@.children, category@.children.len()),
                None => !name_contains(category@.name, from_marker()),
            },
    {
        proof {
            reveal_strlit("FROM");
            assert("FROM"@ =~= from_marker());
        }
        if contains(&category.name, "FROM") {
            let matchers = CategoryMatcher::parse_children(&category.children);
            return Some(Self { matchers });
        }
        None
    }
}

/// The shapes that a fold generates.
#[derive(Debug)]
pub struct FoldInto {
    pub matchers: Vec<CategoryMatcher>,
}

impl FoldInto {
    /// The matchers under `category`, if its name marks it as the `INTO`
    /// branch of a fold.
    pub fn parse(category: &CategoryBlock) -> (r: Option<Self>)
        ensures
            match r {
                Some(into) => name_contains(category@.name, into_marker()) && matcher_views(
                    into.matchers@,
                ) == matchers_of(category@.children, category@.children.len()),
                None => !name_contains(category@.name, into_marker()),
            },
    {
        proof {
            reveal_strlit("INTO");
            assert("INTO"@ =~= into_marker());
        }
        if contains(&category.name, "INTO") {
            let matchers = CategoryMatcher::parse_children(&category.children);
            return Some(Self { matchers });
        }
        None
    }
}

/// A rewrite rule: what to look for and what to generate.
#[derive(Debug)]
pub struct Fold {
    pub from: FoldFrom,
    pub into: FoldInto,
}

/// The mathematical value of a [`Fold`].
pub struct FoldView {
    pub from: Seq<MatcherView>,
    pub into: Seq<MatcherView>,
}

impl View for Fold {
    type V = FoldView;

    open spec fn view(&self) -> FoldView {
        FoldView {
            from: matcher_views(self.from.matchers@),
            into: matcher_views(self.into.matchers@),
        }
    }
}

/// The fold that `c` declares, if it declares one: its name holds `FOLD`,
/// it has at least two children, and its first two children are
/// categories whose names hold `FROM` and `INTO`. Each category under
/// `FROM` and under `INTO` declares one matcher of that branch.
pub open spec fn fold_of(c: CategoryView) -> Option<FoldView> {
    if name_contains(c.name, fold_marker()) && c.children.len() >= 2 {
        match (c.children[0], c.children[1]) {
            (BlockView::Category(first), BlockView::Category(second)) => {
                if name_contains(first.name, from_marker()) && name_contains(
                    second.name,
                    into_marker(),
                ) {
                    Some(
                        FoldView {
                            from: matchers_of(first.children, first.children.len()),
                            into: matchers_of(second.children, second.children.len()),
                        },
                    )
                } else {
                    None
                }
            },
            _ => None,
        }
    } else {
        None
    }
}

impl Fold {
    /// The fold that `category` declares, or `None` where it declares
    /// none, be it that it is no fold or that it is a malformed one.
    pub fn parse(category: &CategoryBlock) -> (r: Option<Self>)
        ensures
            match r {
                Some(fold) => fold_of(category@) == Some(fold@),
                None => fold_of(category@) is None,
            },
    {
        proof {
            reveal_strlit("FOLD");
            assert("FOLD"@ =~= fold_marker());
        }
        if contains(&category.name, "FOLD") {
            if category.children.len() < 2 {
                return None;
            }
            if let Block::Category(child_cat) = &category.children[0] {
                if let Block::Category(child_cat_2) = &category.children[1] {
                    let from_component = match FoldFrom::parse(child_cat) {
                        Some(from) => from,
                        None => {
                            return None;
                        },
                    };
                    let into_component = match FoldInto::parse(child_cat_2) {
                        Some(into) => into,
                        None => {
                            return None;
                        },
                    };
                    return Some(Self { from: from_component, into: into_component });
                }
            } else {
                return None;
            }
        }
        None
    }
}

} // verus!
