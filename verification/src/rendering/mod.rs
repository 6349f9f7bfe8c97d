//! Rendering: the block tree back to outline markup.

pub mod round_trip;

use crate::air::block::{views, Block, BlockView, CategoryView};
use crate::text::to_chars;
use vstd::prelude::*;

verus! {

/// `n` marker characters.
pub open spec fn stars(n: nat) -> Seq<char> {
    Seq::new(n, |i: int| '*')
}

/// The headline of a category: its markers, one space and its name. A
/// category at level 0 is the document itself and has no headline.
pub open spec fn heading(c: CategoryView) -> Seq<char> {
    if c.level > 0 {
        stars(c.level) + seq![' '] + c.name
    } else {
        Seq::empty()
    }
}

/// The markup of a block: for a category its headline and then its
/// children, for rich text its children, for text its content.
pub open spec fn render_block(b: BlockView) -> Seq<char>
    decreases b, 0nat,
{
    match b {
        BlockView::Category(c) => heading(c) + render_prefix(c.children, c.children.len()),
        BlockView::RichText(children) => render_prefix(children, children.len()),
        BlockView::Text(content) => content,
    }
}

/// The markup of the first `n` blocks of `s`, one after another.
pub open spec fn render_prefix(s: Seq<BlockView>, n: nat) -> Seq<char>
    decreases s, n,
{
    if n == 0 || n > s.len() {
        Seq::empty()
    } else {
        render_prefix(s, (n - 1) as nat) + render_block(s[n - 1])
    }
}

/// The markup of the blocks of `s`, one after another.
pub open spec fn render_all(s: Seq<BlockView>) -> Seq<char> {
    render_prefix(s, s.len())
}

/// The markup of the first `n` blocks depends on those blocks alone.
pub proof fn lemma_render_prefix_of_prefix(s: Seq<BlockView>, t: Seq<BlockView>, n: nat)
    requires
        n <= s.len(),
        n <= t.len(),
        forall|i: int| 0 <= i < n ==> s[i] == t[i],
    ensures
        render_prefix(s, n) == render_prefix(t, n),
    decreases n,
{
    if n > 0 {
        lemma_render_prefix_of_prefix(s, t, (n - 1) as nat);
    }
}

/// The markup of two sequences of blocks, one after the other, is the
/// markup of the first followed by the markup of the second.
pub proof fn lemma_render_all_concat(a: Seq<BlockView>, b: Seq<BlockView>)
    ensures
        render_all(a + b) == render_all(a) + render_all(b),
    decreases b.len(),
{
    if b.len() == 0 {
        assert(a + b =~= a);
        assert(render_all(a) + render_all(b) =~= render_all(a));
    } else {
        let init = b.drop_last();
        lemma_render_all_concat(a, init);
        lemma_render_prefix_of_prefix(a + b, a + init, (a.len() + init.len()) as nat);
        lemma_render_prefix_of_prefix(b, init, init.len());
        assert((a + b)[a.len() + b.len() - 1] == b[b.len() - 1]);
        assert(render_all(a + b) == render_prefix(a + b, (a.len() + init.len()) as nat)
            + render_block(b[b.len() - 1]));
        assert(render_all(b) == render_prefix(b, init.len()) + render_block(b[b.len() - 1]));
        assert(render_all(a + b) =~= render_all(a) + render_all(b));
    }
}

/// The markup of a single block as a sequence of one.
pub proof fn lemma_render_all_single(b: BlockView)
    ensures
        render_all(seq![b]) == render_block(b),
{
    let s = seq![b];
    assert(render_prefix(s, 0) =~= Seq::<char>::empty());
    assert(render_prefix(s, 1) == render_prefix(s, 0) + render_block(s[0]));
    assert(render_all(s) =~= render_block(b));
}

/// Appends the characters of `text` to `out`.
fn push_text(out: &mut String, text: &str)
    ensures
        final(out)@ == old(out)@ + text@,
{
    let chars = to_chars(text);
    let n: usize = chars.len();
    let mut i: usize = 0;
    while i < n
        invariant
            n == chars@.len(),
            i <= n,
            out@ == old(out)@ + chars@.take(i as int),
        decreases n - i,
    {
        out.push(chars[i]);
        proof {
            assert(chars@.take(i + 1) =~= chars@.take(i as int).push(chars@[i as int]));
            assert(out@ =~= old(out)@ + chars@.take(i + 1));
        }
        i = i + 1;
    }
    assert(chars@.take(n as int) =~= chars@);
}

/// Appends the markup of `block` to `out`.
fn render_into(block: &Block, out: &mut String)
    ensures
        final(out)@ == old(out)@ + render_block(block@),
    decreases block,
{
    match block {
        Block::Category(category_block) => {
            if category_block.level > 0 {
                let mut k: usize = 0;
                while k < category_block.level
                    invariant
                        k <= category_block.level,
                        out@ == old(out)@ + stars(k as nat),
                    decreases category_block.level - k,
                {
                    out.push('*');
                    proof {
                        assert(out@ =~= old(out)@ + stars((k + 1) as nat));
                    }
                    k = k + 1;
                }
                out.push(' ');
                push_text(out, category_block.name.as_str());
            }
            assert(out@ =~= old(out)@ + heading(category_block@));
            let n: usize = category_block.children.len();
            let mut i: usize = 0;
            while i < n
                invariant
                    n == category_block.children@.len(),
                    i <= n,
                    block == Block::Category(*category_block),
                    out@ == old(out)@ + heading(category_block@) + render_prefix(
                        views(category_block.children@),
                        i as nat,
                    ),
                decreases n - i,
            {
                assert(decreases_to!(*block => block->Category_0.children@[i as int]));
                render_into(&category_block.children[i], out);
                proof {
                    assert(out@ =~= old(out)@ + heading(category_block@) + render_prefix(
                        views(category_block.children@),
                        (i + 1) as nat,
                    ));
                }
                i = i + 1;
            }
            assert(out@ =~= old(out)@ + render_block(block@));
        },
        Block::RichText(rich_text_block) => {
            let n: usize = rich_text_block.children.len();
            let mut i: usize = 0;
            assert(out@ =~= old(out)@ + render_prefix(views(rich_text_block.children@), 0));
            while i < n
                invariant
                    n == rich_text_block.children@.len(),
                    i <= n,
                    block == Block::RichText(*rich_text_block),
                    out@ == old(out)@ + render_prefix(views(rich_text_block.children@), i as nat),
                decreases n - i,
            {
                assert(decreases_to!(*block => block->RichText_0.children@[i as int]));
                render_into(&rich_text_block.children[i], out);
                proof {
                    assert(out@ =~= old(out)@ + render_prefix(
                        views(rich_text_block.children@),
                        (i + 1) as nat,
                    ));
                }
                i = i + 1;
            }
        },
        Block::Text(text_block) => {
            push_text(out, text_block.content.as_str());
        },
    }
}

/// The outline markup of `block`.
pub fn render_to_org(block: Block) -> (out: String)
    ensures
        out@ == render_block(block@),
{
    let mut out = String::new();
    render_into(&block, &mut out);
    assert(out@ =~= render_block(block@));
    out
}

} // verus!
